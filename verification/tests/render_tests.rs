use brunch::error::BenchError;
use brunch::render::format_name;
use brunch::render::no_change;
use brunch::render::normalize_name;
use brunch::render::width;
use brunch::render::BenchResult;
use brunch::render::Table;
use brunch::render::TableRow;

#[test]
fn t_width_plain() {
    assert_eq!(width("abc"), 3);
    assert_eq!(width(""), 0);
    assert_eq!(width("a_b c"), 5);
}

#[test]
fn t_width_ansi_skipped() {
    assert_eq!(width("\x1b[1;95mMethod"), 6);
    assert_eq!(width("\x1b[2m---\x1b[0m"), 3);
    assert_eq!(width(no_change()), 3);
}

#[test]
fn t_width_wide_chars() {
    // CJK characters occupy two columns; combining control chars none.
    assert_eq!(width("\u{65e5}\u{672c}"), 4);
    assert_eq!(width("a\u{65e5}b"), 4);
}

#[test]
fn t_format_name_split() {
    let name: Vec<char> = "foo::bar".chars().collect();
    let names: Vec<Vec<char>> = vec![
        "foo::bar".chars().collect(),
        "foo::baz".chars().collect(),
    ];
    let styled = format_name(name, &names);
    assert_eq!(styled, "\x1b[34mfoo\x1b[94m::bar\x1b[0m");
}

#[test]
fn t_format_name_alone() {
    // With nothing to compare against, the whole name is highlighted.
    let name: Vec<char> = "solo".chars().collect();
    let names: Vec<Vec<char>> = vec!["solo".chars().collect()];
    let styled = format_name(name, &names);
    assert_eq!(styled, "\x1b[94msolo\x1b[0m");
}

#[test]
fn t_format_name_full_prefix() {
    // A name that is a prefix of another is dimmed entirely.
    let name: Vec<char> = "foo".chars().collect();
    let names: Vec<Vec<char>> = vec!["foo".chars().collect(), "foobar".chars().collect()];
    let styled = format_name(name, &names);
    assert_eq!(styled, "\x1b[34mfoo\x1b[0m");
}

#[test]
fn t_normalize_name() {
    let n: Vec<char> = "  foo   bar ".chars().collect();
    let out: String = normalize_name(n).into_iter().collect();
    assert_eq!(out, "foo bar");

    let n: Vec<char> = "tidy".chars().collect();
    let out: String = normalize_name(n).into_iter().collect();
    assert_eq!(out, "tidy");

    let n: Vec<char> = "a\tb\nc".chars().collect();
    let out: String = normalize_name(n).into_iter().collect();
    assert_eq!(out, "a b c");
}

#[test]
fn t_table_lens() {
    let mut t = Table::default();
    // Header: Method (6), Mean (4), Samples (7), Change (6).
    assert_eq!(t.lens(), (6, 4, 7, 6));
    t.push(TableRow::Normal(
        "a_very_long_benchmark_name".to_owned(),
        "1.23 ms".to_owned(),
        "2,500/2,500".to_owned(),
        no_change().to_owned(),
    ));
    assert_eq!(t.lens(), (26, 7, 11, 6));
}

#[test]
fn t_table_show_changes() {
    let mut t = Table::default();
    assert!(!t.show_changes());
    t.push(TableRow::Normal(
        "a".to_owned(),
        "1 ns".to_owned(),
        "5/5".to_owned(),
        no_change().to_owned(),
    ));
    assert!(!t.show_changes());
    t.push(TableRow::Spacer);
    t.push(TableRow::Error("b".to_owned(), BenchError::TooSlow));
    assert!(!t.show_changes());
    t.push(TableRow::Normal(
        "c".to_owned(),
        "1 ns".to_owned(),
        "5/5".to_owned(),
        "+1.02%".to_owned(),
    ));
    assert!(t.show_changes());
}

#[test]
fn t_result_lens() {
    let r = BenchResult {
        caller: "abc".to_owned(),
        time: "12 ns".to_owned(),
        diff: "---".to_owned(),
        error: None,
    };
    assert_eq!(r.lens(), (3, 5, 3));

    let r = BenchResult {
        caller: "abcd".to_owned(),
        time: "12 ns".to_owned(),
        diff: "---".to_owned(),
        error: Some(BenchError::TooFast),
    };
    assert_eq!(r.lens(), (4, 0, 0));
}
