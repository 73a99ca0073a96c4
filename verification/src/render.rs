//! Report-side text logic: printable widths with ANSI escapes skipped,
//! benchmark-name normalization and highlighting, and the row and
//! table shapes the renderer sizes its columns from.

use vstd::prelude::*;
use vstd::utf8::encode_utf8;
use crate::error::BenchError;

verus! {

// ---------------------------------------------------------------------------
// Printable width
// ---------------------------------------------------------------------------

/// The number of terminal columns a character occupies, or nothing for
/// a control character. The value lives in the Unicode width tables.
pub uninterp spec fn display_width_of(c: char) -> Option<usize>;

/// Relies on unicode_width::UnicodeWidthChar::width: the displayed
/// width of a character in columns (treating ambiguous characters as
/// narrow), `None` for control characters, at most 3 columns (the
/// lookup tables store two-bit widths, and the widest special case is
/// 3).
#[verifier::external_body]
fn char_display_width(c: char) -> (r: Option<usize>)
    ensures
        r == display_width_of(c),
        r matches Some(w) ==> w <= 3,
{
    unicode_width::UnicodeWidthChar::width(c)
}

/// Relies on str::chars: the characters of a string, in order; they are
/// exactly the string's view.
#[verifier::external_body]
fn chars_of(s: &str) -> (r: Vec<char>)
    ensures
        r@ == s@,
{
    s.chars().collect()
}

/// Relies on String's FromIterator<char>: collecting characters yields
/// the string with exactly those characters.
#[verifier::external_body]
fn string_from_chars(v: Vec<char>) -> (r: String)
    ensures
        r@ == v@,
{
    v.into_iter().collect()
}

/// One step of the width scan: ANSI escape sequences occupy no columns,
/// everything else adds its display width.
pub open spec fn width_step(w: int, in_ansi: bool, c: char) -> (int, bool) {
    if in_ansi {
        (w, !(c == 'm' || c == 'A' || c == 'K'))
    } else if c == '\x1b' {
        (w, true)
    } else {
        match display_width_of(c) {
            Some(w2) => (w + w2, false),
            None => (w, false),
        }
    }
}

/// The width scan over a whole character sequence, starting outside any
/// escape sequence.
pub open spec fn width_fold(s: Seq<char>) -> (int, bool)
    decreases s.len(),
{
    if s.len() == 0 {
        (0, false)
    } else {
        let p = width_fold(s.drop_last());
        width_step(p.0, p.1, s.last())
    }
}

/// The printable width of a character sequence: its columns, with ANSI
/// escape sequences counted as nothing.
pub open spec fn width_of(s: Seq<char>) -> int {
    width_fold(s).0
}

/// The printable width of a string: each character's display width,
/// with ANSI escape sequences skipped.
pub fn width(src: &str) -> (r: usize)
    requires
        src@.len() <= 0x1FFF_FFFF,
    ensures
        r == width_of(src@),
{
    let cs = chars_of(src);
    let n = cs.len();
    let mut w: usize = 0;
    let mut in_ansi: bool = false;
    let mut i: usize = 0;
    while i < n
        invariant
            cs@ == src@,
            n == cs@.len() <= 0x1FFF_FFFF,
            i <= n,
            (w as int, in_ansi) == width_fold(cs@.take(i as int)),
            w <= 3 * i,
        decreases n - i,
    {
        proof {
            assert(cs@.take(i + 1).drop_last() =~= cs@.take(i as int));
            assert(cs@.take(i + 1).last() == cs@[i as int]);
        }
        let c = cs[i];
        if in_ansi {
            if c == 'm' || c == 'A' || c == 'K' {
                in_ansi = false;
            }
        } else if c == '\x1b' {
            in_ansi = true;
        } else {
            match char_display_width(c) {
                Some(w2) => {
                    w = w + w2;
                },
                None => {},
            }
        }
        i = i + 1;
    }
    proof {
        assert(cs@.take(n as int) =~= cs@);
    }
    w
}

// ---------------------------------------------------------------------------
// Name highlighting
// ---------------------------------------------------------------------------

/// The first position at which two names differ; if one is a prefix of
/// the other, the shorter length.
pub open spec fn first_diff(a: Seq<char>, b: Seq<char>) -> int
    decreases a.len(),
{
    if a.len() == 0 || b.len() == 0 {
        0
    } else if a[0] != b[0] {
        0
    } else {
        1 + first_diff(a.drop_first(), b.drop_first())
    }
}

/// The deepest first-difference position of `name` against every other
/// name in the set; 0 when there is nothing to compare against.
pub open spec fn common_pos(name: Seq<char>, names: Seq<Seq<char>>) -> int
    decreases names.len(),
{
    if names.len() == 0 {
        0
    } else {
        let rest = common_pos(name, names.drop_last());
        let other = names.last();
        if other == name {
            rest
        } else {
            let p = first_diff(name, other);
            if p > rest {
                p
            } else {
                rest
            }
        }
    }
}

/// A path or call separator.
pub open spec fn is_sep(c: char) -> bool {
    c == ':' || c == '('
}

/// An underscore or space.
pub open spec fn is_us(c: char) -> bool {
    c == '_' || c == ' '
}

/// The last position satisfying `f`, if any.
pub open spec fn rpos(s: Seq<char>, f: spec_fn(char) -> bool) -> Option<int>
    decreases s.len(),
{
    if s.len() == 0 {
        None
    } else if f(s.last()) {
        Some(s.len() - 1)
    } else {
        rpos(s.drop_last(), f)
    }
}

/// The four predicates the marker rewind scans with: separators or
/// underscores/spaces, either matched or avoided.
pub open spec fn rpos_sel(seps: bool, negate: bool) -> spec_fn(char) -> bool {
    if seps && !negate {
        |c: char| is_sep(c)
    } else if seps && negate {
        |c: char| !is_sep(c)
    } else if !seps && !negate {
        |c: char| is_us(c)
    } else {
        |c: char| !is_us(c)
    }
}

/// Rewinds a common-prefix marker to a sensible boundary: back past the
/// last separator run, else past the last underscore or space run, else
/// to the start; a marker already on a boundary stays put.
pub open spec fn adjust_pos(name: Seq<char>, pos: int) -> int {
    if 0 < pos < name.len() && !is_sep(name[pos]) {
        match rpos(name.take(pos), rpos_sel(true, false)) {
            Some(p2) => match rpos(name.take(p2), rpos_sel(true, true)) {
                Some(p) => p + 1,
                None => 0,
            },
            None => match rpos(name.take(pos), rpos_sel(false, false)) {
                Some(p2) => match rpos(name.take(p2), rpos_sel(false, true)) {
                    Some(p) => p + 1,
                    None => 0,
                },
                None => 0,
            },
        }
    } else {
        pos
    }
}

/// The styled name: the shared prefix dimmed, the distinctive tail
/// bright, the whole thing bright when nothing is shared and dim when
/// nothing is distinctive.
pub open spec fn format_name_spec(name: Seq<char>, names: Seq<Seq<char>>) -> Seq<char> {
    let pos = adjust_pos(name, common_pos(name, names));
    if pos == 0 {
        "\x1b[94m"@ + name + "\x1b[0m"@
    } else if pos == name.len() {
        "\x1b[34m"@ + name + "\x1b[0m"@
    } else {
        "\x1b[34m"@ + name.take(pos) + "\x1b[94m"@ + name.skip(pos) + "\x1b[0m"@
    }
}

/// Positions before the first difference hold equal characters; the
/// position itself, when inside both names, holds differing ones.
proof fn lemma_first_diff(a: Seq<char>, b: Seq<char>)
    ensures
        0 <= first_diff(a, b) <= a.len(),
        first_diff(a, b) <= b.len(),
        forall|i: int| 0 <= i < first_diff(a, b) ==> a[i] == b[i],
        first_diff(a, b) < a.len() && first_diff(a, b) < b.len() ==> a[first_diff(a, b)]
            != b[first_diff(a, b)],
        a.len() == b.len() && first_diff(a, b) == a.len() ==> a == b,
    decreases a.len(),
{
    if a.len() == 0 || b.len() == 0 {
    } else if a[0] != b[0] {
    } else {
        lemma_first_diff(a.drop_first(), b.drop_first());
        let d = first_diff(a, b);
        assert forall|i: int| 0 <= i < d implies a[i] == b[i] by {
            if i > 0 {
                assert(a.drop_first()[i - 1] == b.drop_first()[i - 1]);
            }
        }
        if a.len() == b.len() && d == a.len() {
            assert(a.drop_first() == b.drop_first());
            assert(a =~= b);
        }
    }
}

/// Computes `first_diff` by scanning.
fn first_diff_exec(a: &Vec<char>, b: &Vec<char>) -> (r: usize)
    ensures
        r == first_diff(a@, b@),
{
    let na = a.len();
    let nb = b.len();
    let mut i: usize = 0;
    while i < na && i < nb && a[i] == b[i]
        invariant
            na == a@.len(),
            nb == b@.len(),
            i <= na,
            i <= nb,
            forall|k: int| 0 <= k < i ==> a@[k] == b@[k],
        decreases na - i,
    {
        i = i + 1;
    }
    proof {
        lemma_first_diff(a@, b@);
        let d = first_diff(a@, b@);
        if (i as int) < d {
            assert(a@[i as int] == b@[i as int]);
            assert(false);
        }
        if (i as int) > d {
            assert(a@[d] == b@[d]);
            assert(false);
        }
    }
    i
}

/// The last position before `to` matching the selected predicate.
fn rpos_exec(name: &Vec<char>, to: usize, seps: bool, negate: bool) -> (r: Option<usize>)
    requires
        to <= name@.len(),
    ensures
        r matches Some(p) ==> p < to && rpos(name@.take(to as int), rpos_sel(seps, negate))
            == Some(p as int),
        r is None ==> rpos(name@.take(to as int), rpos_sel(seps, negate)) == None::<int>,
{
    let ghost f = rpos_sel(seps, negate);
    let mut j: usize = to;
    while j > 0
        invariant
            to <= name@.len(),
            j <= to,
            f == rpos_sel(seps, negate),
            rpos(name@.take(to as int), f) == rpos(name@.take(j as int), f),
        decreases j,
    {
        let c = name[j - 1];
        let hit = if seps {
            let base = c == ':' || c == '(';
            if negate {
                !base
            } else {
                base
            }
        } else {
            let base = c == '_' || c == ' ';
            if negate {
                !base
            } else {
                base
            }
        };
        proof {
            let sub = name@.take(j as int);
            assert(sub.last() == name@[j - 1]);
            assert(sub.drop_last() =~= name@.take(j - 1));
            assert(hit == f(name@[j - 1]));
        }
        if hit {
            proof {
                assert(rpos(name@.take(j as int), f) == Some(j - 1));
            }
            return Some(j - 1);
        }
        j = j - 1;
    }
    proof {
        assert(name@.take(0int) =~= Seq::<char>::empty());
    }
    None
}

/// Styles a benchmark name: the part every other benchmark shares is
/// dimmed, the distinctive remainder highlighted, with the split pulled
/// back to a separator boundary.
pub fn format_name(name: Vec<char>, names: &Vec<Vec<char>>) -> (r: String)
    ensures
        r@ == format_name_spec(name@, names@.map_values(|v: Vec<char>| v@)),
{
    let ghost gnames = names@.map_values(|v: Vec<char>| v@);
    let len = name.len();

    // Find the deepest first-difference against the other names.
    let n = names.len();
    let mut pos: usize = 0;
    let mut i: usize = 0;
    while i < n
        invariant
            n == names@.len(),
            gnames == names@.map_values(|v: Vec<char>| v@),
            i <= n,
            len == name@.len(),
            pos == common_pos(name@, gnames.take(i as int)),
            pos <= len,
        decreases n - i,
    {
        proof {
            assert(gnames.take(i + 1).drop_last() =~= gnames.take(i as int));
            assert(gnames.take(i + 1).last() == gnames[i as int]);
            assert(gnames[i as int] == names@[i as int]@);
            lemma_first_diff(name@, names@[i as int]@);
        }
        let other: &Vec<char> = &names[i];
        let d = first_diff_exec(&name, other);
        let same = name.len() == other.len() && d == name.len();
        proof {
            if same {
                assert(name@ == other@);
            } else {
                assert(name@ != other@) by {
                    if name@ == other@ {
                        assert(first_diff(name@, other@) == name@.len());
                    }
                }
            }
        }
        if !same && d > pos {
            pos = d;
        }
        i = i + 1;
    }
    proof {
        assert(gnames.take(n as int) =~= gnames);
    }

    // Pull the marker back to a natural boundary.
    let ghost raw_pos = pos as int;
    let sep_at_pos = if pos < len {
        let c = name[pos];
        c == ':' || c == '('
    } else {
        false
    };
    if 0 < pos && pos < len && !sep_at_pos {
        match rpos_exec(&name, pos, true, false) {
            Some(p2) => {
                match rpos_exec(&name, p2, true, true) {
                    Some(p) => {
                        pos = p + 1;
                    },
                    None => {
                        pos = 0;
                    },
                }
            },
            None => {
                match rpos_exec(&name, pos, false, false) {
                    Some(p2) => {
                        match rpos_exec(&name, p2, false, true) {
                            Some(p) => {
                                pos = p + 1;
                            },
                            None => {
                                pos = 0;
                            },
                        }
                    },
                    None => {
                        pos = 0;
                    },
                }
            },
        }
    }
    proof {
        assert(pos == adjust_pos(name@, raw_pos));
        assert(pos <= len) by {
            if 0 < raw_pos < len && !is_sep(name@[raw_pos]) {
            }
        }
    }

    // Assemble the styled pieces.
    let mut out: Vec<char> = Vec::new();
    proof {
        reveal_strlit("\x1b[94m");
        reveal_strlit("\x1b[34m");
        reveal_strlit("\x1b[0m");
    }
    if pos == 0 {
        push_str5(&mut out, '\x1b', '[', '9', '4', 'm');
        push_all(&mut out, &name, 0, len);
        push_str4(&mut out, '\x1b', '[', '0', 'm');
        proof {
            assert(name@.subrange(0, len as int) =~= name@);
            assert(out@ =~= format_name_spec(name@, gnames));
        }
    } else if pos == len {
        push_str5(&mut out, '\x1b', '[', '3', '4', 'm');
        push_all(&mut out, &name, 0, len);
        push_str4(&mut out, '\x1b', '[', '0', 'm');
        proof {
            assert(name@.subrange(0, len as int) =~= name@);
            assert(out@ =~= format_name_spec(name@, gnames));
        }
    } else {
        push_str5(&mut out, '\x1b', '[', '3', '4', 'm');
        push_all(&mut out, &name, 0, pos);
        push_str5(&mut out, '\x1b', '[', '9', '4', 'm');
        push_all(&mut out, &name, pos, len);
        push_str4(&mut out, '\x1b', '[', '0', 'm');
        proof {
            assert(name@.subrange(0, pos as int) =~= name@.take(pos as int));
            assert(name@.subrange(pos as int, len as int) =~= name@.skip(pos as int));
            assert(out@ =~= format_name_spec(name@, gnames));
        }
    }
    string_from_chars(out)
}

fn push_str5(out: &mut Vec<char>, a: char, b: char, c: char, d: char, e: char)
    ensures
        final(out)@ == old(out)@ + seq![a, b, c, d, e],
{
    out.push(a);
    out.push(b);
    out.push(c);
    out.push(d);
    out.push(e);
    proof {
        assert(out@ =~= old(out)@ + seq![a, b, c, d, e]);
    }
}

fn push_str4(out: &mut Vec<char>, a: char, b: char, c: char, d: char)
    ensures
        final(out)@ == old(out)@ + seq![a, b, c, d],
{
    out.push(a);
    out.push(b);
    out.push(c);
    out.push(d);
    proof {
        assert(out@ =~= old(out)@ + seq![a, b, c, d]);
    }
}

/// Appends `v[from..to]`.
fn push_all(out: &mut Vec<char>, v: &Vec<char>, from: usize, to: usize)
    requires
        from <= to <= v@.len(),
    ensures
        final(out)@ == old(out)@ + v@.subrange(from as int, to as int),
{
    let mut i: usize = from;
    proof {
        assert(out@ =~= out@ + v@.subrange(from as int, from as int));
    }
    while i < to
        invariant
            from <= i <= to <= v@.len(),
            out@ == old(out)@ + v@.subrange(from as int, i as int),
        decreases to - i,
    {
        out.push(v[i]);
        proof {
            assert(old(out)@ + v@.subrange(from as int, i + 1) =~= (old(out)@ + v@.subrange(
                from as int,
                i as int,
            )).push(v@[i as int]));
        }
        i = i + 1;
    }
}

// ---------------------------------------------------------------------------
// Benchmark name normalization
// ---------------------------------------------------------------------------

/// Whether a character counts as whitespace; the classification lives
/// in the Unicode property tables.
pub uninterp spec fn is_wide_ws(c: char) -> bool;

/// Relies on char::is_whitespace: the Unicode whitespace property of
/// the character alone.
#[verifier::external_body]
fn is_whitespace_char(c: char) -> (r: bool)
    ensures
        r == is_wide_ws(c),
{
    c.is_whitespace()
}

/// Leading whitespace dropped.
pub open spec fn trim_chars_front(s: Seq<char>) -> Seq<char>
    decreases s.len(),
{
    if s.len() > 0 && is_wide_ws(s[0]) {
        trim_chars_front(s.drop_first())
    } else {
        s
    }
}

/// Trailing whitespace dropped.
pub open spec fn trim_chars_back(s: Seq<char>) -> Seq<char>
    decreases s.len(),
{
    if s.len() > 0 && is_wide_ws(s.last()) {
        trim_chars_back(s.drop_last())
    } else {
        s
    }
}

/// Every run of whitespace collapsed to a single plain space; `ws`
/// tells whether a run is already open.
pub open spec fn collapse_ws(s: Seq<char>, ws: bool) -> Seq<char>
    decreases s.len(),
{
    if s.len() == 0 {
        Seq::empty()
    } else if is_wide_ws(s[0]) {
        if ws {
            collapse_ws(s.drop_first(), true)
        } else {
            seq![' '] + collapse_ws(s.drop_first(), true)
        }
    } else {
        seq![s[0]] + collapse_ws(s.drop_first(), false)
    }
}

/// What a benchmark name is stored as: trimmed, with inner whitespace
/// runs compacted to single spaces.
pub open spec fn normalized_name(s: Seq<char>) -> Seq<char> {
    collapse_ws(trim_chars_back(trim_chars_front(s)), false)
}

/// Normalizes a benchmark name: trims it and compacts every whitespace
/// run to a single space.
pub fn normalize_name(name: Vec<char>) -> (r: Vec<char>)
    ensures
        r@ == normalized_name(name@),
{
    let n = name.len();
    let mut lo: usize = 0;
    proof {
        assert(name@.skip(0int) =~= name@);
    }
    while lo < n && is_whitespace_char(name[lo])
        invariant
            n == name@.len(),
            lo <= n,
            trim_chars_front(name@) == trim_chars_front(name@.skip(lo as int)),
        decreases n - lo,
    {
        proof {
            assert(name@.skip(lo as int).drop_first() =~= name@.skip(lo + 1));
            assert(name@.skip(lo as int)[0] == name@[lo as int]);
        }
        lo = lo + 1;
    }
    proof {
        if lo < n {
            assert(name@.skip(lo as int)[0] == name@[lo as int]);
        }
        assert(trim_chars_front(name@) == name@.skip(lo as int));
        assert(name@.skip(lo as int) =~= name@.subrange(lo as int, n as int));
    }
    let mut hi: usize = n;
    while hi > lo && is_whitespace_char(name[hi - 1])
        invariant
            n == name@.len(),
            lo <= hi <= n,
            trim_chars_back(trim_chars_front(name@)) == trim_chars_back(
                name@.subrange(lo as int, hi as int),
            ),
        decreases hi,
    {
        proof {
            let sub = name@.subrange(lo as int, hi as int);
            assert(sub.last() == name@[hi - 1]);
            assert(sub.drop_last() =~= name@.subrange(lo as int, hi - 1));
        }
        hi = hi - 1;
    }
    let ghost trimmed = name@.subrange(lo as int, hi as int);
    proof {
        if hi > lo {
            assert(trimmed.last() == name@[hi - 1]);
        }
        assert(trim_chars_back(trim_chars_front(name@)) == trimmed);
    }
    let mut out: Vec<char> = Vec::new();
    let mut ws = false;
    let mut i: usize = lo;
    while i < hi
        invariant
            n == name@.len(),
            lo <= i <= hi <= n,
            trimmed == name@.subrange(lo as int, hi as int),
            normalized_name(name@) == out@ + collapse_ws(
                name@.subrange(i as int, hi as int),
                ws,
            ),
        decreases hi - i,
    {
        proof {
            let sub = name@.subrange(i as int, hi as int);
            assert(sub[0] == name@[i as int]);
            assert(sub.drop_first() =~= name@.subrange(i + 1, hi as int));
        }
        let c = name[i];
        if is_whitespace_char(c) {
            if !ws {
                out.push(' ');
                ws = true;
                proof {
                    assert(out@ + collapse_ws(name@.subrange(i + 1, hi as int), true) =~= (
                    out@.drop_last() + (seq![' '] + collapse_ws(
                        name@.subrange(i + 1, hi as int),
                        true,
                    ))));
                }
            }
        } else {
            out.push(c);
            ws = false;
            proof {
                assert(out@ + collapse_ws(name@.subrange(i + 1, hi as int), false) =~= (
                out@.drop_last() + (seq![c] + collapse_ws(
                    name@.subrange(i + 1, hi as int),
                    false,
                ))));
            }
        }
        i = i + 1;
    }
    proof {
        assert(name@.subrange(i as int, hi as int) =~= Seq::<char>::empty());
        assert(out@ + Seq::<char>::empty() =~= out@);
    }
    out
}

// ---------------------------------------------------------------------------
// String equality helpers
// ---------------------------------------------------------------------------

fn bytes_eq(a: &[u8], b: &[u8]) -> (r: bool)
    ensures
        r == (a@ == b@),
{
    let na = a.len();
    let nb = b.len();
    if na != nb {
        proof {
            assert(a@.len() != b@.len());
        }
        return false;
    }
    let mut i: usize = 0;
    while i < na
        invariant
            na == a@.len() == b@.len(),
            i <= na,
            forall|k: int| 0 <= k < i ==> a@[k] == b@[k],
        decreases na - i,
    {
        if a[i] != b[i] {
            return false;
        }
        i = i + 1;
    }
    proof {
        assert(a@ =~= b@);
    }
    true
}

/// Whether two strings hold the same characters.
fn str_eq(a: &str, b: &str) -> (r: bool)
    ensures
        r == (a@ == b@),
{
    let r = bytes_eq(a.as_bytes(), b.as_bytes());
    proof {
        if encode_utf8(a@) == encode_utf8(b@) {
            vstd::utf8::encode_utf8_decode_utf8(a@);
            vstd::utf8::encode_utf8_decode_utf8(b@);
        }
    }
    r
}

// ---------------------------------------------------------------------------
// Result rows and the summary table
// ---------------------------------------------------------------------------

/// The marker a result's change column holds when the run did not
/// deviate from history.
pub open spec fn no_change_text() -> Seq<char> {
    "\x1b[2m---\x1b[0m"@
}

/// The rendered marker for "no meaningful change".
pub fn no_change() -> (r: &'static str)
    ensures
        r@ == no_change_text(),
{
    "\x1b[2m---\x1b[0m"
}

/// One row of the final table.
#[derive(Debug, Clone)]
pub enum TableRow {
    /// A fully rendered benchmark line: name, time, samples, change.
    Normal(String, String, String, String),
    /// A failed benchmark: name and its error.
    Error(String, BenchError),
    /// A visual separator.
    Spacer,
}

/// Rows must keep their text short enough for width arithmetic.
pub open spec fn row_wf(r: TableRow) -> bool {
    match r {
        TableRow::Normal(a, b, c, d) => a@.len() <= 0x1FFF_FFFF && b@.len() <= 0x1FFF_FFFF
            && c@.len() <= 0x1FFF_FFFF && d@.len() <= 0x1FFF_FFFF,
        TableRow::Error(a, _) => a@.len() <= 0x1FFF_FFFF,
        TableRow::Spacer => true,
    }
}

/// The printable column widths of a row.
pub open spec fn row_lens_spec(r: TableRow) -> (int, int, int, int) {
    match r {
        TableRow::Normal(a, b, c, d) => (width_of(a@), width_of(b@), width_of(c@), width_of(d@)),
        TableRow::Error(a, _) => (width_of(a@), 0, 0, 0),
        TableRow::Spacer => (0, 0, 0, 0),
    }
}

impl TableRow {
    /// The printable width of each of the four columns.
    pub fn lens(&self) -> (r: (usize, usize, usize, usize))
        requires
            row_wf(*self),
        ensures
            (r.0 as int, r.1 as int, r.2 as int, r.3 as int) == row_lens_spec(*self),
    {
        match self {
            TableRow::Normal(a, b, c, d) => (
                width(a.as_str()),
                width(b.as_str()),
                width(c.as_str()),
                width(d.as_str()),
            ),
            TableRow::Error(a, _) => (width(a.as_str()), 0, 0, 0),
            TableRow::Spacer => (0, 0, 0, 0),
        }
    }
}

/// Column-wise maxima of all row widths.
pub open spec fn table_lens_spec(rows: Seq<TableRow>) -> (int, int, int, int)
    decreases rows.len(),
{
    if rows.len() == 0 {
        (0, 0, 0, 0)
    } else {
        let p = table_lens_spec(rows.drop_last());
        let v = row_lens_spec(rows.last());
        (
            if v.0 > p.0 {
                v.0
            } else {
                p.0
            },
            if v.1 > p.1 {
                v.1
            } else {
                p.1
            },
            if v.2 > p.2 {
                v.2
            } else {
                p.2
            },
            if v.3 > p.3 {
                v.3
            } else {
                p.3
            },
        )
    }
}

/// Whether any benchmark row past the header reports a change.
pub open spec fn show_changes_spec(rows: Seq<TableRow>) -> bool {
    exists|i: int|
        2 <= i < rows.len() && match #[trigger] rows[i] {
            TableRow::Normal(_, _, _, d) => d@ != no_change_text(),
            _ => false,
        }
}

/// The collected rows of one report.
#[derive(Debug, Clone)]
pub struct Table {
    /// The rows, header first.
    pub rows: Vec<TableRow>,
}

impl Table {
    /// Every row's text is within width-arithmetic range.
    pub open spec fn wf(self) -> bool {
        forall|i: int| 0 <= i < self.rows@.len() ==> row_wf(#[trigger] self.rows@[i])
    }

    /// Appends a row.
    pub fn push(&mut self, row: TableRow)
        requires
            old(self).wf(),
            row_wf(row),
        ensures
            final(self).wf(),
            final(self).rows@ == old(self).rows@.push(row),
    {
        self.rows.push(row);
    }

    /// Whether any benchmark row deviates from its history, i.e.
    /// whether the change column deserves printing at all.
    pub fn show_changes(&self) -> (r: bool)
        ensures
            r == show_changes_spec(self.rows@),
    {
        let n = self.rows.len();
        let mut i: usize = 2;
        while i < n
            invariant
                n == self.rows@.len(),
                2 <= i,
                i <= n || (n < 2 && i == 2),
                forall|k: int|
                    2 <= k < i && k < n ==> !(match #[trigger] self.rows@[k] {
                        TableRow::Normal(_, _, _, d) => d@ != no_change_text(),
                        _ => false,
                    }),
            decreases n - i,
        {
            let row = &self.rows[i];
            match row {
                TableRow::Normal(_, _, _, d) => {
                    if !str_eq(d.as_str(), no_change()) {
                        return true;
                    }
                },
                _ => {},
            }
            i = i + 1;
        }
        proof {
            if show_changes_spec(self.rows@) {
                let w = choose|w: int|
                    2 <= w < self.rows@.len() && match #[trigger] self.rows@[w] {
                        TableRow::Normal(_, _, _, d) => d@ != no_change_text(),
                        _ => false,
                    };
                assert(false);
            }
        }
        false
    }

    /// The widest entry of each column across the whole table.
    pub fn lens(&self) -> (r: (usize, usize, usize, usize))
        requires
            self.wf(),
        ensures
            (r.0 as int, r.1 as int, r.2 as int, r.3 as int) == table_lens_spec(self.rows@),
    {
        let n = self.rows.len();
        let mut w0: usize = 0;
        let mut w1: usize = 0;
        let mut w2: usize = 0;
        let mut w3: usize = 0;
        let mut i: usize = 0;
        while i < n
            invariant
                self.wf(),
                n == self.rows@.len(),
                i <= n,
                (w0 as int, w1 as int, w2 as int, w3 as int) == table_lens_spec(
                    self.rows@.take(i as int),
                ),
            decreases n - i,
        {
            proof {
                assert(self.rows@.take(i + 1).drop_last() =~= self.rows@.take(i as int));
                assert(self.rows@.take(i + 1).last() == self.rows@[i as int]);
            }
            let v = self.rows[i].lens();
            if v.0 > w0 {
                w0 = v.0;
            }
            if v.1 > w1 {
                w1 = v.1;
            }
            if v.2 > w2 {
                w2 = v.2;
            }
            if v.3 > w3 {
                w3 = v.3;
            }
            i = i + 1;
        }
        proof {
            assert(self.rows@.take(n as int) =~= self.rows@);
        }
        (w0, w1, w2, w3)
    }
}

/// The table's two opening rows: the column headers and a separator.
pub open spec fn default_table_rows(rows: Seq<TableRow>) -> bool {
    &&& rows.len() == 2
    &&& match rows[0] {
        TableRow::Normal(a, b, c, d) => a@ == "\x1b[1;95mMethod"@ && b@ == "Mean"@ && c@
            == "Samples\x1b[0m"@ && d@ == "\x1b[1;95mChange\x1b[0m"@,
        _ => false,
    }
    &&& rows[1] is Spacer
}

impl Default for Table {
    /// A table holding its header row and a spacer.
    fn default() -> (r: Table)
        ensures
            r.wf(),
            default_table_rows(r.rows@),
    {
        let mut rows: Vec<TableRow> = Vec::new();
        let header = TableRow::Normal(
            "\x1b[1;95mMethod".to_owned(),
            "Mean".to_owned(),
            "Samples\x1b[0m".to_owned(),
            "\x1b[1;95mChange\x1b[0m".to_owned(),
        );
        proof {
            reveal_strlit("\x1b[1;95mMethod");
            reveal_strlit("Mean");
            reveal_strlit("Samples\x1b[0m");
            reveal_strlit("\x1b[1;95mChange\x1b[0m");
        }
        rows.push(header);
        rows.push(TableRow::Spacer);
        Table { rows }
    }
}

/// A benchmark's rendered outcome: its styled name, its timing and
/// change cells, or the error that displaced them.
#[derive(Debug, Clone)]
pub struct BenchResult {
    /// The styled benchmark name.
    pub caller: String,
    /// The rendered mean execution time.
    pub time: String,
    /// The rendered run-to-run change.
    pub diff: String,
    /// The failure, if the benchmark produced no numbers.
    pub error: Option<BenchError>,
}

/// The byte lengths of a result's columns; an error clears the numeric
/// columns.
pub open spec fn result_lens_spec(b: BenchResult) -> (int, int, int) {
    if b.error is Some {
        (encode_utf8(b.caller@).len() as usize as int, 0, 0)
    } else {
        (
            encode_utf8(b.caller@).len() as usize as int,
            encode_utf8(b.time@).len() as usize as int,
            encode_utf8(b.diff@).len() as usize as int,
        )
    }
}

impl BenchResult {
    /// The byte length of each part, used to size the output columns.
    pub fn lens(&self) -> (r: (usize, usize, usize))
        ensures
            (r.0 as int, r.1 as int, r.2 as int) == result_lens_spec(*self),
    {
        if self.error.is_some() {
            (self.caller.as_str().len(), 0, 0)
        } else {
            (self.caller.as_str().len(), self.time.as_str().len(), self.diff.as_str().len())
        }
    }
}

} // verus!
