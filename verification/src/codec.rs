//! The binary history format: a magic header, then one length-prefixed
//! record per benchmark, every number big-endian. Serialization,
//! parsing, and their round trip are specified byte-for-byte.

use vstd::prelude::*;
use vstd::utf8::decode_utf8;
use vstd::utf8::encode_utf8;
use vstd::utf8::valid_utf8;
use crate::history::History;
use crate::history::lookup;
use crate::history::lookup_last;
use crate::stats::Stats;

verus! {

// ---------------------------------------------------------------------------
// Big-endian integers
// ---------------------------------------------------------------------------

/// 256 to the `n`th power: the number of values `n` bytes can carry.
pub open spec fn pow256(n: nat) -> int
    decreases n,
{
    if n == 0 {
        1
    } else {
        256 * pow256((n - 1) as nat)
    }
}

/// The `n`-byte big-endian encoding of `x` (modulo `256^n`).
pub open spec fn be_bytes(x: int, n: nat) -> Seq<u8>
    decreases n,
{
    if n == 0 {
        Seq::empty()
    } else {
        be_bytes(x / 256, (n - 1) as nat) + seq![(x % 256) as u8]
    }
}

/// The value a big-endian byte sequence denotes.
pub open spec fn de_bytes(s: Seq<u8>) -> int
    decreases s.len(),
{
    if s.len() == 0 {
        0
    } else {
        de_bytes(s.drop_last()) * 256 + s.last()
    }
}

pub proof fn lemma_be_len(x: int, n: nat)
    ensures
        be_bytes(x, n).len() == n,
    decreases n,
{
    if n > 0 {
        lemma_be_len(x / 256, (n - 1) as nat);
    }
}

pub proof fn lemma_de_bound(s: Seq<u8>)
    ensures
        0 <= de_bytes(s) < pow256(s.len()),
    decreases s.len(),
{
    if s.len() > 0 {
        lemma_de_bound(s.drop_last());
    }
}

pub proof fn lemma_pow256_mono(a: nat, b: nat)
    requires
        a <= b,
    ensures
        0 < pow256(a) <= pow256(b),
    decreases b,
{
    if b > 0 {
        if a == b {
            lemma_pow256_mono(0, (b - 1) as nat);
        } else {
            lemma_pow256_mono(a, (b - 1) as nat);
        }
    }
}

pub proof fn lemma_pow256_8()
    ensures
        pow256(2) == 0x1_0000,
        pow256(4) == 0x1_0000_0000,
        pow256(8) == 0x1_0000_0000_0000_0000,
{
    assert(pow256(0) == 1);
    assert(pow256(1) == 256);
    assert(pow256(2) == 0x1_0000);
    assert(pow256(3) == 0x100_0000);
    assert(pow256(4) == 0x1_0000_0000);
    assert(pow256(5) == 0x100_0000_0000);
    assert(pow256(6) == 0x1_0000_0000_0000);
    assert(pow256(7) == 0x100_0000_0000_0000);
}

/// Decoding inverts encoding for any value the width can carry.
pub proof fn lemma_be_de(x: int, n: nat)
    requires
        0 <= x < pow256(n),
    ensures
        de_bytes(be_bytes(x, n)) == x,
    decreases n,
{
    if n == 0 {
        assert(x == 0);
    } else {
        lemma_be_len(x / 256, (n - 1) as nat);
        let b = be_bytes(x, n);
        assert(b.drop_last() =~= be_bytes(x / 256, (n - 1) as nat));
        assert(b.last() == (x % 256) as u8);
        assert(x / 256 < pow256((n - 1) as nat)) by {
            vstd::arithmetic::div_mod::lemma_multiply_divide_lt(x, 256, pow256((n - 1) as nat));
        }
        vstd::arithmetic::div_mod::lemma_div_pos_is_pos(x, 256);
        lemma_be_de(x / 256, (n - 1) as nat);
        vstd::arithmetic::div_mod::lemma_fundamental_div_mod(x, 256);
    }
}

/// Appends the `n`-byte big-endian encoding of `x`.
fn be_append(out: &mut Vec<u8>, x: u128, n: usize)
    ensures
        final(out)@ == old(out)@ + be_bytes(x as int, n as nat),
    decreases n,
{
    if n == 0 {
        proof {
            assert(out@ =~= out@ + be_bytes(x as int, 0nat));
        }
        return ;
    }
    be_append(out, x / 256, n - 1);
    out.push((x % 256) as u8);
    proof {
        assert(out@ =~= old(out)@ + be_bytes(x as int, n as nat));
    }
}

/// Reads the `n`-byte big-endian value starting at `pos`.
fn read_uint(raw: &Vec<u8>, pos: usize, n: usize) -> (r: u128)
    requires
        pos + n <= raw@.len(),
        n <= 8,
    ensures
        r == de_bytes(raw@.subrange(pos as int, pos + n)),
{
    let rl = raw.len();
    let mut acc: u128 = 0;
    let mut i: usize = 0;
    proof {
        assert(raw@.subrange(pos as int, pos as int) =~= Seq::<u8>::empty());
    }
    while i < n
        invariant
            pos + n <= raw@.len(),
            rl == raw@.len(),
            n <= 8,
            i <= n,
            acc == de_bytes(raw@.subrange(pos as int, pos + i)),
        decreases n - i,
    {
        proof {
            let sub0 = raw@.subrange(pos as int, pos + i);
            let sub1 = raw@.subrange(pos as int, pos + i + 1);
            assert(sub1.drop_last() =~= sub0);
            assert(sub1.last() == raw@[pos + i]);
            lemma_de_bound(sub0);
            lemma_pow256_mono(sub0.len() as nat, 8);
            lemma_pow256_8();
        }
        acc = acc * 256 + (raw[pos + i] as u128);
        i = i + 1;
    }
    acc
}

/// Appends a byte slice.
fn append_bytes(out: &mut Vec<u8>, b: &[u8])
    ensures
        final(out)@ == old(out)@ + b@,
{
    let n = b.len();
    let mut i: usize = 0;
    while i < n
        invariant
            n == b@.len(),
            i <= n,
            out@ == old(out)@ + b@.take(i as int),
        decreases n - i,
    {
        out.push(b[i]);
        proof {
            assert(old(out)@ + b@.take(i + 1) =~= (old(out)@ + b@.take(i as int)).push(
                b@[i as int],
            ));
        }
        i = i + 1;
    }
    proof {
        assert(b@.take(n as int) =~= b@);
    }
}

// ---------------------------------------------------------------------------
// The history wire format
// ---------------------------------------------------------------------------

/// The magic header: `BRUNCH` plus a two-digit format version.
pub open spec fn magic() -> Seq<u8> {
    seq![66u8, 82u8, 85u8, 78u8, 67u8, 72u8, 48u8, 48u8]
}

/// The 24 fixed bytes of a record: total, valid (4 bytes each), then
/// deviation and mean (8 bytes each), all big-endian.
pub open spec fn enc_stats(s: Stats) -> Seq<u8> {
    be_bytes(s.total as int, 4) + be_bytes(s.valid as int, 4) + be_bytes(s.deviation as int, 8)
        + be_bytes(s.mean as int, 8)
}

/// One serialized entry: the UTF-8 length of the name (2 bytes), the
/// name itself, then the record.
pub open spec fn enc_entry(k: Seq<char>, s: Stats) -> Seq<u8> {
    be_bytes(encode_utf8(k).len() as int, 2) + encode_utf8(k) + enc_stats(s)
}

/// An entry whose name does not fit the 2-byte length is skipped.
pub open spec fn enc_one(k: Seq<char>, s: Stats) -> Seq<u8> {
    if encode_utf8(k).len() <= 0xFFFF {
        enc_entry(k, s)
    } else {
        Seq::empty()
    }
}

/// All entries, back to back, in order.
pub open spec fn enc_entries(es: Seq<(Seq<char>, Stats)>) -> Seq<u8>
    decreases es.len(),
{
    if es.len() == 0 {
        Seq::empty()
    } else {
        enc_one(es[0].0, es[0].1) + enc_entries(es.drop_first())
    }
}

/// The full serialized history: magic header, then the entries.
pub open spec fn serialize_spec(es: Seq<(Seq<char>, Stats)>) -> Seq<u8> {
    magic() + enc_entries(es)
}

proof fn lemma_enc_entries_push(es: Seq<(Seq<char>, Stats)>, e: (Seq<char>, Stats))
    ensures
        enc_entries(es.push(e)) == enc_entries(es) + enc_one(e.0, e.1),
    decreases es.len(),
{
    let t = es.push(e);
    if es.len() == 0 {
        assert(t.drop_first() =~= Seq::<(Seq<char>, Stats)>::empty());
        assert(t[0] == e);
        assert(enc_entries(Seq::<(Seq<char>, Stats)>::empty()) =~= Seq::<u8>::empty());
        assert(enc_entries(t) =~= enc_one(e.0, e.1) + Seq::<u8>::empty());
        assert(enc_entries(t) =~= enc_entries(es) + enc_one(e.0, e.1));
    } else {
        assert(t.drop_first() =~= es.drop_first().push(e));
        assert(t[0] == es[0]);
        lemma_enc_entries_push(es.drop_first(), e);
        assert(enc_entries(t) =~= enc_entries(es) + enc_one(e.0, e.1));
    }
}

/// Serializes a history: the magic header, then one entry per record,
/// in storage order; a name longer than 65535 UTF-8 bytes is skipped.
#[verifier::rlimit(60)]
pub fn serialize(h: &History) -> (r: Vec<u8>)
    ensures
        r@ == serialize_spec(h@),
{
    let mut out: Vec<u8> = Vec::new();
    out.push(66);
    out.push(82);
    out.push(85);
    out.push(78);
    out.push(67);
    out.push(72);
    out.push(48);
    out.push(48);
    proof {
        assert(out@ =~= magic());
        assert(out@ =~= magic() + enc_entries(h@.take(0int)));
    }
    let n = h.entries.len();
    let mut i: usize = 0;
    while i < n
        invariant
            n == h@.len(),
            n == h.entries@.len(),
            i <= n,
            out@ == magic() + enc_entries(h@.take(i as int)),
        decreases n - i,
    {
        let pair: &(String, Stats) = &h.entries[i];
        let kb: &[u8] = pair.0.as_str().as_bytes();
        let klen = kb.len();
        proof {
            assert(h@[i as int] == (h.entries@[i as int].0@, h.entries@[i as int].1));
            assert(kb@ == encode_utf8(h@[i as int].0));
        }
        if klen <= 0xFFFF {
            be_append(&mut out, klen as u128, 2);
            append_bytes(&mut out, kb);
            be_append(&mut out, pair.1.total as u128, 4);
            be_append(&mut out, pair.1.valid as u128, 4);
            be_append(&mut out, pair.1.deviation as u128, 8);
            be_append(&mut out, pair.1.mean as u128, 8);
        }
        proof {
            assert(h@.take(i + 1) =~= h@.take(i as int).push(h@[i as int]));
            lemma_enc_entries_push(h@.take(i as int), h@[i as int]);
            assert(out@ =~= magic() + enc_entries(h@.take(i + 1)));
        }
        i = i + 1;
    }
    proof {
        assert(h@.take(n as int) =~= h@);
    }
    out
}

// ---------------------------------------------------------------------------
// Whitespace trimming of label bytes
// ---------------------------------------------------------------------------

/// ASCII whitespace, as the label trim sees it.
pub open spec fn is_ws(b: u8) -> bool {
    b == 32 || (9 <= b <= 13)
}

/// Leading whitespace removed.
pub open spec fn trim_front(s: Seq<u8>) -> Seq<u8>
    decreases s.len(),
{
    if s.len() > 0 && is_ws(s[0]) {
        trim_front(s.drop_first())
    } else {
        s
    }
}

/// Trailing whitespace removed.
pub open spec fn trim_back(s: Seq<u8>) -> Seq<u8>
    decreases s.len(),
{
    if s.len() > 0 && is_ws(s.last()) {
        trim_back(s.drop_last())
    } else {
        s
    }
}

/// Whitespace removed from both ends.
pub open spec fn trim_ws(s: Seq<u8>) -> Seq<u8> {
    trim_back(trim_front(s))
}

fn is_ws_byte(b: u8) -> (r: bool)
    ensures
        r == is_ws(b),
{
    b == 32 || (9 <= b && b <= 13)
}

/// Copies the bytes between whitespace-free ends of `v`.
fn trim_vec(v: &Vec<u8>) -> (r: Vec<u8>)
    ensures
        r@ == trim_ws(v@),
{
    let n = v.len();
    let mut lo: usize = 0;
    proof {
        assert(v@.skip(0int) =~= v@);
    }
    while lo < n && is_ws_byte(v[lo])
        invariant
            n == v@.len(),
            lo <= n,
            trim_front(v@) == trim_front(v@.skip(lo as int)),
        decreases n - lo,
    {
        proof {
            assert(v@.skip(lo as int).drop_first() =~= v@.skip(lo + 1));
            assert(v@.skip(lo as int)[0] == v@[lo as int]);
        }
        lo = lo + 1;
    }
    proof {
        if lo < n {
            assert(v@.skip(lo as int)[0] == v@[lo as int]);
        }
        assert(trim_front(v@) == v@.skip(lo as int));
        assert(v@.skip(lo as int) =~= v@.subrange(lo as int, n as int));
    }
    let mut hi: usize = n;
    while hi > lo && is_ws_byte(v[hi - 1])
        invariant
            n == v@.len(),
            lo <= hi <= n,
            trim_ws(v@) == trim_back(v@.subrange(lo as int, hi as int)),
        decreases hi,
    {
        proof {
            let sub = v@.subrange(lo as int, hi as int);
            assert(sub.last() == v@[hi - 1]);
            assert(sub.drop_last() =~= v@.subrange(lo as int, hi - 1));
        }
        hi = hi - 1;
    }
    proof {
        let sub = v@.subrange(lo as int, hi as int);
        if hi > lo {
            assert(sub.last() == v@[hi - 1]);
        }
        assert(trim_ws(v@) == sub);
    }
    let mut out: Vec<u8> = Vec::new();
    let mut i: usize = lo;
    while i < hi
        invariant
            n == v@.len(),
            lo <= i <= hi <= n,
            out@ == v@.subrange(lo as int, i as int),
        decreases hi - i,
    {
        out.push(v[i]);
        proof {
            assert(v@.subrange(lo as int, i + 1) =~= v@.subrange(lo as int, i as int).push(
                v@[i as int],
            ));
        }
        i = i + 1;
    }
    out
}

/// Copies `raw[from..to]`.
fn copy_range(raw: &Vec<u8>, from: usize, to: usize) -> (r: Vec<u8>)
    requires
        from <= to <= raw@.len(),
    ensures
        r@ == raw@.subrange(from as int, to as int),
{
    let mut out: Vec<u8> = Vec::new();
    let mut i: usize = from;
    proof {
        assert(raw@.subrange(from as int, from as int) =~= Seq::<u8>::empty());
    }
    while i < to
        invariant
            from <= i <= to <= raw@.len(),
            out@ == raw@.subrange(from as int, i as int),
        decreases to - i,
    {
        out.push(raw[i]);
        proof {
            assert(raw@.subrange(from as int, i + 1) =~= raw@.subrange(from as int, i as int).push(
                raw@[i as int],
            ));
        }
        i = i + 1;
    }
    out
}

/// Relies on String::from_utf8: it succeeds exactly on valid UTF-8 and
/// decodes the bytes to the characters vstd's decode_utf8 yields.
#[verifier::external_body]
fn bytes_to_string(v: Vec<u8>) -> (r: Option<String>)
    ensures
        (r is Some) <==> valid_utf8(v@),
        r matches Some(s) ==> s@ == decode_utf8(v@),
{
    String::from_utf8(v).ok()
}

// ---------------------------------------------------------------------------
// Parsing
// ---------------------------------------------------------------------------

/// What deserializing the bytes after the magic header yields: the
/// entries in order, labels trimmed, with empty-named or invalid records
/// silently dropped. Structural damage (a short read, a label that is
/// not UTF-8) fails the whole parse.
pub open spec fn parse_entries(raw: Seq<u8>) -> Option<Seq<(Seq<char>, Stats)>>
    decreases raw.len(),
    via parse_entries_dec
{
    if raw.len() == 0 {
        Some(Seq::empty())
    } else if raw.len() < 2 {
        None
    } else {
        let klen = de_bytes(raw.subrange(0, 2));
        if raw.len() < 26 + klen {
            None
        } else {
            let kbytes = raw.subrange(2, 2 + klen);
            let tb = trim_ws(kbytes);
            if !valid_utf8(kbytes) || !valid_utf8(tb) {
                None
            } else {
                let key = decode_utf8(tb);
                let total = de_bytes(raw.subrange(2 + klen, 6 + klen));
                let valid = de_bytes(raw.subrange(6 + klen, 10 + klen));
                let deviation = de_bytes(raw.subrange(10 + klen, 18 + klen));
                let mean = de_bytes(raw.subrange(18 + klen, 26 + klen));
                let st = Stats {
                    total: total as u32,
                    valid: valid as u32,
                    deviation: deviation as u64,
                    mean: mean as u64,
                };
                match parse_entries(raw.skip(26 + klen)) {
                    None => None,
                    Some(rest) => {
                        if key.len() > 0 && st.valid_spec() {
                            Some(seq![(key, st)] + rest)
                        } else {
                            Some(rest)
                        }
                    },
                }
            }
        }
    }
}

#[via_fn]
proof fn parse_entries_dec(raw: Seq<u8>) {
    if raw.len() >= 2 {
        lemma_de_bound(raw.subrange(0, 2));
    }
}

/// What deserializing a whole byte string yields: `None` without the
/// magic header, else the parsed entries.
pub open spec fn parse_spec(raw: Seq<u8>) -> Option<Seq<(Seq<char>, Stats)>> {
    if raw.len() >= 8 && raw.subrange(0, 8) == magic() {
        parse_entries(raw.skip(8))
    } else {
        None
    }
}

/// Deserializes a history. Fails on structural damage; otherwise later
/// entries of a repeated name replace earlier ones, exactly as repeated
/// insertion would.
pub fn deserialize(raw: &Vec<u8>) -> (r: Option<History>)
    ensures
        (r is Some) <==> (parse_spec(raw@) is Some),
        r matches Some(h) ==> {
            &&& h.wf()
            &&& forall|k: Seq<char>| #![all_triggers]
                lookup(h@, k) == lookup_last(parse_spec(raw@).unwrap(), k)
        },
{
    let rawlen = raw.len();
    if rawlen < 8 {
        return None;
    }
    if !(raw[0] == 66 && raw[1] == 82 && raw[2] == 85 && raw[3] == 78 && raw[4] == 67 && raw[5]
        == 72 && raw[6] == 48 && raw[7] == 48) {
        proof {
            assert(raw@.subrange(0, 8) != magic()) by {
                if raw@.subrange(0, 8) == magic() {
                    assert(raw@.subrange(0, 8)[0] == 66u8);
                    assert(raw@.subrange(0, 8)[1] == 82u8);
                    assert(raw@.subrange(0, 8)[2] == 85u8);
                    assert(raw@.subrange(0, 8)[3] == 78u8);
                    assert(raw@.subrange(0, 8)[4] == 67u8);
                    assert(raw@.subrange(0, 8)[5] == 72u8);
                    assert(raw@.subrange(0, 8)[6] == 48u8);
                    assert(raw@.subrange(0, 8)[7] == 48u8);
                }
            }
        }
        return None;
    }
    proof {
        assert(raw@.subrange(0, 8) =~= magic());
    }
    let mut h = History::new();
    let mut pos: usize = 8;
    let ghost mut parsed: Seq<(Seq<char>, Stats)> = Seq::empty();
    while pos < rawlen
        invariant
            rawlen == raw@.len(),
            8 <= pos <= rawlen,
            h.wf(),
            forall|k: Seq<char>| #![all_triggers] lookup(h@, k) == lookup_last(parsed, k),
            parse_entries(raw@.skip(8)) == match parse_entries(raw@.skip(pos as int)) {
                None => None::<Seq<(Seq<char>, Stats)>>,
                Some(rest) => Some(parsed + rest),
            },
        decreases rawlen - pos,
    {
        let ghost rem = raw@.skip(pos as int);
        if rawlen - pos < 2 {
            proof {
                assert(rem.len() < 2 && rem.len() != 0);
            }
            return None;
        }
        let klen128 = read_uint(raw, pos, 2);
        proof {
            assert(rem.subrange(0, 2) =~= raw@.subrange(pos as int, pos + 2));
            lemma_de_bound(rem.subrange(0, 2));
            lemma_pow256_8();
        }
        let klen = klen128 as usize;
        if (rawlen - pos) < 26 || (rawlen - pos) - 26 < klen {
            proof {
                assert(rem.len() < 26 + de_bytes(rem.subrange(0, 2)));
            }
            return None;
        }
        proof {
            assert(rem.len() >= 26 + de_bytes(rem.subrange(0, 2)));
        }
        let kb = copy_range(raw, pos + 2, pos + 2 + klen);
        proof {
            assert(kb@ =~= rem.subrange(2, 2 + klen as int));
        }
        let tb = trim_vec(&kb);
        let whole = bytes_to_string(kb);
        if whole.is_none() {
            return None;
        }
        let key_string_opt = bytes_to_string(tb);
        let key_string = match key_string_opt {
            None => {
                return None;
            },
            Some(s) => s,
        };
        let total = read_uint(raw, pos + 2 + klen, 4);
        let valid = read_uint(raw, pos + 6 + klen, 4);
        let deviation = read_uint(raw, pos + 10 + klen, 8);
        let mean = read_uint(raw, pos + 18 + klen, 8);
        proof {
            lemma_pow256_8();
            assert(rem.subrange(2 + klen as int, 6 + klen as int) =~= raw@.subrange(
                pos + 2 + klen as int,
                pos + 6 + klen as int,
            ));
            assert(rem.subrange(6 + klen as int, 10 + klen as int) =~= raw@.subrange(
                pos + 6 + klen as int,
                pos + 10 + klen as int,
            ));
            assert(rem.subrange(10 + klen as int, 18 + klen as int) =~= raw@.subrange(
                pos + 10 + klen as int,
                pos + 18 + klen as int,
            ));
            assert(rem.subrange(18 + klen as int, 26 + klen as int) =~= raw@.subrange(
                pos + 18 + klen as int,
                pos + 26 + klen as int,
            ));
            lemma_de_bound(rem.subrange(2 + klen as int, 6 + klen as int));
            lemma_de_bound(rem.subrange(6 + klen as int, 10 + klen as int));
            lemma_de_bound(rem.subrange(10 + klen as int, 18 + klen as int));
            lemma_de_bound(rem.subrange(18 + klen as int, 26 + klen as int));
        }
        let st = Stats {
            total: total as u32,
            valid: valid as u32,
            deviation: deviation as u64,
            mean: mean as u64,
        };
        let keep = !key_string.as_str().is_empty() && st.is_valid();
        proof {
            let key = decode_utf8(trim_ws(rem.subrange(2, 2 + klen as int)));
            assert(key_string@ == key);
        }
        if keep {
            h.insert(key_string.as_str(), st);
            proof {
                let key = key_string@;
                let e = (key, st);
                assert forall|k: Seq<char>| true implies lookup(h@, k) == lookup_last(
                    parsed.push(e),
                    k,
                ) by {
                    assert(parsed.push(e).drop_last() =~= parsed);
                    assert(parsed.push(e).last() == e);
                }
                parsed = parsed.push(e);
            }
        }
        let newpos = pos + 26 + klen;
        proof {
            assert(raw@.skip(newpos as int) =~= rem.skip(26 + klen as int));
            let spec_rest = parse_entries(rem);
            assert(parse_entries(rem) == match parse_entries(rem.skip(26 + klen as int)) {
                None => None::<Seq<(Seq<char>, Stats)>>,
                Some(rest) => {
                    let key = decode_utf8(trim_ws(rem.subrange(2, 2 + klen as int)));
                    if key.len() > 0 && st.valid_spec() {
                        Some(seq![(key, st)] + rest)
                    } else {
                        Some(rest)
                    }
                },
            });
            if keep {
                assert forall|rest: Seq<(Seq<char>, Stats)>|
                    parse_entries(rem.skip(26 + klen as int)) == Some(rest) implies parsed + rest
                    =~= parsed.drop_last() + (seq![(key_string@, st)] + rest) by {
                    assert(parsed.last() == (key_string@, st));
                }
            }
        }
        pos = newpos;
    }
    proof {
        assert(raw@.skip(pos as int) =~= Seq::<u8>::empty());
        assert(parse_entries(raw@.skip(pos as int)) == Some(Seq::<(Seq<char>, Stats)>::empty()));
        assert(parsed + Seq::<(Seq<char>, Stats)>::empty() =~= parsed);
    }
    Some(h)
}

// ---------------------------------------------------------------------------
// The round trip
// ---------------------------------------------------------------------------

#[verifier::rlimit(80)]
proof fn lemma_parse_entries_round(es: Seq<(Seq<char>, Stats)>)
    requires
        forall|i: int| 0 <= i < es.len() ==> (#[trigger] es[i]).1.valid_spec(),
        forall|i: int| 0 <= i < es.len() ==> (#[trigger] es[i]).0.len() > 0,
        forall|i: int| 0 <= i < es.len() ==> encode_utf8((#[trigger] es[i]).0).len() <= 0xFFFF,
        forall|i: int|
            0 <= i < es.len() ==> trim_ws(encode_utf8((#[trigger] es[i]).0)) == encode_utf8(
                es[i].0,
            ),
    ensures
        parse_entries(enc_entries(es)) == Some(es),
    decreases es.len(),
{
    lemma_pow256_8();
    if es.len() == 0 {
        assert(enc_entries(es) =~= Seq::<u8>::empty());
        assert(parse_entries(enc_entries(es)) == Some(Seq::<(Seq<char>, Stats)>::empty()));
        assert(Seq::<(Seq<char>, Stats)>::empty() =~= es);
    } else {
        let k = es[0].0;
        let s = es[0].1;
        let rest = es.drop_first();
        let kb = encode_utf8(k);
        let kl = kb.len() as int;
        assert(es[0].1.valid_spec() && es[0].0.len() > 0 && encode_utf8(es[0].0).len() <= 0xFFFF
            && trim_ws(encode_utf8(es[0].0)) == encode_utf8(es[0].0));
        lemma_be_len(kl, 2);
        lemma_be_len(s.total as int, 4);
        lemma_be_len(s.valid as int, 4);
        lemma_be_len(s.deviation as int, 8);
        lemma_be_len(s.mean as int, 8);
        let e = enc_entry(k, s);
        let b = enc_entries(es);
        assert(b == e + enc_entries(rest));
        assert(e.len() == 26 + kl);
        assert(b.len() >= 26 + kl);
        assert(b.subrange(0, 2) =~= be_bytes(kl, 2));
        lemma_be_de(kl, 2);
        assert(de_bytes(b.subrange(0, 2)) == kl);
        assert(b.subrange(2, 2 + kl) =~= kb);
        vstd::utf8::encode_utf8_valid_utf8(k);
        assert(valid_utf8(kb));
        assert(trim_ws(b.subrange(2, 2 + kl)) == kb);
        vstd::utf8::encode_utf8_decode_utf8(k);
        assert(decode_utf8(kb) == k);
        assert(b.subrange(2 + kl, 6 + kl) =~= be_bytes(s.total as int, 4));
        assert(b.subrange(6 + kl, 10 + kl) =~= be_bytes(s.valid as int, 4));
        assert(b.subrange(10 + kl, 18 + kl) =~= be_bytes(s.deviation as int, 8));
        assert(b.subrange(18 + kl, 26 + kl) =~= be_bytes(s.mean as int, 8));
        lemma_be_de(s.total as int, 4);
        lemma_be_de(s.valid as int, 4);
        lemma_be_de(s.deviation as int, 8);
        lemma_be_de(s.mean as int, 8);
        assert(b.skip(26 + kl) =~= enc_entries(rest));
        assert forall|i: int| 0 <= i < rest.len() implies (#[trigger] rest[i]).1.valid_spec()
            && rest[i].0.len() > 0 && encode_utf8(rest[i].0).len() <= 0xFFFF && trim_ws(
            encode_utf8(rest[i].0),
        ) == encode_utf8(rest[i].0) by {
            assert(rest[i] == es[i + 1]);
            assert(es[i + 1].1.valid_spec() && es[i + 1].0.len() > 0 && encode_utf8(
                es[i + 1].0,
            ).len() <= 0xFFFF && trim_ws(encode_utf8(es[i + 1].0)) == encode_utf8(es[i + 1].0));
        }
        lemma_parse_entries_round(rest);
        let st2 = Stats {
            total: (s.total as int) as u32,
            valid: (s.valid as int) as u32,
            deviation: (s.deviation as int) as u64,
            mean: (s.mean as int) as u64,
        };
        assert(st2 == s);
        assert(parse_entries(b) == Some(seq![(k, s)] + rest));
        assert(seq![(k, s)] + rest =~= es);
    }
}

/// Law: a history whose records are valid, and whose names are
/// non-empty, trim-stable and short enough for the length prefix,
/// survives serialization and parsing byte-for-byte: the same names and
/// the same four record fields come back, in the same order.
pub proof fn lemma_round_trip(es: Seq<(Seq<char>, Stats)>)
    requires
        forall|i: int| 0 <= i < es.len() ==> (#[trigger] es[i]).1.valid_spec(),
        forall|i: int| 0 <= i < es.len() ==> (#[trigger] es[i]).0.len() > 0,
        forall|i: int| 0 <= i < es.len() ==> encode_utf8((#[trigger] es[i]).0).len() <= 0xFFFF,
        forall|i: int|
            0 <= i < es.len() ==> trim_ws(encode_utf8((#[trigger] es[i]).0)) == encode_utf8(
                es[i].0,
            ),
    ensures
        parse_spec(serialize_spec(es)) == Some(es),
{
    let b = serialize_spec(es);
    assert(b.subrange(0, 8) =~= magic());
    assert(b.len() >= 8);
    assert(b.skip(8) =~= enc_entries(es));
    lemma_parse_entries_round(es);
}

} // verus!
