use crate::timestamp::Timestamp;
use vstd::arithmetic::div_mod::{
    lemma_fundamental_div_mod, lemma_fundamental_div_mod_converse, lemma_mod_bound,
};
use vstd::prelude::*;

verus! {

/// One prior rotation, reconstructed purely from a file name: the instant
/// embedded in the name, and whether the name carried the compressed
/// suffix.
#[derive(Clone, Copy, Debug, PartialEq, Eq, Structural)]
pub struct ArchiveRecord {
    pub timestamp: Timestamp,
    pub compressed: bool,
}

/// The byte `-` that separates the fields of the timestamp suffix.
pub const DASH: u8 = 45;

/// The suffix appended to an archive name once it has been compressed.
pub open spec fn compressed_suffix() -> Seq<u8> {
    seq![46u8, 120u8, 122u8]
}

pub open spec fn is_digit(b: u8) -> bool {
    48 <= b <= 57
}

pub open spec fn digit_val(b: u8) -> int {
    b - 48
}

pub open spec fn dig(n: int) -> u8 {
    (48 + n) as u8
}

pub open spec fn two_digits(n: int) -> Seq<u8> {
    seq![dig(n / 10), dig(n % 10)]
}

pub open spec fn three_digits(n: int) -> Seq<u8> {
    seq![dig(n / 100)] + two_digits(n % 100)
}

pub open spec fn four_digits(n: int) -> Seq<u8> {
    two_digits(n / 100) + two_digits(n % 100)
}

/// The fixed-width, zero-padded timestamp suffix `-YYYY-MM-DD-HH-mm-ss-mmm`
/// (24 bytes). Fixed width makes lexicographic order on names coincide with
/// chronological order and gives collision avoidance down to a millisecond.
pub open spec fn timestamp_suffix(ts: Timestamp) -> Seq<u8> {
    seq![DASH] + four_digits(ts.year as int) + seq![DASH] + two_digits(ts.month as int)
        + seq![DASH] + two_digits(ts.day as int) + seq![DASH] + two_digits(ts.hour as int)
        + seq![DASH] + two_digits(ts.minute as int) + seq![DASH] + two_digits(ts.second as int)
        + seq![DASH] + three_digits(ts.millis as int)
}

/// The archive name for a rotation at `ts` of a log file whose name splits
/// into `stem` and `ext` (the extension keeps its leading dot; it may be
/// empty): `{stem}{-YYYY-MM-DD-HH-mm-ss-mmm}{ext}`.
pub open spec fn spec_archive_name(stem: Seq<u8>, ext: Seq<u8>, ts: Timestamp) -> Seq<u8> {
    stem + timestamp_suffix(ts) + ext
}

/// The name of the compressed sibling of an archive.
pub open spec fn spec_compressed_name(name: Seq<u8>) -> Seq<u8> {
    name + compressed_suffix()
}

/// The value of the two digits at `i`.
pub open spec fn val2(s: Seq<u8>, i: int) -> int {
    digit_val(s[i]) * 10 + digit_val(s[i + 1])
}

/// The value of the three digits at `i`.
pub open spec fn val3(s: Seq<u8>, i: int) -> int {
    digit_val(s[i]) * 100 + val2(s, i + 1)
}

/// The value of the four digits at `i`.
pub open spec fn val4(s: Seq<u8>, i: int) -> int {
    val2(s, i) * 100 + val2(s, i + 2)
}

/// The timestamp whose fields are read out of a well-formed 24-byte suffix.
pub open spec fn suffix_ts(s: Seq<u8>) -> Timestamp {
    Timestamp {
        year: val4(s, 1) as u64,
        month: val2(s, 6) as u64,
        day: val2(s, 9) as u64,
        hour: val2(s, 12) as u64,
        minute: val2(s, 15) as u64,
        second: val2(s, 18) as u64,
        millis: val3(s, 21) as u64,
    }
}

/// The positions inside the 24-byte suffix that must hold digits.
pub open spec fn suffix_digit_positions_ok(s: Seq<u8>) -> bool {
    &&& is_digit(s[1]) && is_digit(s[2]) && is_digit(s[3]) && is_digit(s[4])
    &&& is_digit(s[6]) && is_digit(s[7])
    &&& is_digit(s[9]) && is_digit(s[10])
    &&& is_digit(s[12]) && is_digit(s[13])
    &&& is_digit(s[15]) && is_digit(s[16])
    &&& is_digit(s[18]) && is_digit(s[19])
    &&& is_digit(s[21]) && is_digit(s[22]) && is_digit(s[23])
}

/// A well-formed timestamp suffix: 24 bytes, dashes and digits in their
/// fixed positions, and fields inside their calendar ranges. Anything else
/// is rejected, so unrelated files that merely share the stem prefix do not
/// parse.
pub open spec fn suffix_wf(s: Seq<u8>) -> bool {
    &&& s.len() == 24
    &&& s[0] == DASH && s[5] == DASH && s[8] == DASH && s[11] == DASH && s[14] == DASH
        && s[17] == DASH && s[20] == DASH
    &&& suffix_digit_positions_ok(s)
    &&& suffix_ts(s).valid()
}

/// What a file name means for the log whose name splits into `stem` and
/// `ext`: an uncompressed archive, a compressed archive, or nothing.
pub open spec fn parse_spec(name: Seq<u8>, stem: Seq<u8>, ext: Seq<u8>) -> Option<ArchiveRecord> {
    let sl = stem.len() as int;
    let el = ext.len() as int;
    if {
        &&& name.len() == sl + 24 + el
        &&& name.subrange(0, sl) == stem
        &&& suffix_wf(name.subrange(sl, sl + 24))
        &&& name.subrange(sl + 24, name.len() as int) == ext
    } {
        Some(
            (ArchiveRecord {
                timestamp: suffix_ts(name.subrange(sl, sl + 24)),
                compressed: false,
            }),
        )
    } else if {
        &&& name.len() == sl + 24 + el + 3
        &&& name.subrange(0, sl) == stem
        &&& suffix_wf(name.subrange(sl, sl + 24))
        &&& name.subrange(sl + 24, sl + 24 + el) == ext
        &&& name.subrange(sl + 24 + el, name.len() as int) == compressed_suffix()
    } {
        Some(
            (ArchiveRecord {
                timestamp: suffix_ts(name.subrange(sl, sl + 24)),
                compressed: true,
            }),
        )
    } else {
        None
    }
}

proof fn lemma_dig(n: int)
    requires
        0 <= n <= 9,
    ensures
        is_digit(dig(n)),
        digit_val(dig(n)) == n,
{
}

proof fn lemma_two_digits(n: int)
    requires
        0 <= n < 100,
    ensures
        two_digits(n).len() == 2,
        is_digit(two_digits(n)[0]),
        is_digit(two_digits(n)[1]),
        val2(two_digits(n), 0) == n,
{
    lemma_fundamental_div_mod(n, 10);
    lemma_mod_bound(n, 10);
    lemma_dig(n / 10);
    lemma_dig(n % 10);
}

proof fn lemma_three_digits(n: int)
    requires
        0 <= n < 1000,
    ensures
        three_digits(n).len() == 3,
        is_digit(three_digits(n)[0]),
        is_digit(three_digits(n)[1]),
        is_digit(three_digits(n)[2]),
        val3(three_digits(n), 0) == n,
{
    lemma_fundamental_div_mod(n, 100);
    lemma_mod_bound(n, 100);
    lemma_dig(n / 100);
    lemma_two_digits(n % 100);
    assert(val2(three_digits(n), 1) == val2(two_digits(n % 100), 0));
}

proof fn lemma_four_digits(n: int)
    requires
        0 <= n < 10000,
    ensures
        four_digits(n).len() == 4,
        is_digit(four_digits(n)[0]),
        is_digit(four_digits(n)[1]),
        is_digit(four_digits(n)[2]),
        is_digit(four_digits(n)[3]),
        val4(four_digits(n), 0) == n,
{
    lemma_fundamental_div_mod(n, 100);
    lemma_mod_bound(n, 100);
    lemma_two_digits(n / 100);
    lemma_two_digits(n % 100);
    assert(val2(four_digits(n), 0) == val2(two_digits(n / 100), 0));
    assert(val2(four_digits(n), 2) == val2(two_digits(n % 100), 0));
}

/// The suffix built from a valid timestamp is well formed and reads back as
/// the same timestamp.
#[verifier::rlimit(50)]
pub proof fn lemma_suffix_round_trip(ts: Timestamp)
    requires
        ts.valid(),
    ensures
        timestamp_suffix(ts).len() == 24,
        suffix_wf(timestamp_suffix(ts)),
        suffix_ts(timestamp_suffix(ts)) == ts,
{
    let s = timestamp_suffix(ts);
    let y = ts.year as int;
    let mo = ts.month as int;
    let d = ts.day as int;
    let h = ts.hour as int;
    let mi = ts.minute as int;
    let se = ts.second as int;
    let ms = ts.millis as int;
    lemma_four_digits(y);
    lemma_two_digits(mo);
    lemma_two_digits(d);
    lemma_two_digits(h);
    lemma_two_digits(mi);
    lemma_two_digits(se);
    lemma_three_digits(ms);
    assert(s[0] == DASH && s[5] == DASH && s[8] == DASH && s[11] == DASH && s[14] == DASH
        && s[17] == DASH && s[20] == DASH);
    assert(s[1] == four_digits(y)[0] && s[2] == four_digits(y)[1] && s[3] == four_digits(y)[2]
        && s[4] == four_digits(y)[3]);
    assert(s[6] == two_digits(mo)[0] && s[7] == two_digits(mo)[1]);
    assert(s[9] == two_digits(d)[0] && s[10] == two_digits(d)[1]);
    assert(s[12] == two_digits(h)[0] && s[13] == two_digits(h)[1]);
    assert(s[15] == two_digits(mi)[0] && s[16] == two_digits(mi)[1]);
    assert(s[18] == two_digits(se)[0] && s[19] == two_digits(se)[1]);
    assert(s[21] == three_digits(ms)[0] && s[22] == three_digits(ms)[1] && s[23] == three_digits(
        ms,
    )[2]);
    assert(val4(s, 1) == val4(four_digits(y), 0));
    assert(val2(s, 6) == val2(two_digits(mo), 0));
    assert(val2(s, 9) == val2(two_digits(d), 0));
    assert(val2(s, 12) == val2(two_digits(h), 0));
    assert(val2(s, 15) == val2(two_digits(mi), 0));
    assert(val2(s, 18) == val2(two_digits(se), 0));
    assert(val3(s, 21) == val3(three_digits(ms), 0));
}

/// Round-trip law: a name produced by the naming scheme for a valid
/// timestamp always parses back to the equivalent archive record, both in
/// its plain and in its compressed form.
#[verifier::rlimit(50)]
pub proof fn lemma_archive_name_round_trip(stem: Seq<u8>, ext: Seq<u8>, ts: Timestamp)
    requires
        ts.valid(),
    ensures
        parse_spec(spec_archive_name(stem, ext, ts), stem, ext) == Some(
            (ArchiveRecord { timestamp: ts, compressed: false }),
        ),
        parse_spec(spec_compressed_name(spec_archive_name(stem, ext, ts)), stem, ext) == Some(
            (ArchiveRecord { timestamp: ts, compressed: true }),
        ),
{
    let sl = stem.len() as int;
    let el = ext.len() as int;
    let s = timestamp_suffix(ts);
    lemma_suffix_round_trip(ts);
    let name = spec_archive_name(stem, ext, ts);
    assert(name.len() == sl + 24 + el);
    assert(name.subrange(0, sl) =~= stem);
    assert(name.subrange(sl, sl + 24) =~= s);
    assert(name.subrange(sl + 24, name.len() as int) =~= ext);
    let cname = spec_compressed_name(name);
    assert(cname.len() == sl + 24 + el + 3);
    assert(cname.subrange(0, sl) =~= stem);
    assert(cname.subrange(sl, sl + 24) =~= s);
    assert(cname.subrange(sl + 24, sl + 24 + el) =~= ext);
    assert(cname.subrange(sl + 24 + el, cname.len() as int) =~= compressed_suffix());
}

proof fn lemma_val2_inverse(s: Seq<u8>, i: int)
    requires
        0 <= i,
        i + 2 <= s.len(),
        is_digit(s[i]),
        is_digit(s[i + 1]),
    ensures
        0 <= val2(s, i) < 100,
        two_digits(val2(s, i))[0] == s[i],
        two_digits(val2(s, i))[1] == s[i + 1],
{
    let v = val2(s, i);
    lemma_fundamental_div_mod_converse(v, 10, digit_val(s[i]), digit_val(s[i + 1]));
}

proof fn lemma_val3_inverse(s: Seq<u8>, i: int)
    requires
        0 <= i,
        i + 3 <= s.len(),
        is_digit(s[i]),
        is_digit(s[i + 1]),
        is_digit(s[i + 2]),
    ensures
        0 <= val3(s, i) < 1000,
        three_digits(val3(s, i))[0] == s[i],
        three_digits(val3(s, i))[1] == s[i + 1],
        three_digits(val3(s, i))[2] == s[i + 2],
{
    let v = val3(s, i);
    lemma_val2_inverse(s, i + 1);
    lemma_fundamental_div_mod_converse(v, 100, digit_val(s[i]), val2(s, i + 1));
}

proof fn lemma_val4_inverse(s: Seq<u8>, i: int)
    requires
        0 <= i,
        i + 4 <= s.len(),
        is_digit(s[i]),
        is_digit(s[i + 1]),
        is_digit(s[i + 2]),
        is_digit(s[i + 3]),
    ensures
        0 <= val4(s, i) < 10000,
        four_digits(val4(s, i))[0] == s[i],
        four_digits(val4(s, i))[1] == s[i + 1],
        four_digits(val4(s, i))[2] == s[i + 2],
        four_digits(val4(s, i))[3] == s[i + 3],
{
    let v = val4(s, i);
    lemma_val2_inverse(s, i);
    lemma_val2_inverse(s, i + 2);
    lemma_fundamental_div_mod_converse(v, 100, val2(s, i), val2(s, i + 2));
    assert(four_digits(v)[0] == two_digits(v / 100)[0]);
    assert(four_digits(v)[1] == two_digits(v / 100)[1]);
    assert(four_digits(v)[2] == two_digits(v % 100)[0]);
    assert(four_digits(v)[3] == two_digits(v % 100)[1]);
}

/// A well-formed suffix is exactly the suffix rebuilt from the timestamp it
/// denotes: the naming scheme loses nothing.
#[verifier::rlimit(50)]
pub proof fn lemma_suffix_reconstruct(s: Seq<u8>)
    requires
        suffix_wf(s),
    ensures
        timestamp_suffix(suffix_ts(s)) == s,
{
    let ts = suffix_ts(s);
    let t = timestamp_suffix(ts);
    lemma_val4_inverse(s, 1);
    lemma_val2_inverse(s, 6);
    lemma_val2_inverse(s, 9);
    lemma_val2_inverse(s, 12);
    lemma_val2_inverse(s, 15);
    lemma_val2_inverse(s, 18);
    lemma_val3_inverse(s, 21);
    assert(t[0] == DASH && t[5] == DASH && t[8] == DASH && t[11] == DASH && t[14] == DASH && t[17]
        == DASH && t[20] == DASH);
    assert(t[1] == four_digits(ts.year as int)[0] && t[2] == four_digits(ts.year as int)[1] && t[3]
        == four_digits(ts.year as int)[2] && t[4] == four_digits(ts.year as int)[3]);
    assert(t[6] == two_digits(ts.month as int)[0] && t[7] == two_digits(ts.month as int)[1]);
    assert(t[9] == two_digits(ts.day as int)[0] && t[10] == two_digits(ts.day as int)[1]);
    assert(t[12] == two_digits(ts.hour as int)[0] && t[13] == two_digits(ts.hour as int)[1]);
    assert(t[15] == two_digits(ts.minute as int)[0] && t[16] == two_digits(ts.minute as int)[1]);
    assert(t[18] == two_digits(ts.second as int)[0] && t[19] == two_digits(ts.second as int)[1]);
    assert(t[21] == three_digits(ts.millis as int)[0] && t[22] == three_digits(ts.millis as int)[1]
        && t[23] == three_digits(ts.millis as int)[2]);
    assert(t =~= s);
}

/// Soundness of parsing: a file name parses to a record only when it is
/// exactly the archive name (plain or compressed) that the naming scheme
/// would produce for that record. Together with
/// [`lemma_archive_name_round_trip`] this pins parsing down completely.
#[verifier::rlimit(40)]
pub proof fn lemma_parse_sound(name: Seq<u8>, stem: Seq<u8>, ext: Seq<u8>, rec: ArchiveRecord)
    requires
        parse_spec(name, stem, ext) == Some(rec),
    ensures
        rec.timestamp.valid(),
        !rec.compressed ==> name == spec_archive_name(stem, ext, rec.timestamp),
        rec.compressed ==> name == spec_compressed_name(
            spec_archive_name(stem, ext, rec.timestamp),
        ),
{
    let sl = stem.len() as int;
    let el = ext.len() as int;
    let s = name.subrange(sl, sl + 24);
    lemma_suffix_reconstruct(s);
    if !rec.compressed {
        assert(name =~= stem + timestamp_suffix(rec.timestamp) + ext);
    } else {
        assert(name =~= stem + timestamp_suffix(rec.timestamp) + ext + compressed_suffix());
    }
}

/// Appends a copy of `s` to `v`.
pub fn push_bytes(v: &mut Vec<u8>, s: &Vec<u8>)
    ensures
        final(v)@ == old(v)@ + s@,
{
    let mut i: usize = 0;
    while i < s.len()
        invariant
            i <= s@.len(),
            v@ == old(v)@ + s@.subrange(0, i as int),
        decreases s@.len() - i,
    {
        v.push(s[i]);
        assert(v@ =~= old(v)@ + s@.subrange(0, i + 1));
        i = i + 1;
    }
    assert(v@ =~= old(v)@ + s@);
}

fn push_two_digits(v: &mut Vec<u8>, n: u64)
    requires
        n < 100,
    ensures
        final(v)@ == old(v)@ + two_digits(n as int),
{
    v.push((48 + n / 10) as u8);
    v.push((48 + n % 10) as u8);
    assert(v@ =~= old(v)@ + two_digits(n as int));
}

fn push_three_digits(v: &mut Vec<u8>, n: u64)
    requires
        n < 1000,
    ensures
        final(v)@ == old(v)@ + three_digits(n as int),
{
    v.push((48 + n / 100) as u8);
    push_two_digits(v, n % 100);
    assert(v@ =~= old(v)@ + three_digits(n as int));
}

fn push_four_digits(v: &mut Vec<u8>, n: u64)
    requires
        n < 10000,
    ensures
        final(v)@ == old(v)@ + four_digits(n as int),
{
    push_two_digits(v, n / 100);
    push_two_digits(v, n % 100);
    assert(v@ =~= old(v)@ + four_digits(n as int));
}

/// Builds the archive name for a rotation of `{stem}{ext}` at `ts`.
pub fn archive_name(stem: &Vec<u8>, ext: &Vec<u8>, ts: &Timestamp) -> (name: Vec<u8>)
    requires
        ts.valid(),
    ensures
        name@ == spec_archive_name(stem@, ext@, *ts),
{
    let mut name: Vec<u8> = Vec::new();
    push_bytes(&mut name, stem);
    name.push(DASH);
    push_four_digits(&mut name, ts.year);
    name.push(DASH);
    push_two_digits(&mut name, ts.month);
    name.push(DASH);
    push_two_digits(&mut name, ts.day);
    name.push(DASH);
    push_two_digits(&mut name, ts.hour);
    name.push(DASH);
    push_two_digits(&mut name, ts.minute);
    name.push(DASH);
    push_two_digits(&mut name, ts.second);
    name.push(DASH);
    push_three_digits(&mut name, ts.millis);
    push_bytes(&mut name, ext);
    assert(name@ =~= spec_archive_name(stem@, ext@, *ts));
    name
}

/// The name the compressed copy of `name` is stored under.
pub fn compressed_name(name: &Vec<u8>) -> (r: Vec<u8>)
    ensures
        r@ == spec_compressed_name(name@),
{
    let mut r: Vec<u8> = Vec::new();
    push_bytes(&mut r, name);
    r.push(46);
    r.push(120);
    r.push(122);
    assert(r@ =~= spec_compressed_name(name@));
    r
}

/// Strict lexicographic order on byte strings, as far as the first
/// difference.
pub open spec fn lex_lt(a: Seq<u8>, b: Seq<u8>) -> bool {
    exists|i: int|
        0 <= i < a.len() && i < b.len() && a[i] < b[i] && (forall|j: int| 0 <= j < i ==> a[j]
            == b[j])
}

proof fn lemma_lex_extend(s: Seq<u8>, t: Seq<u8>, p: Seq<u8>, x: Seq<u8>, y: Seq<u8>)
    requires
        lex_lt(x, y),
        exists|xs: Seq<u8>| s == p + x + xs,
        exists|ys: Seq<u8>| t == p + y + ys,
    ensures
        lex_lt(s, t),
{
    let xs = choose|xs: Seq<u8>| s == p + x + xs;
    let ys = choose|ys: Seq<u8>| t == p + y + ys;
    let i = choose|i: int|
        0 <= i < x.len() && i < y.len() && x[i] < y[i] && (forall|j: int| 0 <= j < i ==> x[j]
            == y[j]);
    let k = p.len() + i;
    assert(s[k] == x[i]);
    assert(t[k] == y[i]);
    assert forall|j: int| 0 <= j < k implies s[j] == t[j] by {
        if j < p.len() {
            assert(s[j] == p[j] && t[j] == p[j]);
        } else {
            assert(s[j] == x[j - p.len()] && t[j] == y[j - p.len()]);
        }
    }
}

proof fn lemma_two_digits_lex(u: int, v: int)
    requires
        0 <= u < v < 100,
    ensures
        lex_lt(two_digits(u), two_digits(v)),
{
    lemma_fundamental_div_mod(u, 10);
    lemma_fundamental_div_mod(v, 10);
    lemma_mod_bound(u, 10);
    lemma_mod_bound(v, 10);
    vstd::arithmetic::div_mod::lemma_div_is_ordered(u, v, 10);
    if u / 10 == v / 10 {
        assert(two_digits(u)[1] < two_digits(v)[1]);
    } else {
        assert(two_digits(u)[0] < two_digits(v)[0]);
    }
}

proof fn lemma_three_digits_lex(u: int, v: int)
    requires
        0 <= u < v < 1000,
    ensures
        lex_lt(three_digits(u), three_digits(v)),
{
    lemma_fundamental_div_mod(u, 100);
    lemma_fundamental_div_mod(v, 100);
    lemma_mod_bound(u, 100);
    lemma_mod_bound(v, 100);
    vstd::arithmetic::div_mod::lemma_div_is_ordered(u, v, 100);
    if u / 100 == v / 100 {
        lemma_two_digits_lex(u % 100, v % 100);
        let p = seq![dig(u / 100)];
        assert(three_digits(u) == p + two_digits(u % 100) + Seq::<u8>::empty()) by {
            assert(three_digits(u) =~= p + two_digits(u % 100) + Seq::<u8>::empty());
        }
        assert(three_digits(v) == p + two_digits(v % 100) + Seq::<u8>::empty()) by {
            assert(three_digits(v) =~= p + two_digits(v % 100) + Seq::<u8>::empty());
        }
        lemma_lex_extend(
            three_digits(u),
            three_digits(v),
            p,
            two_digits(u % 100),
            two_digits(v % 100),
        );
    } else {
        assert(three_digits(u)[0] < three_digits(v)[0]);
    }
}

proof fn lemma_four_digits_lex(u: int, v: int)
    requires
        0 <= u < v < 10000,
    ensures
        lex_lt(four_digits(u), four_digits(v)),
{
    lemma_fundamental_div_mod(u, 100);
    lemma_fundamental_div_mod(v, 100);
    lemma_mod_bound(u, 100);
    lemma_mod_bound(v, 100);
    vstd::arithmetic::div_mod::lemma_div_is_ordered(u, v, 100);
    let e = Seq::<u8>::empty();
    if u / 100 == v / 100 {
        lemma_two_digits_lex(u % 100, v % 100);
        let p = two_digits(u / 100);
        assert(four_digits(u) == p + two_digits(u % 100) + e) by {
            assert(four_digits(u) =~= p + two_digits(u % 100) + e);
        }
        assert(four_digits(v) == p + two_digits(v % 100) + e) by {
            assert(four_digits(v) =~= p + two_digits(v % 100) + e);
        }
        lemma_lex_extend(four_digits(u), four_digits(v), p, two_digits(u % 100), two_digits(
            v % 100,
        ));
    } else {
        lemma_two_digits_lex(u / 100, v / 100);
        assert(four_digits(u) == e + two_digits(u / 100) + two_digits(u % 100)) by {
            assert(four_digits(u) =~= e + two_digits(u / 100) + two_digits(u % 100));
        }
        assert(four_digits(v) == e + two_digits(v / 100) + two_digits(v % 100)) by {
            assert(four_digits(v) =~= e + two_digits(v / 100) + two_digits(v % 100));
        }
        lemma_lex_extend(four_digits(u), four_digits(v), e, two_digits(u / 100), two_digits(
            v / 100,
        ));
    }
}

proof fn lemma_lex_asymmetric(a: Seq<u8>, b: Seq<u8>)
    requires
        lex_lt(a, b),
    ensures
        !lex_lt(b, a),
{
    if lex_lt(b, a) {
        let i1 = choose|i: int|
            0 <= i < a.len() && i < b.len() && a[i] < b[i] && (forall|j: int| 0 <= j < i ==> a[j]
                == b[j]);
        let i2 = choose|i: int|
            0 <= i < b.len() && i < a.len() && b[i] < a[i] && (forall|j: int| 0 <= j < i ==> b[j]
                == a[j]);
        if i1 < i2 {
            assert(b[i1] == a[i1]);
        } else if i2 < i1 {
            assert(a[i2] == b[i2]);
        }
    }
}

#[verifier::rlimit(100)]
proof fn lemma_chronological_implies_lex(a: Timestamp, b: Timestamp)
    requires
        a.valid(),
        b.valid(),
        a.key() < b.key(),
    ensures
        lex_lt(timestamp_suffix(a), timestamp_suffix(b)),
{
    let sa = timestamp_suffix(a);
    let sb = timestamp_suffix(b);
    let d = seq![DASH];
    if a.year != b.year {
        assert(a.year < b.year);
        lemma_four_digits_lex(a.year as int, b.year as int);
        assert(exists|xs: Seq<u8>| sa == d + four_digits(a.year as int) + xs) by {
            let xs = d + two_digits(a.month as int) + d + two_digits(a.day as int) + d
                + two_digits(a.hour as int) + d + two_digits(a.minute as int) + d + two_digits(
                a.second as int,
            ) + d + three_digits(a.millis as int);
            assert(sa =~= d + four_digits(a.year as int) + xs);
        }
        assert(exists|ys: Seq<u8>| sb == d + four_digits(b.year as int) + ys) by {
            let ys = d + two_digits(b.month as int) + d + two_digits(b.day as int) + d
                + two_digits(b.hour as int) + d + two_digits(b.minute as int) + d + two_digits(
                b.second as int,
            ) + d + three_digits(b.millis as int);
            assert(sb =~= d + four_digits(b.year as int) + ys);
        }
        lemma_lex_extend(sa, sb, d, four_digits(a.year as int), four_digits(b.year as int));
    } else if a.month != b.month {
        assert(a.month < b.month);
        lemma_two_digits_lex(a.month as int, b.month as int);
        let p = d + four_digits(a.year as int) + d;
        assert(exists|xs: Seq<u8>| sa == p + two_digits(a.month as int) + xs) by {
            let xs = d + two_digits(a.day as int) + d + two_digits(a.hour as int) + d
                + two_digits(a.minute as int) + d + two_digits(a.second as int) + d
                + three_digits(a.millis as int);
            assert(sa =~= p + two_digits(a.month as int) + xs);
        }
        assert(exists|ys: Seq<u8>| sb == p + two_digits(b.month as int) + ys) by {
            let ys = d + two_digits(b.day as int) + d + two_digits(b.hour as int) + d
                + two_digits(b.minute as int) + d + two_digits(b.second as int) + d
                + three_digits(b.millis as int);
            assert(sb =~= p + two_digits(b.month as int) + ys);
        }
        lemma_lex_extend(sa, sb, p, two_digits(a.month as int), two_digits(b.month as int));
    } else if a.day != b.day {
        assert(a.day < b.day);
        lemma_two_digits_lex(a.day as int, b.day as int);
        let p = d + four_digits(a.year as int) + d + two_digits(a.month as int) + d;
        assert(exists|xs: Seq<u8>| sa == p + two_digits(a.day as int) + xs) by {
            let xs = d + two_digits(a.hour as int) + d + two_digits(a.minute as int) + d
                + two_digits(a.second as int) + d + three_digits(a.millis as int);
            assert(sa =~= p + two_digits(a.day as int) + xs);
        }
        assert(exists|ys: Seq<u8>| sb == p + two_digits(b.day as int) + ys) by {
            let ys = d + two_digits(b.hour as int) + d + two_digits(b.minute as int) + d
                + two_digits(b.second as int) + d + three_digits(b.millis as int);
            assert(sb =~= p + two_digits(b.day as int) + ys);
        }
        lemma_lex_extend(sa, sb, p, two_digits(a.day as int), two_digits(b.day as int));
    } else if a.hour != b.hour {
        assert(a.hour < b.hour);
        lemma_two_digits_lex(a.hour as int, b.hour as int);
        let p = d + four_digits(a.year as int) + d + two_digits(a.month as int) + d + two_digits(
            a.day as int,
        ) + d;
        assert(exists|xs: Seq<u8>| sa == p + two_digits(a.hour as int) + xs) by {
            let xs = d + two_digits(a.minute as int) + d + two_digits(a.second as int) + d
                + three_digits(a.millis as int);
            assert(sa =~= p + two_digits(a.hour as int) + xs);
        }
        assert(exists|ys: Seq<u8>| sb == p + two_digits(b.hour as int) + ys) by {
            let ys = d + two_digits(b.minute as int) + d + two_digits(b.second as int) + d
                + three_digits(b.millis as int);
            assert(sb =~= p + two_digits(b.hour as int) + ys);
        }
        lemma_lex_extend(sa, sb, p, two_digits(a.hour as int), two_digits(b.hour as int));
    } else if a.minute != b.minute {
        assert(a.minute < b.minute);
        lemma_two_digits_lex(a.minute as int, b.minute as int);
        let p = d + four_digits(a.year as int) + d + two_digits(a.month as int) + d + two_digits(
            a.day as int,
        ) + d + two_digits(a.hour as int) + d;
        assert(exists|xs: Seq<u8>| sa == p + two_digits(a.minute as int) + xs) by {
            let xs = d + two_digits(a.second as int) + d + three_digits(a.millis as int);
            assert(sa =~= p + two_digits(a.minute as int) + xs);
        }
        assert(exists|ys: Seq<u8>| sb == p + two_digits(b.minute as int) + ys) by {
            let ys = d + two_digits(b.second as int) + d + three_digits(b.millis as int);
            assert(sb =~= p + two_digits(b.minute as int) + ys);
        }
        lemma_lex_extend(sa, sb, p, two_digits(a.minute as int), two_digits(b.minute as int));
    } else if a.second != b.second {
        assert(a.second < b.second);
        lemma_two_digits_lex(a.second as int, b.second as int);
        let p = d + four_digits(a.year as int) + d + two_digits(a.month as int) + d + two_digits(
            a.day as int,
        ) + d + two_digits(a.hour as int) + d + two_digits(a.minute as int) + d;
        assert(exists|xs: Seq<u8>| sa == p + two_digits(a.second as int) + xs) by {
            let xs = d + three_digits(a.millis as int);
            assert(sa =~= p + two_digits(a.second as int) + xs);
        }
        assert(exists|ys: Seq<u8>| sb == p + two_digits(b.second as int) + ys) by {
            let ys = d + three_digits(b.millis as int);
            assert(sb =~= p + two_digits(b.second as int) + ys);
        }
        lemma_lex_extend(sa, sb, p, two_digits(a.second as int), two_digits(b.second as int));
    } else {
        assert(a.millis < b.millis);
        lemma_three_digits_lex(a.millis as int, b.millis as int);
        let p = d + four_digits(a.year as int) + d + two_digits(a.month as int) + d + two_digits(
            a.day as int,
        ) + d + two_digits(a.hour as int) + d + two_digits(a.minute as int) + d + two_digits(
            a.second as int,
        ) + d;
        assert(exists|xs: Seq<u8>| sa == p + three_digits(a.millis as int) + xs) by {
            let xs = Seq::<u8>::empty();
            assert(sa =~= p + three_digits(a.millis as int) + xs);
        }
        assert(exists|ys: Seq<u8>| sb == p + three_digits(b.millis as int) + ys) by {
            let ys = Seq::<u8>::empty();
            assert(sb =~= p + three_digits(b.millis as int) + ys);
        }
        lemma_lex_extend(sa, sb, p, three_digits(a.millis as int), three_digits(b.millis as int));
    }
}

/// Because the suffix is fixed-width and zero-padded, lexicographic order
/// on archive names coincides with chronological order.
pub proof fn lemma_suffix_order_is_chronological(a: Timestamp, b: Timestamp)
    requires
        a.valid(),
        b.valid(),
    ensures
        a.key() < b.key() <==> lex_lt(timestamp_suffix(a), timestamp_suffix(b)),
{
    if a.key() < b.key() {
        lemma_chronological_implies_lex(a, b);
    } else if lex_lt(timestamp_suffix(a), timestamp_suffix(b)) {
        if a.key() == b.key() {
            Timestamp::lemma_key_injective(a, b);
            lemma_lex_asymmetric(timestamp_suffix(a), timestamp_suffix(a));
        } else {
            lemma_chronological_implies_lex(b, a);
            lemma_lex_asymmetric(timestamp_suffix(b), timestamp_suffix(a));
        }
    }
}

/// Where the file name starts inside a path: right after the last `/`
/// (byte 47), or at the start when the path holds none.
pub open spec fn start_of_name(path: Seq<u8>) -> int
    decreases path.len(),
{
    if path.len() == 0 {
        0
    } else if path.last() == 47u8 {
        path.len() as int
    } else {
        start_of_name(path.drop_last())
    }
}

/// The file-name component of a path: everything after the last `/`.
pub open spec fn file_name_of(path: Seq<u8>) -> Seq<u8> {
    path.subrange(start_of_name(path), path.len() as int)
}

/// The position of the last `.` (byte 46) in a file name, or -1.
pub open spec fn last_dot(name: Seq<u8>) -> int
    decreases name.len(),
{
    if name.len() == 0 {
        -1
    } else if name.last() == 46u8 {
        name.len() - 1
    } else {
        last_dot(name.drop_last())
    }
}

/// Where a file name splits into stem and extension: at the last `.`,
/// unless there is none or it is the leading byte (a dot file has no
/// extension), in which case the whole name is the stem.
pub open spec fn stem_len_of(name: Seq<u8>) -> int {
    if last_dot(name) > 0 {
        last_dot(name)
    } else {
        name.len() as int
    }
}

/// The stem of a file name: the part before the extension.
pub open spec fn stem_of(name: Seq<u8>) -> Seq<u8> {
    name.subrange(0, stem_len_of(name))
}

/// The extension of a file name, leading dot included; empty when the name
/// has none.
pub open spec fn ext_of(name: Seq<u8>) -> Seq<u8> {
    name.subrange(stem_len_of(name), name.len() as int)
}

proof fn lemma_start_of_name(path: Seq<u8>)
    ensures
        0 <= start_of_name(path) <= path.len(),
        start_of_name(path) > 0 ==> path[start_of_name(path) - 1] == 47u8,
        forall|j: int| start_of_name(path) <= j < path.len() ==> path[j] != 47u8,
    decreases path.len(),
{
    if path.len() > 0 && path.last() != 47u8 {
        lemma_start_of_name(path.drop_last());
        assert forall|j: int| start_of_name(path) <= j < path.len() implies path[j] != 47u8 by {
            if j < path.len() - 1 {
                assert(path.drop_last()[j] == path[j]);
            }
        }
    }
}

proof fn lemma_last_dot(name: Seq<u8>)
    ensures
        -1 <= last_dot(name) < name.len(),
        last_dot(name) >= 0 ==> name[last_dot(name)] == 46u8,
        forall|j: int| last_dot(name) < j < name.len() ==> name[j] != 46u8,
    decreases name.len(),
{
    if name.len() > 0 && name.last() != 46u8 {
        lemma_last_dot(name.drop_last());
        assert forall|j: int| last_dot(name) < j < name.len() implies name[j] != 46u8 by {
            if j < name.len() - 1 {
                assert(name.drop_last()[j] == name[j]);
            }
        }
    }
}

/// A copy of the bytes of `v` from `from` (inclusive) to `to` (exclusive).
pub fn copy_range(v: &Vec<u8>, from: usize, to: usize) -> (r: Vec<u8>)
    requires
        from <= to <= v@.len(),
    ensures
        r@ == v@.subrange(from as int, to as int),
{
    let n = v.len();
    assert(to <= n);
    let mut r: Vec<u8> = Vec::new();
    let mut i: usize = from;
    while i < to
        invariant
            from <= i <= to <= v@.len() <= usize::MAX,
            r@ == v@.subrange(from as int, i as int),
        decreases to - i,
    {
        proof {
            assert(v@.subrange(from as int, i + 1) =~= v@.subrange(from as int, i as int).push(
                v@[i as int],
            ));
        }
        r.push(v[i]);
        i = i + 1;
    }
    r
}

/// The file-name component of a path: everything after the last `/`. The
/// path is taken as raw bytes; directory separators other than `/` are not
/// interpreted.
pub fn file_name(path: &Vec<u8>) -> (r: Vec<u8>)
    ensures
        r@ == file_name_of(path@),
{
    let n = path.len();
    let mut i: usize = n;
    loop
        invariant
            i <= n,
            n == path@.len(),
            forall|j: int| i <= j < n ==> path@[j] != 47u8,
        ensures
            i <= n,
            forall|j: int| i <= j < n ==> path@[j] != 47u8,
            i > 0 ==> path@[i - 1] == 47u8,
        decreases i,
    {
        if i == 0 {
            break;
        }
        if path[i - 1] == 47 {
            break;
        }
        i = i - 1;
    }
    proof {
        lemma_start_of_name(path@);
        let s = start_of_name(path@);
        if i < s {
            assert(path@[s - 1] == 47u8);
        }
        if i > s {
            assert(path@[i - 1] != 47u8);
        }
    }
    copy_range(path, i, n)
}

/// Splits a file name into stem and extension at the last dot. A name
/// without a dot, or whose only dot leads it, has an empty extension.
pub fn split_name(name: &Vec<u8>) -> (r: (Vec<u8>, Vec<u8>))
    ensures
        r.0@ == stem_of(name@),
        r.1@ == ext_of(name@),
        r.0@ + r.1@ == name@,
{
    let n = name.len();
    let mut i: usize = n;
    loop
        invariant
            i <= n,
            n == name@.len(),
            forall|j: int| i <= j < n ==> name@[j] != 46u8,
        ensures
            i <= n,
            forall|j: int| i <= j < n ==> name@[j] != 46u8,
            i > 0 ==> name@[i - 1] == 46u8,
        decreases i,
    {
        if i == 0 {
            break;
        }
        if name[i - 1] == 46 {
            break;
        }
        i = i - 1;
    }
    proof {
        lemma_last_dot(name@);
        let d = last_dot(name@);
        if i >= 1 {
            if i - 1 < d {
                assert(name@[d] == 46u8);
            }
            if i - 1 > d {
                assert(name@[i - 1] != 46u8);
            }
        } else {
            if d >= 0 {
                assert(name@[d] == 46u8);
            }
        }
    }
    let split = if i >= 2 { i - 1 } else { n };
    let stem = copy_range(name, 0, split);
    let ext = copy_range(name, split, n);
    proof {
        assert(stem@ + ext@ =~= name@);
    }
    (stem, ext)
}

/// Whether the bytes of `name` starting at `at` equal `pat`.
fn bytes_eq_at(name: &Vec<u8>, at: usize, pat: &Vec<u8>) -> (r: bool)
    requires
        at <= name@.len(),
        pat@.len() <= name@.len() - at,
    ensures
        r == (name@.subrange(at as int, at + pat@.len()) == pat@),
{
    let n = name.len();
    assert(at + pat@.len() <= n);
    let mut i: usize = 0;
    while i < pat.len()
        invariant
            i <= pat@.len(),
            at + pat@.len() <= name@.len() <= usize::MAX,
            forall|j: int| 0 <= j < i ==> name@[at + j] == pat@[j],
        decreases pat@.len() - i,
    {
        if name[at + i] != pat[i] {
            assert(name@.subrange(at as int, at + pat@.len())[i as int] != pat@[i as int]);
            return false;
        }
        i = i + 1;
    }
    assert(name@.subrange(at as int, at + pat@.len()) =~= pat@);
    true
}

/// Reads the two digits of `v` at `at`, if both bytes are digits.
fn read2(v: &Vec<u8>, at: usize) -> (r: Option<u64>)
    requires
        at + 2 <= v@.len(),
    ensures
        match r {
            Some(n) => {
                &&& is_digit(v@[at as int]) && is_digit(v@[at + 1])
                &&& n as int == val2(v@, at as int)
                &&& n < 100
            },
            None => !(is_digit(v@[at as int]) && is_digit(v@[at + 1])),
        },
{
    let n = v.len();
    assert(at + 2 <= n);
    let b0 = v[at];
    let b1 = v[at + 1];
    if 48 <= b0 && b0 <= 57 && 48 <= b1 && b1 <= 57 {
        Some(((b0 - 48) as u64) * 10 + ((b1 - 48) as u64))
    } else {
        None
    }
}

/// Reads the three digits of `v` at `at`, if all three bytes are digits.
fn read3(v: &Vec<u8>, at: usize) -> (r: Option<u64>)
    requires
        at + 3 <= v@.len(),
    ensures
        match r {
            Some(n) => {
                &&& is_digit(v@[at as int]) && is_digit(v@[at + 1]) && is_digit(v@[at + 2])
                &&& n as int == val3(v@, at as int)
                &&& n < 1000
            },
            None => !(is_digit(v@[at as int]) && is_digit(v@[at + 1]) && is_digit(v@[at + 2])),
        },
{
    let n = v.len();
    assert(at + 3 <= n);
    let b0 = v[at];
    if 48 <= b0 && b0 <= 57 {
        match read2(v, at + 1) {
            Some(n) => Some(((b0 - 48) as u64) * 100 + n),
            None => None,
        }
    } else {
        None
    }
}

/// Reads the four digits of `v` at `at`, if all four bytes are digits.
fn read4(v: &Vec<u8>, at: usize) -> (r: Option<u64>)
    requires
        at + 4 <= v@.len(),
    ensures
        match r {
            Some(n) => {
                &&& is_digit(v@[at as int]) && is_digit(v@[at + 1]) && is_digit(v@[at + 2])
                    && is_digit(v@[at + 3])
                &&& n as int == val4(v@, at as int)
                &&& n < 10000
            },
            None => !(is_digit(v@[at as int]) && is_digit(v@[at + 1]) && is_digit(v@[at + 2])
                && is_digit(v@[at + 3])),
        },
{
    let n = v.len();
    assert(at + 4 <= n);
    match read2(v, at) {
        Some(hi) => match read2(v, at + 2) {
            Some(lo) => Some(hi * 100 + lo),
            None => None,
        },
        None => None,
    }
}

/// Parses the 24 bytes of `name` at `at` as a timestamp suffix.
fn parse_suffix(name: &Vec<u8>, at: usize) -> (r: Option<Timestamp>)
    requires
        at + 24 <= name@.len(),
    ensures
        match r {
            Some(ts) => suffix_wf(name@.subrange(at as int, at + 24)) && ts == suffix_ts(
                name@.subrange(at as int, at + 24),
            ),
            None => !suffix_wf(name@.subrange(at as int, at + 24)),
        },
{
    let n = name.len();
    assert(at + 24 <= n);
    let ghost s = name@.subrange(at as int, at + 24);
    assert(forall|j: int| 0 <= j < 24 ==> s[j] == name@[at + j]);
    if name[at] != DASH || name[at + 5] != DASH || name[at + 8] != DASH || name[at + 11] != DASH
        || name[at + 14] != DASH || name[at + 17] != DASH || name[at + 20] != DASH {
        return None;
    }
    let year = read4(name, at + 1);
    let month = read2(name, at + 6);
    let day = read2(name, at + 9);
    let hour = read2(name, at + 12);
    let minute = read2(name, at + 15);
    let second = read2(name, at + 18);
    let millis = read3(name, at + 21);
    match (year, month, day, hour, minute, second, millis) {
        (Some(y), Some(mo), Some(d), Some(h), Some(mi), Some(se), Some(ms)) => {
            let ts = Timestamp {
                year: y,
                month: mo,
                day: d,
                hour: h,
                minute: mi,
                second: se,
                millis: ms,
            };
            if ts.is_valid() {
                assert(ts == suffix_ts(s));
                Some(ts)
            } else {
                assert(!suffix_wf(s));
                None
            }
        },
        _ => {
            assert(!suffix_digit_positions_ok(s));
            None
        },
    }
}

/// Parses a directory entry's file name against the naming scheme of the
/// log `{stem}{ext}`: the exact archive shape, either plain or with the
/// compressed suffix. Everything else is `None`.
pub fn parse_archive(name: &Vec<u8>, stem: &Vec<u8>, ext: &Vec<u8>) -> (r: Option<ArchiveRecord>)
    ensures
        r == parse_spec(name@, stem@, ext@),
{
    let n = name.len();
    let sl = stem.len();
    let el = ext.len();
    let plain = (n as u128) == (sl as u128) + 24 + (el as u128);
    let compressed = (n as u128) == (sl as u128) + 24 + (el as u128) + 3;
    if !plain && !compressed {
        return None;
    }
    if !bytes_eq_at(name, 0, stem) {
        return None;
    }
    let ts = match parse_suffix(name, sl) {
        Some(ts) => ts,
        None => {
            return None;
        },
    };
    if !bytes_eq_at(name, sl + 24, ext) {
        return None;
    }
    if plain {
        assert(name@.subrange(sl + 24, n as int) == name@.subrange(sl + 24, sl + 24 + el));
        Some(ArchiveRecord { timestamp: ts, compressed: false })
    } else {
        let p = sl + 24 + el;
        if name[p] == 46 && name[p + 1] == 120 && name[p + 2] == 122 {
            assert(name@.subrange(p as int, n as int) =~= compressed_suffix());
            Some(ArchiveRecord { timestamp: ts, compressed: true })
        } else {
            assert(name@.subrange(p as int, n as int) != compressed_suffix()) by {
                if name@.subrange(p as int, n as int) == compressed_suffix() {
                    assert(name@.subrange(p as int, n as int)[0] == 46u8);
                    assert(name@.subrange(p as int, n as int)[1] == 120u8);
                    assert(name@.subrange(p as int, n as int)[2] == 122u8);
                }
            };
            None
        }
    }
}

} // verus!
