//! The mapping-line grammar and its parser.
//!
//! One line of the kernel's per-process mapping listing reads
//! `<hex-start>-<hex-end> <4-byte-perm> <hex-offset> <dev> <dec-inode> [<path>]`:
//! lowercase hex addresses joined by `-`, a 4-byte permission field, a
//! device field of two bytes, `:`, two bytes, a decimal inode, and an
//! optional path taken as everything after the inode, trimmed of
//! surrounding whitespace (so paths may contain whitespace). Fields are
//! separated by runs of spaces or tabs. A line that does not match is a
//! hard parse error carrying the offending line verbatim.

use vstd::prelude::*;

use crate::maps::{Mapping, MappingView, Range};

verus! {

pub open spec fn is_space(b: u8) -> bool {
    b == 32 || b == 9
}

pub open spec fn is_hex_digit(b: u8) -> bool {
    (48 <= b && b <= 57) || (97 <= b && b <= 102)
}

pub open spec fn is_dec_digit(b: u8) -> bool {
    48 <= b && b <= 57
}

pub open spec fn hex_digit_value(b: u8) -> nat {
    if 48 <= b && b <= 57 {
        (b - 48) as nat
    } else {
        (b - 87) as nat
    }
}

/// Length of the run of hex digits starting at `i`.
pub open spec fn hex_run_len(s: Seq<u8>, i: int) -> int
    decreases s.len() - i when i <= s.len()
{
    if i < 0 || i >= s.len() || !is_hex_digit(s[i]) {
        0
    } else {
        1 + hex_run_len(s, i + 1)
    }
}

/// Length of the run of decimal digits starting at `i`.
pub open spec fn dec_run_len(s: Seq<u8>, i: int) -> int
    decreases s.len() - i when i <= s.len()
{
    if i < 0 || i >= s.len() || !is_dec_digit(s[i]) {
        0
    } else {
        1 + dec_run_len(s, i + 1)
    }
}

/// Length of the run of whitespace starting at `i`.
pub open spec fn space_run_len(s: Seq<u8>, i: int) -> int
    decreases s.len() - i when i <= s.len()
{
    if i < 0 || i >= s.len() || !is_space(s[i]) {
        0
    } else {
        1 + space_run_len(s, i + 1)
    }
}

proof fn lemma_hex_run(s: Seq<u8>, i: int, j: int)
    requires
        0 <= i <= j <= s.len(),
        forall|k: int| i <= k < j ==> is_hex_digit(s[k]),
        j == s.len() || !is_hex_digit(s[j]),
    ensures
        hex_run_len(s, i) == j - i,
    decreases j - i,
{
    if i < j {
        lemma_hex_run(s, i + 1, j);
    }
}

proof fn lemma_dec_run(s: Seq<u8>, i: int, j: int)
    requires
        0 <= i <= j <= s.len(),
        forall|k: int| i <= k < j ==> is_dec_digit(s[k]),
        j == s.len() || !is_dec_digit(s[j]),
    ensures
        dec_run_len(s, i) == j - i,
    decreases j - i,
{
    if i < j {
        lemma_dec_run(s, i + 1, j);
    }
}

proof fn lemma_space_run(s: Seq<u8>, i: int, j: int)
    requires
        0 <= i <= j <= s.len(),
        forall|k: int| i <= k < j ==> is_space(s[k]),
        j == s.len() || !is_space(s[j]),
    ensures
        space_run_len(s, i) == j - i,
    decreases j - i,
{
    if i < j {
        lemma_space_run(s, i + 1, j);
    }
}

/// Value of a sequence of hex digits, most significant first.
pub open spec fn hex_value(s: Seq<u8>) -> nat
    decreases s.len(),
{
    if s.len() == 0 {
        0
    } else {
        hex_value(s.drop_last()) * 16 + hex_digit_value(s.last())
    }
}

/// Value of a sequence of decimal digits, most significant first.
pub open spec fn dec_value(s: Seq<u8>) -> nat
    decreases s.len(),
{
    if s.len() == 0 {
        0
    } else {
        dec_value(s.drop_last()) * 10 + (s.last() - 48) as nat
    }
}

proof fn lemma_hex_value_prefix(s: Seq<u8>, j: int)
    requires
        0 <= j <= s.len(),
    ensures
        hex_value(s) >= hex_value(s.take(j)),
    decreases s.len() - j,
{
    if j == s.len() {
        assert(s.take(j) =~= s);
    } else {
        lemma_hex_value_prefix(s, j + 1);
        assert(s.take(j + 1).drop_last() =~= s.take(j));
        assert(hex_value(s.take(j + 1)) == hex_value(s.take(j)) * 16 + hex_digit_value(
            s.take(j + 1).last(),
        ));
    }
}

proof fn lemma_dec_value_prefix(s: Seq<u8>, j: int)
    requires
        0 <= j <= s.len(),
    ensures
        dec_value(s) >= dec_value(s.take(j)),
    decreases s.len() - j,
{
    if j == s.len() {
        assert(s.take(j) =~= s);
    } else {
        lemma_dec_value_prefix(s, j + 1);
        assert(s.take(j + 1).drop_last() =~= s.take(j));
        assert(dec_value(s.take(j + 1)) == dec_value(s.take(j)) * 10 + (s.take(j + 1).last()
            - 48) as nat);
    }
}

/// How many leading bytes remain after trailing whitespace is dropped.
pub open spec fn trim_trailing_len(s: Seq<u8>) -> int
    decreases s.len(),
{
    if s.len() == 0 {
        0
    } else if is_space(s.last()) {
        trim_trailing_len(s.drop_last())
    } else {
        s.len() as int
    }
}

proof fn lemma_trim_trailing(s: Seq<u8>, j: int)
    requires
        0 <= j <= s.len(),
        forall|k: int| j <= k < s.len() ==> is_space(s[k]),
        j == 0 || !is_space(s[j - 1]),
    ensures
        trim_trailing_len(s) == j,
    decreases s.len() - j,
{
    if j < s.len() {
        assert(is_space(s.last()));
        assert(forall|k: int| 0 <= k < s.len() - 1 ==> s.drop_last()[k] == s[k]);
        lemma_trim_trailing(s.drop_last(), j);
    }
}

/// `s` with surrounding whitespace dropped.
pub open spec fn trim(s: Seq<u8>) -> Seq<u8> {
    let lead = space_run_len(s, 0);
    let r = s.subrange(lead, s.len() as int);
    r.take(trim_trailing_len(r))
}

/// The deterministic grammar of one mapping line: the parse result, or
/// `None` for any line that does not match (including address, offset or
/// inode values too large for 64 bits).
pub open spec fn parse_line(s: Seq<u8>) -> Option<MappingView> {
    let a = hex_run_len(s, 0);
    let b0 = a + 1;
    let b = hex_run_len(s, b0);
    let s1 = space_run_len(s, b0 + b);
    let p0 = b0 + b + s1;
    let s2 = space_run_len(s, p0 + 4);
    let o0 = p0 + 4 + s2;
    let c = hex_run_len(s, o0);
    let s3 = space_run_len(s, o0 + c);
    let d0 = o0 + c + s3;
    let s4 = space_run_len(s, d0 + 5);
    let i0 = d0 + 5 + s4;
    let d = dec_run_len(s, i0);
    if a >= 1 && a < s.len() && s[a] == 45 && b >= 1 && s1 >= 1 && p0 + 4 <= s.len() && !is_space(
        s[p0],
    ) && !is_space(s[p0 + 1]) && !is_space(s[p0 + 2]) && !is_space(s[p0 + 3]) && s2 >= 1 && c >= 1
        && s3 >= 1 && d0 + 5 <= s.len() && s[d0 + 2] == 58 && !is_space(s[d0]) && !is_space(
        s[d0 + 1],
    ) && !is_space(s[d0 + 3]) && !is_space(s[d0 + 4]) && s4 >= 1 && d >= 1 && hex_value(
        s.subrange(0, a),
    ) <= u64::MAX && hex_value(s.subrange(b0, b0 + b)) <= u64::MAX && hex_value(
        s.subrange(o0, o0 + c),
    ) <= u64::MAX && dec_value(s.subrange(i0, i0 + d)) <= u64::MAX {
        let path = trim(s.subrange(i0 + d, s.len() as int));
        Some(
            MappingView {
                start: hex_value(s.subrange(0, a)) as u64,
                end: hex_value(s.subrange(b0, b0 + b)) as u64,
                permissions: s.subrange(p0, p0 + 4),
                offset: hex_value(s.subrange(o0, o0 + c)) as u64,
                device: s.subrange(d0, d0 + 5),
                inode: dec_value(s.subrange(i0, i0 + d)) as u64,
                path: if path.len() == 0 {
                    None
                } else {
                    Some(path)
                },
            },
        )
    } else {
        None
    }
}

/// A line that did not match the grammar, carried verbatim.
#[derive(Debug, PartialEq, Eq, Clone)]
pub struct ParseError {
    pub line: Vec<u8>,
}

fn byte_is_hex(b: u8) -> (r: bool)
    ensures
        r == is_hex_digit(b),
{
    (48 <= b && b <= 57) || (97 <= b && b <= 102)
}

fn byte_is_dec(b: u8) -> (r: bool)
    ensures
        r == is_dec_digit(b),
{
    48 <= b && b <= 57
}

fn byte_is_space(b: u8) -> (r: bool)
    ensures
        r == is_space(b),
{
    b == 32 || b == 9
}

fn hex_run_end(s: &[u8], from: usize) -> (end: usize)
    requires
        from <= s@.len(),
    ensures
        from <= end <= s@.len(),
        end - from == hex_run_len(s@, from as int),
        forall|k: int| from <= k < end ==> is_hex_digit(s@[k]),
        end == s@.len() || !is_hex_digit(s@[end as int]),
{
    let mut i = from;
    while i < s.len() && byte_is_hex(s[i])
        invariant
            from <= i <= s@.len(),
            forall|k: int| from <= k < i ==> is_hex_digit(s@[k]),
        decreases s@.len() - i,
    {
        i = i + 1;
    }
    proof {
        lemma_hex_run(s@, from as int, i as int);
    }
    i
}

fn dec_run_end(s: &[u8], from: usize) -> (end: usize)
    requires
        from <= s@.len(),
    ensures
        from <= end <= s@.len(),
        end - from == dec_run_len(s@, from as int),
        forall|k: int| from <= k < end ==> is_dec_digit(s@[k]),
        end == s@.len() || !is_dec_digit(s@[end as int]),
{
    let mut i = from;
    while i < s.len() && byte_is_dec(s[i])
        invariant
            from <= i <= s@.len(),
            forall|k: int| from <= k < i ==> is_dec_digit(s@[k]),
        decreases s@.len() - i,
    {
        i = i + 1;
    }
    proof {
        lemma_dec_run(s@, from as int, i as int);
    }
    i
}

fn space_run_end(s: &[u8], from: usize) -> (end: usize)
    requires
        from <= s@.len(),
    ensures
        from <= end <= s@.len(),
        end - from == space_run_len(s@, from as int),
        forall|k: int| from <= k < end ==> is_space(s@[k]),
        end == s@.len() || !is_space(s@[end as int]),
{
    let mut i = from;
    while i < s.len() && byte_is_space(s[i])
        invariant
            from <= i <= s@.len(),
            forall|k: int| from <= k < i ==> is_space(s@[k]),
        decreases s@.len() - i,
    {
        i = i + 1;
    }
    proof {
        lemma_space_run(s@, from as int, i as int);
    }
    i
}

/// The value of the hex digits `s[from..end]`, or `None` where it exceeds
/// 64 bits.
fn hex_value_in(s: &[u8], from: usize, end: usize) -> (r: Option<u64>)
    requires
        from <= end <= s@.len(),
        forall|k: int| from <= k < end ==> is_hex_digit(s@[k]),
    ensures
        match r {
            Some(v) => v == hex_value(s@.subrange(from as int, end as int)),
            None => hex_value(s@.subrange(from as int, end as int)) > u64::MAX,
        },
{
    let ghost whole = s@.subrange(from as int, end as int);
    let mut acc: u64 = 0;
    let mut i = from;
    while i < end
        invariant
            from <= i <= end <= s@.len(),
            forall|k: int| from <= k < end ==> is_hex_digit(s@[k]),
            whole == s@.subrange(from as int, end as int),
            acc == hex_value(s@.subrange(from as int, i as int)),
        decreases end - i,
    {
        let b = s[i];
        let d: u64 = if b <= 57 {
            (b - 48) as u64
        } else {
            (b - 87) as u64
        };
        proof {
            assert(is_hex_digit(s@[i as int]));
            assert(d == hex_digit_value(s@[i as int]));
            assert(s@.subrange(from as int, i + 1).drop_last() =~= s@.subrange(
                from as int,
                i as int,
            ));
            assert(s@.subrange(from as int, i + 1).last() == s@[i as int]);
        }
        if acc > 0x0FFF_FFFF_FFFF_FFFF {
            proof {
                assert(hex_value(s@.subrange(from as int, i + 1)) > u64::MAX);
                lemma_hex_value_prefix(whole, i + 1 - from);
                assert(whole.take(i + 1 - from) =~= s@.subrange(from as int, i + 1));
            }
            return None;
        }
        let t = acc * 16;
        if t > u64::MAX - d {
            proof {
                assert(hex_value(s@.subrange(from as int, i + 1)) > u64::MAX);
                lemma_hex_value_prefix(whole, i + 1 - from);
                assert(whole.take(i + 1 - from) =~= s@.subrange(from as int, i + 1));
            }
            return None;
        }
        acc = t + d;
        i = i + 1;
    }
    proof {
        assert(s@.subrange(from as int, end as int) =~= whole);
    }
    Some(acc)
}

/// The value of the decimal digits `s[from..end]`, or `None` where it
/// exceeds 64 bits.
fn dec_value_in(s: &[u8], from: usize, end: usize) -> (r: Option<u64>)
    requires
        from <= end <= s@.len(),
        forall|k: int| from <= k < end ==> is_dec_digit(s@[k]),
    ensures
        match r {
            Some(v) => v == dec_value(s@.subrange(from as int, end as int)),
            None => dec_value(s@.subrange(from as int, end as int)) > u64::MAX,
        },
{
    let ghost whole = s@.subrange(from as int, end as int);
    let mut acc: u64 = 0;
    let mut i = from;
    while i < end
        invariant
            from <= i <= end <= s@.len(),
            forall|k: int| from <= k < end ==> is_dec_digit(s@[k]),
            whole == s@.subrange(from as int, end as int),
            acc == dec_value(s@.subrange(from as int, i as int)),
        decreases end - i,
    {
        let b = s[i];
        let d: u64 = (b - 48) as u64;
        proof {
            assert(is_dec_digit(s@[i as int]));
            assert(s@.subrange(from as int, i + 1).drop_last() =~= s@.subrange(
                from as int,
                i as int,
            ));
            assert(s@.subrange(from as int, i + 1).last() == s@[i as int]);
        }
        if acc > 0x1999_9999_9999_9999 {
            proof {
                assert(dec_value(s@.subrange(from as int, i + 1)) > u64::MAX);
                lemma_dec_value_prefix(whole, i + 1 - from);
                assert(whole.take(i + 1 - from) =~= s@.subrange(from as int, i + 1));
            }
            return None;
        }
        let t = acc * 10;
        if t > u64::MAX - d {
            proof {
                assert(dec_value(s@.subrange(from as int, i + 1)) > u64::MAX);
                lemma_dec_value_prefix(whole, i + 1 - from);
                assert(whole.take(i + 1 - from) =~= s@.subrange(from as int, i + 1));
            }
            return None;
        }
        acc = t + d;
        i = i + 1;
    }
    proof {
        assert(s@.subrange(from as int, end as int) =~= whole);
    }
    Some(acc)
}

/// A fresh copy of the bytes `s[from..end]`.
fn copy_bytes(s: &[u8], from: usize, end: usize) -> (r: Vec<u8>)
    requires
        from <= end <= s@.len(),
    ensures
        r@ == s@.subrange(from as int, end as int),
{
    let mut out: Vec<u8> = Vec::new();
    let mut i = from;
    while i < end
        invariant
            from <= i <= end <= s@.len(),
            out@ == s@.subrange(from as int, i as int),
        decreases end - i,
    {
        out.push(s[i]);
        proof {
            assert(s@.subrange(from as int, i + 1) =~= s@.subrange(from as int, i as int).push(
                s@[i as int],
            ));
        }
        i = i + 1;
    }
    out
}

impl Mapping {
    /// Parse one line of the mapping listing. Returns the parsed mapping
    /// exactly when the line matches the grammar, and the offending line
    /// verbatim otherwise.
    pub fn from_line(line: &[u8]) -> (r: Result<Mapping, ParseError>)
        ensures
            match r {
                Ok(m) => parse_line(line@) == Some(m@),
                Err(e) => parse_line(line@) is None && e.line@ == line@,
            },
    {
        match parse_fields(line) {
            Some(m) => Ok(m),
            None => {
                let e = ParseError { line: copy_bytes(line, 0, line.len()) };
                proof {
                    assert(line@.subrange(0, line@.len() as int) =~= line@);
                }
                Err(e)
            },
        }
    }
}

fn parse_fields(line: &[u8]) -> (r: Option<Mapping>)
    ensures
        match r {
            Some(m) => parse_line(line@) == Some(m@),
            None => parse_line(line@) is None,
        },
{
    let n = line.len();
    let a = hex_run_end(line, 0);
    if a == 0 || a >= n || line[a] != 45 {
        return None;
    }
    let b0 = a + 1;
    let b_end = hex_run_end(line, b0);
    if b_end == b0 {
        return None;
    }
    let s1_end = space_run_end(line, b_end);
    if s1_end == b_end {
        return None;
    }
    let p0 = s1_end;
    if n - p0 < 4 {
        return None;
    }
    if byte_is_space(line[p0]) || byte_is_space(line[p0 + 1]) || byte_is_space(line[p0 + 2])
        || byte_is_space(line[p0 + 3]) {
        return None;
    }
    let s2_end = space_run_end(line, p0 + 4);
    if s2_end == p0 + 4 {
        return None;
    }
    let o0 = s2_end;
    let c_end = hex_run_end(line, o0);
    if c_end == o0 {
        return None;
    }
    let s3_end = space_run_end(line, c_end);
    if s3_end == c_end {
        return None;
    }
    let d0 = s3_end;
    if n - d0 < 5 {
        return None;
    }
    if line[d0 + 2] != 58 {
        return None;
    }
    if byte_is_space(line[d0]) || byte_is_space(line[d0 + 1]) || byte_is_space(line[d0 + 3])
        || byte_is_space(line[d0 + 4]) {
        return None;
    }
    let s4_end = space_run_end(line, d0 + 5);
    if s4_end == d0 + 5 {
        return None;
    }
    let i0 = s4_end;
    let d_end = dec_run_end(line, i0);
    if d_end == i0 {
        return None;
    }
    let start = match hex_value_in(line, 0, a) {
        Some(v) => v,
        None => {
            return None;
        },
    };
    let end = match hex_value_in(line, b0, b_end) {
        Some(v) => v,
        None => {
            return None;
        },
    };
    let offset = match hex_value_in(line, o0, c_end) {
        Some(v) => v,
        None => {
            return None;
        },
    };
    let inode = match dec_value_in(line, i0, d_end) {
        Some(v) => v,
        None => {
            return None;
        },
    };
    let lw = space_run_end(line, d_end);
    let ghost rest = line@.subrange(d_end as int, n as int);
    proof {
        assert(forall|k: int| 0 <= k < rest.len() ==> rest[k] == line@[d_end + k]);
        lemma_space_run_shift(line@, d_end as int, lw as int, rest);
    }
    let path: Option<Vec<u8>> = if lw == n {
        proof {
            let lead = space_run_len(rest, 0);
            let r2 = rest.subrange(lead, rest.len() as int);
            assert(r2 =~= Seq::<u8>::empty());
            assert(trim(rest).len() == 0);
        }
        None
    } else {
        let mut e = n;
        while e > lw && byte_is_space(line[e - 1])
            invariant
                lw <= e <= n == line@.len(),
                lw < n,
                forall|k: int| e <= k < n ==> is_space(line@[k]),
            decreases e,
        {
            e = e - 1;
        }
        proof {
            let lead = space_run_len(rest, 0);
            assert(lead == lw - d_end);
            let r2 = rest.subrange(lead, rest.len() as int);
            assert(r2 =~= line@.subrange(lw as int, n as int));
            assert(!is_space(line@[lw as int]));
            if e == lw {
                assert(is_space(line@[lw as int]));
            }
            assert(e > lw);
            lemma_trim_trailing(r2, e - lw);
            assert(trim(rest) =~= line@.subrange(lw as int, e as int));
            assert(trim(rest).len() > 0);
        }
        Some(copy_bytes(line, lw, e))
    };
    let m = Mapping {
        address_range: Range { start, end },
        permissions: copy_bytes(line, p0, p0 + 4),
        offset,
        device: copy_bytes(line, d0, d0 + 5),
        inode,
        path,
    };
    proof {
        assert(parse_line(line@) == Some(m@));
    }
    Some(m)
}

/// The hex digit standing for `d`, lowercase.
pub open spec fn hex_digit_char(d: nat) -> u8 {
    if d < 10 {
        (48 + d) as u8
    } else {
        (87 + d) as u8
    }
}

/// The lowercase hex spelling of `v`, most significant digit first, no
/// leading zeros (a single `0` for zero).
pub open spec fn hex_digits(v: nat) -> Seq<u8>
    decreases v,
{
    if v < 16 {
        seq![hex_digit_char(v)]
    } else {
        hex_digits(v / 16).push(hex_digit_char(v % 16))
    }
}

/// The decimal spelling of `v`, most significant digit first.
pub open spec fn dec_digits(v: nat) -> Seq<u8>
    decreases v,
{
    if v < 10 {
        seq![(48 + v) as u8]
    } else {
        dec_digits(v / 10).push((48 + (v % 10)) as u8)
    }
}

/// The serialized form of a mapping: the fields joined by single spaces,
/// addresses and offset in lowercase hex, the inode in decimal, the path
/// appended after one more space where there is one.
pub open spec fn line_of(m: MappingView) -> Seq<u8> {
    hex_digits(m.start as nat) + seq![45u8] + hex_digits(m.end as nat) + seq![32u8]
        + m.permissions + seq![32u8] + hex_digits(m.offset as nat) + seq![32u8] + m.device + seq![
        32u8,
    ] + dec_digits(m.inode as nat) + (match m.path {
        Some(p) => seq![32u8] + p,
        None => Seq::<u8>::empty(),
    })
}

fn push_hex(v: u64, out: &mut Vec<u8>)
    ensures
        final(out)@ == old(out)@ + hex_digits(v as nat),
    decreases v,
{
    if v < 16 {
        let d: u8 = if v < 10 {
            (48 + v) as u8
        } else {
            (87 + v) as u8
        };
        out.push(d);
        proof {
            assert(final(out)@ =~= old(out)@ + hex_digits(v as nat));
        }
    } else {
        push_hex(v / 16, out);
        let r = v % 16;
        let d: u8 = if r < 10 {
            (48 + r) as u8
        } else {
            (87 + r) as u8
        };
        out.push(d);
        proof {
            assert(final(out)@ =~= old(out)@ + hex_digits(v as nat));
        }
    }
}

fn push_dec(v: u64, out: &mut Vec<u8>)
    ensures
        final(out)@ == old(out)@ + dec_digits(v as nat),
    decreases v,
{
    if v < 10 {
        out.push((48 + v) as u8);
        proof {
            assert(final(out)@ =~= old(out)@ + dec_digits(v as nat));
        }
    } else {
        push_dec(v / 10, out);
        out.push((48 + (v % 10)) as u8);
        proof {
            assert(final(out)@ =~= old(out)@ + dec_digits(v as nat));
        }
    }
}

fn push_all(src: &Vec<u8>, out: &mut Vec<u8>)
    ensures
        final(out)@ == old(out)@ + src@,
{
    let mut i: usize = 0;
    while i < src.len()
        invariant
            i <= src@.len(),
            out@ == old(out)@ + src@.take(i as int),
        decreases src@.len() - i,
    {
        out.push(src[i]);
        proof {
            assert(old(out)@ + src@.take(i + 1) =~= (old(out)@ + src@.take(i as int)).push(
                src@[i as int],
            ));
        }
        i = i + 1;
    }
    proof {
        assert(src@.take(src@.len() as int) =~= src@);
    }
}

impl Mapping {
    /// Serialize the mapping back into a listing line.
    pub fn to_line(&self) -> (r: Vec<u8>)
        ensures
            r@ == line_of(self@),
    {
        let mut out: Vec<u8> = Vec::new();
        push_hex(self.address_range.start, &mut out);
        out.push(45);
        push_hex(self.address_range.end, &mut out);
        out.push(32);
        push_all(&self.permissions, &mut out);
        out.push(32);
        push_hex(self.offset, &mut out);
        out.push(32);
        push_all(&self.device, &mut out);
        out.push(32);
        push_dec(self.inode, &mut out);
        match &self.path {
            Some(p) => {
                out.push(32);
                push_all(p, &mut out);
            },
            None => {},
        }
        proof {
            assert(out@ =~= line_of(self@));
        }
        out
    }
}

/// Parse every line of a mapping listing, in order. The first line that
/// does not match the grammar fails the whole listing, carrying that line.
pub fn parse_lines(lines: &Vec<Vec<u8>>) -> (r: Result<Vec<Mapping>, ParseError>)
    ensures
        match r {
            Ok(ms) => ms@.len() == lines@.len() && forall|i: int|
                0 <= i < ms@.len() ==> parse_line(lines@[i]@) == Some((#[trigger] ms@[i])@),
            Err(e) => exists|i: int|
                0 <= i < lines@.len() && parse_line((#[trigger] lines@[i])@) is None && e.line@
                    == lines@[i]@ && forall|k: int|
                    0 <= k < i ==> parse_line((#[trigger] lines@[k])@) is Some,
        },
{
    let mut out: Vec<Mapping> = Vec::new();
    let mut i: usize = 0;
    while i < lines.len()
        invariant
            i <= lines@.len(),
            out@.len() == i,
            forall|k: int| 0 <= k < i ==> parse_line(lines@[k]@) == Some((#[trigger] out@[k])@),
        decreases lines@.len() - i,
    {
        match Mapping::from_line(lines[i].as_slice()) {
            Ok(m) => {
                out.push(m);
            },
            Err(e) => {
                proof {
                    let gi = i as int;
                    assert forall|k: int| 0 <= k < gi implies parse_line(
                        (#[trigger] lines@[k])@,
                    ) is Some by {
                        assert(parse_line(lines@[k]@) == Some(out@[k]@));
                    }
                    assert(parse_line(lines@[gi]@) is None && e.line@ == lines@[gi]@);
                }
                return Err(e);
            },
        }
        i = i + 1;
    }
    Ok(out)
}

/// The shape every successful parse gives its result: the fixed-width
/// fields have their widths, no field starts or ends with whitespace.
pub open spec fn mapping_view_wf(m: MappingView) -> bool {
    &&& m.permissions.len() == 4
    &&& !is_space(m.permissions[0]) && !is_space(m.permissions[1]) && !is_space(m.permissions[2])
        && !is_space(m.permissions[3])
    &&& m.device.len() == 5
    &&& m.device[2] == 58
    &&& !is_space(m.device[0]) && !is_space(m.device[1]) && !is_space(m.device[3]) && !is_space(
        m.device[4],
    )
    &&& match m.path {
        Some(p) => p.len() > 0 && !is_space(p[0]) && !is_space(p[p.len() - 1]),
        None => true,
    }
}

proof fn lemma_space_run_props(s: Seq<u8>, i: int)
    requires
        0 <= i <= s.len(),
    ensures
        0 <= space_run_len(s, i),
        i + space_run_len(s, i) <= s.len(),
        i + space_run_len(s, i) == s.len() || !is_space(s[i + space_run_len(s, i)]),
    decreases s.len() - i,
{
    if i < s.len() && is_space(s[i]) {
        lemma_space_run_props(s, i + 1);
    }
}

proof fn lemma_trim_trailing_props(s: Seq<u8>)
    ensures
        0 <= trim_trailing_len(s) <= s.len(),
        trim_trailing_len(s) > 0 ==> !is_space(s[trim_trailing_len(s) - 1]),
    decreases s.len(),
{
    if s.len() > 0 && is_space(s.last()) {
        lemma_trim_trailing_props(s.drop_last());
        assert(forall|k: int| 0 <= k < s.len() - 1 ==> s.drop_last()[k] == s[k]);
    }
}

/// Whatever a parse accepts has the well-formed shape.
pub proof fn lemma_parse_wf(s: Seq<u8>)
    requires
        parse_line(s) is Some,
    ensures
        mapping_view_wf(parse_line(s).unwrap()),
{
    let m = parse_line(s).unwrap();
    let a = hex_run_len(s, 0);
    let b0 = a + 1;
    let b = hex_run_len(s, b0);
    let s1 = space_run_len(s, b0 + b);
    let p0 = b0 + b + s1;
    let s2 = space_run_len(s, p0 + 4);
    let o0 = p0 + 4 + s2;
    let c = hex_run_len(s, o0);
    let s3 = space_run_len(s, o0 + c);
    let d0 = o0 + c + s3;
    let s4 = space_run_len(s, d0 + 5);
    let i0 = d0 + 5 + s4;
    let d = dec_run_len(s, i0);
    let rest = s.subrange(i0 + d, s.len() as int);
    let lead = space_run_len(rest, 0);
    lemma_space_run_props(rest, 0);
    let r2 = rest.subrange(lead, rest.len() as int);
    lemma_trim_trailing_props(r2);
    let t = trim_trailing_len(r2);
    if trim(rest).len() > 0 {
        assert(m.path == Some(trim(rest)));
        assert(t > 0);
        assert(lead < rest.len());
        assert(r2[0] == rest[lead]);
        assert(!is_space(r2[0]));
        assert(trim(rest)[0] == r2[0]);
        assert(trim(rest)[t - 1] == r2[t - 1]);
    }
}

proof fn lemma_hex_digits_props(v: nat)
    ensures
        hex_digits(v).len() >= 1,
        forall|k: int| 0 <= k < hex_digits(v).len() ==> is_hex_digit(#[trigger] hex_digits(v)[k]),
        hex_value(hex_digits(v)) == v,
    decreases v,
{
    if v < 16 {
        let ds = hex_digits(v);
        assert(ds.len() == 1);
        assert(ds.drop_last() =~= Seq::<u8>::empty());
        assert(hex_value(Seq::<u8>::empty()) == 0);
        assert(ds.last() == hex_digit_char(v));
        assert(is_hex_digit(hex_digit_char(v)));
        assert(hex_digit_value(hex_digit_char(v)) == v);
        assert(hex_value(ds) == v);
    } else {
        lemma_hex_digits_props(v / 16);
        let pre = hex_digits(v / 16);
        let ds = hex_digits(v);
        assert(ds == pre.push(hex_digit_char(v % 16)));
        assert(ds.drop_last() =~= pre);
        assert(ds.last() == hex_digit_char(v % 16));
        assert(is_hex_digit(hex_digit_char(v % 16)));
        assert(hex_digit_value(hex_digit_char(v % 16)) == v % 16);
        vstd::arithmetic::div_mod::lemma_fundamental_div_mod(v as int, 16);
        assert(hex_value(ds) == hex_value(pre) * 16 + (v % 16));
        assert(hex_value(ds) == v);
        assert(forall|k: int| 0 <= k < pre.len() ==> ds[k] == pre[k]);
    }
}

proof fn lemma_dec_digits_props(v: nat)
    ensures
        dec_digits(v).len() >= 1,
        forall|k: int| 0 <= k < dec_digits(v).len() ==> is_dec_digit(#[trigger] dec_digits(v)[k]),
        dec_value(dec_digits(v)) == v,
    decreases v,
{
    if v < 10 {
        let ds = dec_digits(v);
        assert(ds.len() == 1);
        assert(ds.drop_last() =~= Seq::<u8>::empty());
        assert(dec_value(Seq::<u8>::empty()) == 0);
        assert(ds.last() == (48 + v) as u8);
        assert(is_dec_digit((48 + v) as u8));
        assert(dec_value(ds) == v);
    } else {
        lemma_dec_digits_props(v / 10);
        let pre = dec_digits(v / 10);
        let ds = dec_digits(v);
        assert(ds == pre.push((48 + (v % 10)) as u8));
        assert(ds.drop_last() =~= pre);
        assert(ds.last() == (48 + (v % 10)) as u8);
        assert(is_dec_digit((48 + (v % 10)) as u8));
        vstd::arithmetic::div_mod::lemma_fundamental_div_mod(v as int, 10);
        assert(dec_value(ds) == dec_value(pre) * 10 + (v % 10));
        assert(dec_value(ds) == v);
        assert(forall|k: int| 0 <= k < pre.len() ==> ds[k] == pre[k]);
    }
}

/// Round trip: serializing a well-formed mapping and parsing the line back
/// reproduces the mapping exactly — address range, permissions, offset,
/// device, inode and path.
#[verifier::rlimit(100)]
pub proof fn lemma_serialize_parse_round_trip(m: MappingView)
    requires
        mapping_view_wf(m),
    ensures
        parse_line(line_of(m)) == Some(m),
{
    let a1 = hex_digits(m.start as nat);
    let a2 = hex_digits(m.end as nat);
    let a3 = hex_digits(m.offset as nat);
    let di = dec_digits(m.inode as nat);
    lemma_hex_digits_props(m.start as nat);
    lemma_hex_digits_props(m.end as nat);
    lemma_hex_digits_props(m.offset as nat);
    lemma_dec_digits_props(m.inode as nat);
    let tail: Seq<u8> = match m.path {
        Some(p) => seq![32u8] + p,
        None => Seq::<u8>::empty(),
    };
    let q1 = a1;
    let q2 = q1 + seq![45u8];
    let q3 = q2 + a2;
    let q4 = q3 + seq![32u8];
    let q5 = q4 + m.permissions;
    let q6 = q5 + seq![32u8];
    let q7 = q6 + a3;
    let q8 = q7 + seq![32u8];
    let q9 = q8 + m.device;
    let q10 = q9 + seq![32u8];
    let q11 = q10 + di;
    let s = q11 + tail;
    assert(line_of(m) == s);

    let la = a1.len() as int;
    let b0 = la + 1;
    let lb = a2.len() as int;
    let p0 = b0 + lb + 1;
    let o0 = p0 + 4 + 1;
    let lc = a3.len() as int;
    let d0 = o0 + lc + 1;
    let i0 = d0 + 5 + 1;
    let li = di.len() as int;
    let r0 = i0 + li;

    assert(s.len() == r0 + tail.len());
    assert forall|k: int| 0 <= k < la implies s[k] == a1[k] by {}
    assert(s[la] == 45);
    assert forall|k: int| 0 <= k < lb implies s[b0 + k] == a2[k] by {}
    assert(s[b0 + lb] == 32);
    assert forall|k: int| 0 <= k < 4 implies s[p0 + k] == m.permissions[k] by {}
    assert(s[p0 + 4] == 32);
    assert forall|k: int| 0 <= k < lc implies s[o0 + k] == a3[k] by {}
    assert(s[o0 + lc] == 32);
    assert forall|k: int| 0 <= k < 5 implies s[d0 + k] == m.device[k] by {}
    assert(s[d0 + 5] == 32);
    assert forall|k: int| 0 <= k < li implies s[i0 + k] == di[k] by {}
    assert forall|k: int| 0 <= k < tail.len() implies s[r0 + k] == tail[k] by {}

    lemma_hex_run(s, 0, la);
    lemma_hex_run(s, b0, b0 + lb);
    lemma_space_run(s, b0 + lb, b0 + lb + 1);
    lemma_space_run(s, p0 + 4, p0 + 5);
    lemma_hex_run(s, o0, o0 + lc);
    lemma_space_run(s, o0 + lc, o0 + lc + 1);
    lemma_space_run(s, d0 + 5, d0 + 6);
    match m.path {
        Some(p) => {
            assert(tail[0] == 32);
            assert(!is_dec_digit(s[r0]));
            lemma_dec_run(s, i0, i0 + li);
        },
        None => {
            assert(r0 == s.len());
            lemma_dec_run(s, i0, i0 + li);
        },
    }

    assert(s.subrange(0, la) =~= a1);
    assert(s.subrange(b0, b0 + lb) =~= a2);
    assert(s.subrange(p0, p0 + 4) =~= m.permissions);
    assert(s.subrange(o0, o0 + lc) =~= a3);
    assert(s.subrange(d0, d0 + 5) =~= m.device);
    assert(s.subrange(i0, i0 + li) =~= di);

    assert(hex_value(s.subrange(0, la)) == m.start as nat);
    assert(hex_value(s.subrange(b0, b0 + lb)) == m.end as nat);
    assert(hex_value(s.subrange(o0, o0 + lc)) == m.offset as nat);
    assert(dec_value(s.subrange(i0, i0 + li)) == m.inode as nat);

    let rest = s.subrange(r0, s.len() as int);
    assert(rest =~= tail);
    match m.path {
        Some(p) => {
            lemma_space_run(tail, 0, 1);
            let r2 = tail.subrange(1, tail.len() as int);
            assert(r2 =~= p);
            lemma_trim_trailing(p, p.len() as int);
            assert(trim(tail) =~= p);
            assert(trim(tail).len() > 0);
        },
        None => {
            lemma_space_run(tail, 0, 0);
            let r2 = tail.subrange(0, tail.len() as int);
            assert(r2 =~= Seq::<u8>::empty());
            assert(trim(tail).len() == 0);
        },
    }
    assert(parse_line(s) == Some(m));
}

/// Round trip stated from the line's side: any line the parser accepts,
/// re-serialized from the parsed fields, parses back to the same fields.
pub proof fn lemma_parse_serialize_round_trip(s: Seq<u8>)
    requires
        parse_line(s) is Some,
    ensures
        parse_line(line_of(parse_line(s).unwrap())) == parse_line(s),
{
    lemma_parse_wf(s);
    lemma_serialize_parse_round_trip(parse_line(s).unwrap());
}

proof fn lemma_space_run_shift(s: Seq<u8>, at: int, j: int, rest: Seq<u8>)
    requires
        0 <= at <= j <= s.len(),
        rest == s.subrange(at, s.len() as int),
        forall|k: int| at <= k < j ==> is_space(s[k]),
        j == s.len() || !is_space(s[j]),
    ensures
        space_run_len(rest, 0) == j - at,
{
    assert(forall|k: int| 0 <= k < rest.len() ==> rest[k] == s[at + k]);
    lemma_space_run(rest, 0, j - at);
}

} // verus!
