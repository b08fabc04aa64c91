//! Names of value-log segment files: `{fid:06}.vlog`.
use vstd::prelude::*;
use vstd::string::StringSliceAdditionalSpecFns;
use crate::error::Error;

verus! {

/// The ASCII code of `.`.
pub const DOT: u8 = 46;

/// The ASCII code of `0`.
pub const ZERO: u8 = 48;

/// The ASCII code of `+`.
pub const PLUS: u8 = 43;

/// Width to which a fid is padded with zeros in a file name.
pub const FID_WIDTH: usize = 6;

/// The decimal digits of `n`, most significant first, without leading zeros.
pub open spec fn digits(n: nat) -> Seq<u8>
    decreases n,
{
    if n < 10 {
        seq![(ZERO + n) as u8]
    } else {
        digits(n / 10).push((ZERO + n % 10) as u8)
    }
}

/// The digits of `n`, padded on the left with zeros to six places.
pub open spec fn padded_digits(n: nat) -> Seq<u8> {
    let d = digits(n);
    if d.len() < FID_WIDTH {
        Seq::new((FID_WIDTH - d.len()) as nat, |i: int| ZERO) + d
    } else {
        d
    }
}

/// `.vlog`, the extension of every segment file with its dot, as bytes.
pub open spec fn suffix_bytes() -> Seq<u8> {
    seq![DOT, 118u8, 108u8, 111u8, 103u8]
}

/// The canonical file name of segment `fid`.
pub open spec fn log_name(fid: u32) -> Seq<u8> {
    padded_digits(fid as nat) + suffix_bytes()
}

pub open spec fn is_digit(c: u8) -> bool {
    ZERO <= c <= ZERO + 9
}

/// The number that a string of decimal digits stands for.
pub open spec fn digits_value(s: Seq<u8>) -> nat
    decreases s.len(),
{
    if s.len() == 0 {
        0
    } else {
        digits_value(s.drop_last()) * 10 + (s.last() - ZERO) as nat
    }
}

/// Index of the last `.` among the first `n` bytes of `s`, or -1.
pub open spec fn last_dot_before(s: Seq<u8>, n: int) -> int
    decreases n,
{
    if n <= 0 {
        -1
    } else if s[n - 1] == DOT {
        n - 1
    } else {
        last_dot_before(s, n - 1)
    }
}

/// Index of the last `.` of `s`, or -1.
pub open spec fn last_dot(s: Seq<u8>) -> int {
    last_dot_before(s, s.len() as int)
}

/// The name without its extension. A name whose only dot leads it has no
/// extension.
pub open spec fn stem(name: Seq<u8>) -> Seq<u8> {
    if last_dot(name) > 0 {
        name.subrange(0, last_dot(name))
    } else {
        name
    }
}

/// Whether the name's extension is `vlog`.
pub open spec fn has_log_suffix(name: Seq<u8>) -> bool {
    let d = last_dot(name);
    d > 0 && name.subrange(d, name.len() as int) == suffix_bytes()
}

/// The fid that a file name stands for: its stem read as a decimal `u32`,
/// with an optional leading `+`.
pub open spec fn parse_name(name: Seq<u8>) -> Result<u32, Error> {
    let s = stem(name);
    let d = if s.len() > 0 && s[0] == PLUS {
        s.drop_first()
    } else {
        s
    };
    decimal_u32(d)
}

/// The `u32` that a non-empty string of decimal digits stands for.
pub open spec fn decimal_u32(d: Seq<u8>) -> Result<u32, Error> {
    if d.len() > 0 && (forall|i: int| 0 <= i < d.len() ==> is_digit(#[trigger] d[i]))
        && digits_value(d) <= u32::MAX {
        Ok(digits_value(d) as u32)
    } else {
        Err(Error::InvalidFilename)
    }
}

/// The byte string as characters.
pub open spec fn ascii_chars(b: Seq<u8>) -> Seq<char> {
    Seq::new(b.len(), |i: int| b[i] as char)
}

/// Relies on String::from_utf8: ASCII bytes are valid UTF-8, one character each.
#[verifier::external_body]
fn ascii_string(b: Vec<u8>) -> (r: String)
    requires
        forall|i: int| 0 <= i < b@.len() ==> b@[i] < 128,
    ensures
        r@ == ascii_chars(b@),
{
    String::from_utf8(b).unwrap()
}

proof fn lemma_digits_ascii(n: nat)
    ensures
        digits(n).len() >= 1,
        forall|i: int| 0 <= i < digits(n).len() ==> is_digit(#[trigger] digits(n)[i]),
    decreases n,
{
    if n >= 10 {
        lemma_digits_ascii(n / 10);
    }
}

/// The canonical name of segment `fid`: its decimal digits padded with
/// zeros to six places, then `.vlog`.
pub fn fid_to_pathbuf(fid: u32) -> (r: String)
    ensures
        r@ == ascii_chars(log_name(fid)),
{
    // least significant digit first
    let mut rev: Vec<u8> = Vec::new();
    let mut q: u32 = fid;
    let ghost mut tail: Seq<u8> = Seq::empty();
    let d: u8 = (q % 10) as u8;
    rev.push(ZERO + d);
    proof {
        tail = seq![(ZERO + d) as u8];
    }
    q = q / 10;
    while q > 0
        invariant
            q > 0 ==> digits(fid as nat) == digits(q as nat) + tail,
            q == 0 ==> digits(fid as nat) == tail,
            rev@.len() == tail.len(),
            forall|i: int| 0 <= i < rev@.len() ==> rev@[i] == tail[tail.len() - 1 - i],
        decreases q,
    {
        let d: u8 = (q % 10) as u8;
        rev.push(ZERO + d);
        proof {
            tail = seq![(ZERO + d) as u8] + tail;
            if q >= 10 {
                assert(digits(q as nat) == digits((q / 10) as nat).push((ZERO + d) as u8));
                assert(digits(fid as nat) =~= digits((q / 10) as nat) + tail);
            } else {
                assert(digits(fid as nat) =~= tail);
            }
        }
        q = q / 10;
    }
    proof {
        lemma_digits_ascii(fid as nat);
    }
    let mut out: Vec<u8> = Vec::new();
    let mut pad: usize = rev.len();
    while pad < FID_WIDTH
        invariant
            rev@.len() <= pad,
            pad <= FID_WIDTH || pad == rev@.len(),
            out@.len() == pad - rev@.len(),
            forall|i: int| 0 <= i < out@.len() ==> out@[i] == ZERO,
        decreases FID_WIDTH - pad,
    {
        out.push(ZERO);
        pad = pad + 1;
    }
    let ghost zeros = out@;
    let n = rev.len();
    let mut i: usize = n;
    while i > 0
        invariant
            i <= n,
            n == rev@.len(),
            n == tail.len(),
            forall|j: int| 0 <= j < rev@.len() ==> rev@[j] == tail[tail.len() - 1 - j],
            out@ == zeros + tail.subrange(0, n - i),
        decreases i,
    {
        i = i - 1;
        out.push(rev[i]);
        assert(out@ =~= zeros + tail.subrange(0, n - i));
    }
    proof {
        assert(tail.subrange(0, n as int) =~= tail);
        if n < FID_WIDTH {
            assert(zeros =~= Seq::new((FID_WIDTH - n) as nat, |i: int| ZERO));
        } else {
            assert(zeros =~= Seq::<u8>::empty());
        }
        assert(out@ =~= padded_digits(fid as nat));
    }
    out.push(DOT);
    out.push(118u8);
    out.push(108u8);
    out.push(111u8);
    out.push(103u8);
    assert(out@ =~= log_name(fid));
    ascii_string(out)
}

/// Index of the last `.` of `b`, if it has one.
fn find_last_dot(b: &[u8]) -> (r: Option<usize>)
    ensures
        match r {
            Some(i) => i < b@.len() && b@[i as int] == DOT && last_dot(b@) == i as int,
            None => last_dot(b@) == -1,
        },
{
    let mut i: usize = b.len();
    while i > 0
        invariant
            i <= b@.len(),
            last_dot(b@) == last_dot_before(b@, i as int),
        decreases i,
    {
        if b[i - 1] == DOT {
            return Some(i - 1);
        }
        i = i - 1;
    }
    None
}

proof fn lemma_digits_value_monotone(s: Seq<u8>, i: int, j: int)
    requires
        0 <= i <= j <= s.len(),
    ensures
        digits_value(s.subrange(0, i)) <= digits_value(s.subrange(0, j)),
    decreases j - i,
{
    if i < j {
        lemma_digits_value_monotone(s, i, j - 1);
        assert(s.subrange(0, j).drop_last() =~= s.subrange(0, j - 1));
    }
}

/// The decimal number `b[start..end]`, which must be made of digits only
/// and stand for a `u32`.
fn parse_digits(b: &[u8], start: usize, end: usize) -> (r: Result<u32, Error>)
    requires
        start <= end <= b@.len(),
    ensures
        r == decimal_u32(b@.subrange(start as int, end as int)),
{
    let ghost d = b@.subrange(start as int, end as int);
    if start == end {
        return Err(Error::InvalidFilename);
    }
    let mut acc: u64 = 0;
    let mut i: usize = start;
    while i < end
        invariant
            start <= i <= end <= b@.len(),
            d == b@.subrange(start as int, end as int),
            forall|j: int| 0 <= j < i - start ==> is_digit(#[trigger] d[j]),
            acc == digits_value(d.subrange(0, i - start)),
            acc <= u32::MAX,
        decreases end - i,
    {
        let c = b[i];
        if c < ZERO || c > ZERO + 9 {
            assert(!is_digit(d[i - start]));
            return Err(Error::InvalidFilename);
        }
        assert(d.subrange(0, i + 1 - start).drop_last() =~= d.subrange(0, i - start));
        acc = acc * 10 + (c - ZERO) as u64;
        i = i + 1;
        if acc > 0xffff_ffff {
            proof {
                if forall|j: int| 0 <= j < d.len() ==> is_digit(#[trigger] d[j]) {
                    lemma_digits_value_monotone(d, i - start, d.len() as int);
                    assert(d.subrange(0, d.len() as int) =~= d);
                }
            }
            return Err(Error::InvalidFilename);
        }
    }
    assert(d.subrange(0, d.len() as int) =~= d);
    Ok(acc as u32)
}

/// The fid that a segment file's name stands for: its stem read as a
/// decimal `u32`, so that `6.vlog`, `0006.vlog` and `000006.vlog` all give 6.
/// A stem that is no such number fails with `InvalidFilename`.
pub fn parse_fid(name: &str) -> (r: Result<u32, Error>)
    ensures
        r == parse_name(name.spec_bytes()),
{
    let b = name.as_bytes();
    let end: usize = match find_last_dot(b) {
        Some(i) => if i > 0 {
            i
        } else {
            b.len()
        },
        None => b.len(),
    };
    let ghost s = stem(b@);
    assert(s == b@.subrange(0, end as int)) by {
        if end == b@.len() {
            assert(b@.subrange(0, end as int) =~= b@);
        }
    }
    if end > 0 && b[0] == PLUS {
        assert(s.drop_first() =~= b@.subrange(1, end as int));
        let r = parse_digits(b, 1, end);
        assert(s.len() > 0 && s[0] == PLUS);
        r
    } else {
        let r = parse_digits(b, 0, end);
        r
    }
}

/// Whether a file name has the extension of segment files, `vlog`.
pub fn is_log_file_name(name: &str) -> (r: bool)
    ensures
        r == has_log_suffix(name.spec_bytes()),
{
    let b = name.as_bytes();
    match find_last_dot(b) {
        Some(i) => {
            let ghost ext = b@.subrange(i as int, b@.len() as int);
            assert(suffix_bytes().len() == 5);
            if i == 0 || b.len() - i != 5 {
                return false;
            }
            let r = b[i + 1] == 118u8 && b[i + 2] == 108u8 && b[i + 3] == 111u8 && b[i + 4]
                == 103u8;
            proof {
                if r {
                    assert(ext =~= suffix_bytes());
                } else if ext == suffix_bytes() {
                    assert(ext[1] == 118u8 && ext[2] == 108u8 && ext[3] == 111u8 && ext[4] == 103u8);
                }
            }
            r
        },
        None => false,
    }
}

proof fn lemma_digits_value_of_digits(n: nat)
    ensures
        digits_value(digits(n)) == n,
    decreases n,
{
    if n >= 10 {
        lemma_digits_value_of_digits(n / 10);
        assert(digits(n).drop_last() =~= digits(n / 10));
    } else {
        assert(digits(n).drop_last() =~= Seq::<u8>::empty());
        assert(digits_value(Seq::<u8>::empty()) == 0);
        assert(digits(n).last() == (ZERO + n) as u8);
    }
}

proof fn lemma_digits_value_zeros(k: nat)
    ensures
        digits_value(Seq::new(k, |i: int| ZERO)) == 0,
    decreases k,
{
    if k > 0 {
        lemma_digits_value_zeros((k - 1) as nat);
        assert(Seq::new(k, |i: int| ZERO).drop_last() =~= Seq::new((k - 1) as nat, |i: int| ZERO));
    }
}

proof fn lemma_digits_value_leading_zeros(k: nat, s: Seq<u8>)
    ensures
        digits_value(Seq::new(k, |i: int| ZERO) + s) == digits_value(s),
    decreases s.len(),
{
    let z = Seq::new(k, |i: int| ZERO);
    if s.len() == 0 {
        assert(z + s =~= z);
        lemma_digits_value_zeros(k);
    } else {
        lemma_digits_value_leading_zeros(k, s.drop_last());
        assert((z + s).drop_last() =~= z + s.drop_last());
    }
}

proof fn lemma_last_dot_of_log_name(fid: u32)
    ensures
        last_dot(log_name(fid)) == padded_digits(fid as nat).len(),
{
    let name = log_name(fid);
    let n = name.len() as int;
    let p = padded_digits(fid as nat);
    assert(n == p.len() + 5);
    assert(name[n - 5] == DOT);
    assert(last_dot_before(name, n - 4) == n - 5);
    assert(name[n - 4] != DOT);
    assert(last_dot_before(name, n - 3) == n - 5);
    assert(name[n - 3] != DOT);
    assert(last_dot_before(name, n - 2) == n - 5);
    assert(name[n - 2] != DOT);
    assert(last_dot_before(name, n - 1) == n - 5);
    assert(name[n - 1] != DOT);
    assert(last_dot_before(name, n) == n - 5);
}

proof fn lemma_padded_digits(fid: u32)
    ensures
        padded_digits(fid as nat).len() >= FID_WIDTH,
        forall|i: int|
            0 <= i < padded_digits(fid as nat).len() ==> is_digit(
                #[trigger] padded_digits(fid as nat)[i],
            ),
        digits_value(padded_digits(fid as nat)) == fid,
{
    let p = padded_digits(fid as nat);
    let d = digits(fid as nat);
    lemma_digits_ascii(fid as nat);
    lemma_digits_value_of_digits(fid as nat);
    if d.len() < FID_WIDTH {
        let z = Seq::new((FID_WIDTH - d.len()) as nat, |i: int| ZERO);
        assert(p == z + d);
        assert forall|i: int| 0 <= i < p.len() implies is_digit(#[trigger] p[i]) by {
            if i >= z.len() {
                assert(p[i] == d[i - z.len()]);
            }
        }
        lemma_digits_value_leading_zeros((FID_WIDTH - d.len()) as nat, d);
    }
}

/// Reading back the canonical name of a segment gives its fid, so that the
/// name made from what was read is the canonical name again.
pub proof fn lemma_name_canonical(fid: u32)
    ensures
        parse_name(log_name(fid)) == Ok::<u32, Error>(fid),
        log_name(parse_name(log_name(fid))->Ok_0) == log_name(fid),
{
    let name = log_name(fid);
    let p = padded_digits(fid as nat);
    lemma_last_dot_of_log_name(fid);
    lemma_padded_digits(fid);
    assert(stem(name) =~= p);
    assert(p[0] != PLUS);
    assert(decimal_u32(p) == Ok::<u32, Error>(fid));
}

/// The path of segment `fid` in directory `dir`: the directory, a `/`
/// unless the directory is empty or already ends with one, then the
/// canonical name.
pub open spec fn segment_path_spec(dir: Seq<char>, fid: u32) -> Seq<char> {
    let name = ascii_chars(log_name(fid));
    if dir.len() == 0 {
        name
    } else if dir.last() == '/' {
        dir + name
    } else {
        dir + seq!['/'] + name
    }
}

/// The path of segment `fid` in directory `dir`.
pub fn segment_path(dir: &str, fid: u32) -> (r: String)
    ensures
        r@ == segment_path_spec(dir@, fid),
{
    let name = fid_to_pathbuf(fid);
    let n = dir.unicode_len();
    if n == 0 {
        return name;
    }
    let mut path = String::from_str(dir);
    if dir.get_char(n - 1) != '/' {
        proof {
            reveal_strlit("/");
        }
        path.append("/");
    }
    path.append(name.as_str());
    path
}

} // verus!
