//! Parsing of the size parameter given on the command line.
use vstd::prelude::*;
use vstd::string::StringSliceAdditionalSpecFns;

verus! {

/// The least accepted size parameter.
pub const REQUIRED_THRESHOLD: usize = 14;

#[derive(Debug, PartialEq, Eq, Structural, Clone, Copy)]
pub enum MainError {
    BelowThreshold,
    ParseParamsError,
    NoNumberProvided,
}

pub open spec fn is_digit(b: u8) -> bool {
    48 <= b <= 57
}

/// The value of a string of decimal digits.
pub open spec fn decimal_value(s: Seq<u8>) -> int
    decreases s.len(),
{
    if s.len() == 0 {
        0
    } else {
        decimal_value(s.drop_last()) * 10 + (s.last() - 48)
    }
}

/// The digits of an unsigned integer literal: an optional leading `+`
/// followed by the rest.
pub open spec fn unsigned_digits(s: Seq<u8>) -> Seq<u8> {
    if s.len() > 0 && s[0] == 43 {
        s.drop_first()
    } else {
        s
    }
}

/// What `str::parse` accepts for an unsigned type whose largest value is
/// `limit`: an optional `+` and at least one decimal digit, with a value up
/// to `limit`.
pub open spec fn parse_unsigned(s: Seq<u8>, limit: int) -> Option<int> {
    let d = unsigned_digits(s);
    if d.len() > 0 && (forall|i: int| 0 <= i < d.len() ==> is_digit(#[trigger] d[i])) && decimal_value(d)
        <= limit {
        Some(decimal_value(d))
    } else {
        None
    }
}

/// What `str::parse::<usize>` accepts.
pub open spec fn parse_usize(s: Seq<u8>) -> Option<int> {
    parse_unsigned(s, usize::MAX as int)
}

proof fn lemma_decimal_value_nonneg(s: Seq<u8>)
    requires
        forall|i: int| 0 <= i < s.len() ==> is_digit(#[trigger] s[i]),
    ensures
        decimal_value(s) >= 0,
    decreases s.len(),
{
    if s.len() > 0 {
        lemma_decimal_value_nonneg(s.drop_last());
    }
}

/// A longer string of digits has at least the value of its prefix.
proof fn lemma_decimal_value_prefix(s: Seq<u8>, k: int)
    requires
        0 <= k <= s.len(),
        forall|i: int| 0 <= i < s.len() ==> is_digit(#[trigger] s[i]),
    ensures
        decimal_value(s.subrange(0, k)) <= decimal_value(s),
    decreases s.len() - k,
{
    if k < s.len() {
        lemma_decimal_value_prefix(s, k + 1);
        let p = s.subrange(0, k + 1);
        assert(p.drop_last() =~= s.subrange(0, k));
        lemma_decimal_value_nonneg(s.subrange(0, k));
    } else {
        assert(s.subrange(0, k) =~= s);
    }
}

/// Parses the size parameter: a `usize` of at least `REQUIRED_THRESHOLD`.
pub fn parse_number(input: &str) -> (r: Result<usize, MainError>)
    ensures
        r == match parse_usize(input.spec_bytes()) {
            Some(n) => if n >= REQUIRED_THRESHOLD {
                Ok::<usize, MainError>(n as usize)
            } else {
                Err(MainError::BelowThreshold)
            },
            None => Err(MainError::ParseParamsError),
        },
{
    let bytes = input.as_bytes();
    let ghost s = bytes@;
    assert(s == input.spec_bytes());
    let mut start: usize = 0;
    if bytes.len() > 0 && bytes[0] == 43 {
        start = 1;
    }
    let ghost d = unsigned_digits(s);
    assert(d =~= s.subrange(start as int, s.len() as int));
    if start >= bytes.len() {
        return Err(MainError::ParseParamsError);
    }
    let mut acc: usize = 0;
    let mut i: usize = start;
    while i < bytes.len()
        invariant
            start <= i <= bytes@.len(),
            bytes@ == s,
            s == input.spec_bytes(),
            d == unsigned_digits(s),
            d =~= s.subrange(start as int, s.len() as int),
            forall|j: int| 0 <= j < i - start ==> is_digit(#[trigger] d[j]),
            acc as int == decimal_value(d.subrange(0, i - start)),
        decreases bytes@.len() - i,
    {
        let b = bytes[i];
        if b < 48 || b > 57 {
            proof {
                assert(!is_digit(d[i - start]));
                assert(parse_usize(s) is None);
            }
            return Err(MainError::ParseParamsError);
        }
        let digit: usize = (b - 48) as usize;
        proof {
            let p = d.subrange(0, i - start + 1);
            assert(p.drop_last() =~= d.subrange(0, i - start));
            assert(p.last() == b);
        }
        if acc > (usize::MAX - digit) / 10 {
            proof {
                let p = d.subrange(0, i - start + 1);
                assert(decimal_value(p) > usize::MAX) by (nonlinear_arith)
                    requires
                        decimal_value(p) == acc * 10 + digit,
                        acc > (usize::MAX - digit) / 10,
                        digit <= 9,
                ;
                if forall|j: int| 0 <= j < d.len() ==> is_digit(#[trigger] d[j]) {
                    lemma_decimal_value_prefix(d, i - start + 1);
                    assert(decimal_value(d) > usize::MAX);
                }
                assert(parse_usize(s) is None);
            }
            return Err(MainError::ParseParamsError);
        }
        acc = acc * 10 + digit;
        i += 1;
    }
    assert(d.subrange(0, i - start) =~= d);
    if acc >= REQUIRED_THRESHOLD {
        Ok(acc)
    } else {
        Err(MainError::BelowThreshold)
    }
}

/// Parses `bytes[lo .. hi]` as an unsigned number up to `limit`, as
/// `str::parse` does.
pub fn parse_unsigned_range(bytes: &[u8], lo: usize, hi: usize, limit: u64) -> (r: Option<u64>)
    requires
        lo <= hi <= bytes@.len(),
    ensures
        r matches Some(n) ==> parse_unsigned(bytes@.subrange(lo as int, hi as int), limit as int) == Some(n as int),
        r is None ==> parse_unsigned(bytes@.subrange(lo as int, hi as int), limit as int) is None,
{
    let ghost s = bytes@.subrange(lo as int, hi as int);
    let mut start: usize = lo;
    if lo < hi && bytes[lo] == 43 {
        start = lo + 1;
    }
    let ghost d = unsigned_digits(s);
    assert(d =~= bytes@.subrange(start as int, hi as int));
    if start >= hi {
        return None;
    }
    let mut acc: u64 = 0;
    let mut i: usize = start;
    while i < hi
        invariant
            lo <= start <= i <= hi,
            hi <= bytes@.len(),
            s == bytes@.subrange(lo as int, hi as int),
            d == unsigned_digits(s),
            d =~= bytes@.subrange(start as int, hi as int),
            forall|j: int| 0 <= j < i - start ==> is_digit(#[trigger] d[j]),
            acc as int == decimal_value(d.subrange(0, i - start)),
            acc <= limit,
        decreases hi - i,
    {
        let b = bytes[i];
        if b < 48 || b > 57 {
            proof {
                assert(!is_digit(d[i - start]));
            }
            return None;
        }
        let digit: u64 = (b - 48) as u64;
        proof {
            let p = d.subrange(0, i - start + 1);
            assert(p.drop_last() =~= d.subrange(0, i - start));
            assert(p.last() == b);
        }
        if digit > limit || acc > (limit - digit) / 10 {
            proof {
                let p = d.subrange(0, i - start + 1);
                assert(decimal_value(p) > limit) by (nonlinear_arith)
                    requires
                        decimal_value(p) == acc * 10 + digit,
                        digit > limit || acc > (limit - digit) / 10,
                        digit <= 9,
                ;
                if forall|j: int| 0 <= j < d.len() ==> is_digit(#[trigger] d[j]) {
                    lemma_decimal_value_prefix(d, i - start + 1);
                }
            }
            return None;
        }
        acc = acc * 10 + digit;
        i += 1;
    }
    assert(d.subrange(0, i - start) =~= d);
    Some(acc)
}

/// Parses `bytes[lo .. hi]` as a `usize`, as `str::parse` does.
pub fn parse_usize_range(bytes: &[u8], lo: usize, hi: usize) -> (r: Option<usize>)
    requires
        lo <= hi <= bytes@.len(),
    ensures
        r matches Some(n) ==> parse_usize(bytes@.subrange(lo as int, hi as int)) == Some(n as int),
        r is None ==> parse_usize(bytes@.subrange(lo as int, hi as int)) is None,
{
    match parse_unsigned_range(bytes, lo, hi, usize::MAX as u64) {
        Some(n) => Some(n as usize),
        None => None,
    }
}

} // verus!
