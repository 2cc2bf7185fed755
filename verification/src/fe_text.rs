//! Vectors of field elements written as text: one element per line, its real
//! and imaginary coordinates as the first two words of the line.
use crate::field::FieldElement;
use crate::text::{lemma_ranges_in, lines, same_ranges, split_lines, split_words, words_from};
use crate::utils::{parse_unsigned, parse_unsigned_range};
use vstd::prelude::*;
use vstd::string::StringSliceAdditionalSpecFns;

verus! {

/// The element written on the line `s[l.0 .. l.1]`: its first two words as
/// `u64` values, taken as they stand; later words are ignored.
pub open spec fn fe_line(s: Seq<u8>, l: (int, int)) -> Option<FieldElement> {
    let ws = words_from(s, l.0, l.1);
    if ws.len() < 2 {
        None
    } else {
        let re = parse_unsigned(s.subrange(ws[0].0, ws[0].1), u64::MAX as int);
        let im = parse_unsigned(s.subrange(ws[1].0, ws[1].1), u64::MAX as int);
        if re is Some && im is Some {
            Some(FieldElement { real: re->0 as u64, img: im->0 as u64 })
        } else {
            None
        }
    }
}

/// Every line of `s` holds an element.
pub open spec fn fe_text_ok(s: Seq<u8>) -> bool {
    forall|k: int| 0 <= k < lines(s).len() ==> (#[trigger] fe_line(s, lines(s)[k])) is Some
}

/// Reads the elements written in `content`, one per line.  `None` where a
/// line does not start with two `u64` values.
pub fn read_vec_fe_file(content: &str) -> (r: Option<Vec<FieldElement>>)
    ensures
        r is Some <==> fe_text_ok(content.spec_bytes()),
        r matches Some(v) ==> {
            &&& v@.len() == lines(content.spec_bytes()).len()
            &&& forall|k: int|
                0 <= k < v@.len() ==> Some(#[trigger] v@[k]) == fe_line(
                    content.spec_bytes(),
                    lines(content.spec_bytes())[k],
                )
        },
{
    let c = content.as_bytes();
    let ghost s = c@;
    assert(s == content.spec_bytes());
    let ls = split_lines(c);
    let n = ls.len();
    proof {
        lemma_ranges_in(s, ls@);
    }
    let mut out: Vec<FieldElement> = Vec::new();
    let mut k: usize = 0;
    while k < n
        invariant
            k <= n,
            n == ls@.len(),
            c@ == s,
            s == content.spec_bytes(),
            same_ranges(ls@, lines(s)),
            forall|t: int| 0 <= t < ls@.len() ==> (#[trigger] ls@[t]).0 <= ls@[t].1 <= s.len(),
            out@.len() == k,
            forall|t: int| 0 <= t < k ==> Some(#[trigger] out@[t]) == fe_line(s, lines(s)[t]),
        decreases n - k,
    {
        let (lo, hi) = ls[k];
        let ws = split_words(c, lo, hi);
        let ghost l = lines(s)[k as int];
        assert(l == (lo as int, hi as int));
        if ws.len() < 2 {
            proof {
                assert(fe_line(s, lines(s)[k as int]) is None);
            }
            return None;
        }
        let (a0, b0) = ws[0];
        let (a1, b1) = ws[1];
        let re = parse_unsigned_range(c, a0, b0, u64::MAX);
        let im = parse_unsigned_range(c, a1, b1, u64::MAX);
        match (re, im) {
            (Some(x), Some(y)) => {
                out.push(FieldElement::new(x, y));
            },
            _ => {
                proof {
                    assert(fe_line(s, lines(s)[k as int]) is None);
                }
                return None;
            },
        }
        k += 1;
    }
    proof {
        assert forall|t: int| 0 <= t < lines(s).len() implies (#[trigger] fe_line(s, lines(s)[t])) is Some by {
            assert(Some(out@[t]) == fe_line(s, lines(s)[t]));
        }
    }
    Some(out)
}

} // verus!
