//! Lines and whitespace-separated words of a text, as positions in its bytes.
//!
//! A line ends at a newline (which it does not contain) or at the end of the
//! text, and loses the carriage return just before its newline; an empty text has no lines,
//! and a final newline does not start another line.  Words are the maximal
//! runs of characters that are not whitespace in the sense of Unicode's
//! `White_Space` property, read off the UTF-8 bytes.
use crate::utils::parse_usize;
use vstd::prelude::*;

verus! {

/// The number of bytes of the whitespace character that starts at `s[i]`
/// and ends by `hi`, or `0`: the ASCII tab, line feed, vertical tab, form
/// feed, carriage return and space, and U+0085, U+00A0, U+1680,
/// U+2000 ..= U+200A, U+2028, U+2029, U+202F, U+205F and U+3000 in UTF-8.
pub open spec fn space_len(s: Seq<u8>, i: int, hi: int) -> int {
    if i < 0 || i >= hi {
        0
    } else if s[i] == 32 || (9 <= s[i] && s[i] <= 13) {
        1
    } else if i + 1 < hi && s[i] == 0xc2 && (s[i + 1] == 0x85 || s[i + 1] == 0xa0) {
        2
    } else if i + 2 < hi && s[i] == 0xe1 && s[i + 1] == 0x9a && s[i + 2] == 0x80 {
        3
    } else if i + 2 < hi && s[i] == 0xe2 && s[i + 1] == 0x80 && ((0x80 <= s[i + 2] && s[i + 2] <= 0x8a) || s[i
        + 2] == 0xa8 || s[i + 2] == 0xa9 || s[i + 2] == 0xaf) {
        3
    } else if i + 2 < hi && s[i] == 0xe2 && s[i + 1] == 0x81 && s[i + 2] == 0x9f {
        3
    } else if i + 2 < hi && s[i] == 0xe3 && s[i + 1] == 0x80 && s[i + 2] == 0x80 {
        3
    } else {
        0
    }
}

/// The first newline at or after `i`, or the end of `s`.
pub open spec fn line_end(s: Seq<u8>, i: int) -> int
    decreases s.len() - i,
{
    if i >= s.len() || s[i] == 10 {
        i
    } else {
        line_end(s, i + 1)
    }
}

pub proof fn lemma_line_end(s: Seq<u8>, i: int)
    requires
        0 <= i <= s.len(),
    ensures
        i <= line_end(s, i) <= s.len(),
        line_end(s, i) < s.len() ==> s[line_end(s, i)] == 10,
        forall|k: int| i <= k < line_end(s, i) ==> s[k] != 10,
    decreases s.len() - i,
{
    if i < s.len() && s[i] != 10 {
        lemma_line_end(s, i + 1);
    }
}

/// The lines of `s` from position `i` on, as ranges `(start, end)`.
pub open spec fn lines_from(s: Seq<u8>, i: int) -> Seq<(int, int)>
    decreases s.len() + 1 - i,
{
    if i < 0 || i >= s.len() {
        seq![]
    } else {
        proof {
            lemma_line_end(s, i);
        }
        let e = line_end(s, i);
        let stop = if e < s.len() && e > i && s[e - 1] == 13 {
            e - 1
        } else {
            e
        };
        seq![(i, stop)] + lines_from(s, e + 1)
    }
}

/// The lines of `s`.
pub open spec fn lines(s: Seq<u8>) -> Seq<(int, int)> {
    lines_from(s, 0)
}

/// The first byte at or after `i` and before `hi` that is not whitespace,
/// or `hi`.
pub open spec fn skip_space(s: Seq<u8>, i: int, hi: int) -> int
    decreases hi - i,
{
    if i >= hi || space_len(s, i, hi) == 0 {
        i
    } else {
        skip_space(s, i + space_len(s, i, hi), hi)
    }
}

/// The first whitespace byte at or after `i` and before `hi`, or `hi`.
pub open spec fn word_end(s: Seq<u8>, i: int, hi: int) -> int
    decreases hi - i,
{
    if i >= hi || space_len(s, i, hi) > 0 {
        i
    } else {
        word_end(s, i + 1, hi)
    }
}

pub proof fn lemma_skip_space(s: Seq<u8>, i: int, hi: int)
    requires
        i <= hi,
    ensures
        i <= skip_space(s, i, hi) <= hi,
        skip_space(s, i, hi) < hi ==> space_len(s, skip_space(s, i, hi), hi) == 0,
    decreases hi - i,
{
    if i < hi && space_len(s, i, hi) > 0 {
        lemma_skip_space(s, i + space_len(s, i, hi), hi);
    }
}

pub proof fn lemma_word_end(s: Seq<u8>, i: int, hi: int)
    requires
        i <= hi,
    ensures
        i <= word_end(s, i, hi) <= hi,
        i < hi && space_len(s, i, hi) == 0 ==> word_end(s, i, hi) > i,
    decreases hi - i,
{
    if i < hi && space_len(s, i, hi) == 0 {
        lemma_word_end(s, i + 1, hi);
    }
}

/// The words of `s[i .. hi]`, as ranges `(start, end)`.
pub open spec fn words_from(s: Seq<u8>, i: int, hi: int) -> Seq<(int, int)>
    decreases hi - i,
{
    if i >= hi {
        seq![]
    } else {
        proof {
            lemma_skip_space(s, i, hi);
            lemma_word_end(s, skip_space(s, i, hi), hi);
        }
        let a = skip_space(s, i, hi);
        if a >= hi {
            seq![]
        } else {
            let b = word_end(s, a, hi);
            seq![(a, b)] + words_from(s, b, hi)
        }
    }
}

/// The value of word `t` of line `k` of `s`, if the line and the word exist
/// and the word is a `usize`.
pub open spec fn word_value(s: Seq<u8>, k: int, t: int) -> Option<int> {
    let ls = lines(s);
    if 0 <= k < ls.len() {
        let ws = words_from(s, ls[k].0, ls[k].1);
        if 0 <= t < ws.len() {
            parse_usize(s.subrange(ws[t].0, ws[t].1))
        } else {
            None
        }
    } else {
        None
    }
}

/// The value of line `k` of `s` as a whole, if it is a `usize`.
pub open spec fn line_value(s: Seq<u8>, k: int) -> Option<int> {
    let ls = lines(s);
    if 0 <= k < ls.len() {
        parse_usize(s.subrange(ls[k].0, ls[k].1))
    } else {
        None
    }
}

/// `v` holds the ranges of `spec`.
pub open spec fn same_ranges(v: Seq<(usize, usize)>, spec: Seq<(int, int)>) -> bool {
    &&& v.len() == spec.len()
    &&& forall|k: int| 0 <= k < v.len() ==> (#[trigger] v[k]).0 == spec[k].0 && v[k].1 == spec[k].1
}

/// The lines of `s`.
pub fn split_lines(s: &[u8]) -> (r: Vec<(usize, usize)>)
    ensures
        same_ranges(r@, lines(s@)),
{
    let n = s.len();
    let mut r: Vec<(usize, usize)> = Vec::new();
    let mut i: usize = 0;
    while i < n
        invariant
            i <= n,
            n == s@.len(),
            lines(s@) == r@.map_values(|p: (usize, usize)| (p.0 as int, p.1 as int)) + lines_from(s@, i as int),
        decreases n - i,
    {
        let mut e = i;
        while e < n && s[e] != 10
            invariant
                i <= e <= n,
                n == s@.len(),
                line_end(s@, i as int) == line_end(s@, e as int),
            decreases n - e,
        {
            e += 1;
        }
        let stop = if e < n && e > i && s[e - 1] == 13 {
            e - 1
        } else {
            e
        };
        proof {
            lemma_line_end(s@, i as int);
            let old_r = r@.map_values(|p: (usize, usize)| (p.0 as int, p.1 as int));
            assert(lines_from(s@, i as int) == seq![(i as int, stop as int)] + lines_from(s@, e + 1));
            let new_r = r@.push((i, stop)).map_values(|p: (usize, usize)| (p.0 as int, p.1 as int));
            assert(new_r =~= old_r.push((i as int, stop as int)));
            assert(old_r + (seq![(i as int, stop as int)] + lines_from(s@, e + 1)) =~= old_r.push(
                (i as int, stop as int),
            ) + lines_from(s@, e + 1));
        }
        r.push((i, stop));
        if e >= n {
            i = n;
        } else {
            i = e + 1;
        }
    }
    proof {
        assert(lines_from(s@, i as int) == Seq::<(int, int)>::empty());
        assert(lines(s@) =~= r@.map_values(|p: (usize, usize)| (p.0 as int, p.1 as int)));
    }
    r
}

/// The number of bytes of the whitespace character at `s[i]`, or `0`.
fn space_at(s: &[u8], i: usize, hi: usize) -> (n: usize)
    requires
        i <= hi <= s@.len(),
    ensures
        n == space_len(s@, i as int, hi as int),
        n <= hi - i,
{
    if i >= hi {
        return 0;
    }
    let b = s[i];
    if b == 32 || (9 <= b && b <= 13) {
        1
    } else if hi - i > 1 && b == 0xc2 && (s[i + 1] == 0x85 || s[i + 1] == 0xa0) {
        2
    } else if hi - i > 2 && b == 0xe1 && s[i + 1] == 0x9a && s[i + 2] == 0x80 {
        3
    } else if hi - i > 2 && b == 0xe2 && s[i + 1] == 0x80 && ((0x80 <= s[i + 2] && s[i + 2] <= 0x8a) || s[i
        + 2] == 0xa8 || s[i + 2] == 0xa9 || s[i + 2] == 0xaf) {
        3
    } else if hi - i > 2 && b == 0xe2 && s[i + 1] == 0x81 && s[i + 2] == 0x9f {
        3
    } else if hi - i > 2 && b == 0xe3 && s[i + 1] == 0x80 && s[i + 2] == 0x80 {
        3
    } else {
        0
    }
}

/// The words of `s[lo .. hi]`.
pub fn split_words(s: &[u8], lo: usize, hi: usize) -> (r: Vec<(usize, usize)>)
    requires
        lo <= hi <= s@.len(),
    ensures
        same_ranges(r@, words_from(s@, lo as int, hi as int)),
        forall|k: int| 0 <= k < r@.len() ==> lo <= (#[trigger] r@[k]).0 <= r@[k].1 <= hi,
{
    let mut r: Vec<(usize, usize)> = Vec::new();
    let mut i: usize = lo;
    while i < hi
        invariant
            lo <= i <= hi,
            hi <= s@.len(),
            words_from(s@, lo as int, hi as int) == r@.map_values(|p: (usize, usize)| (p.0 as int, p.1 as int))
                + words_from(s@, i as int, hi as int),
            forall|k: int| 0 <= k < r@.len() ==> lo <= (#[trigger] r@[k]).0 <= r@[k].1 <= i,
        decreases hi - i,
    {
        let mut a = i;
        let mut n = space_at(s, a, hi);
        while n > 0
            invariant
                i <= a <= hi,
                hi <= s@.len(),
                n == space_len(s@, a as int, hi as int),
                skip_space(s@, i as int, hi as int) == skip_space(s@, a as int, hi as int),
            decreases hi - a,
        {
            a += n;
            n = space_at(s, a, hi);
        }
        if a >= hi {
            proof {
                assert(words_from(s@, i as int, hi as int) == Seq::<(int, int)>::empty());
            }
            i = hi;
        } else {
            let mut b = a;
            let mut m = space_at(s, b, hi);
            while b < hi && m == 0
                invariant
                    a <= b <= hi,
                    hi <= s@.len(),
                    m == space_len(s@, b as int, hi as int),
                    word_end(s@, a as int, hi as int) == word_end(s@, b as int, hi as int),
                decreases hi - b,
            {
                b += 1;
                m = space_at(s, b, hi);
            }
            proof {
                lemma_word_end(s@, a as int, hi as int);
                let old_r = r@.map_values(|p: (usize, usize)| (p.0 as int, p.1 as int));
                assert(words_from(s@, i as int, hi as int) == seq![(a as int, b as int)] + words_from(
                    s@,
                    b as int,
                    hi as int,
                ));
                let new_r = r@.push((a, b)).map_values(|p: (usize, usize)| (p.0 as int, p.1 as int));
                assert(new_r =~= old_r.push((a as int, b as int)));
                assert(old_r + (seq![(a as int, b as int)] + words_from(s@, b as int, hi as int)) =~= old_r.push(
                    (a as int, b as int),
                ) + words_from(s@, b as int, hi as int));
            }
            r.push((a, b));
            i = b;
        }
    }
    proof {
        assert(words_from(s@, i as int, hi as int) == Seq::<(int, int)>::empty());
        assert(words_from(s@, lo as int, hi as int) =~= r@.map_values(|p: (usize, usize)| (p.0 as int, p.1 as int)));
    }
    r
}

/// The ranges of the lines lie inside the text.
pub proof fn lemma_ranges_in(s: Seq<u8>, v: Seq<(usize, usize)>)
    requires
        same_ranges(v, lines(s)),
    ensures
        forall|t: int| 0 <= t < v.len() ==> (#[trigger] v[t]).0 <= v[t].1 <= s.len(),
{
    assert forall|t: int| 0 <= t < v.len() implies (#[trigger] v[t]).0 <= v[t].1 <= s.len() by {
        lemma_lines_from_in(s, 0, t);
    }
}

pub proof fn lemma_lines_from_in(s: Seq<u8>, i: int, t: int)
    requires
        0 <= t < lines_from(s, i).len(),
    ensures
        i <= lines_from(s, i)[t].0 <= lines_from(s, i)[t].1 <= s.len(),
    decreases s.len() + 1 - i,
{
    lemma_line_end(s, i);
    let e = line_end(s, i);
    if t > 0 {
        lemma_lines_from_in(s, e + 1, t - 1);
    }
}

} // verus!
