//! The text format of layered circuits.
//!
//! The circuit text holds the number `d` of layers on its first line, alone;
//! line `i` (for `1 <= i <= d`) holds the number `n` of gates of layer `i`
//! followed by `n` quadruples `ty g u v`, with `g` running through
//! `0 .. n`.  The gates of line `1` are the inputs (types `2` and `3`): they
//! become layer `0`, padded with input gates of value `0` to `2^15` gates
//! (`2^17` for circuits of more than three layers), and layer `1` relays
//! them.  A layer of one gate gets a second, dummy gate.  The meta text
//! holds, on line `i - 1`, `is_parallel block_size repeat_num log_block_size
//! log_repeat_num` of layer `i`.
use crate::circuit::{Gate, Layer, LayeredCircuit};
use crate::field::fe_zero;
use crate::gkr_verifier::ZkVerifier;
use vstd::string::StringSliceAdditionalSpecFns;
use crate::text::{lemma_ranges_in, lines, lines_from, same_ranges, split_lines, split_words, word_value, line_value, words_from};
use crate::utils::{parse_usize, parse_usize_range};
use vstd::arithmetic::power2::pow2;
use vstd::prelude::*;

verus! {

/// The number of bits of `x`: `0` for `0`.
pub open spec fn bits(x: nat) -> nat
    decreases x,
{
    if x == 0 {
        0
    } else {
        1 + bits(x / 2)
    }
}

/// The exponent of the input padding of a circuit of `d` layers.
pub open spec fn pad_bits(d: int) -> nat {
    if d > 3 {
        17
    } else {
        15
    }
}

/// The number of input gates after padding `n` given ones.
pub open spec fn padded_count(n: int, d: int) -> int {
    if n < pow2(pad_bits(d)) {
        pow2(pad_bits(d)) as int
    } else {
        n
    }
}

/// The number of gates of layer `i` when its line gives `n`.
pub open spec fn layer_size(i: int, n: int, d: int) -> int {
    if n == 1 {
        2
    } else if i == 1 {
        padded_count(n, d)
    } else {
        n
    }
}

/// The bit length of layer `i` when its line gives `n` gates.
pub open spec fn layer_bits(i: int, n: int, d: int) -> nat {
    if i != 1 && n == 1 {
        1
    } else if i == 1 {
        bits((padded_count(n, d) - 1) as nat)
    } else if n == 0 {
        0
    } else {
        bits((n - 1) as nat)
    }
}

/// Field `f` of gate `j` on line `i`.
pub open spec fn gate_field(c: Seq<u8>, i: int, j: int, f: int) -> Option<int> {
    word_value(c, i, 1 + 4 * j + f)
}

/// The number of gates that line `i` announces.
pub open spec fn gate_count(c: Seq<u8>, i: int) -> int {
    word_value(c, i, 0)->0
}

/// The bit length of the layer before layer `i` when layer `i` is read.
pub open spec fn prev_bits(c: Seq<u8>, i: int, d: int) -> nat {
    if i == 1 {
        0
    } else {
        layer_bits(i - 1, gate_count(c, i - 1), d)
    }
}

/// Gate `j` of line `i` is complete and well placed: the inputs of a gate
/// that is not an input lie in the previous layer (a summation gate reads
/// `u .. v`), a bit test reads one value twice, the gates come in order,
/// and line `1` holds only input gates.
pub open spec fn file_gate_ok(c: Seq<u8>, i: int, j: int, pb: nat) -> bool {
    let ty = gate_field(c, i, j, 0)->0;
    let g = gate_field(c, i, j, 1)->0;
    let u = gate_field(c, i, j, 2)->0;
    let v = gate_field(c, i, j, 3)->0;
    let bound = pow2(pb) as int;
    &&& forall|f: int| 0 <= f < 4 ==> #[trigger] gate_field(c, i, j, f) is Some
    &&& ty != 3 ==> pb < usize::BITS && (if ty == 5 {
        u < bound && u < v && v <= bound
    } else {
        u < bound && v < bound
    })
    &&& ty == 13 ==> u == v
    &&& g == j
    &&& i == 1 ==> (ty == 2 || ty == 3)
}

/// Line `i` describes a layer.
pub open spec fn layer_line_ok(c: Seq<u8>, i: int, d: int) -> bool {
    let n = gate_count(c, i);
    &&& word_value(c, i, 0) is Some
    &&& i == 1 ==> n != 1
    &&& forall|j: int| 0 <= j < n ==> file_gate_ok(c, i, j, prev_bits(c, i, d))
}

/// Line `i - 1` of the meta text describes layer `i`.
pub open spec fn meta_line_ok(m: Seq<u8>, i: int) -> bool {
    &&& forall|f: int| 0 <= f < 5 ==> #[trigger] word_value(m, i - 1, f) is Some
    &&& word_value(m, i - 1, 0)->0 != 0 ==> {
        &&& word_value(m, i - 1, 4)->0 < usize::BITS
        &&& pow2(word_value(m, i - 1, 4)->0 as nat) == word_value(m, i - 1, 2)->0
    }
}

/// The largest bit length of the layers `1 ..= k`.
pub open spec fn max_bits(c: Seq<u8>, d: int, k: int) -> nat
    decreases k,
{
    if k <= 0 {
        0
    } else {
        let b = layer_bits(k, gate_count(c, k), d);
        let rest = max_bits(c, d, k - 1);
        if k == 1 || b > rest {
            b
        } else {
            rest
        }
    }
}

/// The texts describe a circuit that the reader accepts.
pub open spec fn circuit_text_ok(c: Seq<u8>, m: Seq<u8>) -> bool {
    let d = line_value(c, 0)->0;
    &&& line_value(c, 0) is Some
    &&& d >= 1
    &&& forall|i: int| 1 <= i <= d ==> #[trigger] layer_line_ok(c, i, d)
    &&& forall|i: int| 1 <= i <= d ==> #[trigger] meta_line_ok(m, i)
    &&& pow2((max_bits(c, d, d) - max_bits(c, d, d) / 2) as nat) <= usize::MAX
}

/// `g` is a gate `ty u v` without parameters.
pub open spec fn gate_is(g: Gate, ty: int, u: int, v: int) -> bool {
    &&& g.ty == ty
    &&& g.u == u
    &&& g.v == v
    &&& g.src@.len() == 0
    &&& g.weight@.len() == 0
    &&& g.parameter_length == 0
}

/// Gate `j` of line `i`, as stored: the second input of a not or relay gate
/// is position `0`.
pub open spec fn stored_gate_is(g: Gate, c: Seq<u8>, i: int, j: int) -> bool {
    let ty = gate_field(c, i, j, 0)->0;
    let u = gate_field(c, i, j, 2)->0;
    let v = gate_field(c, i, j, 3)->0;
    gate_is(g, ty, u, if ty == 6 || ty == 10 { 0 } else { v })
}

/// The layer has no expander pools.
pub open spec fn no_pools(l: Layer) -> bool {
    &&& l.src_expander_c_mempool@.len() == 0
    &&& l.src_expander_d_mempool@.len() == 0
    &&& l.weight_expander_c_mempool@.len() == 0
    &&& l.weight_expander_d_mempool@.len() == 0
}

/// Layer `i >= 1` as the reader builds it from line `i` of `c` and line
/// `i - 1` of `m`.
pub open spec fn layer_read(l: Layer, c: Seq<u8>, m: Seq<u8>, i: int, d: int) -> bool {
    let n = gate_count(c, i);
    &&& no_pools(l)
    &&& l.gates@.len() == layer_size(i, n, d)
    &&& l.bit_length == layer_bits(i, n, d)
    &&& forall|j: int|
        #![trigger l.gates@[j]]
        0 <= j < l.gates@.len() ==> (if i == 1 {
            gate_is(l.gates@[j], 4, j, 0)
        } else if j < n {
            stored_gate_is(l.gates@[j], c, i, j)
        } else {
            gate_is(l.gates@[j], 2, 0, 0)
        })
    &&& l.is_parallel == (word_value(m, i - 1, 0)->0 != 0)
    &&& l.block_size == word_value(m, i - 1, 1)->0
    &&& l.repeat_num == word_value(m, i - 1, 2)->0
    &&& l.log_block_size == word_value(m, i - 1, 3)->0
    &&& l.log_repeat_num == word_value(m, i - 1, 4)->0
}

/// Layer `0` as the reader builds it from line `1` of `c`.
pub open spec fn input_layer_read(l: Layer, c: Seq<u8>, d: int) -> bool {
    let n = gate_count(c, 1);
    &&& no_pools(l)
    &&& l.gates@.len() == layer_size(1, n, d)
    &&& l.bit_length == layer_bits(1, n, d)
    &&& forall|j: int|
        #![trigger l.gates@[j]]
        0 <= j < l.gates@.len() ==> (if j < n {
            stored_gate_is(l.gates@[j], c, 1, j)
        } else {
            gate_is(l.gates@[j], 3, 0, 0)
        })
    &&& !l.is_parallel
    &&& l.block_size == 0 && l.repeat_num == 0 && l.log_block_size == 0 && l.log_repeat_num == 0
}

/// The circuit that the reader builds from the texts.
pub open spec fn circuit_read(a: LayeredCircuit, c: Seq<u8>, m: Seq<u8>) -> bool {
    let d = line_value(c, 0)->0;
    &&& a.total_depth == d + 1
    &&& a.circuit@.len() == d + 1
    &&& a.inputs@.len() == 0
    &&& input_layer_read(a.circuit@[0], c, d)
    &&& forall|i: int| 1 <= i <= d ==> #[trigger] layer_read(a.circuit@[i], c, m, i, d)
}

// ---------------------------------------------------------------------------
// Reading
// ---------------------------------------------------------------------------
/// The number of bits of `x`.
pub fn bit_count(x: usize) -> (r: usize)
    ensures
        r == bits(x as nat),
        r <= 64,
{
    let mut y = x;
    let mut r: usize = 0;
    proof {
        lemma_bits_bound(x as nat);
    }
    while y > 0
        invariant
            bits(x as nat) == r + bits(y as nat),
            r + bits(y as nat) <= 64,
            y <= x,
        decreases y,
    {
        proof {
            lemma_bits_bound(y as nat);
        }
        y = y / 2;
        r += 1;
    }
    proof {
        lemma_bits_bound(x as nat);
    }
    r
}

/// A word has at most as many bits as its width.
proof fn lemma_bits_bound(x: nat)
    requires
        x <= usize::MAX,
    ensures
        bits(x) <= 64,
    decreases x,
{
    if x > 0 {
        lemma_bits_bound(x / 2);
        if x / 2 > 0 {
            assert(bits(x / 2) <= 63) by {
                lemma_bits_half(x / 2);
            }
        }
    }
}

/// Numbers below `2^63` have at most `63` bits.
proof fn lemma_bits_half(x: nat)
    requires
        x <= usize::MAX / 2,
    ensures
        bits(x) <= 63,
{
    vstd::arithmetic::power2::lemma2_to64_rest();
    assert(x < pow2(63));
    lemma_bits_below(x, 63);
}

/// `x < 2^k` has at most `k` bits.
proof fn lemma_bits_below(x: nat, k: nat)
    requires
        x < pow2(k),
    ensures
        bits(x) <= k,
    decreases k,
{
    if k == 0 {
        vstd::arithmetic::power2::lemma2_to64();
    } else if x > 0 {
        vstd::arithmetic::power2::lemma_pow2_unfold(k);
        lemma_bits_below(x / 2, (k - 1) as nat);
    }
}

/// The words of line `k` of `c` are `ws`.
pub open spec fn words_of_line(c: Seq<u8>, k: int, ws: Seq<(usize, usize)>) -> bool {
    &&& 0 <= k < lines(c).len()
    &&& same_ranges(ws, words_from(c, lines(c)[k].0, lines(c)[k].1))
    &&& forall|t: int| 0 <= t < ws.len() ==> (#[trigger] ws[t]).0 <= ws[t].1 <= c.len()
}

/// Word `t` of line `k`, given the words `ws` of the line.
fn read_word(c: &[u8], ws: &Vec<(usize, usize)>, k: Ghost<int>, t: usize) -> (r: Option<usize>)
    requires
        words_of_line(c@, k@, ws@),
    ensures
        r matches Some(n) ==> word_value(c@, k@, t as int) == Some(n as int),
        r is None ==> word_value(c@, k@, t as int) is None,
{
    if t >= ws.len() {
        return None;
    }
    let (a, b) = ws[t];
    parse_usize_range(c, a, b)
}

/// The words of line `k` of `c`.
fn line_words(c: &[u8], ls: &Vec<(usize, usize)>, k: usize) -> (ws: Vec<(usize, usize)>)
    requires
        same_ranges(ls@, lines(c@)),
        forall|t: int| 0 <= t < ls@.len() ==> (#[trigger] ls@[t]).0 <= ls@[t].1 <= c@.len(),
        k < ls@.len(),
    ensures
        words_of_line(c@, k as int, ws@),
{
    let (lo, hi) = ls[k];
    let ws = split_words(c, lo, hi);
    ws
}

/// Gate `j` of line `i` as stored, `(ty, u, v)`, if it is complete and well
/// placed after a layer of `pb` bits.
fn read_gate(
    c: &[u8],
    ws: &Vec<(usize, usize)>,
    i: Ghost<int>,
    input: bool,
    j: usize,
    pb: usize,
) -> (r: Option<(usize, usize, usize)>)
    requires
        words_of_line(c@, i@, ws@),
        input == (i@ == 1),
    ensures
        r is Some <==> file_gate_ok(c@, i@, j as int, pb as nat),
        r matches Some(g) ==> {
            let ty = gate_field(c@, i@, j as int, 0)->0;
            let u = gate_field(c@, i@, j as int, 2)->0;
            let v = gate_field(c@, i@, j as int, 3)->0;
            &&& g.0 == ty
            &&& g.1 == u
            &&& g.2 == (if ty == 6 || ty == 10 { 0 } else { v })
        },
{
    let ghost cs = c@;
    let wl = ws.len();
    if j > (usize::MAX - 4) / 4 {
        proof {
            assert(1 + 4 * j + 3 > wl) by (nonlinear_arith)
                requires
                    j > (usize::MAX - 4) / 4,
                    wl <= usize::MAX,
            ;
            assert(gate_field(cs, i@, j as int, 3) is None);
        }
        return None;
    }
    let base = 1 + 4 * j;
    let ty = match read_word(c, ws, i, base) {
        Some(x) => x,
        None => {
            return None;
        },
    };
    let g = match read_word(c, ws, i, base + 1) {
        Some(x) => x,
        None => {
            return None;
        },
    };
    let u = match read_word(c, ws, i, base + 2) {
        Some(x) => x,
        None => {
            return None;
        },
    };
    let v = match read_word(c, ws, i, base + 3) {
        Some(x) => x,
        None => {
            return None;
        },
    };
    proof {
        assert forall|f: int| 0 <= f < 4 implies #[trigger] gate_field(cs, i@, j as int, f) is Some by {
            if f == 0 {
            } else if f == 1 {
            } else if f == 2 {
            } else {
            }
        }
    }
    if ty != 3 {
        if pb >= usize::BITS as usize {
            return None;
        }
        proof {
            vstd::bits::lemma_usize_pow2_no_overflow(pb as nat);
        }
        let bound = crate::utility::two_pow(pb);
        if ty == 5 {
            if !(u < bound && u < v && v <= bound) {
                return None;
            }
        } else {
            if !(u < bound && v < bound) {
                return None;
            }
        }
    }
    if ty == 13 && u != v {
        return None;
    }
    if g != j {
        return None;
    }
    if input && !(ty == 2 || ty == 3) {
        return None;
    }
    let stored_v = if ty == 6 || ty == 10 { 0 } else { v };
    Some((ty, u, stored_v))
}

/// The gates of line `i >= 2`, as stored, and their number, if the line
/// is complete and well placed after a layer of `pb` bits.
fn read_layer_gates(
    c: &[u8],
    ws: &Vec<(usize, usize)>,
    i: Ghost<int>,
    pb: usize,
) -> (r: Option<(Vec<Gate>, usize)>)
    requires
        words_of_line(c@, i@, ws@),
        i@ >= 2,
    ensures
        r is Some <==> (word_value(c@, i@, 0) is Some && forall|j: int|
            0 <= j < gate_count(c@, i@) ==> file_gate_ok(c@, i@, j, pb as nat)),
        r matches Some(x) ==> {
            let n = gate_count(c@, i@);
            &&& x.1 == n
            &&& x.0@.len() == (if n == 1 { 2 } else { n })
            &&& forall|j: int|
                #![trigger x.0@[j]]
                0 <= j < x.0@.len() ==> (if j < n {
                    stored_gate_is(x.0@[j], c@, i@, j)
                } else {
                    gate_is(x.0@[j], 2, 0, 0)
                })
        },
{
    let n = match read_word(c, ws, i, 0) {
        Some(x) => x,
        None => {
            return None;
        },
    };
    let mut gates: Vec<Gate> = Vec::new();
    let mut j: usize = 0;
    while j < n
        invariant
            j <= n,
            n == gate_count(c@, i@),
            word_value(c@, i@, 0) is Some,
            words_of_line(c@, i@, ws@),
            i@ >= 2,
            gates@.len() == j,
            forall|k: int| 0 <= k < j ==> file_gate_ok(c@, i@, k, pb as nat),
            forall|k: int| #![trigger gates@[k]] 0 <= k < j ==> stored_gate_is(gates@[k], c@, i@, k),
        decreases n - j,
    {
        match read_gate(c, ws, i, false, j, pb) {
            Some(g) => {
                gates.push(Gate::from_params(g.0, g.1, g.2));
            },
            None => {
                return None;
            },
        }
        j += 1;
    }
    if n == 1 {
        gates.push(Gate::new());
    }
    Some((gates, n))
}

/// The gates of layers `0` and `1` from line `1`, and the number given, if
/// the line is complete, well placed and not of a single gate.
fn read_input_gates(
    c: &[u8],
    ws: &Vec<(usize, usize)>,
    d: usize,
) -> (r: Option<(Vec<Gate>, Vec<Gate>, usize)>)
    requires
        words_of_line(c@, 1, ws@),
    ensures
        r is Some <==> layer_line_ok(c@, 1, d as int),
        r matches Some(x) ==> {
            let n = gate_count(c@, 1);
            &&& x.2 == n
            &&& x.0@.len() == layer_size(1, n, d as int)
            &&& x.1@.len() == layer_size(1, n, d as int)
            &&& forall|j: int|
                #![trigger x.0@[j]]
                0 <= j < x.0@.len() ==> (if j < n {
                    stored_gate_is(x.0@[j], c@, 1, j)
                } else {
                    gate_is(x.0@[j], 3, 0, 0)
                })
            &&& forall|j: int| #![trigger x.1@[j]] 0 <= j < x.1@.len() ==> gate_is(x.1@[j], 4, j, 0)
        },
{
    let n = match read_word(c, ws, Ghost(1), 0) {
        Some(x) => x,
        None => {
            return None;
        },
    };
    if n == 1 {
        return None;
    }
    let pad: usize = if d > 3 { 17 } else { 15 };
    proof {
        vstd::arithmetic::power2::lemma2_to64();
    }
    let full = crate::utility::two_pow(pad);
    let n_pad = if n < full { full } else { n };
    let mut inputs: Vec<Gate> = Vec::new();
    let mut relays: Vec<Gate> = Vec::new();
    let mut j: usize = 0;
    while j < n
        invariant
            j <= n,
            n == gate_count(c@, 1),
            n != 1,
            word_value(c@, 1, 0) is Some,
            words_of_line(c@, 1, ws@),
            n <= n_pad,
            n_pad == padded_count(n as int, d as int),
            inputs@.len() == j,
            relays@.len() == j,
            forall|k: int| 0 <= k < j ==> file_gate_ok(c@, 1, k, prev_bits(c@, 1, d as int)),
            forall|k: int| #![trigger inputs@[k]] 0 <= k < j ==> stored_gate_is(inputs@[k], c@, 1, k),
            forall|k: int| #![trigger relays@[k]] 0 <= k < j ==> gate_is(relays@[k], 4, k, 0),
        decreases n - j,
    {
        match read_gate(c, ws, Ghost(1), true, j, 0) {
            Some(g) => {
                inputs.push(Gate::from_params(g.0, g.1, g.2));
                relays.push(Gate::from_params(4, j, 0));
            },
            None => {
                proof {
                    assert(prev_bits(c@, 1, d as int) == 0);
                    assert(!file_gate_ok(c@, 1, j as int, prev_bits(c@, 1, d as int)));
                }
                return None;
            },
        }
        j += 1;
    }
    while j < n_pad
        invariant
            n <= j <= n_pad,
            n == gate_count(c@, 1),
            n_pad == padded_count(n as int, d as int),
            inputs@.len() == j,
            relays@.len() == j,
            forall|k: int|
                #![trigger inputs@[k]]
                0 <= k < j ==> (if k < n {
                    stored_gate_is(inputs@[k], c@, 1, k)
                } else {
                    gate_is(inputs@[k], 3, 0, 0)
                }),
            forall|k: int| #![trigger relays@[k]] 0 <= k < j ==> gate_is(relays@[k], 4, k, 0),
        decreases n_pad - j,
    {
        inputs.push(Gate::from_params(3, 0, 0));
        relays.push(Gate::from_params(4, j, 0));
        j += 1;
    }
    Some((inputs, relays, n))
}

/// The five numbers of line `k` of the meta text, if they are there and
/// a parallel layer's copies are `2^log_repeat_num`.
fn read_meta(m: &[u8], ms: &Vec<(usize, usize)>, k: usize) -> (r: Option<(usize, usize, usize, usize, usize)>)
    requires
        same_ranges(ms@, lines(m@)),
        forall|t: int| 0 <= t < ms@.len() ==> (#[trigger] ms@[t]).0 <= ms@[t].1 <= m@.len(),
        k < usize::MAX,
    ensures
        r is Some <==> meta_line_ok(m@, k + 1),
        r matches Some(x) ==> {
            &&& x.0 == word_value(m@, k as int, 0)->0
            &&& x.1 == word_value(m@, k as int, 1)->0
            &&& x.2 == word_value(m@, k as int, 2)->0
            &&& x.3 == word_value(m@, k as int, 3)->0
            &&& x.4 == word_value(m@, k as int, 4)->0
        },
{
    if k >= ms.len() {
        proof {
            assert(word_value(m@, k as int, 0) is None);
        }
        return None;
    }
    let ws = line_words(m, ms, k);
    let f0 = match read_word(m, &ws, Ghost(k as int), 0) {
        Some(x) => x,
        None => {
            return None;
        },
    };
    let f1 = match read_word(m, &ws, Ghost(k as int), 1) {
        Some(x) => x,
        None => {
            return None;
        },
    };
    let f2 = match read_word(m, &ws, Ghost(k as int), 2) {
        Some(x) => x,
        None => {
            return None;
        },
    };
    let f3 = match read_word(m, &ws, Ghost(k as int), 3) {
        Some(x) => x,
        None => {
            return None;
        },
    };
    let f4 = match read_word(m, &ws, Ghost(k as int), 4) {
        Some(x) => x,
        None => {
            return None;
        },
    };
    proof {
        assert forall|f: int| 0 <= f < 5 implies #[trigger] word_value(m@, (k + 1) - 1, f) is Some by {
            if f == 0 {
            } else if f == 1 {
            } else if f == 2 {
            } else if f == 3 {
            } else {
            }
        }
    }
    if f0 != 0 {
        if f4 >= usize::BITS as usize {
            return None;
        }
        proof {
            vstd::bits::lemma_usize_pow2_no_overflow(f4 as nat);
        }
        if crate::utility::two_pow(f4) != f2 {
            return None;
        }
    }
    Some((f0, f1, f2, f3, f4))
}

/// The bit length of layer `i >= 2` of `n` gates.
fn layer_bit_length(n: usize) -> (r: usize)
    ensures
        r == layer_bits(2, n as int, 0),
        r <= 64,
{
    if n == 1 {
        1
    } else if n == 0 {
        0
    } else {
        bit_count(n - 1)
    }
}

impl ZkVerifier {
    /// Reads the circuit and meta texts: on success the circuit is
    /// `circuit_read`, the tables are allocated for the largest bit length
    /// of a layer, and that bit length is returned; texts that the format
    /// rejects leave the verifier as it was.
    pub fn read_circuit(&mut self, circuit: &str, meta: &str) -> (r: Option<usize>)
        ensures
            r is Some <==> circuit_text_ok(circuit.spec_bytes(), meta.spec_bytes()),
            r matches Some(b) ==> {
                let c = circuit.spec_bytes();
                let d = line_value(c, 0)->0;
                let f = Seq::new(pow2((b / 2) as nat), |i: int| fe_zero());
                let h = Seq::new(pow2((b - b / 2) as nat), |i: int| fe_zero());
                &&& b == max_bits(c, d, d)
                &&& circuit_read(final(self).a_c, c, meta.spec_bytes())
                &&& final(self).beta_g_r0_first_half@ == f && final(self).beta_g_r1_first_half@ == f
                &&& final(self).beta_u_first_half@ == f && final(self).beta_v_first_half@ == f
                &&& final(self).beta_g_r0_block_first_half@ == f && final(self).beta_g_r1_block_first_half@ == f
                &&& final(self).beta_u_block_first_half@ == f && final(self).beta_v_block_first_half@ == f
                &&& final(self).beta_g_r0_second_half@ == h && final(self).beta_g_r1_second_half@ == h
                &&& final(self).beta_u_second_half@ == h && final(self).beta_v_second_half@ == h
                &&& final(self).beta_g_r0_block_second_half@ == h && final(self).beta_g_r1_block_second_half@ == h
                &&& final(self).beta_u_block_second_half@ == h && final(self).beta_v_block_second_half@ == h
                &&& final(self).proof_size == old(self).proof_size
            },
            r is None ==> *final(self) == *old(self),
    {
        let c = circuit.as_bytes();
        let m = meta.as_bytes();
        let ghost cs = c@;
        let ghost mss = m@;
        let ls = split_lines(c);
        let ms = split_lines(m);
        proof {
            assert(cs == circuit.spec_bytes());
            assert(mss == meta.spec_bytes());
            lemma_ranges_in(cs, ls@);
            lemma_ranges_in(mss, ms@);
        }
        if ls.len() == 0 {
            return None;
        }
        let d = match parse_usize_range(c, ls[0].0, ls[0].1) {
            Some(x) => x,
            None => {
                return None;
            },
        };
        if d == 0 {
            return None;
        }
        if d >= ls.len() {
            proof {
                assert(word_value(cs, d as int, 0) is None);
                assert(!layer_line_ok(cs, d as int, d as int));
            }
            return None;
        }
        let ws1 = line_words(c, &ls, 1);
        let (l0, l1, n1) = match read_input_gates(c, &ws1, d) {
            Some(x) => x,
            None => {
                proof {
                    assert(!layer_line_ok(cs, 1, d as int));
                }
                return None;
            },
        };
        let meta1 = match read_meta(m, &ms, 0) {
            Some(x) => x,
            None => {
                proof {
                    assert(!meta_line_ok(mss, 1));
                }
                return None;
            },
        };
        let pad: usize = if d > 3 { 17 } else { 15 };
        proof {
            vstd::arithmetic::power2::lemma2_to64();
        }
        let full = crate::utility::two_pow(pad);
        let n_pad = if n1 < full { full } else { n1 };
        let bl1 = bit_count(n_pad - 1);
        let mut layers: Vec<Layer> = Vec::new();
        layers.push(
            Layer {
                src_expander_c_mempool: Vec::new(),
                src_expander_d_mempool: Vec::new(),
                weight_expander_c_mempool: Vec::new(),
                weight_expander_d_mempool: Vec::new(),
                gates: l0,
                bit_length: bl1,
                is_parallel: false,
                block_size: 0,
                log_block_size: 0,
                repeat_num: 0,
                log_repeat_num: 0,
            },
        );
        layers.push(
            Layer {
                src_expander_c_mempool: Vec::new(),
                src_expander_d_mempool: Vec::new(),
                weight_expander_c_mempool: Vec::new(),
                weight_expander_d_mempool: Vec::new(),
                gates: l1,
                bit_length: bl1,
                is_parallel: meta1.0 != 0,
                block_size: meta1.1,
                log_block_size: meta1.3,
                repeat_num: meta1.2,
                log_repeat_num: meta1.4,
            },
        );
        let mut prev_bl = bl1;
        let mut max_bl = bl1;
        let lsl = ls.len();
        let mut i: usize = 2;
        while i <= d
            invariant
                2 <= i <= d + 1,
                d < lsl,
                lsl == ls@.len(),
                d >= 1,
                line_value(cs, 0) == Some(d as int),
                same_ranges(ls@, lines(cs)),
                forall|t: int| 0 <= t < ls@.len() ==> (#[trigger] ls@[t]).0 <= ls@[t].1 <= cs.len(),
                same_ranges(ms@, lines(mss)),
                forall|t: int| 0 <= t < ms@.len() ==> (#[trigger] ms@[t]).0 <= ms@[t].1 <= mss.len(),
                c@ == cs,
                m@ == mss,
                cs == circuit.spec_bytes(),
                mss == meta.spec_bytes(),
                *self == *old(self),
                layers@.len() == i,
                input_layer_read(layers@[0], cs, d as int),
                forall|k: int| 1 <= k < i ==> #[trigger] layer_read(layers@[k], cs, mss, k, d as int),
                forall|k: int| 1 <= k < i ==> #[trigger] layer_line_ok(cs, k, d as int),
                forall|k: int| 1 <= k < i ==> #[trigger] meta_line_ok(mss, k),
                prev_bl == layer_bits(i - 1, gate_count(cs, i - 1), d as int),
                max_bl == max_bits(cs, d as int, i - 1),
            decreases d + 1 - i,
        {
            let ws = line_words(c, &ls, i);
            proof {
                assert(prev_bits(cs, i as int, d as int) == prev_bl);
            }
            let (gates, n) = match read_layer_gates(c, &ws, Ghost(i as int), prev_bl) {
                Some(x) => x,
                None => {
                    proof {
                        assert(!layer_line_ok(cs, i as int, d as int));
                    }
                    return None;
                },
            };
            let meta_i = match read_meta(m, &ms, i - 1) {
                Some(x) => x,
                None => {
                    proof {
                        assert(!meta_line_ok(mss, i as int));
                    }
                    return None;
                },
            };
            let bl = layer_bit_length(n);
            let layer = Layer {
                src_expander_c_mempool: Vec::new(),
                src_expander_d_mempool: Vec::new(),
                weight_expander_c_mempool: Vec::new(),
                weight_expander_d_mempool: Vec::new(),
                gates,
                bit_length: bl,
                is_parallel: meta_i.0 != 0,
                block_size: meta_i.1,
                log_block_size: meta_i.3,
                repeat_num: meta_i.2,
                log_repeat_num: meta_i.4,
            };
            proof {
                assert(layer_line_ok(cs, i as int, d as int));
                assert(layer_read(layer, cs, mss, i as int, d as int));
            }
            layers.push(layer);
            prev_bl = bl;
            if bl > max_bl {
                max_bl = bl;
            }
            i += 1;
        }
        if max_bl - max_bl / 2 >= usize::BITS as usize {
            proof {
                vstd::arithmetic::power2::lemma2_to64_rest();
                lemma_pow2_word(((max_bl - max_bl / 2) as nat));
            }
            return None;
        }
        proof {
            vstd::bits::lemma_usize_pow2_no_overflow((max_bl - max_bl / 2) as nat);
            assert(circuit_text_ok(cs, mss));
        }
        self.a_c = LayeredCircuit { circuit: layers, total_depth: d + 1, inputs: Vec::new() };
        self.init_array(max_bl);
        Some(max_bl)
    }
}

/// `2^k` does not fit in a word once `k` reaches the word's width.
proof fn lemma_pow2_word(k: nat)
    requires
        k >= usize::BITS,
    ensures
        pow2(k) > usize::MAX,
{
    vstd::arithmetic::power2::lemma2_to64();
    vstd::arithmetic::power2::lemma2_to64_rest();
    if k > usize::BITS {
        vstd::arithmetic::power2::lemma_pow2_strictly_increases(usize::BITS as nat, k);
    }
}

} // verus!
