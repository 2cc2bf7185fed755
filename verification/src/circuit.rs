//! Layered arithmetic circuits and their evaluation.
//!
//! Layer `0` holds the inputs; every gate of layer `i >= 1` reads the values
//! of layer `i - 1`.  Gate types:
//! `0` addition, `1` multiplication, `2` dummy (zero), `3` input (the constant
//! `u`), `4` direct relay, `5` summation of `u .. v`, `6` not (`1 - x`),
//! `7` minus, `8` xor (`x + y - 2 x y`), `9` naab (`y - x y`), `10` relay,
//! `12` exponential summation (`sum x_k 2^(k - u)` over `u ..= v`),
//! `13` bit test (`x (1 - y)`) and `14` custom linear combination.
use crate::field::{fe_add, fe_mul, fe_nat, fe_one, fe_sub, fe_zero, FieldElement};
use vstd::arithmetic::power2::pow2;
use vstd::prelude::*;

verus! {

#[derive(Debug)]
pub struct Gate {
    pub ty: usize,
    pub u: usize,
    pub v: usize,
    pub src: Vec<usize>,
    pub weight: Vec<FieldElement>,
    pub parameter_length: usize,
}

impl Gate {
    /// A dummy gate.
    pub fn new() -> (r: Gate)
        ensures
            r.ty == 2 && r.u == 0 && r.v == 0 && r.src@.len() == 0 && r.weight@.len() == 0
                && r.parameter_length == 0,
    {
        Gate { ty: 2, u: 0, v: 0, src: Vec::new(), weight: Vec::new(), parameter_length: 0 }
    }

    /// A gate of type `ty` reading `u` and `v`.
    pub fn from_params(ty: usize, u: usize, v: usize) -> (r: Gate)
        ensures
            r.ty == ty && r.u == u && r.v == v && r.src@.len() == 0 && r.weight@.len() == 0
                && r.parameter_length == 0,
    {
        Gate { ty, u, v, src: Vec::new(), weight: Vec::new(), parameter_length: 0 }
    }

    /// A duplicate of this gate, field by field.
    pub fn copy(&self) -> (r: Gate)
        ensures
            r.ty == self.ty && r.u == self.u && r.v == self.v && r.src@ == self.src@
                && r.weight@ == self.weight@ && r.parameter_length == self.parameter_length,
    {
        let mut src: Vec<usize> = Vec::new();
        let mut i: usize = 0;
        while i < self.src.len()
            invariant
                i <= self.src@.len(),
                src@ == self.src@.subrange(0, i as int),
            decreases self.src@.len() - i,
        {
            src.push(self.src[i]);
            i += 1;
        }
        let mut weight: Vec<FieldElement> = Vec::new();
        let mut j: usize = 0;
        while j < self.weight.len()
            invariant
                j <= self.weight@.len(),
                weight@ == self.weight@.subrange(0, j as int),
            decreases self.weight@.len() - j,
        {
            weight.push(self.weight[j]);
            j += 1;
        }
        assert(src@ =~= self.src@);
        assert(weight@ =~= self.weight@);
        Gate { ty: self.ty, u: self.u, v: self.v, src, weight, parameter_length: self.parameter_length }
    }
}

impl Default for Gate {
    fn default() -> (r: Gate)
        ensures
            r.ty == 0 && r.u == 0 && r.v == 0 && r.src@.len() == 0 && r.weight@.len() == 0
                && r.parameter_length == 0,
    {
        Gate { ty: 0, u: 0, v: 0, src: Vec::new(), weight: Vec::new(), parameter_length: 0 }
    }
}

#[derive(Debug)]
pub struct Layer {
    pub src_expander_c_mempool: Vec<usize>,
    pub src_expander_d_mempool: Vec<usize>,
    pub weight_expander_c_mempool: Vec<FieldElement>,
    pub weight_expander_d_mempool: Vec<FieldElement>,
    pub gates: Vec<Gate>,
    pub bit_length: usize,
    pub is_parallel: bool,
    pub block_size: usize,
    pub log_block_size: usize,
    pub repeat_num: usize,
    pub log_repeat_num: usize,
}

impl Layer {
    /// An empty layer.
    pub fn new() -> (r: Layer)
        ensures
            r.src_expander_c_mempool@.len() == 0,
            r.src_expander_d_mempool@.len() == 0,
            r.weight_expander_c_mempool@.len() == 0,
            r.weight_expander_d_mempool@.len() == 0,
            r.gates@.len() == 0,
            r.bit_length == 0,
            !r.is_parallel,
            r.block_size == 0 && r.log_block_size == 0 && r.repeat_num == 0 && r.log_repeat_num
                == 0,
    {
        Layer {
            src_expander_c_mempool: Vec::new(),
            src_expander_d_mempool: Vec::new(),
            weight_expander_c_mempool: Vec::new(),
            weight_expander_d_mempool: Vec::new(),
            gates: Vec::new(),
            bit_length: 0,
            is_parallel: false,
            block_size: 0,
            log_block_size: 0,
            repeat_num: 0,
            log_repeat_num: 0,
        }
    }
}

impl Default for Layer {
    fn default() -> (r: Layer)
        ensures
            r.gates@.len() == 0,
            r.bit_length == 0,
            !r.is_parallel,
    {
        Layer::new()
    }
}

#[derive(Debug)]
pub struct LayeredCircuit {
    pub circuit: Vec<Layer>,
    pub total_depth: usize,
    pub inputs: Vec<FieldElement>,
}

impl LayeredCircuit {
    /// A circuit without layers.
    pub fn new() -> (r: LayeredCircuit)
        ensures
            r.circuit@.len() == 0,
            r.total_depth == 0,
            r.inputs@.len() == 0,
    {
        LayeredCircuit { circuit: Vec::new(), total_depth: 0, inputs: Vec::new() }
    }
}

impl Default for LayeredCircuit {
    fn default() -> (r: LayeredCircuit)
        ensures
            r.circuit@.len() == 0,
            r.total_depth == 0,
            r.inputs@.len() == 0,
    {
        LayeredCircuit::new()
    }
}

// ---------------------------------------------------------------------------
// Semantics of gates
// ---------------------------------------------------------------------------
/// `prev[u] + ... + prev[k - 1]`, summed from the left.
pub open spec fn range_sum(prev: Seq<FieldElement>, u: int, k: int) -> FieldElement
    decreases k - u,
{
    if k <= u {
        fe_zero()
    } else {
        fe_add(range_sum(prev, u, k - 1), prev[k - 1])
    }
}

/// `prev[u] 2^0 + ... + prev[k - 1] 2^(k - 1 - u)`, summed from the left.
pub open spec fn exp_range_sum(prev: Seq<FieldElement>, u: int, k: int) -> FieldElement
    decreases k - u,
{
    if k <= u {
        fe_zero()
    } else {
        fe_add(exp_range_sum(prev, u, k - 1), fe_mul(prev[k - 1], fe_nat(pow2((k - 1 - u) as nat) as int)))
    }
}

/// `prev[src[0]] weight[0] + ... + prev[src[k - 1]] weight[k - 1]`.
pub open spec fn weighted_sum(
    prev: Seq<FieldElement>,
    src: Seq<usize>,
    weight: Seq<FieldElement>,
    k: int,
) -> FieldElement
    decreases k,
{
    if k <= 0 {
        fe_zero()
    } else {
        fe_add(weighted_sum(prev, src, weight, k - 1), fe_mul(prev[src[k - 1] as int], weight[k - 1]))
    }
}

/// The value of a gate over the values of the previous layer.
pub open spec fn gate_value(
    ty: usize,
    u: usize,
    v: usize,
    src: Seq<usize>,
    weight: Seq<FieldElement>,
    parameter_length: usize,
    prev: Seq<FieldElement>,
) -> FieldElement {
    let x = prev[u as int];
    let y = prev[v as int];
    if ty == 0 {
        fe_add(x, y)
    } else if ty == 1 {
        fe_mul(x, y)
    } else if ty == 2 {
        fe_zero()
    } else if ty == 3 {
        fe_nat(u as int)
    } else if ty == 4 || ty == 10 {
        x
    } else if ty == 5 {
        range_sum(prev, u as int, v as int)
    } else if ty == 6 {
        fe_sub(fe_one(), x)
    } else if ty == 7 {
        fe_sub(x, y)
    } else if ty == 8 {
        fe_sub(fe_add(x, y), fe_mul(fe_mul(fe_nat(2), x), y))
    } else if ty == 9 {
        fe_sub(y, fe_mul(x, y))
    } else if ty == 12 {
        exp_range_sum(prev, u as int, v + 1)
    } else if ty == 13 {
        fe_mul(x, fe_sub(fe_one(), y))
    } else {
        weighted_sum(prev, src, weight, parameter_length as int)
    }
}

pub open spec fn gate_eval(g: Gate, prev: Seq<FieldElement>) -> FieldElement {
    gate_value(g.ty, g.u, g.v, g.src@, g.weight@, g.parameter_length, prev)
}

/// What the gates with one or two inputs compute, over the values `x` and
/// `y` of their inputs `u` and `v`: an addition gate gives `x + y`, a
/// multiplication gate `x y`, a zero gate `0`, a relay `x`; a NOT gate gives
/// the value that added to `x` makes one; a minus gate the value that added
/// to `y` makes `x`; an XOR gate the value that added to `2 x y` makes
/// `x + y`; a NAAB gate the value that added to `x y` makes `y`; and an
/// x-and-not-y gate the value that added to `x y` makes `x`.
pub proof fn lemma_gate_semantics(g: Gate, prev: Seq<FieldElement>)
    requires
        g.u < prev.len(),
        g.v < prev.len(),
    ensures
        ({
            let x = prev[g.u as int];
            let y = prev[g.v as int];
            let val = gate_eval(g, prev);
            &&& g.ty == 0 ==> val == fe_add(x, y)
            &&& g.ty == 1 ==> val == fe_mul(x, y)
            &&& g.ty == 2 ==> val == fe_zero()
            &&& (g.ty == 4 || g.ty == 10) ==> val == x
            &&& g.ty == 6 ==> fe_add(val, x) == fe_one()
            &&& g.ty == 7 ==> fe_add(val, y) == crate::field::fe_reduce(x)
            &&& g.ty == 8 ==> fe_add(val, fe_mul(fe_mul(fe_nat(2), x), y)) == fe_add(x, y)
            &&& g.ty == 9 ==> fe_add(val, fe_mul(x, y)) == crate::field::fe_reduce(y)
            &&& g.ty == 13 ==> fe_add(val, fe_mul(x, y)) == crate::field::fe_reduce(x)
        }),
{
    let x = prev[g.u as int];
    let y = prev[g.v as int];
    crate::field::lemma_sub_add(fe_one(), x);
    crate::field::lemma_fe_of_reduced(1, 0);
    crate::field::lemma_reduce_reduced(fe_one());
    crate::field::lemma_sub_add(x, y);
    let s = fe_add(x, y);
    crate::field::lemma_sub_add(s, fe_mul(fe_mul(fe_nat(2), x), y));
    crate::field::lemma_fe_of_reduced(x.real + y.real, x.img + y.img);
    crate::field::lemma_reduce_reduced(s);
    crate::field::lemma_sub_add(y, fe_mul(x, y));
    // x (1 - y) + x y = x (1 - y + y) = x 1
    let omy = fe_sub(fe_one(), y);
    crate::field::lemma_mul_distrib(x, omy, y);
    crate::field::lemma_sub_add(fe_one(), y);
    crate::field::lemma_lift(fe_add(omy, y));
    crate::field::lemma_mul_one_any(x);
    assert(fe_mul(x, fe_add(omy, y)) == fe_mul(x, fe_one())) by {
        crate::field::lemma_mul_comm(x, fe_add(omy, y));
        crate::field::lemma_mul_comm(x, fe_one());
        crate::field::lemma_lift(fe_add(omy, y));
    }
}

/// Gate `g` can be evaluated over a previous layer of `prev_len` values,
/// whose layer description has `prev_gates` gates.
pub open spec fn gate_evaluable(g: Gate, prev_len: int, prev_gates: int) -> bool {
    &&& g.u < prev_len
    &&& g.v < prev_len
    &&& (g.ty == 0 || g.ty == 2 || g.ty == 3 || g.ty == 4 || g.ty == 5 || g.ty == 6 || g.ty == 7
        || g.ty == 8 || g.ty == 10 || g.ty == 1 || g.ty == 9 || g.ty == 12 || g.ty == 13 || g.ty
        == 14)
    &&& (g.ty == 1 || g.ty == 9) ==> g.u < prev_gates && g.v < prev_gates
    &&& g.ty == 12 ==> (g.u <= g.v ==> g.v - g.u < 64)
    &&& g.ty == 13 ==> g.u == g.v && g.u < prev_gates
    &&& g.ty == 14 ==> g.parameter_length <= g.src@.len() && g.parameter_length <= g.weight@.len()
        && forall|k: int| 0 <= k < g.parameter_length ==> #[trigger] g.src@[k] < prev_len
}

/// `a` and `b` describe the same gate.
pub open spec fn same_gate(a: Gate, b: Gate) -> bool {
    &&& a.ty == b.ty
    &&& a.u == b.u
    &&& a.v == b.v
    &&& a.src@ == b.src@
    &&& a.weight@ == b.weight@
    &&& a.parameter_length == b.parameter_length
}

/// `a` and `b` describe the same layer.
pub open spec fn same_layer(a: Layer, b: Layer) -> bool {
    &&& a.gates@.len() == b.gates@.len()
    &&& forall|g: int| 0 <= g < a.gates@.len() ==> same_gate(#[trigger] a.gates@[g], b.gates@[g])
    &&& a.src_expander_c_mempool@ == b.src_expander_c_mempool@
    &&& a.src_expander_d_mempool@ == b.src_expander_d_mempool@
    &&& a.weight_expander_c_mempool@ == b.weight_expander_c_mempool@
    &&& a.weight_expander_d_mempool@ == b.weight_expander_d_mempool@
    &&& a.bit_length == b.bit_length
    &&& a.is_parallel == b.is_parallel
    &&& a.block_size == b.block_size
    &&& a.log_block_size == b.log_block_size
    &&& a.repeat_num == b.repeat_num
    &&& a.log_repeat_num == b.log_repeat_num
}

/// `a` and `b` describe the same layers.
pub open spec fn same_layers(a: Seq<Layer>, b: Seq<Layer>) -> bool {
    &&& a.len() == b.len()
    &&& forall|i: int| 0 <= i < a.len() ==> same_layer(#[trigger] a[i], b[i])
}

/// The values of layer `i` of a circuit whose layer 0 holds `inputs`.
pub open spec fn layer_values(layers: Seq<Layer>, inputs: Seq<FieldElement>, i: nat) -> Seq<
    FieldElement,
>
    decreases i,
{
    if i == 0 {
        inputs
    } else {
        let prev = layer_values(layers, inputs, (i - 1) as nat);
        Seq::new(layers[i as int].gates@.len(), |g: int| gate_eval(layers[i as int].gates@[g], prev))
    }
}

/// The number of values of layer `i`.
pub open spec fn layer_len(layers: Seq<Layer>, inputs: Seq<FieldElement>, i: nat) -> int {
    if i == 0 {
        inputs.len() as int
    } else {
        layers[i as int].gates@.len() as int
    }
}

/// Layers `1 .. depth` can be evaluated and layer 0 holds only input and
/// dummy gates.
pub open spec fn circuit_evaluable(layers: Seq<Layer>, inputs: Seq<FieldElement>, depth: int) -> bool {
    &&& 1 <= depth <= layers.len()
    &&& forall|g: int|
        0 <= g < layers[0].gates@.len() ==> (#[trigger] layers[0].gates@[g].ty == 3
            || layers[0].gates@[g].ty == 2)
    &&& forall|i: int, g: int|
        1 <= i < depth && 0 <= g < layers[i].gates@.len() ==> gate_evaluable(
            #[trigger] layers[i].gates@[g],
            layer_len(layers, inputs, (i - 1) as nat),
            layers[i - 1].gates@.len() as int,
        )
}

/// `gate_evaluable`, computed.
pub fn gate_evaluable_check(g: &Gate, prev_len: usize, prev_gates: usize) -> (r: bool)
    ensures
        r == gate_evaluable(*g, prev_len as int, prev_gates as int),
{
    let ty = g.ty;
    if !(g.u < prev_len && g.v < prev_len) {
        return false;
    }
    if !(ty == 0 || ty == 2 || ty == 3 || ty == 4 || ty == 5 || ty == 6 || ty == 7 || ty == 8 || ty == 10
        || ty == 1 || ty == 9 || ty == 12 || ty == 13 || ty == 14) {
        return false;
    }
    if (ty == 1 || ty == 9) && !(g.u < prev_gates && g.v < prev_gates) {
        return false;
    }
    if ty == 12 && g.u <= g.v && !(g.v - g.u < 64) {
        return false;
    }
    if ty == 13 && !(g.u == g.v && g.u < prev_gates) {
        return false;
    }
    if ty == 14 {
        if !(g.parameter_length <= g.src.len() && g.parameter_length <= g.weight.len()) {
            return false;
        }
        let mut j: usize = 0;
        while j < g.parameter_length
            invariant
                j <= g.parameter_length,
                g.ty == 14,
                g.parameter_length <= g.src@.len(),
                forall|k: int| 0 <= k < j ==> #[trigger] g.src@[k] < prev_len,
            decreases g.parameter_length - j,
        {
            if g.src[j] >= prev_len {
                return false;
            }
            j += 1;
        }
    }
    true
}

/// `circuit_evaluable`, computed.
pub fn circuit_evaluable_check(layers: &Vec<Layer>, inputs_len: usize, depth: usize) -> (r: bool)
    ensures
        r == circuit_evaluable(layers@, Seq::new(inputs_len as nat, |i: int| fe_zero()), depth as int),
{
    let ghost inputs = Seq::new(inputs_len as nat, |i: int| fe_zero());
    if !(1 <= depth && depth <= layers.len()) {
        return false;
    }
    let n0 = layers[0].gates.len();
    let mut g: usize = 0;
    while g < n0
        invariant
            g <= n0,
            1 <= depth <= layers@.len(),
            n0 == layers@[0].gates@.len(),
            forall|k: int| 0 <= k < g ==> (#[trigger] layers@[0].gates@[k].ty == 3 || layers@[0].gates@[k].ty == 2),
        decreases n0 - g,
    {
        let ty = layers[0].gates[g].ty;
        if !(ty == 3 || ty == 2) {
            return false;
        }
        g += 1;
    }
    let mut i: usize = 1;
    while i < depth
        invariant
            1 <= i <= depth,
            depth <= layers@.len(),
            inputs == Seq::new(inputs_len as nat, |i: int| fe_zero()),
            forall|k: int| 0 <= k < layers@[0].gates@.len() ==> (#[trigger] layers@[0].gates@[k].ty == 3
                || layers@[0].gates@[k].ty == 2),
            forall|a: int, b: int|
                1 <= a < i && 0 <= b < layers@[a].gates@.len() ==> gate_evaluable(
                    #[trigger] layers@[a].gates@[b],
                    layer_len(layers@, inputs, (a - 1) as nat),
                    layers@[a - 1].gates@.len() as int,
                ),
        decreases depth - i,
    {
        let prev_len = if i == 1 { inputs_len } else { layers[i - 1].gates.len() };
        let prev_gates = layers[i - 1].gates.len();
        let n = layers[i].gates.len();
        let mut b: usize = 0;
        while b < n
            invariant
                b <= n,
                1 <= i < depth,
                inputs == Seq::new(inputs_len as nat, |i: int| fe_zero()),
                depth <= layers@.len(),
                n == layers@[i as int].gates@.len(),
                prev_len == layer_len(layers@, inputs, (i - 1) as nat),
                prev_gates == layers@[i - 1].gates@.len(),
                forall|k: int| 0 <= k < b ==> gate_evaluable(
                    #[trigger] layers@[i as int].gates@[k],
                    prev_len as int,
                    prev_gates as int,
                ),
            decreases n - b,
        {
            if !gate_evaluable_check(&layers[i].gates[b], prev_len, prev_gates) {
                proof {
                    assert(!gate_evaluable(layers@[i as int].gates@[b as int], layer_len(layers@, inputs, (i - 1) as nat), layers@[i - 1].gates@.len() as int));
                }
                return false;
            }
            b += 1;
        }
        i += 1;
    }
    true
}

fn copy_words(v: &Vec<usize>) -> (c: Vec<usize>)
    ensures
        c@ == v@,
{
    let mut c: Vec<usize> = Vec::new();
    let mut k: usize = 0;
    while k < v.len()
        invariant
            k <= v@.len(),
            c@ == v@.subrange(0, k as int),
        decreases v@.len() - k,
    {
        c.push(v[k]);
        k += 1;
    }
    assert(c@ =~= v@);
    c
}

fn copy_field_elements(v: &Vec<FieldElement>) -> (c: Vec<FieldElement>)
    ensures
        c@ == v@,
{
    let mut c: Vec<FieldElement> = Vec::new();
    let mut k: usize = 0;
    while k < v.len()
        invariant
            k <= v@.len(),
            c@ == v@.subrange(0, k as int),
        decreases v@.len() - k,
    {
        c.push(v[k]);
        k += 1;
    }
    assert(c@ =~= v@);
    c
}

/// Circuits with the same layers take the same values.
pub proof fn lemma_same_layers_values(a: Seq<Layer>, b: Seq<Layer>, inputs: Seq<FieldElement>, i: nat)
    requires
        same_layers(a, b),
        i < a.len(),
    ensures
        layer_values(a, inputs, i) == layer_values(b, inputs, i),
    decreases i,
{
    if i > 0 {
        lemma_same_layers_values(a, b, inputs, (i - 1) as nat);
        let prev = layer_values(a, inputs, (i - 1) as nat);
        assert(same_layer(a[i as int], b[i as int]));
        assert forall|g: int| 0 <= g < a[i as int].gates@.len() implies gate_eval(a[i as int].gates@[g], prev)
            == gate_eval(b[i as int].gates@[g], prev) by {
            assert(same_gate(a[i as int].gates@[g], b[i as int].gates@[g]));
        }
        assert(layer_values(a, inputs, i) =~= layer_values(b, inputs, i));
    }
}

/// Circuits with the same layers can be evaluated on the same inputs.
pub proof fn lemma_same_layers_evaluable(a: Seq<Layer>, b: Seq<Layer>, inputs: Seq<FieldElement>, depth: int)
    requires
        same_layers(a, b),
    ensures
        circuit_evaluable(a, inputs, depth) == circuit_evaluable(b, inputs, depth),
{
    if a.len() > 0 {
        assert(same_layer(a[0], b[0]));
        assert forall|g: int| 0 <= g < a[0].gates@.len() implies a[0].gates@[g].ty == b[0].gates@[g].ty by {
            assert(same_gate(a[0].gates@[g], b[0].gates@[g]));
        }
        assert forall|i: int, g: int| 1 <= i < depth && i < a.len() && 0 <= g < a[i].gates@.len() implies gate_evaluable(
            a[i].gates@[g],
            layer_len(a, inputs, (i - 1) as nat),
            a[i - 1].gates@.len() as int,
        ) == gate_evaluable(b[i].gates@[g], layer_len(b, inputs, (i - 1) as nat), b[i - 1].gates@.len() as int) by {
            assert(same_layer(a[i], b[i]));
            assert(same_layer(a[i - 1], b[i - 1]));
            assert(same_gate(a[i].gates@[g], b[i].gates@[g]));
        }
    }
}

impl Layer {
    /// A duplicate of this layer.
    pub fn copy(&self) -> (r: Layer)
        ensures
            same_layer(r, *self),
    {
        let mut gates: Vec<Gate> = Vec::new();
        let mut i: usize = 0;
        while i < self.gates.len()
            invariant
                i <= self.gates@.len(),
                gates@.len() == i,
                forall|g: int| 0 <= g < i ==> same_gate(#[trigger] gates@[g], self.gates@[g]),
            decreases self.gates@.len() - i,
        {
            gates.push(self.gates[i].copy());
            i += 1;
        }
        Layer {
            src_expander_c_mempool: copy_words(&self.src_expander_c_mempool),
            src_expander_d_mempool: copy_words(&self.src_expander_d_mempool),
            weight_expander_c_mempool: copy_field_elements(&self.weight_expander_c_mempool),
            weight_expander_d_mempool: copy_field_elements(&self.weight_expander_d_mempool),
            gates,
            bit_length: self.bit_length,
            is_parallel: self.is_parallel,
            block_size: self.block_size,
            log_block_size: self.log_block_size,
            repeat_num: self.repeat_num,
            log_repeat_num: self.log_repeat_num,
        }
    }
}

impl LayeredCircuit {
    /// A duplicate of this circuit.
    pub fn copy(&self) -> (r: LayeredCircuit)
        ensures
            same_layers(r.circuit@, self.circuit@),
            r.total_depth == self.total_depth,
            r.inputs@ == self.inputs@,
    {
        let mut circuit: Vec<Layer> = Vec::new();
        let mut i: usize = 0;
        while i < self.circuit.len()
            invariant
                i <= self.circuit@.len(),
                circuit@.len() == i,
                forall|k: int| 0 <= k < i ==> same_layer(#[trigger] circuit@[k], self.circuit@[k]),
            decreases self.circuit@.len() - i,
        {
            circuit.push(self.circuit[i].copy());
            i += 1;
        }
        let mut inputs: Vec<FieldElement> = Vec::new();
        let mut k: usize = 0;
        while k < self.inputs.len()
            invariant
                k <= self.inputs@.len(),
                inputs@ == self.inputs@.subrange(0, k as int),
            decreases self.inputs@.len() - k,
        {
            inputs.push(self.inputs[k]);
            k += 1;
        }
        assert(inputs@ =~= self.inputs@);
        LayeredCircuit { circuit, total_depth: self.total_depth, inputs }
    }
}

} // verus!
