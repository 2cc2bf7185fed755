//! The GKR prover: circuit evaluation, the evaluation of the output layer's
//! multilinear extension, and the sum-check messages of each layer.
use crate::circuit::{
    circuit_evaluable_check, circuit_evaluable, exp_range_sum, gate_eval, gate_evaluable, layer_len, layer_values,
    range_sum, weighted_sum, Gate, LayeredCircuit,
};
use crate::field::{
    fe_add, fe_mul, fe_nat, fe_one, fe_sub, fe_zero, lemma_fe_of_reduced, FieldElement,
};
use crate::beta::{beta_entry, fill_beta_table};
use crate::polynomial::{linear_eval, LinearPoly, QuadraticPoly};
use crate::sumcheck::{
    phase1_gate_check, phase2_gate_check, half_weights, phase2_add_sum, phase2_gate_ok, phase2_mult_sum, phase2_scatter,
    fill_round_terms, fold_into, fold_lin_table, round_terms, tree_reduce, tree_sum,
    least, recorded_type, phase1_add_sum, phase1_gate_ok, phase1_mult_sum, phase1_scatter, reset_tables,
    split_weights,
};
use crate::utility::{pow2_at_most, two_pow};
use vstd::arithmetic::power2::pow2;
use vstd::prelude::*;
use vstd::string::StringSliceAdditionalSpecFns;

verus! {

/// Number of layer slots of a fresh prover.
pub const SIZE: usize = 1000000;

/// The element of a decimal string, read digit by digit from the left.
pub open spec fn fe_from_decimal(s: Seq<u8>) -> FieldElement
    decreases s.len(),
{
    if s.len() == 0 {
        fe_nat(0)
    } else {
        fe_add(fe_mul(fe_from_decimal(s.drop_last()), fe_nat(10)), fe_nat(s.last() - 48))
    }
}

/// The field element of a decimal string; every byte of the string must be at
/// least the byte of `'0'`.
pub fn from_string(s: &str) -> (r: FieldElement)
    requires
        forall|i: int| 0 <= i < s.spec_bytes().len() ==> #[trigger] s.spec_bytes()[i] >= 48,
    ensures
        r == fe_from_decimal(s.spec_bytes()),
{
    let bytes = s.as_bytes();
    let mut ret = FieldElement::from_real(0);
    let mut i: usize = 0;
    while i < bytes.len()
        invariant
            i <= bytes@.len(),
            bytes@ == s.spec_bytes(),
            forall|j: int| 0 <= j < bytes@.len() ==> #[trigger] bytes@[j] >= 48,
            ret == fe_from_decimal(bytes@.subrange(0, i as int)),
        decreases bytes@.len() - i,
    {
        let byte = bytes[i];
        let digit = byte - 48;
        proof {
            let p = bytes@.subrange(0, i + 1);
            assert(p.drop_last() =~= bytes@.subrange(0, i as int));
        }
        ret = ret * FieldElement::from_real(10) + FieldElement::from_real(digit as u64);
        i += 1;
    }
    assert(bytes@.subrange(0, bytes@.len() as int) =~= bytes@);
    ret
}

/// Scratch space of the sum-check rounds.
pub struct ProverContext {
    pub inv_2: FieldElement,
    pub v_mult_add_new: Vec<LinearPoly>,
    pub add_v_array_new: Vec<LinearPoly>,
    pub add_mult_sum_new: Vec<LinearPoly>,
    pub gate_meet: Vec<bool>,
    pub rets_prev: Vec<QuadraticPoly>,
    pub rets_cur: Vec<QuadraticPoly>,
}

/// The arguments of a layer's sum-check.
pub struct SumcheckInitArgs {
    pub sumcheck_layer_id: usize,
    pub length_g: usize,
    pub length_v: usize,
    pub alpha: FieldElement,
    pub beta: FieldElement,
    pub r_0: Vec<FieldElement>,
    pub r_1: Vec<FieldElement>,
    pub one_minus_r_0: Vec<FieldElement>,
    pub one_minus_r_1: Vec<FieldElement>,
}

pub struct ZkProver {
    pub a_c: LayeredCircuit,
    pub v_v: FieldElement,
    pub v_u: FieldElement,
    pub total_uv: usize,
    pub circuit_value: Vec<Vec<FieldElement>>,
    pub sumcheck_layer_id: usize,
    pub length_g: usize,
    pub length_u: usize,
    pub length_v: usize,
    pub alpha: FieldElement,
    pub beta: FieldElement,
    pub r_0: Vec<FieldElement>,
    pub r_1: Vec<FieldElement>,
    pub one_minus_r_0: Vec<FieldElement>,
    pub one_minus_r_1: Vec<FieldElement>,
    pub add_v_array: Vec<LinearPoly>,
    pub v_mult_add: Vec<LinearPoly>,
    pub beta_g_r0_fhalf: Vec<FieldElement>,
    pub beta_g_r0_shalf: Vec<FieldElement>,
    pub beta_g_r1_fhalf: Vec<FieldElement>,
    pub beta_g_r1_shalf: Vec<FieldElement>,
    pub beta_u_fhalf: Vec<FieldElement>,
    pub beta_u_shalf: Vec<FieldElement>,
    pub add_mult_sum: Vec<LinearPoly>,
    pub ctx: ProverContext,
}

/// One folding step of a table of values: entry `j` of the result is
/// `s[2j] (1 - r) + s[2j + 1] r`, given `1 - r` and `r`.
pub open spec fn fold_once(s: Seq<FieldElement>, one_minus_r: FieldElement, r: FieldElement) -> Seq<
    FieldElement,
> {
    Seq::new(s.len() / 2, |j: int| fe_add(fe_mul(s[2 * j], one_minus_r), fe_mul(s[2 * j + 1], r)))
}

/// The table after folding with the first `k` coordinates.
pub open spec fn fold_table(
    s: Seq<FieldElement>,
    one_minus_r: Seq<FieldElement>,
    r: Seq<FieldElement>,
    k: nat,
) -> Seq<FieldElement>
    decreases k,
{
    if k == 0 {
        s
    } else {
        let t = fold_table(s, one_minus_r, r, (k - 1) as nat);
        fold_once(t, one_minus_r[k - 1], r[k - 1])
    }
}

/// The first entry of the last non-empty table among the first `k` foldings.
pub open spec fn fold_value(
    s: Seq<FieldElement>,
    one_minus_r: Seq<FieldElement>,
    r: Seq<FieldElement>,
    k: nat,
) -> FieldElement
    decreases k,
{
    if k == 0 {
        s[0]
    } else if fold_table(s, one_minus_r, r, k).len() >= 1 {
        fold_table(s, one_minus_r, r, k)[0]
    } else {
        fold_value(s, one_minus_r, r, (k - 1) as nat)
    }
}

proof fn lemma_fold_table_len(s: Seq<FieldElement>, om: Seq<FieldElement>, r: Seq<FieldElement>, k: nat)
    ensures
        fold_table(s, om, r, k).len() == s.len() / pow2(k),
    decreases k,
{
    vstd::arithmetic::power2::lemma_pow2_pos(k);
    if k == 0 {
        vstd::arithmetic::power2::lemma2_to64();
    } else {
        lemma_fold_table_len(s, om, r, (k - 1) as nat);
        vstd::arithmetic::power2::lemma_pow2_unfold(k);
        vstd::arithmetic::power2::lemma_pow2_pos((k - 1) as nat);
        vstd::arithmetic::div_mod::lemma_div_denominator(
            s.len() as int,
            pow2((k - 1) as nat) as int,
            2,
        );
        vstd::arithmetic::mul::lemma_mul_is_commutative(pow2((k - 1) as nat) as int, 2);
    }
}

/// Evaluates a gate over the values of the previous layer.
fn eval_gate(gate: &Gate, prev: &Vec<FieldElement>, prev_gates: usize) -> (r: FieldElement)
    requires
        gate_evaluable(*gate, prev@.len() as int, prev_gates as int),
    ensures
        r == gate_eval(*gate, prev@),
{
    let ty = gate.ty;
    let u = gate.u;
    let v = gate.v;
    let value_u = prev[u];
    let value_v = prev[v];
    if ty == 0 {
        value_u + value_v
    } else if ty == 1 {
        value_u * value_v
    } else if ty == 2 {
        FieldElement::zero()
    } else if ty == 3 {
        FieldElement::from_real(u as u64)
    } else if ty == 4 || ty == 10 {
        value_u
    } else if ty == 5 {
        let mut acc = FieldElement::zero();
        let mut k = u;
        while k < v
            invariant
                u <= k <= v || (k == u && v < u),
                v < prev@.len(),
                acc == range_sum(prev@, u as int, k as int),
            decreases v - k,
        {
            acc = acc + prev[k];
            k += 1;
        }
        acc
    } else if ty == 6 {
        FieldElement::real_one() - value_u
    } else if ty == 7 {
        value_u - value_v
    } else if ty == 8 {
        value_u + value_v - FieldElement::from_real(2) * value_u * value_v
    } else if ty == 9 {
        value_v - value_u * value_v
    } else if ty == 12 {
        let mut acc = FieldElement::zero();
        if u <= v {
            let plen = prev.len();
            assert(v < prev@.len());
            let mut k = u;
            while k <= v
                invariant
                    u <= k <= v + 1,
                    v < prev@.len(),
                    prev@.len() == plen,
                    v - u < 64,
                    acc == exp_range_sum(prev@, u as int, k as int),
                decreases v + 1 - k,
            {
                let shift: u64 = (k - u) as u64;
                proof {
                    vstd::bits::lemma_u64_pow2_no_overflow(shift as nat);
                    vstd::bits::lemma_u64_shl_is_mul(1, shift);
                }
                acc = acc + prev[k] * FieldElement::from_real(1u64 << shift);
                k += 1;
            }
        }
        acc
    } else if ty == 13 {
        value_u * (FieldElement::real_one() - value_v)
    } else {
        let mut acc = FieldElement::zero();
        let mut k: usize = 0;
        while k < gate.parameter_length
            invariant
                k <= gate.parameter_length,
                gate.parameter_length <= gate.src@.len(),
                gate.parameter_length <= gate.weight@.len(),
                forall|j: int| 0 <= j < gate.parameter_length ==> #[trigger] gate.src@[j] < prev@.len(),
                acc == weighted_sum(prev@, gate.src@, gate.weight@, k as int),
            decreases gate.parameter_length - k,
        {
            acc = acc + prev[gate.src[k]] * gate.weight[k];
            k += 1;
        }
        acc
    }
}

impl ZkProver {
    /// The circuit can be evaluated from the witness in layer 0.
    pub open spec fn evaluable(&self) -> bool {
        &&& circuit_evaluable(self.a_c.circuit@, self.circuit_value@[0]@, self.a_c.total_depth as int)
        &&& self.a_c.total_depth < 1000000
        &&& self.a_c.total_depth <= self.circuit_value@.len()
    }

    /// Evaluates layers `1 .. total_depth` into `circuit_value` and returns the
    /// values of the output layer.
    pub fn evaluate(&mut self) -> (r: Vec<FieldElement>)
        requires
            old(self).evaluable(),
        ensures
            final(self).circuit_value@.len() == old(self).circuit_value@.len(),
            final(self).circuit_value@[0] == old(self).circuit_value@[0],
            forall|i: int|
                1 <= i < old(self).a_c.total_depth ==> #[trigger] final(self).circuit_value@[i]@
                    == layer_values(
                    old(self).a_c.circuit@,
                    old(self).circuit_value@[0]@,
                    i as nat,
                ),
            forall|i: int|
                old(self).a_c.total_depth <= i < old(self).circuit_value@.len()
                    ==> #[trigger] final(self).circuit_value@[i] == old(self).circuit_value@[i],
            r@ == layer_values(
                old(self).a_c.circuit@,
                old(self).circuit_value@[0]@,
                (old(self).a_c.total_depth - 1) as nat,
            ),
            final(self).a_c == old(self).a_c,
    {
        let depth = self.a_c.total_depth;
        let ghost layers = self.a_c.circuit@;
        let ghost inputs = self.circuit_value@[0]@;
        let ghost old_values = self.circuit_value@;
        let mut i: usize = 1;
        while i < depth
            invariant
                1 <= i <= depth,
                depth == self.a_c.total_depth,
                self.a_c == old(self).a_c,
                layers == self.a_c.circuit@,
                circuit_evaluable(layers, inputs, depth as int),
                depth <= self.circuit_value@.len(),
                self.circuit_value@.len() == old_values.len(),
                self.circuit_value@[0] == old_values[0],
                inputs == old_values[0]@,
                forall|j: int|
                    1 <= j < i ==> #[trigger] self.circuit_value@[j]@ == layer_values(
                        layers,
                        inputs,
                        j as nat,
                    ),
                forall|j: int|
                    i <= j < self.circuit_value@.len() ==> #[trigger] self.circuit_value@[j]
                        == old_values[j],
            decreases depth - i,
        {
            let n = self.a_c.circuit[i].gates.len();
            let prev_gates = self.a_c.circuit[i - 1].gates.len();
            let mut cur: Vec<FieldElement> = Vec::new();
            proof {
                if i - 1 == 0 {
                    assert(self.circuit_value@[0]@ == layer_values(layers, inputs, 0));
                } else {
                    assert(self.circuit_value@[i - 1]@ == layer_values(layers, inputs, (i - 1) as nat));
                }
                assert(self.circuit_value@[i - 1]@.len() == layer_len(layers, inputs, (i - 1) as nat));
            }
            let mut g: usize = 0;
            while g < n
                invariant
                    g <= n,
                    n == layers[i as int].gates@.len(),
                    layers == self.a_c.circuit@,
                    prev_gates == layers[i - 1].gates@.len(),
                    1 <= i < depth,
                    circuit_evaluable(layers, inputs, depth as int),
                    self.circuit_value@[i - 1]@ == layer_values(layers, inputs, (i - 1) as nat),
                    self.circuit_value@[i - 1]@.len() == layer_len(layers, inputs, (i - 1) as nat),
                    i < self.circuit_value@.len(),
                    cur@.len() == g,
                    forall|k: int|
                        0 <= k < g ==> #[trigger] cur@[k] == gate_eval(
                            layers[i as int].gates@[k],
                            layer_values(layers, inputs, (i - 1) as nat),
                        ),
                decreases n - g,
            {
                let val = eval_gate(&self.a_c.circuit[i].gates[g], &self.circuit_value[i - 1], prev_gates);
                cur.push(val);
                g += 1;
            }
            proof {
                assert(cur@ =~= layer_values(layers, inputs, i as nat));
            }
            self.circuit_value.set(i, cur);
            i += 1;
        }
        let last = depth - 1;
        let mut out: Vec<FieldElement> = Vec::new();
        let mut k: usize = 0;
        proof {
            if last == 0 {
                assert(self.circuit_value@[0]@ == layer_values(layers, inputs, 0));
            }
        }
        while k < self.circuit_value[last].len()
            invariant
                last < self.circuit_value@.len(),
                k <= self.circuit_value@[last as int]@.len(),
                out@ == self.circuit_value@[last as int]@.subrange(0, k as int),
            decreases self.circuit_value@[last as int]@.len() - k,
        {
            out.push(self.circuit_value[last][k]);
            k += 1;
        }
        assert(out@ =~= self.circuit_value@[last as int]@);
        out
    }

    /// Installs the witness as the values of layer 0.
    pub fn get_witness(&mut self, inputs: Vec<FieldElement>)
        requires
            old(self).circuit_value@.len() > 0,
        ensures
            final(self).circuit_value@ == old(self).circuit_value@.update(0, inputs),
            final(self).a_c == old(self).a_c,
    {
        self.circuit_value.set(0, inputs);
    }

    /// The value at `r` of the multilinear extension of `output`: the table is
    /// folded once per coordinate of `r`, and the first entry is returned.
    pub fn v_res(
        &self,
        one_minus_r_0: &[FieldElement],
        r_0: &[FieldElement],
        output: Vec<FieldElement>,
    ) -> (res: FieldElement)
        requires
            output@.len() >= 1,
            forall|i: int|
                0 <= i < r_0@.len() && output@.len() / #[trigger] pow2(i as nat) >= 2 ==> i
                    < one_minus_r_0@.len(),
        ensures
            res == fold_value(output@, one_minus_r_0@, r_0@, r_0@.len() as nat),
    {
        let mut output = output;
        let mut output_size = output.len();
        let ghost s = output@;
        let mut i: usize = 0;
        proof {
            vstd::arithmetic::power2::lemma2_to64();
        }
        while i < r_0.len()
            invariant
                i <= r_0@.len(),
                output@.len() == s.len(),
                s.len() >= 1,
                output_size == s.len() / pow2(i as nat),
                output_size <= s.len(),
                output_size >= 1 ==> output@.subrange(0, output_size as int) == fold_table(
                    s,
                    one_minus_r_0@,
                    r_0@,
                    i as nat,
                ),
                output@[0] == fold_value(s, one_minus_r_0@, r_0@, i as nat),
                forall|k: int|
                    0 <= k < r_0@.len() && s.len() / #[trigger] pow2(k as nat) >= 2 ==> k
                        < one_minus_r_0@.len(),
            decreases r_0@.len() - i,
        {
            let ghost before = output@;
            let ghost t = output@.subrange(0, output_size as int);
            let half = output_size / 2;
            proof {
                lemma_fold_table_len(s, one_minus_r_0@, r_0@, i as nat);
                lemma_fold_table_len(s, one_minus_r_0@, r_0@, (i + 1) as nat);
                vstd::arithmetic::power2::lemma_pow2_unfold((i + 1) as nat);
                vstd::arithmetic::power2::lemma_pow2_pos(i as nat);
                vstd::arithmetic::div_mod::lemma_div_denominator(s.len() as int, pow2(i as nat) as int, 2);
                vstd::arithmetic::mul::lemma_mul_is_commutative(pow2(i as nat) as int, 2);
            }
            let mut j: usize = 0;
            while j < half
                invariant
                    half == output_size / 2,
                    output_size <= output@.len(),
                    output@.len() == s.len(),
                    j <= half,
                    half >= 1 ==> i < one_minus_r_0@.len(),
                    i < r_0@.len(),
                    forall|k: int| 0 <= k < j ==> #[trigger] output@[k] == fe_add(
                        fe_mul(t[2 * k], one_minus_r_0@[i as int]),
                        fe_mul(t[2 * k + 1], r_0@[i as int]),
                    ),
                    forall|k: int| 2 * j <= k < output@.len() ==> #[trigger] output@[k] == before[k],
                    t == before.subrange(0, output_size as int),
                    before.len() == output@.len(),
                decreases half - j,
            {
                let x = output[2 * j] * one_minus_r_0[i] + output[2 * j + 1] * r_0[i];
                output.set(j, x);
                j += 1;
            }
            proof {
                if half >= 1 {
                    assert(output@.subrange(0, half as int) =~= fold_once(
                        t,
                        one_minus_r_0@[i as int],
                        r_0@[i as int],
                    ));
                    assert(fold_value(s, one_minus_r_0@, r_0@, (i + 1) as nat) == output@.subrange(
                        0,
                        half as int,
                    )[0]);
                } else {
                    assert(fold_table(s, one_minus_r_0@, r_0@, (i + 1) as nat).len() == 0);
                    assert(output@[0] == before[0]);
                }
                vstd::arithmetic::div_mod::lemma_div_is_ordered_by_denominator(
                    s.len() as int,
                    pow2(i as nat) as int,
                    pow2((i + 1) as nat) as int,
                );
                vstd::arithmetic::power2::lemma_pow2_pos((i + 1) as nat);
                vstd::arithmetic::div_mod::lemma_div_is_ordered_by_denominator(
                    s.len() as int,
                    1,
                    pow2((i + 1) as nat) as int,
                );
            }
            output_size = half;
            i += 1;
        }
        output[0]
    }
}

impl ZkProver {
    /// The fields that a layer's sum-check reads and never changes are the
    /// same in `self` and `other`.
    pub open spec fn same_inputs(&self, other: &ZkProver) -> bool {
        &&& self.a_c == other.a_c
        &&& self.circuit_value@ == other.circuit_value@
        &&& self.sumcheck_layer_id == other.sumcheck_layer_id
        &&& self.length_g == other.length_g
        &&& self.length_u == other.length_u
        &&& self.length_v == other.length_v
        &&& self.alpha == other.alpha
        &&& self.beta == other.beta
        &&& self.r_0@ == other.r_0@
        &&& self.r_1@ == other.r_1@
        &&& self.one_minus_r_0@ == other.one_minus_r_0@
        &&& self.one_minus_r_1@ == other.one_minus_r_1@
        &&& self.ctx.inv_2 == other.ctx.inv_2
    }

    /// The weights of the current layer's gate positions: the equality
    /// polynomials of `r_0` and `r_1`, scaled by `alpha` and `beta`, read off
    /// the half tables.
    pub open spec fn gate_weights(&self) -> spec_fn(int) -> FieldElement {
        split_weights(
            self.beta_g_r0_fhalf@,
            self.beta_g_r0_shalf@,
            self.beta_g_r1_fhalf@,
            self.beta_g_r1_shalf@,
            pow2((self.length_g / 2) as nat) as int,
        )
    }

    /// The gates of the layer under sum-check.
    pub open spec fn layer_gates(&self) -> Seq<Gate> {
        self.a_c.circuit@[self.sumcheck_layer_id as int].gates@
    }

    /// The number of values of the previous layer, as its gates count them.
    pub open spec fn prev_count(&self) -> int {
        self.a_c.circuit@[self.sumcheck_layer_id - 1].gates@.len() as int
    }

    /// The values of the previous layer.
    pub open spec fn prev_values(&self) -> Seq<FieldElement> {
        self.circuit_value@[self.sumcheck_layer_id - 1]@
    }

    /// Phase one of the current layer's sum-check can run: every table it
    /// reads or writes is large enough, and each of the `2^length_g` gates
    /// reads and writes inside them.
    pub open spec fn phase1_ready(&self) -> bool {
        let id = self.sumcheck_layer_id as int;
        let fh = (self.length_g / 2) as nat;
        let sh = (self.length_g - self.length_g / 2) as nat;
        let n = pow2(self.length_g as nat);
        &&& 1 <= id < self.a_c.circuit@.len()
        &&& id - 1 < self.circuit_value@.len()
        &&& n <= self.layer_gates().len()
        &&& self.length_g <= self.r_0@.len()
        &&& self.length_g <= self.r_1@.len()
        &&& self.length_g <= self.one_minus_r_0@.len()
        &&& self.length_g <= self.one_minus_r_1@.len()
        &&& pow2(fh) <= self.beta_g_r0_fhalf@.len()
        &&& pow2(fh) <= self.beta_g_r1_fhalf@.len()
        &&& pow2(sh) <= self.beta_g_r0_shalf@.len()
        &&& pow2(sh) <= self.beta_g_r1_shalf@.len()
        &&& self.prev_count() <= self.prev_values().len()
        &&& self.prev_count() <= self.v_mult_add@.len()
        &&& self.prev_count() <= self.add_v_array@.len()
        &&& self.prev_count() <= self.add_mult_sum@.len()
        &&& 15 <= self.ctx.gate_meet@.len()
        &&& forall|g: int|
            0 <= g < n ==> phase1_gate_ok(
                #[trigger] self.layer_gates()[g],
                self.prev_values().len() as int,
                self.add_mult_sum@.len() as int,
                self.add_v_array@.len() as int,
                least(self.beta_g_r0_shalf@.len() as int, self.beta_g_r1_shalf@.len() as int),
                pow2(fh) as int,
            )
    }

    /// Installs the random point, the scalars and the sizes of the next
    /// layer's sum-check.
    pub fn sumcheck_init(&mut self, args: SumcheckInitArgs)
        ensures
            final(self).r_0@ == args.r_0@,
            final(self).r_1@ == args.r_1@,
            final(self).one_minus_r_0@ == args.one_minus_r_0@,
            final(self).one_minus_r_1@ == args.one_minus_r_1@,
            final(self).alpha == args.alpha,
            final(self).beta == args.beta,
            final(self).sumcheck_layer_id == args.sumcheck_layer_id,
            final(self).length_g == args.length_g,
            final(self).length_u == args.length_v,
            final(self).length_v == args.length_v,
            final(self).a_c == old(self).a_c,
            final(self).circuit_value@ == old(self).circuit_value@,
            final(self).total_uv == old(self).total_uv,
            final(self).v_u == old(self).v_u,
            final(self).v_v == old(self).v_v,
            final(self).add_v_array@ == old(self).add_v_array@,
            final(self).v_mult_add@ == old(self).v_mult_add@,
            final(self).add_mult_sum@ == old(self).add_mult_sum@,
            final(self).beta_g_r0_fhalf@ == old(self).beta_g_r0_fhalf@,
            final(self).beta_g_r0_shalf@ == old(self).beta_g_r0_shalf@,
            final(self).beta_g_r1_fhalf@ == old(self).beta_g_r1_fhalf@,
            final(self).beta_g_r1_shalf@ == old(self).beta_g_r1_shalf@,
            final(self).beta_u_fhalf@ == old(self).beta_u_fhalf@,
            final(self).beta_u_shalf@ == old(self).beta_u_shalf@,
            final(self).ctx == old(self).ctx,
    {
        self.r_0 = args.r_0;
        self.r_1 = args.r_1;
        self.alpha = args.alpha;
        self.beta = args.beta;
        self.sumcheck_layer_id = args.sumcheck_layer_id;
        self.length_g = args.length_g;
        self.length_u = args.length_v;
        self.length_v = args.length_v;
        self.one_minus_r_0 = args.one_minus_r_0;
        self.one_minus_r_1 = args.one_minus_r_1;
    }

    /// Phase one's start: the four half tables of the equality polynomials
    /// of `r_0` (scaled by `alpha`) and `r_1` (scaled by `beta`), the values
    /// of the previous layer as constants, and the tables `add_mult_sum` and
    /// `add_v_array` built from the first `2^length_g` gates of the layer.
    pub fn sumcheck_phase1_init(&mut self)
        requires
            old(self).phase1_ready(),
        ensures
            final(self).same_inputs(&*old(self)),
            final(self).total_uv == old(self).prev_count(),
            ({
                let fh = (old(self).length_g / 2) as nat;
                let sh = (old(self).length_g - old(self).length_g / 2) as nat;
                &&& final(self).beta_g_r0_fhalf@.len() == old(self).beta_g_r0_fhalf@.len()
                &&& final(self).beta_g_r1_fhalf@.len() == old(self).beta_g_r1_fhalf@.len()
                &&& final(self).beta_g_r0_shalf@.len() == old(self).beta_g_r0_shalf@.len()
                &&& final(self).beta_g_r1_shalf@.len() == old(self).beta_g_r1_shalf@.len()
                &&& forall|x: int| 0 <= x < pow2(fh) ==> #[trigger] final(self).beta_g_r0_fhalf@[x]
                    == beta_entry(old(self).alpha, old(self).r_0@, old(self).one_minus_r_0@, 0, x, fh)
                &&& forall|x: int| 0 <= x < pow2(fh) ==> #[trigger] final(self).beta_g_r1_fhalf@[x]
                    == beta_entry(old(self).beta, old(self).r_1@, old(self).one_minus_r_1@, 0, x, fh)
                &&& forall|x: int| 0 <= x < pow2(sh) ==> #[trigger] final(self).beta_g_r0_shalf@[x]
                    == beta_entry(fe_one(), old(self).r_0@, old(self).one_minus_r_0@, fh as int, x, sh)
                &&& forall|x: int| 0 <= x < pow2(sh) ==> #[trigger] final(self).beta_g_r1_shalf@[x]
                    == beta_entry(fe_one(), old(self).r_1@, old(self).one_minus_r_1@, fh as int, x, sh)
            }),
            final(self).v_mult_add@.len() == old(self).v_mult_add@.len(),
            final(self).add_v_array@.len() == old(self).add_v_array@.len(),
            final(self).add_mult_sum@.len() == old(self).add_mult_sum@.len(),
            forall|x: int|
                0 <= x < old(self).v_mult_add@.len() ==> #[trigger] final(self).v_mult_add@[x] == (if x
                    < old(self).prev_count() {
                    LinearPoly { a: fe_zero(), b: old(self).prev_values()[x] }
                } else {
                    old(self).v_mult_add@[x]
                }),
            forall|x: int|
                0 <= x < old(self).add_mult_sum@.len() ==> #[trigger] final(self).add_mult_sum@[x] == (
                if x < old(self).prev_count() {
                    LinearPoly {
                        a: fe_zero(),
                        b: phase1_mult_sum(
                            old(self).layer_gates(),
                            final(self).gate_weights(),
                            old(self).prev_values(),
                            x,
                            fe_zero(),
                            pow2(old(self).length_g as nat),
                        ),
                    }
                } else {
                    LinearPoly {
                        a: old(self).add_mult_sum@[x].a,
                        b: phase1_mult_sum(
                            old(self).layer_gates(),
                            final(self).gate_weights(),
                            old(self).prev_values(),
                            x,
                            old(self).add_mult_sum@[x].b,
                            pow2(old(self).length_g as nat),
                        ),
                    }
                }),
            forall|x: int|
                0 <= x < old(self).add_v_array@.len() ==> #[trigger] final(self).add_v_array@[x] == (
                if x < old(self).prev_count() {
                    LinearPoly {
                        a: fe_zero(),
                        b: phase1_add_sum(
                            old(self).layer_gates(),
                            final(self).gate_weights(),
                            old(self).prev_values(),
                            x,
                            fe_zero(),
                            pow2(old(self).length_g as nat),
                        ),
                    }
                } else {
                    LinearPoly {
                        a: old(self).add_v_array@[x].a,
                        b: phase1_add_sum(
                            old(self).layer_gates(),
                            final(self).gate_weights(),
                            old(self).prev_values(),
                            x,
                            old(self).add_v_array@[x].b,
                            pow2(old(self).length_g as nat),
                        ),
                    }
                }),
            final(self).ctx.gate_meet@.len() == old(self).ctx.gate_meet@.len(),
            forall|t: int|
                0 <= t < old(self).ctx.gate_meet@.len() ==> #[trigger] final(self).ctx.gate_meet@[t] == (
                old(self).ctx.gate_meet@[t] || exists|g: int|
                    0 <= g < pow2(old(self).length_g as nat) && (#[trigger] old(self).layer_gates()[g]).ty
                        == t && recorded_type(old(self).layer_gates()[g].ty)),
            final(self).beta_u_fhalf@ == old(self).beta_u_fhalf@,
            final(self).beta_u_shalf@ == old(self).beta_u_shalf@,
            final(self).v_u == old(self).v_u,
            final(self).v_v == old(self).v_v,
            final(self).ctx.v_mult_add_new@ == old(self).ctx.v_mult_add_new@,
            final(self).ctx.add_v_array_new@ == old(self).ctx.add_v_array_new@,
            final(self).ctx.add_mult_sum_new@ == old(self).ctx.add_mult_sum_new@,
            final(self).ctx.rets_prev@ == old(self).ctx.rets_prev@,
            final(self).ctx.rets_cur@ == old(self).ctx.rets_cur@,
    {
        let id = self.sumcheck_layer_id;
        let count = self.a_c.circuit[id - 1].gates.len();
        self.total_uv = count;
        reset_tables(
            &self.circuit_value[id - 1],
            count,
            &mut self.v_mult_add,
            &mut self.add_mult_sum,
            &mut self.add_v_array,
        );
        let fh = self.length_g / 2;
        let sh = self.length_g - fh;
        fill_beta_table(
            &mut self.beta_g_r0_fhalf,
            self.alpha,
            self.r_0.as_slice(),
            self.one_minus_r_0.as_slice(),
            0,
            fh,
        );
        fill_beta_table(
            &mut self.beta_g_r1_fhalf,
            self.beta,
            self.r_1.as_slice(),
            self.one_minus_r_1.as_slice(),
            0,
            fh,
        );
        fill_beta_table(
            &mut self.beta_g_r0_shalf,
            FieldElement::real_one(),
            self.r_0.as_slice(),
            self.one_minus_r_0.as_slice(),
            fh,
            sh,
        );
        fill_beta_table(
            &mut self.beta_g_r1_shalf,
            FieldElement::real_one(),
            self.r_1.as_slice(),
            self.one_minus_r_1.as_slice(),
            fh,
            sh,
        );
        let flen = self.beta_g_r0_fhalf.len();
        let size = two_pow(fh);
        let total = self.a_c.circuit[id].gates.len();
        proof {
            vstd::arithmetic::power2::lemma_pow2_adds(fh as nat, sh as nat);
            let s0 = self.beta_g_r0_shalf@.len();
            let s1 = self.beta_g_r1_shalf@.len();
            assert(pow2(fh as nat) * pow2(sh as nat) <= pow2(fh as nat) * s0) by (nonlinear_arith)
                requires pow2(sh as nat) <= s0;
            assert(pow2(fh as nat) * pow2(sh as nat) <= pow2(fh as nat) * s1) by (nonlinear_arith)
                requires pow2(sh as nat) <= s1;
            vstd::arithmetic::power2::lemma_pow2_pos(fh as nat);
        }
        let n = two_pow(self.length_g);
        phase1_scatter(
            &self.a_c.circuit[id].gates,
            n,
            &self.beta_g_r0_fhalf,
            &self.beta_g_r0_shalf,
            &self.beta_g_r1_fhalf,
            &self.beta_g_r1_shalf,
            size,
            &self.circuit_value[id - 1],
            &mut self.add_mult_sum,
            &mut self.add_v_array,
            &mut self.ctx.gate_meet,
        );
    }
}

impl ZkProver {
    /// A round of the sum-check can run on the first `total_uv` entries.
    pub open spec fn round_ready(&self) -> bool {
        let half = self.total_uv / 2;
        &&& self.total_uv <= self.v_mult_add@.len()
        &&& self.total_uv <= self.add_v_array@.len()
        &&& self.total_uv <= self.add_mult_sum@.len()
        &&& half <= self.ctx.v_mult_add_new@.len()
        &&& half <= self.ctx.add_v_array_new@.len()
        &&& half <= self.ctx.add_mult_sum_new@.len()
        &&& half <= self.ctx.rets_prev@.len()
        &&& half <= self.ctx.rets_cur@.len()
        &&& 1 <= self.ctx.rets_prev@.len()
    }

    /// The state after a round from `old` with `bit` and `r`: the three
    /// tables are folded pairwise (the scratch tables take the old ones), and
    /// the number of entries is halved.
    pub open spec fn folded_from(&self, old: &ZkProver, bit: usize, r: FieldElement) -> bool {
        let half = (old.total_uv / 2) as int;
        &&& self.same_inputs(old)
        &&& self.total_uv == old.total_uv / 2
        &&& self.v_mult_add@ == fold_lin_table(old.v_mult_add@, old.ctx.v_mult_add_new@, half, bit, r)
        &&& self.add_v_array@ == fold_lin_table(old.add_v_array@, old.ctx.add_v_array_new@, half, bit, r)
        &&& self.add_mult_sum@ == fold_lin_table(
            old.add_mult_sum@,
            old.ctx.add_mult_sum_new@,
            half,
            bit,
            r,
        )
        &&& self.ctx.v_mult_add_new@ == old.v_mult_add@
        &&& self.ctx.add_v_array_new@ == old.add_v_array@
        &&& self.ctx.add_mult_sum_new@ == old.add_mult_sum@
        &&& self.ctx.gate_meet@ == old.ctx.gate_meet@
        &&& self.beta_g_r0_fhalf@ == old.beta_g_r0_fhalf@
        &&& self.beta_g_r0_shalf@ == old.beta_g_r0_shalf@
        &&& self.beta_g_r1_fhalf@ == old.beta_g_r1_fhalf@
        &&& self.beta_g_r1_shalf@ == old.beta_g_r1_shalf@
        &&& self.beta_u_fhalf@ == old.beta_u_fhalf@
        &&& self.beta_u_shalf@ == old.beta_u_shalf@
        &&& self.v_u == old.v_u
        &&& self.v_v == old.v_v
        &&& self.ctx.rets_prev@.len() + self.ctx.rets_cur@.len() == old.ctx.rets_prev@.len()
            + old.ctx.rets_cur@.len()
    }

    /// The round polynomial returned after a round from `old` that led to
    /// `self`: the sum, as a balanced tree, of the round terms of the first
    /// `2^m` positions, `2^m` the largest power of two up to the new number of
    /// entries; with no entries left, the first stored term.
    pub open spec fn round_result(&self, old: &ZkProver, ret: QuadraticPoly) -> bool {
        let half = (old.total_uv / 2) as int;
        let terms = round_terms(
            self.add_mult_sum@,
            self.v_mult_add@,
            self.add_v_array@,
            old.ctx.rets_prev@,
            half,
        );
        &&& half == 0 ==> ret == old.ctx.rets_prev@[0]
        &&& half >= 1 ==> exists|m: nat| pow2(m) <= half < pow2(m + 1) && ret == #[trigger] tree_sum(terms, m, 0)
    }

    fn fold_round(&mut self, previous_random: FieldElement, current_bit: usize) -> (ret: QuadraticPoly)
        requires
            old(self).round_ready(),
        ensures
            final(self).folded_from(&*old(self), current_bit, previous_random),
            final(self).round_result(&*old(self), ret),
    {
        let half = self.total_uv / 2;
        fold_into(&self.v_mult_add, &mut self.ctx.v_mult_add_new, half, current_bit, previous_random);
        fold_into(&self.add_v_array, &mut self.ctx.add_v_array_new, half, current_bit, previous_random);
        fold_into(&self.add_mult_sum, &mut self.ctx.add_mult_sum_new, half, current_bit, previous_random);
        std::mem::swap(&mut self.v_mult_add, &mut self.ctx.v_mult_add_new);
        std::mem::swap(&mut self.add_v_array, &mut self.ctx.add_v_array_new);
        std::mem::swap(&mut self.add_mult_sum, &mut self.ctx.add_mult_sum_new);
        let ghost rets0 = self.ctx.rets_prev@;
        fill_round_terms(&self.add_mult_sum, &self.v_mult_add, &self.add_v_array, &mut self.ctx.rets_prev, half);
        assert(self.ctx.rets_prev@ =~= round_terms(
            self.add_mult_sum@,
            self.v_mult_add@,
            self.add_v_array@,
            rets0,
            half as int,
        ));
        let ret = tree_reduce(&mut self.ctx.rets_prev, &mut self.ctx.rets_cur, half);
        self.total_uv = half;
        ret
    }

    /// A round of phase one: binds the previous variable to
    /// `previous_random` (no variable in round `0`) and returns the round's
    /// polynomial in the next variable of `u`.
    pub fn sumcheck_phase1_update(&mut self, previous_random: FieldElement, current_bit: usize) -> (ret:
        QuadraticPoly)
        requires
            old(self).round_ready(),
        ensures
            final(self).folded_from(&*old(self), current_bit, previous_random),
            final(self).round_result(&*old(self), ret),
    {
        self.fold_round(previous_random, current_bit)
    }

    /// A round of phase two: as a round of phase one, over the variables of
    /// `v`.
    pub fn sumcheck_phase2_update(&mut self, previous_random: FieldElement, current_bit: usize) -> (ret:
        QuadraticPoly)
        requires
            old(self).round_ready(),
        ensures
            final(self).folded_from(&*old(self), current_bit, previous_random),
            final(self).round_result(&*old(self), ret),
    {
        self.fold_round(previous_random, current_bit)
    }

    /// The end of the layer's sum-check: `v_v` is the value of the folded
    /// value table at `previous_random`; returns `(v_u, v_v)`.
    pub fn sumcheck_finalize(&mut self, previous_random: FieldElement) -> (r: (FieldElement, FieldElement))
        requires
            old(self).v_mult_add@.len() >= 1,
        ensures
            final(self).v_v == linear_eval(old(self).v_mult_add@[0], previous_random),
            r == (old(self).v_u, final(self).v_v),
            final(self).same_inputs(&*old(self)),
            final(self).v_u == old(self).v_u,
            final(self).total_uv == old(self).total_uv,
            final(self).v_mult_add@ == old(self).v_mult_add@,
            final(self).add_v_array@ == old(self).add_v_array@,
            final(self).add_mult_sum@ == old(self).add_mult_sum@,
            final(self).ctx == old(self).ctx,
    {
        self.v_v = self.v_mult_add[0].eval(previous_random);
        (self.v_u, self.v_v)
    }
}

impl ZkProver {
    /// The weights of positions of the previous layer at the bound point of
    /// `u`, read off the half tables `beta_u_fhalf` and `beta_u_shalf`.
    pub open spec fn u_weights(&self) -> spec_fn(int) -> FieldElement {
        half_weights(self.beta_u_fhalf@, self.beta_u_shalf@, pow2((self.length_u / 2) as nat) as int)
    }

    /// Phase two of the current layer's sum-check can run with the bound
    /// point `r_u` of `u` (and `one_minus_r_u`).
    pub open spec fn phase2_ready(&self, r_u: Seq<FieldElement>, one_minus_r_u: Seq<FieldElement>) -> bool {
        let id = self.sumcheck_layer_id as int;
        let fhu = (self.length_u / 2) as nat;
        let shu = (self.length_u - self.length_u / 2) as nat;
        let size = pow2((self.length_g / 2) as nat);
        &&& 1 <= id < self.a_c.circuit@.len()
        &&& id - 1 < self.circuit_value@.len()
        &&& self.length_u <= r_u.len()
        &&& self.length_u <= one_minus_r_u.len()
        &&& pow2(fhu) <= self.beta_u_fhalf@.len()
        &&& pow2(shu) <= self.beta_u_shalf@.len()
        &&& 1 <= self.v_mult_add@.len()
        &&& self.prev_count() <= self.prev_values().len()
        &&& self.prev_count() <= self.v_mult_add@.len()
        &&& self.prev_count() <= self.add_v_array@.len()
        &&& self.prev_count() <= self.add_mult_sum@.len()
        &&& size <= self.beta_g_r0_fhalf@.len()
        &&& size <= self.beta_g_r1_fhalf@.len()
        &&& self.layer_gates().len() <= size * self.beta_g_r0_shalf@.len()
        &&& self.layer_gates().len() <= size * self.beta_g_r1_shalf@.len()
        &&& forall|g: int|
            0 <= g < self.layer_gates().len() ==> phase2_gate_ok(
                #[trigger] self.layer_gates()[g],
                self.add_mult_sum@.len() as int,
                self.add_v_array@.len() as int,
                self.beta_u_shalf@.len() as int,
                pow2(fhu) as int,
            )
    }

    /// Phase two's start: `v_u` is the value of the folded value table at
    /// `previous_random`, the two half tables of the equality polynomial of
    /// `r_u` are filled, the values of the previous layer become constants
    /// again, and `add_mult_sum` and `add_v_array` are built from all gates
    /// of the layer.
    pub fn sumcheck_phase2_init(
        &mut self,
        previous_random: FieldElement,
        r_u: Vec<FieldElement>,
        one_minus_r_u: Vec<FieldElement>,
    )
        requires
            old(self).phase2_ready(r_u@, one_minus_r_u@),
        ensures
            final(self).same_inputs(&*old(self)),
            final(self).v_u == linear_eval(old(self).v_mult_add@[0], previous_random),
            final(self).total_uv == old(self).prev_count(),
            ({
                let fhu = (old(self).length_u / 2) as nat;
                let shu = (old(self).length_u - old(self).length_u / 2) as nat;
                &&& final(self).beta_u_fhalf@.len() == old(self).beta_u_fhalf@.len()
                &&& final(self).beta_u_shalf@.len() == old(self).beta_u_shalf@.len()
                &&& forall|x: int| 0 <= x < pow2(fhu) ==> #[trigger] final(self).beta_u_fhalf@[x]
                    == beta_entry(fe_one(), r_u@, one_minus_r_u@, 0, x, fhu)
                &&& forall|x: int| 0 <= x < pow2(shu) ==> #[trigger] final(self).beta_u_shalf@[x]
                    == beta_entry(fe_one(), r_u@, one_minus_r_u@, fhu as int, x, shu)
            }),
            final(self).v_mult_add@.len() == old(self).v_mult_add@.len(),
            final(self).add_v_array@.len() == old(self).add_v_array@.len(),
            final(self).add_mult_sum@.len() == old(self).add_mult_sum@.len(),
            forall|x: int|
                0 <= x < old(self).v_mult_add@.len() ==> #[trigger] final(self).v_mult_add@[x] == (if x
                    < old(self).prev_count() {
                    LinearPoly { a: fe_zero(), b: old(self).prev_values()[x] }
                } else {
                    old(self).v_mult_add@[x]
                }),
            forall|x: int|
                0 <= x < old(self).add_mult_sum@.len() ==> #[trigger] final(self).add_mult_sum@[x] == (
                LinearPoly {
                    a: if x < old(self).prev_count() {
                        fe_zero()
                    } else {
                        old(self).add_mult_sum@[x].a
                    },
                    b: phase2_mult_sum(
                        old(self).layer_gates(),
                        final(self).gate_weights(),
                        final(self).u_weights(),
                        final(self).v_u,
                        x,
                        if x < old(self).prev_count() {
                            fe_zero()
                        } else {
                            old(self).add_mult_sum@[x].b
                        },
                        old(self).layer_gates().len(),
                    ),
                }),
            forall|x: int|
                0 <= x < old(self).add_v_array@.len() ==> #[trigger] final(self).add_v_array@[x] == (
                LinearPoly {
                    a: if x < old(self).prev_count() {
                        fe_zero()
                    } else {
                        old(self).add_v_array@[x].a
                    },
                    b: phase2_add_sum(
                        old(self).layer_gates(),
                        final(self).gate_weights(),
                        final(self).u_weights(),
                        final(self).v_u,
                        x,
                        if x < old(self).prev_count() {
                            fe_zero()
                        } else {
                            old(self).add_v_array@[x].b
                        },
                        old(self).layer_gates().len(),
                    ),
                }),
            final(self).beta_g_r0_fhalf@ == old(self).beta_g_r0_fhalf@,
            final(self).beta_g_r0_shalf@ == old(self).beta_g_r0_shalf@,
            final(self).beta_g_r1_fhalf@ == old(self).beta_g_r1_fhalf@,
            final(self).beta_g_r1_shalf@ == old(self).beta_g_r1_shalf@,
            final(self).v_v == old(self).v_v,
            final(self).ctx == old(self).ctx,
    {
        self.v_u = self.v_mult_add[0].eval(previous_random);
        let fhu = self.length_u / 2;
        let shu = self.length_u - fhu;
        fill_beta_table(
            &mut self.beta_u_fhalf,
            FieldElement::real_one(),
            r_u.as_slice(),
            one_minus_r_u.as_slice(),
            0,
            fhu,
        );
        fill_beta_table(
            &mut self.beta_u_shalf,
            FieldElement::real_one(),
            r_u.as_slice(),
            one_minus_r_u.as_slice(),
            fhu,
            shu,
        );
        let id = self.sumcheck_layer_id;
        let count = self.a_c.circuit[id - 1].gates.len();
        self.total_uv = count;
        reset_tables(
            &self.circuit_value[id - 1],
            count,
            &mut self.v_mult_add,
            &mut self.add_mult_sum,
            &mut self.add_v_array,
        );
        let flen = self.beta_u_fhalf.len();
        let glen = self.beta_g_r0_fhalf.len();
        let size_u = two_pow(fhu);
        let size = two_pow(self.length_g / 2);
        proof {
            vstd::arithmetic::power2::lemma_pow2_pos(fhu as nat);
            vstd::arithmetic::power2::lemma_pow2_pos((self.length_g / 2) as nat);
        }
        phase2_scatter(
            &self.a_c.circuit[id].gates,
            &self.beta_g_r0_fhalf,
            &self.beta_g_r0_shalf,
            &self.beta_g_r1_fhalf,
            &self.beta_g_r1_shalf,
            size,
            &self.beta_u_fhalf,
            &self.beta_u_shalf,
            size_u,
            self.v_u,
            &mut self.add_mult_sum,
            &mut self.add_v_array,
        );
    }
}

/// `n` copies of `x`.
fn filled<T: Copy>(x: T, n: usize) -> (r: Vec<T>)
    ensures
        r@ == Seq::new(n as nat, |i: int| x),
{
    let mut r: Vec<T> = Vec::new();
    let mut i: usize = 0;
    while i < n
        invariant
            i <= n,
            r@ == Seq::new(i as nat, |k: int| x),
        decreases n - i,
    {
        r.push(x);
        i += 1;
    }
    r
}

impl ProverContext {
    /// Empty scratch space.
    pub fn new() -> (r: ProverContext)
        ensures
            r.inv_2 == fe_zero(),
            r.v_mult_add_new@.len() == 0,
            r.add_v_array_new@.len() == 0,
            r.add_mult_sum_new@.len() == 0,
            r.gate_meet@.len() == 0,
            r.rets_prev@.len() == 0,
            r.rets_cur@.len() == 0,
    {
        ProverContext {
            inv_2: FieldElement::zero(),
            v_mult_add_new: Vec::new(),
            add_v_array_new: Vec::new(),
            add_mult_sum_new: Vec::new(),
            gate_meet: Vec::new(),
            rets_prev: Vec::new(),
            rets_cur: Vec::new(),
        }
    }
}

impl ZkProver {
    /// A prover with `SIZE` empty layers of values and everything else empty
    /// or zero.
    pub fn new() -> (r: ZkProver)
        ensures
            r.circuit_value@.len() == SIZE,
            forall|i: int| 0 <= i < SIZE ==> (#[trigger] r.circuit_value@[i])@.len() == 0,
            r.a_c.circuit@.len() == 0,
            r.a_c.total_depth == 0,
            r.v_u == fe_zero() && r.v_v == fe_zero(),
            r.alpha == fe_zero() && r.beta == fe_zero(),
            r.total_uv == 0 && r.sumcheck_layer_id == 0,
            r.length_g == 0 && r.length_u == 0 && r.length_v == 0,
            r.r_0@.len() == 0 && r.r_1@.len() == 0,
            r.one_minus_r_0@.len() == 0 && r.one_minus_r_1@.len() == 0,
            r.add_v_array@.len() == 0 && r.v_mult_add@.len() == 0 && r.add_mult_sum@.len() == 0,
            r.beta_g_r0_fhalf@.len() == 0 && r.beta_g_r0_shalf@.len() == 0,
            r.beta_g_r1_fhalf@.len() == 0 && r.beta_g_r1_shalf@.len() == 0,
            r.beta_u_fhalf@.len() == 0 && r.beta_u_shalf@.len() == 0,
            r.ctx.gate_meet@.len() == 0,
    {
        let mut circuit_value: Vec<Vec<FieldElement>> = Vec::new();
        let mut i: usize = 0;
        while i < SIZE
            invariant
                i <= SIZE,
                circuit_value@.len() == i,
                forall|k: int| 0 <= k < i ==> (#[trigger] circuit_value@[k])@.len() == 0,
            decreases SIZE - i,
        {
            circuit_value.push(Vec::new());
            i += 1;
        }
        ZkProver {
            a_c: LayeredCircuit::new(),
            v_v: FieldElement::zero(),
            v_u: FieldElement::zero(),
            total_uv: 0,
            circuit_value,
            sumcheck_layer_id: 0,
            length_g: 0,
            length_u: 0,
            length_v: 0,
            alpha: FieldElement::zero(),
            beta: FieldElement::zero(),
            r_0: Vec::new(),
            r_1: Vec::new(),
            one_minus_r_0: Vec::new(),
            one_minus_r_1: Vec::new(),
            add_v_array: Vec::new(),
            v_mult_add: Vec::new(),
            beta_g_r0_fhalf: Vec::new(),
            beta_g_r0_shalf: Vec::new(),
            beta_g_r1_fhalf: Vec::new(),
            beta_g_r1_shalf: Vec::new(),
            beta_u_fhalf: Vec::new(),
            beta_u_shalf: Vec::new(),
            add_mult_sum: Vec::new(),
            ctx: ProverContext::new(),
        }
    }

    /// Takes the circuit and sets `inv_2` (to the element `2`, as the prover
    /// has always done).
    pub fn get_circuit(&mut self, from_verifier: LayeredCircuit)
        ensures
            final(self).a_c == from_verifier,
            final(self).ctx.inv_2 == fe_nat(2),
            final(self).circuit_value@ == old(self).circuit_value@,
    {
        self.a_c = from_verifier;
        self.ctx.inv_2 = FieldElement::from_real(2);
    }

    /// Allocates the tables for circuits of up to `2^max_bit_length` gates
    /// per layer (the half tables get `2^(max_bit_length / 2 + 1)` entries),
    /// all zero, and takes the circuit.
    pub fn init_array(&mut self, max_bit_length: usize, aritmetic_circuit: LayeredCircuit)
        requires
            pow2(max_bit_length as nat) <= usize::MAX,
            pow2((max_bit_length / 2 + 1) as nat) <= usize::MAX,
        ensures
            ({
                let poly_size = pow2(max_bit_length as nat);
                let fe_size = pow2((max_bit_length / 2 + 1) as nat);
                let zero_poly = LinearPoly { a: fe_zero(), b: fe_zero() };
                let zero_quad = QuadraticPoly { a: fe_zero(), b: fe_zero(), c: fe_zero() };
                &&& final(self).ctx.gate_meet@ == Seq::new(15, |i: int| false)
                &&& final(self).ctx.v_mult_add_new@ == Seq::new(poly_size, |i: int| zero_poly)
                &&& final(self).ctx.add_v_array_new@ == Seq::new(poly_size, |i: int| zero_poly)
                &&& final(self).ctx.add_mult_sum_new@ == Seq::new(poly_size, |i: int| zero_poly)
                &&& final(self).ctx.rets_prev@ == Seq::new(poly_size, |i: int| zero_quad)
                &&& final(self).ctx.rets_cur@ == Seq::new(poly_size, |i: int| zero_quad)
                &&& final(self).beta_g_r0_fhalf@ == Seq::new(fe_size, |i: int| fe_zero())
                &&& final(self).beta_g_r0_shalf@ == Seq::new(fe_size, |i: int| fe_zero())
                &&& final(self).beta_g_r1_fhalf@ == Seq::new(fe_size, |i: int| fe_zero())
                &&& final(self).beta_g_r1_shalf@ == Seq::new(fe_size, |i: int| fe_zero())
                &&& final(self).beta_u_fhalf@ == Seq::new(fe_size, |i: int| fe_zero())
                &&& final(self).beta_u_shalf@ == Seq::new(fe_size, |i: int| fe_zero())
                &&& final(self).add_mult_sum@ == Seq::new(poly_size, |i: int| zero_poly)
                &&& final(self).v_mult_add@ == Seq::new(poly_size, |i: int| zero_poly)
                &&& final(self).add_v_array@ == Seq::new(poly_size, |i: int| zero_poly)
            }),
            final(self).a_c == aritmetic_circuit,
            final(self).ctx.inv_2 == fe_nat(2),
            final(self).circuit_value@ == old(self).circuit_value@,
    {
        let half_length = (max_bit_length / 2) + 1;
        let poly_size = two_pow(max_bit_length);
        let fe_size = two_pow(half_length);
        let zero_poly = LinearPoly::zero();
        let zero_quad = QuadraticPoly::zero();
        self.ctx.gate_meet = filled(false, 15);
        self.ctx.v_mult_add_new = filled(zero_poly, poly_size);
        self.ctx.add_v_array_new = filled(zero_poly, poly_size);
        self.ctx.add_mult_sum_new = filled(zero_poly, poly_size);
        self.ctx.rets_prev = filled(zero_quad, poly_size);
        self.ctx.rets_cur = filled(zero_quad, poly_size);
        self.beta_g_r0_fhalf = filled(FieldElement::zero(), fe_size);
        self.beta_g_r0_shalf = filled(FieldElement::zero(), fe_size);
        self.beta_g_r1_fhalf = filled(FieldElement::zero(), fe_size);
        self.beta_g_r1_shalf = filled(FieldElement::zero(), fe_size);
        self.beta_u_fhalf = filled(FieldElement::zero(), fe_size);
        self.beta_u_shalf = filled(FieldElement::zero(), fe_size);
        self.add_mult_sum = filled(zero_poly, poly_size);
        self.v_mult_add = filled(zero_poly, poly_size);
        self.add_v_array = filled(zero_poly, poly_size);
        self.a_c = aritmetic_circuit;
        self.ctx.inv_2 = FieldElement::from_real(2);
    }
}

impl ZkProver {
    /// `phase1_ready`, computed.
    pub fn phase1_ready_check(&self) -> (r: bool)
        ensures
            r == self.phase1_ready(),
    {
        let id = self.sumcheck_layer_id;
        if !(1 <= id && id < self.a_c.circuit.len()) {
            return false;
        }
        if !(id - 1 < self.circuit_value.len()) {
            return false;
        }
        let lg = self.length_g;
        let fh = lg / 2;
        let sh = lg - fh;
        let gates = &self.a_c.circuit[id].gates;
        if !pow2_at_most(lg, gates.len()) {
            return false;
        }
        if !(lg <= self.r_0.len() && lg <= self.r_1.len() && lg <= self.one_minus_r_0.len()
            && lg <= self.one_minus_r_1.len()) {
            return false;
        }
        if !(pow2_at_most(fh, self.beta_g_r0_fhalf.len()) && pow2_at_most(fh, self.beta_g_r1_fhalf.len())
            && pow2_at_most(sh, self.beta_g_r0_shalf.len()) && pow2_at_most(sh, self.beta_g_r1_shalf.len())) {
            return false;
        }
        let count = self.a_c.circuit[id - 1].gates.len();
        let vals_len = self.circuit_value[id - 1].len();
        if !(count <= vals_len && count <= self.v_mult_add.len() && count <= self.add_v_array.len()
            && count <= self.add_mult_sum.len()) {
            return false;
        }
        if self.ctx.gate_meet.len() < 15 {
            return false;
        }
        proof {
            vstd::arithmetic::power2::lemma_pow2_pos(fh as nat);
        }
        let n = two_pow(lg);
        let flen = self.beta_g_r0_fhalf.len();
        let size = two_pow(fh);
        let s0 = self.beta_g_r0_shalf.len();
        let s1 = self.beta_g_r1_shalf.len();
        let s_len = if s0 <= s1 { s0 } else { s1 };
        let mult_len = self.add_mult_sum.len();
        let add_len = self.add_v_array.len();
        let mut g: usize = 0;
        while g < n
            invariant
                g <= n,
                n == pow2(lg as nat),
                n <= gates@.len(),
                gates == &self.a_c.circuit@[id as int].gates,
                id == self.sumcheck_layer_id,
                lg == self.length_g,
                fh == lg / 2,
                size == pow2(fh as nat),
                size > 0,
                vals_len == self.prev_values().len(),
                mult_len == self.add_mult_sum@.len(),
                add_len == self.add_v_array@.len(),
                s_len == least(self.beta_g_r0_shalf@.len() as int, self.beta_g_r1_shalf@.len() as int),
                forall|k: int|
                    0 <= k < g ==> phase1_gate_ok(
                        #[trigger] self.layer_gates()[k],
                        vals_len as int,
                        mult_len as int,
                        add_len as int,
                        s_len as int,
                        size as int,
                    ),
            decreases n - g,
        {
            if !phase1_gate_check(&gates[g], vals_len, mult_len, add_len, s_len, size) {
                return false;
            }
            g += 1;
        }
        true
    }

    /// `round_ready`, computed.
    pub fn round_ready_check(&self) -> (r: bool)
        ensures
            r == self.round_ready(),
    {
        let half = self.total_uv / 2;
        self.total_uv <= self.v_mult_add.len() && self.total_uv <= self.add_v_array.len()
            && self.total_uv <= self.add_mult_sum.len() && half <= self.ctx.v_mult_add_new.len()
            && half <= self.ctx.add_v_array_new.len() && half <= self.ctx.add_mult_sum_new.len()
            && half <= self.ctx.rets_prev.len() && half <= self.ctx.rets_cur.len() && 1
            <= self.ctx.rets_prev.len()
    }

    /// `phase2_ready`, computed.
    pub fn phase2_ready_check(&self, r_u: &Vec<FieldElement>, one_minus_r_u: &Vec<FieldElement>) -> (r: bool)
        ensures
            r == self.phase2_ready(r_u@, one_minus_r_u@),
    {
        let id = self.sumcheck_layer_id;
        if !(1 <= id && id < self.a_c.circuit.len()) {
            return false;
        }
        if !(id - 1 < self.circuit_value.len()) {
            return false;
        }
        let lu = self.length_u;
        let fhu = lu / 2;
        let shu = lu - fhu;
        if !(lu <= r_u.len() && lu <= one_minus_r_u.len()) {
            return false;
        }
        if !(pow2_at_most(fhu, self.beta_u_fhalf.len()) && pow2_at_most(shu, self.beta_u_shalf.len())) {
            return false;
        }
        if self.v_mult_add.len() < 1 {
            return false;
        }
        let count = self.a_c.circuit[id - 1].gates.len();
        let vals_len = self.circuit_value[id - 1].len();
        if !(count <= vals_len && count <= self.v_mult_add.len() && count <= self.add_v_array.len()
            && count <= self.add_mult_sum.len()) {
            return false;
        }
        let fg = self.length_g / 2;
        if !(pow2_at_most(fg, self.beta_g_r0_fhalf.len()) && pow2_at_most(fg, self.beta_g_r1_fhalf.len())) {
            return false;
        }
        let flen = self.beta_g_r0_fhalf.len();
        let size = two_pow(fg);
        let gates = &self.a_c.circuit[id].gates;
        let total = gates.len();
        let s0 = self.beta_g_r0_shalf.len();
        let s1 = self.beta_g_r1_shalf.len();
        proof {
            assert((size as u128) * (s0 as u128) <= u128::MAX) by (nonlinear_arith)
                requires size <= usize::MAX, s0 <= usize::MAX, usize::MAX <= u64::MAX;
            assert((size as u128) * (s1 as u128) <= u128::MAX) by (nonlinear_arith)
                requires size <= usize::MAX, s1 <= usize::MAX, usize::MAX <= u64::MAX;
        }
        let cap0: u128 = (size as u128) * (s0 as u128);
        let cap1: u128 = (size as u128) * (s1 as u128);
        if !((total as u128) <= cap0 && (total as u128) <= cap1) {
            return false;
        }
        let ulen = self.beta_u_fhalf.len();
        let size_u = two_pow(fhu);
        proof {
            vstd::arithmetic::power2::lemma_pow2_pos(fhu as nat);
        }
        let mult_len = self.add_mult_sum.len();
        let add_len = self.add_v_array.len();
        let su_len = self.beta_u_shalf.len();
        let mut g: usize = 0;
        while g < total
            invariant
                g <= total,
                total == gates@.len(),
                gates == &self.a_c.circuit@[id as int].gates,
                id == self.sumcheck_layer_id,
                size_u == pow2((self.length_u / 2) as nat),
                size_u > 0,
                mult_len == self.add_mult_sum@.len(),
                add_len == self.add_v_array@.len(),
                su_len == self.beta_u_shalf@.len(),
                forall|k: int|
                    0 <= k < g ==> phase2_gate_ok(
                        #[trigger] self.layer_gates()[k],
                        mult_len as int,
                        add_len as int,
                        su_len as int,
                        size_u as int,
                    ),
            decreases total - g,
        {
            if !phase2_gate_check(&gates[g], mult_len, add_len, su_len, size_u) {
                return false;
            }
            g += 1;
        }
        true
    }
}

/// Whether layers can be evaluated depends on the inputs only through their
/// number.
proof fn lemma_evaluable_by_len(layers: Seq<crate::circuit::Layer>, a: Seq<FieldElement>, b: Seq<FieldElement>, depth: int)
    requires
        a.len() == b.len(),
    ensures
        circuit_evaluable(layers, a, depth) == circuit_evaluable(layers, b, depth),
{
    assert forall|i: nat| #[trigger] layer_len(layers, a, i) == layer_len(layers, b, i) by {}
}

impl ZkProver {
    /// `evaluable`, computed.
    pub fn evaluable_check(&self) -> (r: bool)
        requires
            self.circuit_value@.len() > 0,
        ensures
            r == self.evaluable(),
    {
        let depth = self.a_c.total_depth;
        if !(depth < 1000000 && depth <= self.circuit_value.len()) {
            return false;
        }
        let n = self.circuit_value[0].len();
        let ok = circuit_evaluable_check(&self.a_c.circuit, n, depth);
        proof {
            lemma_evaluable_by_len(
                self.a_c.circuit@,
                Seq::new(n as nat, |i: int| fe_zero()),
                self.circuit_value@[0]@,
                depth as int,
            );
        }
        ok
    }
}

} // verus!
