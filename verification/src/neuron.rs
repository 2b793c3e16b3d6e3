//! The neuron/synapse model: a neuron owns an ordered sequence of weighted
//! input connections and evaluates to an output value under one of several
//! activation policies.
//!
//! Every variant first forms the weighted sum of its inputs.  Inputs and
//! weights live in the unit interval, so with at most a million synapses
//! every intermediate sum fits a machine word.

use vstd::prelude::*;
use crate::fixed::{
    Fx, SCALE, tdiv, fxmul, lemma_tdiv_bounds, lemma_tdiv_le, div_i128,
};
use crate::utils::{
    logistic, map_range, logistic_spec, map_range_spec, HALF,
};

verus! {

/// Most synapses a neuron may own: keeps every weighted sum within a
/// machine word.
pub const MAX_SYNAPSES: usize = 1_000_000;

/// A weighted connection carrying one input value into a neuron.
/// The weight is meant to lie in the unit interval.
#[derive(Clone, Copy, PartialEq, Eq, Structural, Debug)]
pub struct Synapse {
    pub input: Fx,
    pub weight: Fx,
}

impl Synapse {
    pub fn new(input: Fx, weight: Fx) -> (r: Synapse)
        ensures
            r.input == input,
            r.weight == weight,
    {
        Synapse { input, weight }
    }

    pub fn set_input(&mut self, input: Fx)
        ensures
            final(self).input == input,
            final(self).weight == old(self).weight,
    {
        self.input = input;
    }

    pub fn set_weight(&mut self, weight: Fx)
        ensures
            final(self).weight == weight,
            final(self).input == old(self).input,
    {
        self.weight = weight;
    }
}

/// The reported precondition violation of `set_inputs`: the number of new
/// inputs did not match the number of synapses.  Both lengths are carried.
#[derive(Clone, Copy, PartialEq, Eq, Structural, Debug)]
pub struct InputLenError {
    pub expected: usize,
    pub actual: usize,
}

/// Every synapse's input and weight lies in the unit interval.
pub open spec fn syn_wf(s: Seq<Synapse>) -> bool {
    forall|i: int|
        0 <= i < s.len() ==> {
            &&& 0 <= (#[trigger] s[i]).input.units <= SCALE
            &&& 0 <= s[i].weight.units <= SCALE
        }
}

/// Every input value lies in the unit interval.
pub open spec fn inputs_in_range(inputs: Seq<Fx>) -> bool {
    forall|i: int| 0 <= i < inputs.len() ==> 0 <= (#[trigger] inputs[i]).units <= SCALE
}

/// The synapse sequence with its inputs replaced positionally and its
/// weights kept.
pub open spec fn with_new_inputs(s: Seq<Synapse>, inputs: Seq<Fx>) -> Seq<Synapse> {
    Seq::new(s.len(), |i: int| Synapse { input: inputs[i], weight: s[i].weight })
}

/// The weighted sum `sum of input * weight` over a synapse sequence,
/// in millionths.
pub open spec fn total_input(s: Seq<Synapse>) -> int
    decreases s.len(),
{
    if s.len() == 0 {
        0
    } else {
        total_input(s.drop_last()) + fxmul(s.last().input.units as int, s.last().weight.units as int)
    }
}

/// The mean weighted input: the weighted sum divided by the synapse count.
pub open spec fn mean_input(s: Seq<Synapse>) -> int {
    tdiv(total_input(s), s.len() as int)
}

/// The weighted sum of unit-interval synapses lies between zero and the
/// synapse count.
pub proof fn lemma_total_input_bounds(s: Seq<Synapse>)
    requires
        syn_wf(s),
    ensures
        0 <= total_input(s) <= s.len() * (SCALE as int),
    decreases s.len(),
{
    if s.len() > 0 {
        assert(syn_wf(s.drop_last()));
        lemma_total_input_bounds(s.drop_last());
        let iu = s.last().input.units as int;
        let wu = s.last().weight.units as int;
        assert(0 <= iu * wu <= (SCALE as int) * (SCALE as int)) by (nonlinear_arith)
            requires
                0 <= iu <= SCALE as int,
                0 <= wu <= SCALE as int,
        ;
        lemma_tdiv_bounds(iu * wu, SCALE as int);
        lemma_tdiv_le(iu * wu, SCALE as int, SCALE as int);
        assert((s.len() - 1) * (SCALE as int) + SCALE as int == s.len() * (SCALE as int))
            by (nonlinear_arith);
    }
}

/// Replace each synapse's input positionally from `new_inputs`; report a
/// length mismatch, with both lengths, without touching anything.
fn assign_inputs(synapses: &mut Vec<Synapse>, new_inputs: &Vec<Fx>) -> (r: Result<
    (),
    InputLenError,
>)
    requires
        syn_wf(old(synapses)@),
        inputs_in_range(new_inputs@),
    ensures
        r is Ok <==> new_inputs@.len() == old(synapses)@.len(),
        r is Ok ==> final(synapses)@ == with_new_inputs(old(synapses)@, new_inputs@),
        r is Err ==> final(synapses)@ == old(synapses)@,
        new_inputs@.len() != old(synapses)@.len() ==> r == Err::<(), InputLenError>(
            InputLenError {
                expected: old(synapses)@.len() as usize,
                actual: new_inputs@.len() as usize,
            },
        ),
        syn_wf(final(synapses)@),
        final(synapses)@.len() == old(synapses)@.len(),
{
    if new_inputs.len() != synapses.len() {
        return Err(InputLenError { expected: synapses.len(), actual: new_inputs.len() });
    }
    let n = synapses.len();
    let mut i: usize = 0;
    while i < n
        invariant
            0 <= i <= n,
            n == synapses@.len() == old(synapses)@.len() == new_inputs@.len(),
            syn_wf(old(synapses)@),
            inputs_in_range(new_inputs@),
            forall|j: int|
                0 <= j < i ==> synapses@[j] == (Synapse {
                    input: new_inputs@[j],
                    weight: old(synapses)@[j].weight,
                }),
            forall|j: int| i <= j < n ==> synapses@[j] == old(synapses)@[j],
        decreases n - i,
    {
        let upd = Synapse { input: new_inputs[i], weight: synapses[i].weight };
        synapses.set(i, upd);
        i = i + 1;
    }
    proof {
        assert(synapses@ =~= with_new_inputs(old(synapses)@, new_inputs@));
        assert(syn_wf(synapses@));
    }
    Ok(())
}

/// The weighted sum of a neuron's synapses, exactly `total_input`.
fn weighted_total(synapses: &Vec<Synapse>) -> (r: i64)
    requires
        syn_wf(synapses@),
        synapses@.len() <= MAX_SYNAPSES,
    ensures
        r as int == total_input(synapses@),
        0 <= r <= 1_000_000_000_000,
{
    let n = synapses.len();
    let mut total: i64 = 0;
    let mut i: usize = 0;
    while i < n
        invariant
            0 <= i <= n,
            n == synapses@.len() <= MAX_SYNAPSES,
            syn_wf(synapses@),
            total as int == total_input(synapses@.take(i as int)),
            0 <= total as int <= (i as int) * (SCALE as int),
        decreases n - i,
    {
        let syn = *synapses.get(i).unwrap();
        proof {
            let iu = syn.input.units as int;
            let wu = syn.weight.units as int;
            assert(0 <= iu * wu <= (SCALE as int) * (SCALE as int)) by (nonlinear_arith)
                requires
                    0 <= iu <= SCALE as int,
                    0 <= wu <= SCALE as int,
            ;
            lemma_tdiv_bounds(iu * wu, SCALE as int);
            lemma_tdiv_le(iu * wu, SCALE as int, SCALE as int);
            assert(synapses@.take(i + 1).drop_last() =~= synapses@.take(i as int));
            assert(synapses@.take(i + 1).last() == synapses@[i as int]);
            assert((i as int) * (SCALE as int) + SCALE as int == (i + 1) * (SCALE as int))
                by (nonlinear_arith);
            assert((i + 1) * (SCALE as int) <= 1_000_000 * (SCALE as int)) by (nonlinear_arith)
                requires
                    i + 1 <= 1_000_000,
            ;
        }
        let p: i128 = (syn.input.units as i128) * (syn.weight.units as i128);
        let q = div_i128(p, SCALE as i128);
        total = total + (q as i64);
        i = i + 1;
    }
    proof {
        assert(synapses@.take(n as int) =~= synapses@);
    }
    total
}

/// The mean weighted input of a neuron's synapses, exactly `mean_input`.
fn weighted_mean(synapses: &Vec<Synapse>) -> (r: Fx)
    requires
        syn_wf(synapses@),
        1 <= synapses@.len() <= MAX_SYNAPSES,
    ensures
        r.units as int == mean_input(synapses@),
        0 <= r.units <= SCALE,
{
    let total = weighted_total(synapses);
    let n = synapses.len();
    proof {
        lemma_total_input_bounds(synapses@);
        lemma_tdiv_bounds(total as int, n as int);
        lemma_tdiv_le(total as int, n as int, SCALE as int);
    }
    let q: i64 = ((total as u64) / (n as u64)) as i64;
    Fx { units: q }
}

/// A unit that aggregates weighted synapse inputs and applies an activation
/// policy producing an output of type `O`.
pub trait Neuron<O>: Sized {
    /// The synapse sequence the neuron owns.
    spec fn synapses(&self) -> Seq<Synapse>;

    /// The activation threshold; zero for variants that own none.
    spec fn threshold(&self) -> Fx;

    /// Synapse values lie in the unit interval, as does the threshold, and
    /// the synapse count is positive and bounded.
    open spec fn wf(&self) -> bool {
        &&& syn_wf(self.synapses())
        &&& 1 <= self.synapses().len() <= MAX_SYNAPSES
        &&& 0 <= self.threshold().units <= SCALE
    }

    /// The output the activation policy assigns to the current state.
    spec fn eval_spec(&self) -> O;

    /// Evaluate the neuron: pure and repeatable.
    fn evaluate(&self) -> (r: O)
        requires
            self.wf(),
        ensures
            r == self.eval_spec(),
    ;

    /// The owned synapses.
    fn get_synapses(&self) -> (r: &Vec<Synapse>)
        ensures
            r@ == self.synapses(),
    ;

    /// Replace every synapse's input value positionally.  A sequence whose
    /// length does not match the synapse count is a reported precondition
    /// violation: the neuron is unchanged and both lengths are returned.
    fn set_inputs(&mut self, new_inputs: &Vec<Fx>) -> (r: Result<(), InputLenError>)
        requires
            old(self).wf(),
            inputs_in_range(new_inputs@),
        ensures
            r is Ok <==> new_inputs@.len() == old(self).synapses().len(),
            r is Ok ==> final(self).synapses() == with_new_inputs(
                old(self).synapses(),
                new_inputs@,
            ),
            r is Err ==> final(self).synapses() == old(self).synapses(),
            new_inputs@.len() != old(self).synapses().len() ==> r == Err::<(), InputLenError>(
                InputLenError {
                    expected: old(self).synapses().len() as usize,
                    actual: new_inputs@.len() as usize,
                },
            ),
            final(self).threshold() == old(self).threshold(),
            final(self).wf(),
    ;
}

/// A neuron that evaluates to the mean of its weighted inputs.
pub struct Linear {
    pub synapses: Vec<Synapse>,
}

impl Linear {
    pub fn new(synapses: Vec<Synapse>) -> (r: Linear)
        ensures
            r.synapses@ == synapses@,
    {
        Linear { synapses }
    }
}

impl Neuron<Fx> for Linear {
    open spec fn synapses(&self) -> Seq<Synapse> {
        self.synapses@
    }

    open spec fn threshold(&self) -> Fx {
        Fx { units: 0 }
    }

    open spec fn eval_spec(&self) -> Fx {
        Fx { units: mean_input(self.synapses@) as i64 }
    }

    fn evaluate(&self) -> (r: Fx) {
        weighted_mean(&self.synapses)
    }

    fn get_synapses(&self) -> (r: &Vec<Synapse>) {
        &self.synapses
    }

    fn set_inputs(&mut self, new_inputs: &Vec<Fx>) -> (r: Result<(), InputLenError>) {
        assign_inputs(&mut self.synapses, new_inputs)
    }
}

/// A neuron that compares the mean weighted input against an owned
/// threshold: `true` exactly when strictly above it.
pub struct BinaryThreshold {
    pub synapses: Vec<Synapse>,
    /// A threshold in the unit interval.
    pub threshold: Fx,
}

impl BinaryThreshold {
    pub fn new(synapses: Vec<Synapse>, threshold: Fx) -> (r: BinaryThreshold)
        ensures
            r.synapses@ == synapses@,
            r.threshold == threshold,
    {
        BinaryThreshold { synapses, threshold }
    }
}

impl Neuron<bool> for BinaryThreshold {
    open spec fn synapses(&self) -> Seq<Synapse> {
        self.synapses@
    }

    open spec fn threshold(&self) -> Fx {
        self.threshold
    }

    open spec fn eval_spec(&self) -> bool {
        mean_input(self.synapses@) > self.threshold.units as int
    }

    fn evaluate(&self) -> (r: bool) {
        let mean = weighted_mean(&self.synapses);
        mean.units > self.threshold.units
    }

    fn get_synapses(&self) -> (r: &Vec<Synapse>) {
        &self.synapses
    }

    fn set_inputs(&mut self, new_inputs: &Vec<Fx>) -> (r: Result<(), InputLenError>) {
        assign_inputs(&mut self.synapses, new_inputs)
    }
}

/// A neuron that returns nothing below its threshold, and above it the mean
/// weighted input remapped linearly from `[threshold, 1]` to `[0, 1]`.
pub struct RectifiedLinear {
    pub synapses: Vec<Synapse>,
    /// A threshold in the unit interval.
    pub threshold: Fx,
}

impl RectifiedLinear {
    pub fn new(synapses: Vec<Synapse>, threshold: Fx) -> (r: RectifiedLinear)
        ensures
            r.synapses@ == synapses@,
            r.threshold == threshold,
    {
        RectifiedLinear { synapses, threshold }
    }
}

impl Neuron<Option<Fx>> for RectifiedLinear {
    open spec fn synapses(&self) -> Seq<Synapse> {
        self.synapses@
    }

    open spec fn threshold(&self) -> Fx {
        self.threshold
    }

    open spec fn eval_spec(&self) -> Option<Fx> {
        let mean = mean_input(self.synapses@);
        if mean > self.threshold.units as int {
            Some(
                Fx {
                    units: map_range_spec(
                        mean,
                        self.threshold.units as int,
                        SCALE as int,
                        0,
                        SCALE as int,
                    ) as i64,
                },
            )
        } else {
            None
        }
    }

    fn evaluate(&self) -> (r: Option<Fx>) {
        let mean = weighted_mean(&self.synapses);
        if mean.units > self.threshold.units {
            proof {
                let m = mean.units as int;
                let th = self.threshold.units as int;
                let s = SCALE as int;
                assert(0 <= (m - th) * (s - 0) <= s * (s - th)) by (nonlinear_arith)
                    requires
                        th < m <= s,
                        0 <= th,
                        s == 1_000_000,
                ;
                lemma_tdiv_bounds((m - th) * (s - 0), s - th);
                lemma_tdiv_le((m - th) * (s - 0), s - th, s);
            }
            Some(
                map_range(
                    mean,
                    self.threshold,
                    Fx { units: SCALE },
                    Fx { units: 0 },
                    Fx { units: SCALE },
                ),
            )
        } else {
            None
        }
    }

    fn get_synapses(&self) -> (r: &Vec<Synapse>) {
        &self.synapses
    }

    fn set_inputs(&mut self, new_inputs: &Vec<Fx>) -> (r: Result<(), InputLenError>) {
        assign_inputs(&mut self.synapses, new_inputs)
    }
}

/// The historical alias of `RectifiedLinear`.
pub type LinearThreshold = RectifiedLinear;

/// The historical alias of `Sigmoid`.
pub type Logistic = Sigmoid;

/// The remapping every sigmoid-family neuron applies before the logistic
/// function: the weighted sum is taken from `[0, synapse count]` to
/// `[-10, 10]`.
pub open spec fn sigmoid_arg(s: Seq<Synapse>) -> int {
    map_range_spec(
        total_input(s),
        0,
        s.len() * (SCALE as int),
        -10 * (SCALE as int),
        10 * (SCALE as int),
    )
}

/// Remap a weighted total from `[0, n]` to `[-10, 10]`.
fn remap_total(total: i64, n: usize) -> (r: Fx)
    requires
        1 <= n <= MAX_SYNAPSES,
        0 <= total <= n * (SCALE as int),
    ensures
        r.units as int == map_range_spec(
            total as int,
            0,
            n * (SCALE as int),
            -10 * (SCALE as int),
            10 * (SCALE as int),
        ),
        -10 * (SCALE as int) <= r.units as int <= 10 * (SCALE as int),
{
    let s = SCALE;
    let hi: i64 = (n as i64) * s;
    proof {
        let t = total as int;
        let span = (n as int) * (s as int);
        assert(span <= 1_000_000 * (s as int)) by (nonlinear_arith)
            requires
                span == (n as int) * (s as int),
                n <= 1_000_000,
                s == 1_000_000,
        ;
        assert(0 <= t * (10 * (s as int) - (-10) * (s as int)) <= (20 * (s as int)) * span)
            by (nonlinear_arith)
            requires
                0 <= t <= span,
                s == 1_000_000,
        ;
        lemma_tdiv_bounds(t * (10 * (s as int) - (-10) * (s as int)), span);
        lemma_tdiv_le(t * (10 * (s as int) - (-10) * (s as int)), span, 20 * (s as int));
    }
    map_range(
        Fx { units: total },
        Fx { units: 0 },
        Fx { units: hi },
        Fx { units: -10 * s },
        Fx { units: 10 * s },
    )
}

/// A neuron that gives a smooth, bounded output: the weighted sum is
/// remapped to `[-10, 10]` and passed through the logistic function.
pub struct Sigmoid {
    pub synapses: Vec<Synapse>,
}

impl Sigmoid {
    pub fn new(synapses: Vec<Synapse>) -> (r: Sigmoid)
        ensures
            r.synapses@ == synapses@,
    {
        Sigmoid { synapses }
    }
}

impl Neuron<Fx> for Sigmoid {
    open spec fn synapses(&self) -> Seq<Synapse> {
        self.synapses@
    }

    open spec fn threshold(&self) -> Fx {
        Fx { units: 0 }
    }

    open spec fn eval_spec(&self) -> Fx {
        Fx { units: logistic_spec(sigmoid_arg(self.synapses@)) as i64 }
    }

    fn evaluate(&self) -> (r: Fx) {
        let total = weighted_total(&self.synapses);
        proof {
            lemma_total_input_bounds(self.synapses@);
        }
        let mapped = remap_total(total, self.synapses.len());
        logistic(mapped)
    }

    fn get_synapses(&self) -> (r: &Vec<Synapse>) {
        &self.synapses
    }

    fn set_inputs(&mut self, new_inputs: &Vec<Fx>) -> (r: Result<(), InputLenError>) {
        assign_inputs(&mut self.synapses, new_inputs)
    }
}

/// A neuron with the sigmoid pipeline that reports only whether the
/// resulting probability exceeds one half.
pub struct StochasticBinary {
    pub synapses: Vec<Synapse>,
}

impl StochasticBinary {
    pub fn new(synapses: Vec<Synapse>) -> (r: StochasticBinary)
        ensures
            r.synapses@ == synapses@,
    {
        StochasticBinary { synapses }
    }
}

impl Neuron<bool> for StochasticBinary {
    open spec fn synapses(&self) -> Seq<Synapse> {
        self.synapses@
    }

    open spec fn threshold(&self) -> Fx {
        Fx { units: 0 }
    }

    open spec fn eval_spec(&self) -> bool {
        logistic_spec(sigmoid_arg(self.synapses@)) > HALF as int
    }

    fn evaluate(&self) -> (r: bool) {
        let total = weighted_total(&self.synapses);
        proof {
            lemma_total_input_bounds(self.synapses@);
        }
        let mapped = remap_total(total, self.synapses.len());
        let p = logistic(mapped);
        p.units > HALF
    }

    fn get_synapses(&self) -> (r: &Vec<Synapse>) {
        &self.synapses
    }

    fn set_inputs(&mut self, new_inputs: &Vec<Fx>) -> (r: Result<(), InputLenError>) {
        assign_inputs(&mut self.synapses, new_inputs)
    }
}

} // verus!
