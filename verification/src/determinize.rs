//! Making a machine read each input string one way only.
//!
//! A state of the result is a weighted subset of the input's states: where the
//! input could be in any of several places after reading a prefix, the result is in
//! the one state standing for all of them, and each carries the weight by which it
//! is still in the running.
//!
//! Epsilon is treated as an ordinary label here. Not every weighted machine can be
//! determinized: the ones that cannot need unboundedly many subsets.
use crate::arc::{Arc, EPSILON};
use crate::arc_map::{arc_map_to, lemma_adds_no_state, lemma_map_into_wf, map_all, map_into};
use crate::error::OpenFstError;
use crate::factor_weight::{
    factor_weight, factors, lemma_factored_wf, FactorIterator, FactorWeightOptions,
    GallicFactor, FINAL_WEIGHTS,
};
use crate::gallic_map::{FromGallicMapper, ToGallicMapper};
use crate::hash_table::{fx_hash, fx_word, Key, Table};
use crate::inspect::{acceptor, said_acceptor};
use crate::list::{list_of, sequence, List};
use crate::properties::{
    K_ACCEPTOR, K_ACCESSIBLE, K_ACYCLIC, K_CO_ACCESSIBLE, K_CYCLIC, K_ERROR, K_FST_PROPERTIES,
    K_INITIAL_ACYCLIC, K_I_DETERMINISTIC, K_I_EPSILONS, K_NO_I_EPSILONS, K_NO_O_EPSILONS,
    K_O_EPSILONS, K_STRING,
};
use crate::sort::{is_ranked, law_ranked, lemma_ranked_from, lemma_ranked_to, put_in_order, ranked,
    Ranked};
use crate::string_weight::{GallicWeight, StringWeight, GALLIC_RESTRICT};
use crate::unfold::{
    is_unfolding, lemma_unfolded_wf, meets_failure, meets_more, numbered, unfold, unfolded, unfolds,
    within, Step, Unfolding,
};
use crate::vector_fst::{lemma_forget_forget, named_after, set_bits, FstV, VectorFst};
use crate::weight::{Divide, DivideType, Weight};
use vstd::prelude::*;

verus! {

/// What weight to put on the arc leaving a subset, given the weights the subset
/// members contribute.
///
/// Whatever is put there is divided back out of the members.
pub trait CommonDivisor<W: Weight> {
    /// A running divisor combined with one more member's weight.
    spec fn spec_divisor(self, w1: W, w2: W) -> W;

    /// Combines a running divisor with one more member's weight.
    fn divisor(&self, w1: &W, w2: &W) -> (w: W)
        ensures
            w == self.spec_divisor(*w1, *w2),
    ;
}

/// The semiring's own sum.
#[derive(Debug, Clone, Copy)]
pub struct DefaultCommonDivisor;

impl<W: Weight> CommonDivisor<W> for DefaultCommonDivisor {
    open spec fn spec_divisor(self, w1: W, w2: W) -> W {
        w1.spec_plus(w2)
    }

    fn divisor(&self, w1: &W, w2: &W) -> (w: W) {
        w1.plus(w2)
    }
}

/// The first letter two strings agree on, or none: at most one output label is
/// committed per arc.
#[derive(Debug, Clone, Copy)]
pub struct LabelCommonDivisor;

/// The first letter of a string as a string of its own; the empty string where
/// there is none.
pub open spec fn first_letter<const S: u8>(w: StringWeight<S>) -> StringWeight<S> {
    if w.string().len() > 0 {
        StringWeight::of(seq![w.string()[0]])
    } else {
        StringWeight::spec_one()
    }
}

/// The first letter of a string as a string of its own; the empty string where
/// there is none.
fn take_first_letter<const S: u8>(w: &StringWeight<S>) -> (first: StringWeight<S>)
    ensures
        first == first_letter(*w),
{
    let labels = w.labels();
    if labels.len() > 0 {
        StringWeight::single(labels[0])
    } else {
        StringWeight::one()
    }
}

impl<const S: u8> CommonDivisor<StringWeight<S>> for LabelCommonDivisor {
    open spec fn spec_divisor(self, w1: StringWeight<S>, w2: StringWeight<S>) -> StringWeight<S> {
        if w1 == StringWeight::<S>::spec_zero() {
            // The sum of nothing contributes nothing, so the other's letter stands.
            first_letter(w2)
        } else if w2 == StringWeight::<S>::spec_zero() {
            first_letter(w1)
        } else if w1.string().len() > 0 && w2.string().len() > 0 && w1.string()[0]
            == w2.string()[0] {
            first_letter(w1)
        } else {
            StringWeight::spec_one()
        }
    }

    fn divisor(&self, w1: &StringWeight<S>, w2: &StringWeight<S>) -> (w: StringWeight<S>) {
        let zero = StringWeight::<S>::zero();
        if w1.same(&zero) {
            return take_first_letter(w2);
        }
        if w2.same(&zero) {
            return take_first_letter(w1);
        }
        let a = w1.labels();
        let b = w2.labels();
        // An empty string has no letter to agree on.
        if a.len() == 0 || b.len() == 0 || a[0] != b[0] {
            return StringWeight::one();
        }
        take_first_letter(w1)
    }
}

/// The label divisor on the string half and `D` on the weight half.
#[derive(Debug, Clone, Copy)]
pub struct GallicCommonDivisor<D> {
    /// What to use on the weight half.
    pub weights: D,
}

impl<W: Weight, D: CommonDivisor<W>, const G: u8> CommonDivisor<
    GallicWeight<W, G>,
> for GallicCommonDivisor<D> {
    open spec fn spec_divisor(self, w1: GallicWeight<W, G>, w2: GallicWeight<W, G>) -> GallicWeight<
        W,
        G,
    > {
        GallicWeight {
            labels: LabelCommonDivisor.spec_divisor(w1.labels, w2.labels),
            weight: self.weights.spec_divisor(w1.weight, w2.weight),
        }
    }

    fn divisor(&self, w1: &GallicWeight<W, G>, w2: &GallicWeight<W, G>) -> (w: GallicWeight<W, G>) {
        GallicWeight::from_parts(
            LabelCommonDivisor.divisor(w1.labels(), w2.labels()),
            self.weights.divisor(w1.weight(), w2.weight()),
        )
    }
}

/// Which reading of a transducer to determinize.
#[derive(Debug, Clone, Copy, PartialEq, Eq, Structural)]
pub enum DeterminizeType {
    /// The transducer maps each input string to at most one output string.
    Functional,
    /// It may map one input to several outputs, which are kept. Not offered.
    NonFunctional,
    /// Keep only one of several outputs. Not offered.
    Disambiguate,
}

/// How to determinize.
#[derive(Debug)]
pub struct DeterminizeOptions<D> {
    /// How closely two subset weights must agree to count as the same subset.
    pub delta: D,
    /// The label on the arc a leftover final output becomes.
    pub subsequential_label: i32,
    /// Whether to make those labels distinct when a final weight becomes several
    /// arcs.
    pub increment_subsequential_label: bool,
    /// Which reading of the transducer to take.
    pub det_type: DeterminizeType,
    /// A cap on how many states to build.
    pub max_states: Option<usize>,
}

impl<D> DeterminizeOptions<D> {
    /// The usual way to determinize, with subset weights compared by `delta`.
    pub fn new(delta: D) -> (opts: Self)
        ensures
            opts == (DeterminizeOptions {
                delta,
                subsequential_label: EPSILON,
                increment_subsequential_label: false,
                det_type: DeterminizeType::Functional,
                max_states: None,
            }),
    {
        DeterminizeOptions {
            delta,
            subsequential_label: EPSILON,
            increment_subsequential_label: false,
            det_type: DeterminizeType::Functional,
            max_states: None,
        }
    }
}

/// A state of the input, with the weight by which it is still in the running.
pub struct Member<W> {
    /// The state of the input.
    pub state: usize,
    /// The weight still owed.
    pub weight: W,
}

impl<W: Weight> Key for Member<W> {
    open spec fn spec_key_word(self) -> u64 {
        fx_word(self.state.spec_key_word(), self.weight.spec_hash_word(), usize::BITS)
    }

    fn key_word(&self) -> (h: u64) {
        fx_hash(self.state.key_word(), self.weight.hash_word())
    }

    fn key_same(&self, other: &Self) -> (b: bool) {
        self.state == other.state && self.weight.same(&other.weight)
    }

    fn key_copy(&self) -> (k: Self) {
        Member { state: self.state, weight: self.weight.duplicate() }
    }
}

/// One way of leaving a subset.
pub struct Transition<W> {
    /// The label read.
    pub label: i32,
    /// The state of the input it leads to.
    pub to: usize,
    /// The weight, from where the subset was entered.
    pub weight: W,
}

impl<W> Ranked for Transition<W> {
    open spec fn rank(self) -> (int, int, int) {
        (self.label as int, self.to as int, 0)
    }

    fn before(&self, other: &Self) -> (b: bool) {
        self.label < other.label || (self.label == other.label && self.to < other.to)
    }
}

/// What the first `k` members of a subset are worth if a path ends there.
pub open spec fn subset_final<W: Weight>(v: FstV<W>, subset: Seq<Member<W>>, k: int) -> W
    decreases k,
{
    if k <= 0 {
        W::spec_zero()
    } else {
        subset_final(v, subset, k - 1).spec_plus(
            subset[k - 1].weight.spec_times(v.fin(subset[k - 1].state as int)),
        )
    }
}

/// The ways of leaving one member of a subset by its first `k` arcs.
pub open spec fn member_transitions<W: Weight>(weight: W, arcs: Seq<Arc<W>>, k: int) -> Seq<
    Transition<W>,
>
    decreases k,
{
    if k <= 0 {
        Seq::empty()
    } else {
        member_transitions(weight, arcs, k - 1).push(
            Transition {
                label: arcs[k - 1].ilabel,
                to: arcs[k - 1].nextstate,
                weight: weight.spec_times(arcs[k - 1].weight),
            },
        )
    }
}

/// The ways of leaving the first `k` members of a subset.
pub open spec fn subset_transitions<W: Weight>(
    v: FstV<W>,
    subset: Seq<Member<W>>,
    k: int,
) -> Seq<Transition<W>>
    decreases k,
{
    if k <= 0 {
        Seq::empty()
    } else {
        let arcs = v.arcs(subset[k - 1].state as int);
        subset_transitions(v, subset, k - 1) + member_transitions(
            subset[k - 1].weight,
            arcs,
            arcs.len() as int,
        )
    }
}

/// The divisor over the first `k` contributions.
pub open spec fn common_divisor<W: Weight, D: CommonDivisor<W>>(
    divisor: D,
    group: Seq<Transition<W>>,
    k: int,
) -> W
    decreases k,
{
    if k <= 0 {
        W::spec_zero()
    } else {
        divisor.spec_divisor(common_divisor(divisor, group, k - 1), group[k - 1].weight)
    }
}

/// The first `k` contributions, with those to one state in a row made one, at the
/// sum of the ways of reaching it.
pub open spec fn merged<W: Weight>(group: Seq<Transition<W>>, k: int) -> Seq<Member<W>>
    decreases k,
{
    if k <= 0 {
        Seq::empty()
    } else {
        let before = merged(group, k - 1);
        let next = group[k - 1];
        if before.len() > 0 && before.last().state == next.to {
            before.update(
                before.len() - 1,
                Member {
                    state: next.to,
                    weight: before.last().weight.spec_plus(next.weight),
                },
            )
        } else {
            before.push(Member { state: next.to, weight: next.weight })
        }
    }
}

/// Whether a sum stays in the semiring wherever contributions are made one.
pub open spec fn merges<W: Weight>(group: Seq<Transition<W>>, k: int) -> bool
    decreases k,
{
    k <= 0 || (merges(group, k - 1) && {
        let before = merged(group, k - 1);
        before.len() > 0 && before.last().state == group[k - 1].to ==> before.last().weight.spec_plus(
            group[k - 1].weight,
        ).spec_member()
    })
}

/// What remains of the members once the arc took its part.
pub open spec fn remaining<W: Divide>(members: Seq<Member<W>>, taken: W, delta: W::Delta) -> Seq<
    Member<W>,
> {
    Seq::new(
        members.len(),
        |i: int|
            Member {
                state: members[i].state,
                weight: members[i].weight.spec_divide(taken, DivideType::Left).spec_quantize(delta),
            },
    )
}

/// Where the ways that read what the one at `begin` reads end, those before `at`
/// being known to.
pub open spec fn group_end<W>(all: Seq<Transition<W>>, begin: int, at: int) -> int
    decreases all.len() - at,
{
    if at < all.len() && all[at].label == all[begin].label {
        group_end(all, begin, at + 1)
    } else {
        at
    }
}

proof fn lemma_group_end<W>(all: Seq<Transition<W>>, begin: int, at: int)
    requires
        0 <= begin < at <= all.len(),
        forall|i: int| begin <= i < at ==> (#[trigger] all[i]).label == all[begin].label,
    ensures
        at <= group_end(all, begin, at) <= all.len(),
        forall|i: int|
            begin <= i < group_end(all, begin, at) ==> (#[trigger] all[i]).label
                == all[begin].label,
        group_end(all, begin, at) < all.len() ==> all[group_end(all, begin, at)].label
            != all[begin].label,
    decreases all.len() - at,
{
    if at < all.len() && all[at].label == all[begin].label {
        lemma_group_end(all, begin, at + 1);
    }
}

/// What the subsets depend on.
pub struct DeterminizeModel<W: Weight, D> {
    /// The input.
    pub v: FstV<W>,
    /// What goes on an arc.
    pub divisor: D,
    /// How closely two subset weights must agree.
    pub delta: W::Delta,
}

/// The arc that all ways of reading one label become.
pub open spec fn group_step<W: Divide, D: CommonDivisor<W>>(
    m: DeterminizeModel<W, D>,
    group: Seq<Transition<W>>,
) -> Step<W, List<Member<W>>> {
    let taken = common_divisor(m.divisor, group, group.len() as int);
    Step {
        ilabel: group[0].label,
        olabel: group[0].label,
        weight: taken,
        to: list_of(remaining(merged(group, group.len() as int), taken, m.delta)),
    }
}

/// The arcs that the ways of leaving a subset from `begin` on become, those that
/// read one label together.
pub open spec fn group_steps<W: Divide, D: CommonDivisor<W>>(
    m: DeterminizeModel<W, D>,
    all: Seq<Transition<W>>,
    begin: int,
) -> Seq<Step<W, List<Member<W>>>>
    decreases all.len() - begin,
{
    if begin >= all.len() {
        Seq::empty()
    } else {
        let end = group_end(all, begin, begin + 1);
        if end <= begin || end > all.len() {
            Seq::empty()
        } else {
            seq![group_step(m, all.subrange(begin, end))] + group_steps(m, all, end)
        }
    }
}

/// Whether the sums stay in the semiring in every group from `begin` on.
pub open spec fn groups_merge<W: Weight>(all: Seq<Transition<W>>, begin: int) -> bool
    decreases all.len() - begin,
{
    begin >= all.len() || {
        let end = group_end(all, begin, begin + 1);
        begin < end <= all.len() && merges(all.subrange(begin, end), end - begin) && groups_merge(
            all,
            end,
        )
    }
}

/// The ways of leaving a subset, those that read one label together and in the
/// order of the states they lead to.
pub open spec fn subset_ways<W: Weight>(v: FstV<W>, subset: List<Member<W>>) -> Seq<
    Transition<W>,
> {
    let members = sequence(subset);
    ranked(subset_transitions(v, members, members.len() as int))
}

/// What a machine that reads each string one way is built from.
pub struct Determinizing<'a, W: Weight, D> {
    ifst: &'a VectorFst<W>,
    divisor: &'a D,
    delta: W::Delta,
}

/// Whether every member is a state of the machine.
pub open spec fn members_fit<W: Weight>(v: FstV<W>, members: Seq<Member<W>>) -> bool {
    forall|i: int| 0 <= i < members.len() ==> (#[trigger] members[i]).state < v.n()
}

/// Whether every way leads to a state of the machine.
pub open spec fn ways_fit<W: Weight>(v: FstV<W>, ways: Seq<Transition<W>>) -> bool {
    forall|i: int| 0 <= i < ways.len() ==> (#[trigger] ways[i]).to < v.n()
}

proof fn lemma_member_transitions<W: Weight>(v: FstV<W>, s: int, weight: W, k: int)
    requires
        v.wf(),
        0 <= s < v.n(),
        0 <= k <= v.arcs(s).len(),
    ensures
        member_transitions(weight, v.arcs(s), k).len() == k,
        ways_fit(v, member_transitions(weight, v.arcs(s), k)),
    decreases k,
{
    if k > 0 {
        lemma_member_transitions(v, s, weight, k - 1);
        assert(v.states[s].arcs[k - 1].nextstate < v.n());
    }
}

proof fn lemma_subset_transitions<W: Weight>(v: FstV<W>, subset: Seq<Member<W>>, k: int)
    requires
        v.wf(),
        members_fit(v, subset),
        0 <= k <= subset.len(),
    ensures
        ways_fit(v, subset_transitions(v, subset, k)),
    decreases k,
{
    if k > 0 {
        lemma_subset_transitions(v, subset, k - 1);
        let s = subset[k - 1].state as int;
        lemma_member_transitions(v, s, subset[k - 1].weight, v.arcs(s).len() as int);
        let before = subset_transitions(v, subset, k - 1);
        let all = subset_transitions(v, subset, k);
        assert forall|i: int| 0 <= i < all.len() implies (#[trigger] all[i]).to < v.n() by {
            if i < before.len() {
                assert(all[i] == before[i]);
            } else {
                assert(all[i] == member_transitions(
                    subset[k - 1].weight,
                    v.arcs(s),
                    v.arcs(s).len() as int,
                )[i - before.len()]);
            }
        }
    }
}

/// The states of what was made one are those of the contributions.
pub proof fn lemma_merged<W: Weight>(v: FstV<W>, group: Seq<Transition<W>>, k: int)
    requires
        ways_fit(v, group),
        0 <= k <= group.len(),
    ensures
        members_fit(v, merged(group, k)),
        k > 0 ==> merged(group, k).len() > 0,
    decreases k,
{
    if k > 0 {
        lemma_merged(v, group, k - 1);
    }
}

impl<'a, W: Divide, D: CommonDivisor<W>> Determinizing<'a, W, D> {
    spec fn m(&self) -> DeterminizeModel<W, D> {
        DeterminizeModel { v: self.ifst@, divisor: *self.divisor, delta: self.delta }
    }

    /// What the subset is worth if a path ends there.
    fn final_weight(&self, subset: &Vec<Member<W>>) -> (weight: W)
        requires
            members_fit(self.ifst@, subset@),
        ensures
            weight == subset_final(self.ifst@, subset@, subset@.len() as int),
    {
        let mut weight = W::zero();
        let mut k: usize = 0;
        while k < subset.len()
            invariant
                k <= subset@.len(),
                members_fit(self.ifst@, subset@),
                weight == subset_final(self.ifst@, subset@, k as int),
            decreases subset@.len() - k,
        {
            let more = subset[k].weight.times(&self.ifst.final_weight(subset[k].state));
            weight = weight.plus(&more);
            k = k + 1;
        }
        weight
    }

    /// The ways of leaving the subset.
    fn transitions(&self, subset: &Vec<Member<W>>) -> (ways: Vec<Transition<W>>)
        requires
            members_fit(self.ifst@, subset@),
        ensures
            ways@ == subset_transitions(self.ifst@, subset@, subset@.len() as int),
    {
        let mut ways: Vec<Transition<W>> = Vec::new();
        let mut k: usize = 0;
        while k < subset.len()
            invariant
                k <= subset@.len(),
                members_fit(self.ifst@, subset@),
                ways@ == subset_transitions(self.ifst@, subset@, k as int),
            decreases subset@.len() - k,
        {
            let arcs = self.ifst.arcs(subset[k].state);
            let weight = &subset[k].weight;
            let ghost before = ways@;
            let mut j: usize = 0;
            assert(before + member_transitions(*weight, arcs@, 0) =~= before);
            while j < arcs.len()
                invariant
                    j <= arcs@.len(),
                    ways@ == before + member_transitions(*weight, arcs@, j as int),
                decreases arcs@.len() - j,
            {
                ways.push(
                    Transition {
                        label: arcs[j].ilabel,
                        to: arcs[j].nextstate,
                        weight: weight.times(&arcs[j].weight),
                    },
                );
                j = j + 1;
                assert(ways@ =~= before + member_transitions(*weight, arcs@, j as int));
            }
            k = k + 1;
        }
        ways
    }

    /// The arc that the ways from `begin` up to `end`, which read one label, become.
    fn step(&self, all: &Vec<Transition<W>>, begin: usize, end: usize) -> (step: Option<
        Step<W, List<Member<W>>>,
    >)
        requires
            begin < end <= all@.len(),
        ensures
            ({
                let group = all@.subrange(begin as int, end as int);
                &&& step is Some <==> merges(group, group.len() as int)
                &&& step matches Some(s) ==> s == group_step(self.m(), group)
            }),
    {
        let ghost group = all@.subrange(begin as int, end as int);
        // What goes on the arc: the divisor over every contribution, taken before
        // those to one state are made one.
        let mut taken = W::zero();
        let mut k: usize = begin;
        while k < end
            invariant
                begin <= k <= end <= all@.len(),
                group == all@.subrange(begin as int, end as int),
                taken == common_divisor(*self.divisor, group, k - begin),
            decreases end - k,
        {
            assert(group[k - begin] == all@[k as int]);
            taken = self.divisor.divisor(&taken, &all[k].weight);
            k = k + 1;
        }
        let mut members: Vec<Member<W>> = Vec::new();
        k = begin;
        while k < end
            invariant
                begin <= k <= end <= all@.len(),
                group == all@.subrange(begin as int, end as int),
                members@ == merged(group, k - begin),
                merges(group, k - begin),
            decreases end - k,
        {
            let way = &all[k];
            assert(group[k - begin] == *way);
            let n: usize = members.len();
            if n > 0 && members[n - 1].state == way.to {
                let weight = members[n - 1].weight.plus(&way.weight);
                if !weight.is_member() {
                    proof {
                        if merges(group, group.len() as int) {
                            lemma_merges_up_to(group, k - begin + 1, group.len() as int);
                        }
                    }
                    return None;
                }
                members.set(n - 1, Member { state: way.to, weight });
            } else {
                members.push(Member { state: way.to, weight: way.weight.duplicate() });
            }
            k = k + 1;
        }
        // What the arc took is divided back out, so the subset holds only what is
        // still to be decided.
        let mut rest: Vec<Member<W>> = Vec::new();
        let mut i: usize = 0;
        while i < members.len()
            invariant
                i <= members@.len(),
                rest@ == remaining(members@, taken, self.delta).take(i as int),
            decreases members@.len() - i,
        {
            rest.push(
                Member {
                    state: members[i].state,
                    weight: members[i].weight.divide(&taken, DivideType::Left).quantize(
                        &self.delta,
                    ),
                },
            );
            i = i + 1;
            assert(rest@ =~= remaining(members@, taken, self.delta).take(i as int));
        }
        assert(rest@ =~= remaining(members@, taken, self.delta));
        assert(group[0] == all@[begin as int]);
        Some(
            Step {
                ilabel: all[begin].label,
                olabel: all[begin].label,
                weight: taken,
                to: List::from_vec(&rest),
            },
        )
    }
}

proof fn lemma_merges_up_to<W: Weight>(group: Seq<Transition<W>>, j: int, k: int)
    requires
        j <= k,
        merges(group, k),
    ensures
        merges(group, j),
    decreases k - j,
{
    if j < k {
        lemma_merges_up_to(group, j, k - 1);
    }
}

impl<'a, W: Divide, D: CommonDivisor<W>> Unfolding<W, List<Member<W>>> for Determinizing<
    'a,
    W,
    D,
> {
    type Model = DeterminizeModel<W, D>;

    closed spec fn ready(&self) -> bool {
        true
    }

    closed spec fn model(&self) -> Self::Model {
        self.m()
    }

    open spec fn fits(model: Self::Model, key: List<Member<W>>) -> bool {
        model.v.wf() && members_fit(model.v, sequence(key))
    }

    open spec fn fails(model: Self::Model, key: List<Member<W>>) -> bool {
        let members = sequence(key);
        let weight = subset_final(model.v, members, members.len() as int);
        ||| weight != W::spec_zero() && !weight.spec_member()
        ||| !groups_merge(subset_ways(model.v, key), 0)
    }

    open spec fn steps(model: Self::Model, key: List<Member<W>>) -> Seq<Step<W, List<Member<W>>>> {
        group_steps(model, subset_ways(model.v, key), 0)
    }

    open spec fn ending(model: Self::Model, key: List<Member<W>>) -> W {
        subset_final(model.v, sequence(key), sequence(key).len() as int)
    }

    fn expand(&mut self, key: &List<Member<W>>) -> (expansion: Option<
        (Vec<Step<W, List<Member<W>>>>, W),
    >) {
        let ghost m = self.m();
        let subset = key.to_vec();
        let weight = self.final_weight(&subset);
        if !weight.same(&W::zero()) && !weight.is_member() {
            return None;
        }
        let ways = put_in_order(self.transitions(&subset));
        let ghost all = ways@;
        proof {
            let from = subset_transitions(m.v, subset@, subset@.len() as int);
            lemma_subset_transitions(m.v, subset@, subset@.len() as int);
            assert forall|i: int| 0 <= i < all.len() implies (#[trigger] all[i]).to < m.v.n() by {
                let j = lemma_ranked_from(from, i);
                assert(from[j].to < m.v.n());
            }
        }
        let mut steps: Vec<Step<W, List<Member<W>>>> = Vec::new();
        let mut begin: usize = 0;
        assert(steps@ + group_steps(m, all, 0) =~= group_steps(m, all, 0));
        while begin < ways.len()
            invariant
                m == self.m(),
                m == old(self).m(),
                all == ways@,
                ways_fit(m.v, all),
                m.v.wf(),
                all == subset_ways(m.v, *key),
                begin <= ways@.len(),
                steps@ + group_steps(m, all, begin as int) == group_steps(m, all, 0),
                groups_merge(all, 0) == groups_merge(all, begin as int),
                forall|i: int|
                    0 <= i < steps@.len() ==> members_fit(
                        m.v,
                        sequence((#[trigger] steps@[i]).to),
                    ),
            decreases ways@.len() - begin,
        {
            let mut end: usize = begin + 1;
            while end < ways.len() && ways[end].label == ways[begin].label
                invariant
                    begin < end <= ways@.len(),
                    group_end(ways@, begin as int, end as int) == group_end(
                        ways@,
                        begin as int,
                        begin + 1,
                    ),
                decreases ways@.len() - end,
            {
                end = end + 1;
            }
            let ghost group = all.subrange(begin as int, end as int);
            match self.step(&ways, begin, end) {
                None => {
                    return None;
                },
                Some(step) => {
                    proof {
                        lemma_merged(m.v, group, group.len() as int);
                        crate::list::lemma_list_sequence(
                            remaining(
                                merged(group, group.len() as int),
                                common_divisor(m.divisor, group, group.len() as int),
                                m.delta,
                            ),
                        );
                    }
                    let ghost before = steps@;
                    steps.push(step);
                    assert(before + (seq![step] + group_steps(m, all, end as int)) =~= steps@
                        + group_steps(m, all, end as int));
                    begin = end;
                },
            }
        }
        assert(steps@ =~= group_steps(m, all, 0));
        Some((steps, weight))
    }
}

/// What is known of the result of determinizing.
pub open spec fn spec_determinize_properties(props: u64) -> u64 {
    K_ACCESSIBLE | (if props & K_ACCEPTOR != 0 {
        K_I_DETERMINISTIC | (props & (K_NO_I_EPSILONS | K_NO_O_EPSILONS))
    } else {
        0
    }) | (props & (K_ERROR | K_ACCEPTOR | K_ACYCLIC | K_INITIAL_ACYCLIC | K_CO_ACCESSIBLE
        | K_STRING)) | (if props & K_ACCESSIBLE != 0 {
        props & (K_I_EPSILONS | K_O_EPSILONS | K_CYCLIC)
    } else {
        0
    }) | (props & K_NO_I_EPSILONS)
}

/// What is known of the result of determinizing.
pub fn determinize_properties(props: u64) -> (out: u64)
    ensures
        out == spec_determinize_properties(props),
{
    let of_acceptor: u64 = if props & K_ACCEPTOR != 0 {
        K_I_DETERMINISTIC | (props & (K_NO_I_EPSILONS | K_NO_O_EPSILONS))
    } else {
        0
    };
    let of_accessible: u64 = if props & K_ACCESSIBLE != 0 {
        props & (K_I_EPSILONS | K_O_EPSILONS | K_CYCLIC)
    } else {
        0
    };
    K_ACCESSIBLE | of_acceptor | (props & (K_ERROR | K_ACCEPTOR | K_ACYCLIC | K_INITIAL_ACYCLIC
        | K_CO_ACCESSIBLE | K_STRING)) | of_accessible | (props & K_NO_I_EPSILONS)
}

/// The subset the result begins in: the input's start alone.
pub open spec fn start_subset<W: Weight>(start: usize) -> List<Member<W>> {
    list_of(seq![Member { state: start, weight: W::spec_one() }])
}

/// The machine `r` with the states it has, named and described as what determinizing
/// `v` leaves where `o` was.
pub open spec fn described<W: Weight>(v: FstV<W>, o: FstV<W>, r: FstV<W>) -> FstV<W> {
    FstV {
        start: r.start,
        states: r.states,
        props: set_bits(
            named_after(v, o).props,
            spec_determinize_properties(v.props & K_FST_PROPERTIES),
            K_FST_PROPERTIES,
        ),
        ..named_after(v, o)
    }
}

/// Whether `r` is what determinizing `v` leaves where `o` was.
pub open spec fn determinizes<W: Divide, D: CommonDivisor<W>>(
    m: DeterminizeModel<W, D>,
    o: FstV<W>,
    r: FstV<W>,
) -> bool {
    &&& r == described(m.v, o, r)
    &&& match m.v.start {
        None => r.start is None && r.n() == 0,
        Some(s) => unfolded::<W, List<Member<W>>, Determinizing<W, D>>(
            m,
            start_subset(s),
            true,
            r,
        ),
    }
}

/// Whether a subset is met whose weights leave the semiring, or more subsets than
/// `limit`.
pub open spec fn cannot_determinize<W: Divide, D: CommonDivisor<W>>(
    m: DeterminizeModel<W, D>,
    limit: Option<usize>,
) -> bool {
    &&& m.v.start is Some
    &&& meets_failure::<W, List<Member<W>>, Determinizing<W, D>>(m, start_subset(m.v.start->0))
        || meets_more::<W, List<Member<W>>, Determinizing<W, D>>(
        m,
        start_subset(m.v.start->0),
        limit,
    )
}

/// Builds the machine, and returns the subset of each of its states.
fn determinize_fsa_impl<W: Divide, D: CommonDivisor<W>>(
    ifst: &VectorFst<W>,
    ofst: &mut VectorFst<W>,
    divisor: &D,
    delta: &W::Delta,
    max_states: Option<usize>,
) -> (built: Result<Option<Table<List<Member<W>>>>, OpenFstError>)
    requires
        ifst@.wf(),
    ensures
        ({
            let m = DeterminizeModel { v: ifst@, divisor: *divisor, delta: *delta };
            match built {
                Ok(None) => ifst@.start is None && determinizes(m, old(ofst)@, final(ofst)@),
                Ok(Some(table)) => {
                    &&& ifst@.start is Some
                    &&& table.wf()
                    &&& final(ofst)@.start == Some(0usize)
                    &&& final(ofst)@ == described(ifst@, old(ofst)@, final(ofst)@)
                    &&& is_unfolding::<W, List<Member<W>>, Determinizing<W, D>>(
                        m,
                        start_subset(ifst@.start->0),
                        true,
                        table@,
                        final(ofst)@.states,
                    )
                    &&& within(final(ofst)@.states, max_states)
                },
                Err(e) => e is InvalidOperation && cannot_determinize(m, max_states),
            }
        }),
{
    ofst.delete_all_states();
    ofst.set_input_symbols(ifst.input_symbols());
    ofst.set_output_symbols(ifst.output_symbols());
    let ghost named = ofst@;
    proof {
        lemma_forget_forget(old(ofst)@);
        lemma_forget_forget(named);
        assert(named.states =~= Seq::empty());
        assert(named == named_after(ifst@, old(ofst)@));
    }
    let iprops: u64 = ifst.known_properties(K_FST_PROPERTIES);
    let props: u64 = determinize_properties(iprops);
    match ifst.start() {
        None => {
            ofst.set_properties(props, K_FST_PROPERTIES);
            Ok(None)
        },
        Some(istart) => {
            let mut initial: Vec<Member<W>> = Vec::new();
            initial.push(Member { state: istart, weight: W::one() });
            assert(initial@ =~= seq![Member { state: istart, weight: W::spec_one() }]);
            let start = List::from_vec(&initial);
            let mut determinizing = Determinizing { ifst, divisor, delta: *delta };
            match unfold(&mut determinizing, start, true, max_states, ofst) {
                None => Err(
                    OpenFstError::InvalidOperation(
                        "Determinize: a weight left the semiring, or the limit on states was passed and the machine may not be determinizable",
                    ),
                ),
                Some(table) => {
                    ofst.set_properties(props, K_FST_PROPERTIES);
                    Ok(Some(table))
                },
            }
        },
    }
}

/// Determinizes an acceptor.
///
/// The arc weight is divided back out of the subset, from the left.
pub fn determinize_fsa<W: Divide, D: CommonDivisor<W>>(
    ifst: &VectorFst<W>,
    ofst: &mut VectorFst<W>,
    divisor: &D,
    delta: &W::Delta,
    max_states: Option<usize>,
) -> (result: Result<(), OpenFstError>)
    requires
        ifst@.wf(),
    ensures
        ({
            let m = DeterminizeModel { v: ifst@, divisor: *divisor, delta: *delta };
            match result {
                Ok(_) => determinizes(m, old(ofst)@, final(ofst)@) && within(
                    final(ofst)@.states,
                    max_states,
                ),
                Err(e) => e is InvalidOperation && cannot_determinize(m, max_states),
            }
        }),
{
    match determinize_fsa_impl(ifst, ofst, divisor, delta, max_states) {
        Ok(_) => Ok(()),
        Err(e) => Err(e),
    }
}

/// How far the first `k` members of a subset are from the final states, given how
/// far each state of the input is. A state past the end cannot reach one.
pub open spec fn subset_distance<W: Weight>(
    subset: Seq<Member<W>>,
    to_final: Seq<W>,
    k: int,
) -> W
    decreases k,
{
    if k <= 0 {
        W::spec_zero()
    } else {
        let state = subset[k - 1].state as int;
        subset_distance(subset, to_final, k - 1).spec_plus(
            subset[k - 1].weight.spec_times(
                if state < to_final.len() {
                    to_final[state]
                } else {
                    W::spec_zero()
                },
            ),
        )
    }
}

/// How far a subset is from the final states.
fn distance_of<W: Weight>(subset: &List<Member<W>>, to_final: &Vec<W>) -> (out: W)
    ensures
        out == subset_distance(sequence(*subset), to_final@, sequence(*subset).len() as int),
{
    let members = subset.to_vec();
    let mut out = W::zero();
    let mut k: usize = 0;
    while k < members.len()
        invariant
            k <= members@.len(),
            out == subset_distance(members@, to_final@, k as int),
        decreases members@.len() - k,
    {
        let state: usize = members[k].state;
        let more = if state < to_final.len() {
            members[k].weight.times(&to_final[state])
        } else {
            members[k].weight.times(&W::zero())
        };
        out = out.plus(&more);
        k = k + 1;
    }
    out
}

/// Whether `out` holds, for each subset, how far it is from the final states.
pub open spec fn are_distances<W: Weight>(
    table: Seq<List<Member<W>>>,
    to_final: Seq<W>,
    out: Seq<W>,
) -> bool {
    &&& out.len() == table.len()
    &&& forall|i: int|
        0 <= i < out.len() ==> #[trigger] out[i] == subset_distance(
            sequence(table[i]),
            to_final,
            sequence(table[i]).len() as int,
        )
}

/// Determinizes an acceptor, reporting how far each state of the result is from the
/// final states.
///
/// `in_dist[q]` is that distance for state `q` of the input; `out_dist` is filled
/// with it for each state of the result.
pub fn determinize_fsa_with_distance<W: Divide, D: CommonDivisor<W>>(
    ifst: &VectorFst<W>,
    ofst: &mut VectorFst<W>,
    divisor: &D,
    delta: &W::Delta,
    max_states: Option<usize>,
    in_dist: &Vec<W>,
    out_dist: &mut Vec<W>,
) -> (result: Result<(), OpenFstError>)
    requires
        ifst@.wf(),
    ensures
        ({
            let m = DeterminizeModel { v: ifst@, divisor: *divisor, delta: *delta };
            match result {
                Ok(_) => {
                    &&& determinizes(m, old(ofst)@, final(ofst)@)
                    &&& within(final(ofst)@.states, max_states)
                    &&& match ifst@.start {
                        None => final(out_dist)@.len() == 0,
                        Some(s) => exists|table: Seq<List<Member<W>>>|
                            {
                                &&& #[trigger] is_unfolding::<
                                    W,
                                    List<Member<W>>,
                                    Determinizing<W, D>,
                                >(m, start_subset(s), true, table, final(ofst)@.states)
                                &&& are_distances(table, in_dist@, final(out_dist)@)
                            },
                    }
                },
                Err(e) => e is InvalidOperation && cannot_determinize(m, max_states),
            }
        }),
{
    out_dist.clear();
    match determinize_fsa_impl(ifst, ofst, divisor, delta, max_states) {
        Err(e) => Err(e),
        Ok(None) => Ok(()),
        Ok(Some(table)) => {
            let n: usize = table.len();
            let mut i: usize = 0;
            while i < n
                invariant
                    i <= n,
                    n == table@.len(),
                    table.wf(),
                    are_distances(table@.take(i as int), in_dist@, out_dist@),
                decreases n - i,
            {
                let ghost before = out_dist@;
                out_dist.push(distance_of(table.get(i), in_dist));
                i = i + 1;
                assert forall|j: int| 0 <= j < i implies #[trigger] out_dist@[j]
                    == subset_distance(
                    sequence(table@.take(i as int)[j]),
                    in_dist@,
                    sequence(table@.take(i as int)[j]).len() as int,
                ) by {
                    if j < i - 1 {
                        assert(out_dist@[j] == before[j]);
                        assert(table@.take(i as int)[j] == table@.take(i - 1)[j]);
                    }
                }
            }
            assert(table@.take(n as int) =~= table@);
            Ok(())
        },
    }
}

/// The machine with the labels it writes moved into its weights.
pub open spec fn gallic<W: Weight>(v: FstV<W>) -> FstV<GallicWeight<W, GALLIC_RESTRICT>> {
    map_into::<W, GallicWeight<W, GALLIC_RESTRICT>, ToGallicMapper<GALLIC_RESTRICT>>(
        (),
        v,
        FstV::empty(),
    )
}

/// How to determinize the machine with its labels in its weights.
pub open spec fn gallic_model<W: Weight>(v: FstV<W>, delta: W::Delta) -> DeterminizeModel<
    GallicWeight<W, GALLIC_RESTRICT>,
    GallicCommonDivisor<DefaultCommonDivisor>,
> {
    DeterminizeModel {
        v: gallic(v),
        divisor: GallicCommonDivisor { weights: DefaultCommonDivisor },
        delta,
    }
}

/// How to split the strings that are left over at the end of a path.
pub open spec fn leftover_options<D>(opts: DeterminizeOptions<D>) -> FactorWeightOptions<D> {
    FactorWeightOptions {
        delta: opts.delta,
        mode: FINAL_WEIGHTS,
        final_ilabel: opts.subsequential_label,
        final_olabel: opts.subsequential_label,
        increment_final_ilabel: opts.increment_subsequential_label,
        increment_final_olabel: opts.increment_subsequential_label,
    }
}

/// Whether `f` is what determinizing `v` through its gallic form comes to, before the
/// labels are moved back out of the weights.
pub open spec fn determinized_gallic<W: Divide>(
    v: FstV<W>,
    opts: DeterminizeOptions<W::Delta>,
    f: FstV<GallicWeight<W, GALLIC_RESTRICT>>,
) -> bool {
    exists|d: FstV<GallicWeight<W, GALLIC_RESTRICT>>|
        {
            &&& determinizes(gallic_model(v, opts.delta), FstV::empty(), d)
            &&& within(d.states, opts.max_states)
            &&& #[trigger] factors::<
                GallicWeight<W, GALLIC_RESTRICT>,
                GallicFactor<W, GALLIC_RESTRICT>,
            >(leftover_options(opts), d, FstV::empty(), f)
        }
}

/// Whether the labels can be moved back out of the weights of `f`.
pub open spec fn comes_back<W: Weight>(
    label: i32,
    f: FstV<GallicWeight<W, GALLIC_RESTRICT>>,
) -> bool {
    f.n() < usize::MAX && (f.start is Some ==> {
        let r = map_all::<
            GallicWeight<W, GALLIC_RESTRICT>,
            W,
            FromGallicMapper<GALLIC_RESTRICT>,
        >((label, false), f);
        r.failed is None && !r.model.1
    })
}

/// What moving the labels of `f` back out of its weights leaves where `o` was.
pub open spec fn brought_back<W: Weight>(
    label: i32,
    f: FstV<GallicWeight<W, GALLIC_RESTRICT>>,
    v: FstV<W>,
    o: FstV<W>,
) -> FstV<W> {
    FstV {
        isymbols: v.isymbols,
        osymbols: v.osymbols,
        ..map_into::<GallicWeight<W, GALLIC_RESTRICT>, W, FromGallicMapper<GALLIC_RESTRICT>>(
            (label, false),
            f,
            o,
        )
    }
}

/// Determinizes a weighted transducer.
///
/// An acceptor is determinized directly. A transducer is turned into an acceptor over
/// the gallic semiring, where the output labels ride along in the weight,
/// determinized there, and turned back; the leftover output that could not be
/// committed becomes an arc labelled `subsequential_label`.
///
/// The transducer has to be functional: one input string, at most one output.
pub fn determinize<W: Divide>(
    ifst: &VectorFst<W>,
    ofst: &mut VectorFst<W>,
    opts: &DeterminizeOptions<W::Delta>,
) -> (result: Result<(), OpenFstError>)
    requires
        ifst@.wf(),
        ifst@.n() < usize::MAX,
    ensures
        result matches Err(e) ==> e is InvalidOperation,
        opts.det_type != DeterminizeType::Functional ==> result is Err && final(ofst)@ == old(
            ofst,
        )@,
        opts.det_type == DeterminizeType::Functional && said_acceptor(ifst@) ==> {
            let m = DeterminizeModel { v: ifst@, divisor: DefaultCommonDivisor, delta: opts.delta };
            match result {
                Ok(_) => determinizes(m, old(ofst)@, final(ofst)@) && within(
                    final(ofst)@.states,
                    opts.max_states,
                ),
                Err(_) => cannot_determinize(m, opts.max_states),
            }
        },
        opts.det_type == DeterminizeType::Functional && !said_acceptor(ifst@) ==> {
            let label = opts.subsequential_label;
            match result {
                Ok(_) => exists|f: FstV<GallicWeight<W, GALLIC_RESTRICT>>|
                    {
                        &&& #[trigger] determinized_gallic(ifst@, *opts, f)
                        &&& comes_back(label, f)
                        &&& final(ofst)@ == brought_back(label, f, ifst@, old(ofst)@)
                    },
                Err(_) => cannot_determinize(gallic_model(ifst@, opts.delta), opts.max_states)
                    || exists|f: FstV<GallicWeight<W, GALLIC_RESTRICT>>|
                    {
                        &&& #[trigger] determinized_gallic(ifst@, *opts, f)
                        &&& !comes_back(label, f)
                    },
            }
        },
{
    if opts.det_type != DeterminizeType::Functional {
        return Err(
            OpenFstError::InvalidOperation("Determinize: this reading is not implemented"),
        );
    }
    if acceptor(ifst) {
        return determinize_fsa(ifst, ofst, &DefaultCommonDivisor, &opts.delta, opts.max_states);
    }
    // The output labels travel in the weight, so that determinizing the input side
    // carries them along.
    let mut gfst: VectorFst<GallicWeight<W, GALLIC_RESTRICT>> = VectorFst::new();
    let mut mapper = ToGallicMapper::<GALLIC_RESTRICT>::new();
    let ghost to = map_all::<
        W,
        GallicWeight<W, GALLIC_RESTRICT>,
        ToGallicMapper<GALLIC_RESTRICT>,
    >((), ifst@);
    proof {
        lemma_adds_no_state::<
            W,
            GallicWeight<W, GALLIC_RESTRICT>,
            ToGallicMapper<GALLIC_RESTRICT>,
        >((), ifst@.states, ifst@.n() as usize, ifst@.n() as int);
        lemma_map_into_wf::<
            W,
            GallicWeight<W, GALLIC_RESTRICT>,
            ToGallicMapper<GALLIC_RESTRICT>,
        >((), ifst@, FstV::empty());
    }
    if let Err(e) = arc_map_to(ifst, &mut gfst, &mut mapper) {
        return Err(e);
    }
    let mut determinized: VectorFst<GallicWeight<W, GALLIC_RESTRICT>> = VectorFst::new();
    let divisor = GallicCommonDivisor { weights: DefaultCommonDivisor };
    if let Err(e) = determinize_fsa(
        &gfst,
        &mut determinized,
        &divisor,
        &opts.delta,
        opts.max_states,
    ) {
        return Err(e);
    }
    // A weight may now carry several output labels, which one arc cannot hold.
    let mut factored: VectorFst<GallicWeight<W, GALLIC_RESTRICT>> = VectorFst::new();
    let split = FactorWeightOptions {
        delta: opts.delta,
        mode: FINAL_WEIGHTS,
        final_ilabel: opts.subsequential_label,
        final_olabel: opts.subsequential_label,
        increment_final_ilabel: opts.increment_subsequential_label,
        increment_final_olabel: opts.increment_subsequential_label,
    };
    proof {
        lemma_determinizes_wf(gallic_model(ifst@, opts.delta), FstV::empty(), determinized@);
    }
    factor_weight(&determinized, &mut factored, GallicFactor::new, &split);
    let ghost f = factored@;
    proof {
        lemma_factored_wf::<GallicWeight<W, GALLIC_RESTRICT>, GallicFactor<W, GALLIC_RESTRICT>>(
            split,
            determinized@,
            FstV::empty(),
            f,
        );
        assert(split == leftover_options(*opts));
        assert(within(determinized@.states, opts.max_states));
        assert(factors::<GallicWeight<W, GALLIC_RESTRICT>, GallicFactor<W, GALLIC_RESTRICT>>(
            leftover_options(*opts),
            determinized@,
            FstV::empty(),
            f,
        ));
        assert(determinizes(gallic_model(ifst@, opts.delta), FstV::empty(), determinized@));
        assert(determinized_gallic(ifst@, *opts, f));
    }
    if factored.num_states() == usize::MAX {
        return Err(OpenFstError::InvalidOperation("Determinize: too many states"));
    }
    let mut back = FromGallicMapper::<GALLIC_RESTRICT>::with_superfinal_label(
        opts.subsequential_label,
    );
    if let Err(e) = arc_map_to(&factored, ofst, &mut back) {
        return Err(e);
    }
    if back.error() {
        return Err(
            OpenFstError::InvalidOperation(
                "Determinize: a weight came out that no single arc can carry",
            ),
        );
    }
    ofst.set_input_symbols(ifst.input_symbols());
    ofst.set_output_symbols(ifst.output_symbols());
    Ok(())
}

/// Determinizing leaves a machine in order.
pub proof fn lemma_determinizes_wf<W: Divide, D: CommonDivisor<W>>(
    m: DeterminizeModel<W, D>,
    o: FstV<W>,
    r: FstV<W>,
)
    requires
        determinizes(m, o, r),
    ensures
        r.wf(),
{
    if let Some(s) = m.v.start {
        lemma_unfolded_wf::<W, List<Member<W>>, Determinizing<W, D>>(m, start_subset(s), true, r);
    }
}

/// Whether one label is read from `begin` up to `end`, and neither before nor after.
pub open spec fn is_group<W>(all: Seq<Transition<W>>, begin: int, end: int) -> bool {
    &&& 0 <= begin < end <= all.len()
    &&& forall|i: int| begin <= i < end ==> (#[trigger] all[i]).label == all[begin].label
    &&& begin > 0 ==> all[begin - 1].label != all[begin].label
    &&& end < all.len() ==> all[end].label != all[begin].label
}

pub proof fn lemma_group_holds_label<W>(all: Seq<Transition<W>>, begin: int, end: int, j: int)
    requires
        is_ranked(all),
        is_group(all, begin, end),
        0 <= j < all.len(),
        all[j].label == all[begin].label,
    ensures
        begin <= j < end,
{
    if j < begin {
        assert(!crate::sort::lower(all[begin - 1].rank(), all[j].rank()) || j == begin - 1);
        assert(!crate::sort::lower(all[begin].rank(), all[begin - 1].rank()));
    }
    if j >= end {
        assert(!crate::sort::lower(all[end].rank(), all[end - 1].rank()));
        assert(all[end - 1].label == all[begin].label);
        assert(!crate::sort::lower(all[j].rank(), all[end].rank()) || j == end);
    }
}

/// Whether some arc reads `label`.
pub open spec fn label_read<W: Weight>(steps: Seq<Step<W, List<Member<W>>>>, label: i32) -> bool {
    exists|i: int| 0 <= i < steps.len() && (#[trigger] steps[i]).ilabel == label
}

/// The groups that the arcs come from.
pub proof fn lemma_group_steps<W: Divide, D: CommonDivisor<W>>(
    m: DeterminizeModel<W, D>,
    all: Seq<Transition<W>>,
    begin: int,
)
    requires
        0 <= begin <= all.len(),
        0 < begin < all.len() ==> all[begin - 1].label != all[begin].label,
    ensures
        forall|i: int|
            0 <= i < group_steps(m, all, begin).len() ==> from_group(
                m,
                all,
                begin,
                #[trigger] group_steps(m, all, begin)[i],
            ),
    decreases all.len() - begin,
{
    if begin < all.len() {
        lemma_group_end(all, begin, begin + 1);
        let end = group_end(all, begin, begin + 1);
        assert(is_group(all, begin, end));
        assert(all[end - 1].label == all[begin].label);
        lemma_group_steps(m, all, end);
        let steps = group_steps(m, all, begin);
        let rest = group_steps(m, all, end);
        let first = group_step(m, all.subrange(begin, end));
        assert(steps == seq![first] + rest);
        assert(from_group(m, all, begin, first));
        assert forall|i: int| 0 <= i < steps.len() implies from_group(
            m,
            all,
            begin,
            #[trigger] steps[i],
        ) by {
            if i > 0 {
                assert(steps[i] == rest[i - 1]);
                assert(from_group(m, all, end, rest[i - 1]));
            }
        }
    }
}

/// Every label is read by some arc.
proof fn lemma_labels_read<W: Divide, D: CommonDivisor<W>>(
    m: DeterminizeModel<W, D>,
    all: Seq<Transition<W>>,
    begin: int,
    j: int,
)
    requires
        0 <= begin <= j < all.len(),
    ensures
        label_read(group_steps(m, all, begin), all[j].label),
    decreases all.len() - begin,
{
    lemma_group_end(all, begin, begin + 1);
    let end = group_end(all, begin, begin + 1);
    let steps = group_steps(m, all, begin);
    let rest = group_steps(m, all, end);
    let group = all.subrange(begin, end);
    assert(steps == seq![group_step(m, group)] + rest);
    if j < end {
        assert(group[0] == all[begin]);
        assert(steps[0].ilabel == all[j].label);
    } else {
        lemma_labels_read(m, all, end, j);
        let i = choose|i: int| 0 <= i < rest.len() && (#[trigger] rest[i]).ilabel == all[j].label;
        assert(steps[i + 1] == rest[i]);
    }
}

/// The arcs read labels in ascending order.
pub proof fn lemma_labels_ascend<W: Divide, D: CommonDivisor<W>>(
    m: DeterminizeModel<W, D>,
    all: Seq<Transition<W>>,
    begin: int,
    i: int,
    j: int,
)
    requires
        is_ranked(all),
        0 <= begin <= all.len(),
        0 < begin < all.len() ==> all[begin - 1].label != all[begin].label,
        0 <= i < j < group_steps(m, all, begin).len(),
    ensures
        group_steps(m, all, begin)[i].ilabel < group_steps(m, all, begin)[j].ilabel,
    decreases all.len() - begin,
{
    lemma_group_end(all, begin, begin + 1);
    let end = group_end(all, begin, begin + 1);
    assert(is_group(all, begin, end));
    assert(all[end - 1].label == all[begin].label);
    let steps = group_steps(m, all, begin);
    let rest = group_steps(m, all, end);
    let group = all.subrange(begin, end);
    let first = group_step(m, group);
    assert(steps == seq![first] + rest);
    assert(steps[j] == rest[j - 1]);
    if i > 0 {
        assert(steps[i] == rest[i - 1]);
        lemma_labels_ascend(m, all, end, i - 1, j - 1);
    } else {
        lemma_group_steps(m, all, end);
        assert(from_group(m, all, end, rest[j - 1]));
        let (b, e) = choose|b: int, e: int|
            end <= b && #[trigger] is_group(all, b, e) && rest[j - 1] == group_step(
                m,
                all.subrange(b, e),
            );
        assert(all.subrange(b, e)[0] == all[b]);
        assert(group[0] == all[begin]);
        assert(!crate::sort::lower(all[b].rank(), all[begin].rank()));
        if all[b].label == all[begin].label {
            lemma_group_holds_label(all, begin, end, b);
        }
    }
}

/// Whether an arc is what some group from `begin` on becomes.
pub open spec fn from_group<W: Divide, D: CommonDivisor<W>>(
    m: DeterminizeModel<W, D>,
    all: Seq<Transition<W>>,
    begin: int,
    step: Step<W, List<Member<W>>>,
) -> bool {
    exists|b: int, e: int|
        begin <= b && #[trigger] is_group(all, b, e) && step == group_step(m, all.subrange(b, e))
}

/// The result reads no label in two ways: the arcs of each state read labels in
/// ascending order, each once, and write what they read.
pub proof fn law_determinized_reads_once<W: Divide, D: CommonDivisor<W>>(
    m: DeterminizeModel<W, D>,
    o: FstV<W>,
    r: FstV<W>,
    s: int,
    i: int,
    j: int,
)
    requires
        determinizes(m, o, r),
        0 <= s < r.n(),
        0 <= i <= j < r.arcs(s).len(),
    ensures
        i < j ==> r.arcs(s)[i].ilabel < r.arcs(s)[j].ilabel,
        r.arcs(s)[i].olabel == r.arcs(s)[i].ilabel,
{
    let start = start_subset::<W>(m.v.start->0);
    let table = choose|table: Seq<List<Member<W>>>| #[trigger]
        is_unfolding::<W, List<Member<W>>, Determinizing<W, D>>(m, start, true, table, r.states);
    assert(unfolds::<W, List<Member<W>>, Determinizing<W, D>>(m, table[s], r.states[s], table));
    let all = subset_ways(m.v, table[s]);
    let steps = group_steps(m, all, 0);
    let members = sequence(table[s]);
    law_ranked(subset_transitions(m.v, members, members.len() as int));
    lemma_group_steps(m, all, 0);
    if i < j {
        lemma_labels_ascend(m, all, 0, i, j);
    }
    assert(numbered(steps[i], r.arcs(s)[i], table));
    assert(numbered(steps[j], r.arcs(s)[j], table));
    assert(from_group(m, all, 0, steps[i]));
}

/// Whether a state is a member of a subset.
pub open spec fn holds<W>(members: Seq<Member<W>>, t: int) -> bool {
    exists|i: int| 0 <= i < members.len() && (#[trigger] members[i]).state == t
}

/// Whether some way reads `label` and leads to `t`.
pub open spec fn has_way<W>(ways: Seq<Transition<W>>, label: i32, t: int) -> bool {
    exists|i: int| 0 <= i < ways.len() && (#[trigger] ways[i]).label == label && ways[i].to == t
}

/// Whether some arc of a state reads `label` and leads to `t`.
pub open spec fn arc_reads<W>(arcs: Seq<Arc<W>>, label: i32, t: int) -> bool {
    exists|j: int|
        0 <= j < arcs.len() && (#[trigger] arcs[j]).ilabel == label && arcs[j].nextstate == t
}

proof fn lemma_member_ways<W: Weight>(weight: W, arcs: Seq<Arc<W>>, k: int, label: i32, t: int)
    requires
        0 <= k <= arcs.len(),
    ensures
        has_way(member_transitions(weight, arcs, k), label, t) <==> arc_reads(
            arcs.take(k),
            label,
            t,
        ),
        member_transitions(weight, arcs, k).len() == k,
    decreases k,
{
    if k > 0 {
        lemma_member_ways(weight, arcs, k - 1, label, t);
        let before = member_transitions(weight, arcs, k - 1);
        let ways = member_transitions(weight, arcs, k);
        assert(forall|i: int| 0 <= i < k - 1 ==> ways[i] == before[i]);
        assert(forall|i: int| 0 <= i < k - 1 ==> arcs.take(k)[i] == arcs.take(k - 1)[i]);
        if has_way(before, label, t) {
            let i = choose|i: int|
                0 <= i < before.len() && (#[trigger] before[i]).label == label && before[i].to == t;
            assert(ways[i].label == label);
            let j = choose|j: int|
                0 <= j < arcs.take(k - 1).len() && (#[trigger] arcs.take(k - 1)[j]).ilabel == label
                    && arcs.take(k - 1)[j].nextstate == t;
            assert(arcs.take(k)[j].ilabel == label);
        }
        if arcs[k - 1].ilabel == label && arcs[k - 1].nextstate == t {
            assert(ways[k - 1].label == label);
            assert(arcs.take(k)[k - 1].ilabel == label);
        }
        if has_way(ways, label, t) {
            let i = choose|i: int|
                0 <= i < ways.len() && (#[trigger] ways[i]).label == label && ways[i].to == t;
            if i < k - 1 {
                assert(before[i].label == label);
            }
        }
        if arc_reads(arcs.take(k), label, t) {
            let j = choose|j: int|
                0 <= j < k && (#[trigger] arcs.take(k)[j]).ilabel == label && arcs.take(
                    k,
                )[j].nextstate == t;
            if j < k - 1 {
                assert(arcs.take(k - 1)[j].ilabel == label);
            }
        }
    }
}

/// Whether some member has an arc that reads `label` and leads to `t`.
pub open spec fn subset_reads<W: Weight>(
    v: FstV<W>,
    members: Seq<Member<W>>,
    label: i32,
    t: int,
) -> bool {
    exists|i: int|
        0 <= i < members.len() && arc_reads(
            v.arcs((#[trigger] members[i]).state as int),
            label,
            t,
        )
}

pub proof fn lemma_subset_ways<W: Weight>(
    v: FstV<W>,
    members: Seq<Member<W>>,
    k: int,
    label: i32,
    t: int,
)
    requires
        0 <= k <= members.len(),
    ensures
        has_way(subset_transitions(v, members, k), label, t) <==> subset_reads(
            v,
            members.take(k),
            label,
            t,
        ),
    decreases k,
{
    if k > 0 {
        lemma_subset_ways(v, members, k - 1, label, t);
        let before = subset_transitions(v, members, k - 1);
        let arcs = v.arcs(members[k - 1].state as int);
        let more = member_transitions(members[k - 1].weight, arcs, arcs.len() as int);
        let ways = subset_transitions(v, members, k);
        lemma_member_ways(members[k - 1].weight, arcs, arcs.len() as int, label, t);
        assert(arcs.take(arcs.len() as int) =~= arcs);
        assert(members.take(k) =~= members.take(k - 1).push(members[k - 1]));
        if has_way(ways, label, t) {
            let i = choose|i: int|
                0 <= i < ways.len() && (#[trigger] ways[i]).label == label && ways[i].to == t;
            if i < before.len() {
                assert(before[i].label == label);
                let x = choose|x: int|
                    0 <= x < k - 1 && arc_reads(
                        v.arcs((#[trigger] members.take(k - 1)[x]).state as int),
                        label,
                        t,
                    );
                assert(members.take(k)[x] == members.take(k - 1)[x]);
            } else {
                assert(more[i - before.len()].label == label);
                assert(members.take(k)[k - 1] == members[k - 1]);
            }
        }
        if subset_reads(v, members.take(k), label, t) {
            let x = choose|x: int|
                0 <= x < k && arc_reads(
                    v.arcs((#[trigger] members.take(k)[x]).state as int),
                    label,
                    t,
                );
            if x < k - 1 {
                assert(members.take(k - 1)[x] == members.take(k)[x]);
                let i = choose|i: int|
                    0 <= i < before.len() && (#[trigger] before[i]).label == label && before[i].to
                        == t;
                assert(ways[i] == before[i]);
            } else {
                let i = choose|i: int|
                    0 <= i < more.len() && (#[trigger] more[i]).label == label && more[i].to == t;
                assert(ways[before.len() + i] == more[i]);
            }
        }
    }
}

pub proof fn lemma_merged_holds<W: Weight>(group: Seq<Transition<W>>, k: int, t: int)
    requires
        0 <= k <= group.len(),
    ensures
        holds(merged(group, k), t) <==> exists|i: int| 0 <= i < k && (#[trigger] group[i]).to == t,
    decreases k,
{
    if k > 0 {
        lemma_merged_holds(group, k - 1, t);
        let before = merged(group, k - 1);
        let after = merged(group, k);
        let n = before.len() as int;
        let next = group[k - 1];
        assert(forall|i: int| 0 <= i < n ==> (#[trigger] after[i]).state == before[i].state);
        if holds(before, t) {
            let i = choose|i: int| 0 <= i < n && (#[trigger] before[i]).state == t;
            assert(after[i].state == t);
        }
        if next.to == t {
            assert(after[after.len() - 1].state == t);
        }
        if holds(after, t) {
            let i = choose|i: int| 0 <= i < after.len() && (#[trigger] after[i]).state == t;
            if i < n {
                assert(before[i].state == t);
            } else {
                assert(group[k - 1].to == t);
            }
        }
    }
}

/// The arc of a subset that reads a label leads to the subset of all states that the
/// members' arcs reading that label lead to.
pub proof fn law_step_gathers<W: Divide, D: CommonDivisor<W>>(
    m: DeterminizeModel<W, D>,
    key: List<Member<W>>,
    i: int,
    t: int,
)
    requires
        0 <= i < group_steps(m, subset_ways(m.v, key), 0).len(),
    ensures
        ({
            let step = group_steps(m, subset_ways(m.v, key), 0)[i];
            holds(sequence(step.to), t) <==> subset_reads(m.v, sequence(key), step.ilabel, t)
        }),
{
    let members = sequence(key);
    let from = subset_transitions(m.v, members, members.len() as int);
    let all = subset_ways(m.v, key);
    let steps = group_steps(m, all, 0);
    law_ranked(from);
    lemma_group_steps(m, all, 0);
    let step = steps[i];
    assert(from_group(m, all, 0, step));
    let (b, e) = choose|b: int, e: int|
        0 <= b && #[trigger] is_group(all, b, e) && step == group_step(m, all.subrange(b, e));
    let group = all.subrange(b, e);
    let label = step.ilabel;
    assert(group[0] == all[b]);
    lemma_merged_holds(group, group.len() as int, t);
    lemma_subset_ways(m.v, members, members.len() as int, label, t);
    assert(members.take(members.len() as int) =~= members);
    let taken = common_divisor(m.divisor, group, group.len() as int);
    let kept = merged(group, group.len() as int);
    let rest = remaining(kept, taken, m.delta);
    crate::list::lemma_list_sequence(rest);
    assert(forall|x: int| 0 <= x < kept.len() ==> (#[trigger] rest[x]).state == kept[x].state);
    if holds(rest, t) {
        let x = choose|x: int| 0 <= x < rest.len() && (#[trigger] rest[x]).state == t;
        assert(kept[x].state == t);
        let g = choose|g: int| 0 <= g < group.len() && (#[trigger] group[g]).to == t;
        assert(group[g] == all[b + g]);
        let f = lemma_ranked_from(from, b + g);
        assert(from[f].label == label);
        assert(has_way(from, label, t));
    }
    if has_way(from, label, t) {
        let f = choose|f: int|
            0 <= f < from.len() && (#[trigger] from[f]).label == label && from[f].to == t;
        let g = lemma_ranked_to(from, f);
        lemma_group_holds_label(all, b, e, g);
        assert(group[g - b].to == t);
        let x = choose|x: int| 0 <= x < kept.len() && (#[trigger] kept[x]).state == t;
        assert(rest[x].state == t);
    }
}

/// A subset has an arc for every label that one of its members has an arc for.
pub proof fn law_every_label_has_a_step<W: Divide, D: CommonDivisor<W>>(
    m: DeterminizeModel<W, D>,
    key: List<Member<W>>,
    label: i32,
    t: int,
) -> (i: int)
    requires
        subset_reads(m.v, sequence(key), label, t),
    ensures
        0 <= i < group_steps(m, subset_ways(m.v, key), 0).len(),
        group_steps(m, subset_ways(m.v, key), 0)[i].ilabel == label,
{
    let members = sequence(key);
    let from = subset_transitions(m.v, members, members.len() as int);
    let all = subset_ways(m.v, key);
    law_ranked(from);
    lemma_subset_ways(m.v, members, members.len() as int, label, t);
    assert(members.take(members.len() as int) =~= members);
    let f = choose|f: int|
        0 <= f < from.len() && (#[trigger] from[f]).label == label && from[f].to == t;
    let g = lemma_ranked_to(from, f);
    let steps = group_steps(m, all, 0);
    lemma_labels_read(m, all, 0, g);
    choose|i: int| 0 <= i < steps.len() && (#[trigger] steps[i]).ilabel == all[g].label
}

/// Whether reading `string`, epsilons and all, leads from `s` to `t`.
pub open spec fn reads_to<W: Weight>(v: FstV<W>, s: int, string: Seq<i32>, t: int) -> bool
    decreases string.len(),
{
    if string.len() == 0 {
        s == t
    } else {
        exists|q: int|
            0 <= q < v.n() && reads_to(v, s, string.drop_last(), q) && #[trigger] arc_reads(
                v.arcs(q),
                string.last(),
                t,
            )
    }
}

/// Whether reading `string` leads `r` to a state that stands for `t`.
pub open spec fn stands_for<W: Weight>(
    r: FstV<W>,
    table: Seq<List<Member<W>>>,
    string: Seq<i32>,
    t: int,
) -> bool {
    exists|q: int|
        0 <= q < r.n() && #[trigger] reads_to(r, 0, string, q) && holds(sequence(table[q]), t)
}

/// A string leads the result to a state that stands for `t` if and only if it leads
/// the input to `t`: what the result can read is what the input can read.
pub proof fn law_determinized_reads_the_same<W: Divide, D: CommonDivisor<W>>(
    m: DeterminizeModel<W, D>,
    table: Seq<List<Member<W>>>,
    r: FstV<W>,
    string: Seq<i32>,
    t: int,
)
    requires
        m.v.wf(),
        m.v.start is Some,
        is_unfolding::<W, List<Member<W>>, Determinizing<W, D>>(
            m,
            start_subset(m.v.start->0),
            true,
            table,
            r.states,
        ),
    ensures
        stands_for(r, table, string, t) <==> reads_to(m.v, m.v.start->0 as int, string, t),
    decreases string.len(),
{
    let start = m.v.start->0;
    if string.len() == 0 {
        let only = seq![Member { state: start, weight: W::spec_one() }];
        crate::list::lemma_list_sequence(only);
        assert(sequence(table[0]) == only);
        if stands_for(r, table, string, t) {
            assert(holds(only, t));
        }
        if t == start {
            assert(only[0].state == t);
            assert(reads_to(r, 0, string, 0));
        }
    } else {
        let before = string.drop_last();
        let label = string.last();
        if stands_for(r, table, string, t) {
            let q = choose|q: int|
                0 <= q < r.n() && #[trigger] reads_to(r, 0, string, q) && holds(
                    sequence(table[q]),
                    t,
                );
            let p = choose|p: int|
                0 <= p < r.n() && reads_to(r, 0, before, p) && #[trigger] arc_reads(
                    r.arcs(p),
                    label,
                    q,
                );
            let j = choose|j: int|
                0 <= j < r.arcs(p).len() && (#[trigger] r.arcs(p)[j]).ilabel == label && r.arcs(
                    p,
                )[j].nextstate == q;
            assert(unfolds::<W, List<Member<W>>, Determinizing<W, D>>(
                m,
                table[p],
                r.states[p],
                table,
            ));
            let steps = group_steps(m, subset_ways(m.v, table[p]), 0);
            assert(numbered(steps[j], r.arcs(p)[j], table));
            law_step_gathers(m, table[p], j, t);
            let members = sequence(table[p]);
            let x = choose|x: int|
                0 <= x < members.len() && arc_reads(
                    m.v.arcs((#[trigger] members[x]).state as int),
                    label,
                    t,
                );
            let s = members[x].state as int;
            assert(holds(members, s));
            assert(stands_for(r, table, before, s));
            law_determinized_reads_the_same(m, table, r, before, s);
            lemma_reads_within(m.v, start as int, before, s);
        }
        if reads_to(m.v, start as int, string, t) {
            let s = choose|s: int|
                0 <= s < m.v.n() && reads_to(m.v, start as int, before, s) && #[trigger] arc_reads(
                    m.v.arcs(s),
                    label,
                    t,
                );
            law_determinized_reads_the_same(m, table, r, before, s);
            let p = choose|p: int|
                0 <= p < r.n() && #[trigger] reads_to(r, 0, before, p) && holds(
                    sequence(table[p]),
                    s,
                );
            let members = sequence(table[p]);
            let x = choose|x: int| 0 <= x < members.len() && (#[trigger] members[x]).state == s;
            assert(subset_reads(m.v, members, label, t));
            let j = law_every_label_has_a_step(m, table[p], label, t);
            law_step_gathers(m, table[p], j, t);
            assert(unfolds::<W, List<Member<W>>, Determinizing<W, D>>(
                m,
                table[p],
                r.states[p],
                table,
            ));
            let steps = group_steps(m, subset_ways(m.v, table[p]), 0);
            assert(r.arcs(p).len() == steps.len());
            assert(numbered(steps[j], r.arcs(p)[j], table));
            let q = r.arcs(p)[j].nextstate as int;
            assert(arc_reads(r.arcs(p), label, q));
            assert(reads_to(r, 0, string, q));
        }
    }
}

pub proof fn lemma_reads_within<W: Weight>(v: FstV<W>, s: int, string: Seq<i32>, t: int)
    requires
        v.wf(),
        0 <= s < v.n(),
        reads_to(v, s, string, t),
    ensures
        0 <= t < v.n(),
{
    if string.len() > 0 {
        let q = choose|q: int|
            0 <= q < v.n() && reads_to(v, s, string.drop_last(), q) && #[trigger] arc_reads(
                v.arcs(q),
                string.last(),
                t,
            );
        let j = choose|j: int|
            0 <= j < v.arcs(q).len() && (#[trigger] v.arcs(q)[j]).ilabel == string.last() && v.arcs(
                q,
            )[j].nextstate == t;
        assert(v.states[q].arcs[j].nextstate < v.n());
    }
}

} // verus!
