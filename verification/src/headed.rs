//! Determinizing with the choices kept apart.
//!
//! Only states that could still agree are merged, and each state of the result
//! remembers which state of the input it came from: its head. The arcs of the result
//! are the arcs of the head, and a state of the input joins a destination subset only
//! if it is related to that destination's head.
use crate::arc::Arc;
use crate::common_future::is_related;
use crate::determinize::{
    common_divisor, lemma_merged, members_fit, merged, remaining, subset_final, ways_fit,
    DefaultCommonDivisor, Member, Transition,
};
use crate::error::OpenFstError;
use crate::hash_table::Table;
use crate::list::{list_of, sequence, List};
use crate::sort::{law_ranked, lemma_ranked_from, put_in_order, ranked};
use crate::unfold::{is_unfolding, meets_more, unfold, within, Step, Unfolding};
use crate::vector_fst::{lemma_forget_forget, named_after, FstV, VectorFst};
use crate::weight::{Divide, DivideType, Weight};
use vstd::prelude::*;

verus! {

/// A state of the result: the head, and the weighted subset.
pub type Headed<W> = (usize, List<Member<W>>);

/// What the first `k` arcs of a member bring to the destination with head `dest` by
/// reading `label`.
pub open spec fn member_joins<W: Weight>(
    v: FstV<W>,
    weight: W,
    arcs: Seq<Arc<W>>,
    label: i32,
    dest: usize,
    k: int,
) -> Seq<Transition<W>>
    decreases k,
{
    if k <= 0 {
        Seq::empty()
    } else {
        let before = member_joins(v, weight, arcs, label, dest, k - 1);
        let arc = arcs[k - 1];
        if arc.ilabel == label && is_related(v, arc.nextstate as int, dest as int) {
            before.push(
                Transition { label, to: arc.nextstate, weight: weight.spec_times(arc.weight) },
            )
        } else {
            before
        }
    }
}

/// What the first `k` members bring to the destination with head `dest` by reading
/// `label`.
pub open spec fn joins<W: Weight>(
    v: FstV<W>,
    subset: Seq<Member<W>>,
    label: i32,
    dest: usize,
    k: int,
) -> Seq<Transition<W>>
    decreases k,
{
    if k <= 0 {
        Seq::empty()
    } else {
        let arcs = v.arcs(subset[k - 1].state as int);
        joins(v, subset, label, dest, k - 1) + member_joins(
            v,
            subset[k - 1].weight,
            arcs,
            label,
            dest,
            arcs.len() as int,
        )
    }
}

/// The arc of the result that follows an arc of the head.
pub open spec fn headed_step<W: Divide>(
    v: FstV<W>,
    delta: W::Delta,
    subset: Seq<Member<W>>,
    label: i32,
    dest: usize,
) -> Step<W, Headed<W>> {
    let elements = ranked(joins(v, subset, label, dest, subset.len() as int));
    let taken = common_divisor(DefaultCommonDivisor, elements, elements.len() as int);
    Step {
        ilabel: label,
        olabel: label,
        weight: taken,
        to: (dest, list_of(remaining(merged(elements, elements.len() as int), taken, delta))),
    }
}

/// Whether an arc does what the one before it does: reads the same label and leads to
/// the same state.
pub open spec fn repeats<W>(arcs: Seq<Arc<W>>, i: int) -> bool {
    i > 0 && arcs[i].ilabel == arcs[i - 1].ilabel && arcs[i].nextstate == arcs[i - 1].nextstate
}

/// The arcs of the result that follow the first `k` arcs of the head, one for each
/// that does not do what the one before it does.
pub open spec fn headed_steps<W: Divide>(
    v: FstV<W>,
    delta: W::Delta,
    subset: Seq<Member<W>>,
    arcs: Seq<Arc<W>>,
    k: int,
) -> Seq<Step<W, Headed<W>>>
    decreases k,
{
    if k <= 0 {
        Seq::empty()
    } else {
        let before = headed_steps(v, delta, subset, arcs, k - 1);
        if repeats(arcs, k - 1) {
            before
        } else {
            before.push(
                headed_step(v, delta, subset, arcs[k - 1].ilabel, arcs[k - 1].nextstate),
            )
        }
    }
}

proof fn lemma_member_joins<W: Weight>(
    v: FstV<W>,
    s: int,
    weight: W,
    label: i32,
    dest: usize,
    k: int,
)
    requires
        v.wf(),
        0 <= s < v.n(),
        0 <= k <= v.arcs(s).len(),
    ensures
        ways_fit(v, member_joins(v, weight, v.arcs(s), label, dest, k)),
    decreases k,
{
    if k > 0 {
        lemma_member_joins(v, s, weight, label, dest, k - 1);
        assert(v.states[s].arcs[k - 1].nextstate < v.n());
    }
}

proof fn lemma_joins<W: Weight>(
    v: FstV<W>,
    subset: Seq<Member<W>>,
    label: i32,
    dest: usize,
    k: int,
)
    requires
        v.wf(),
        members_fit(v, subset),
        0 <= k <= subset.len(),
    ensures
        ways_fit(v, joins(v, subset, label, dest, k)),
    decreases k,
{
    if k > 0 {
        lemma_joins(v, subset, label, dest, k - 1);
        let s = subset[k - 1].state as int;
        let n = v.arcs(s).len() as int;
        lemma_member_joins(v, s, subset[k - 1].weight, label, dest, n);
        let before = joins(v, subset, label, dest, k - 1);
        let more = member_joins(v, subset[k - 1].weight, v.arcs(s), label, dest, n);
        let all = joins(v, subset, label, dest, k);
        assert forall|i: int| 0 <= i < all.len() implies (#[trigger] all[i]).to < v.n() by {
            if i < before.len() {
                assert(all[i] == before[i]);
            } else {
                assert(all[i] == more[i - before.len()]);
            }
        }
    }
}

/// What the result is built from.
pub struct Heading<'a, W: Weight> {
    ifst: &'a VectorFst<W>,
    related: &'a Table<(usize, usize)>,
    delta: W::Delta,
}

impl<'a, W: Divide> Heading<'a, W> {
    spec fn inv(&self) -> bool {
        &&& self.related.wf()
        &&& forall|a: usize, b: usize| #[trigger]
            self.related@.contains((a, b)) <==> is_related(self.ifst@, a as int, b as int)
    }

    /// Adds what one member brings to a destination.
    fn join(
        &self,
        member: &Member<W>,
        label: i32,
        dest: usize,
        elements: &mut Vec<Transition<W>>,
    )
        requires
            self.inv(),
            member.state < self.ifst@.n(),
        ensures
            ({
                let arcs = self.ifst@.arcs(member.state as int);
                final(elements)@ == old(elements)@ + member_joins(
                    self.ifst@,
                    member.weight,
                    arcs,
                    label,
                    dest,
                    arcs.len() as int,
                )
            }),
    {
        let arcs = self.ifst.arcs(member.state);
        let ghost before = elements@;
        let mut j: usize = 0;
        assert(before + member_joins(self.ifst@, member.weight, arcs@, label, dest, 0) =~= before);
        while j < arcs.len()
            invariant
                j <= arcs@.len(),
                self.inv(),
                elements@ == before + member_joins(
                    self.ifst@,
                    member.weight,
                    arcs@,
                    label,
                    dest,
                    j as int,
                ),
            decreases arcs@.len() - j,
        {
            let arc = &arcs[j];
            if arc.ilabel == label {
                let pair = (arc.nextstate, dest);
                let found = self.related.find(&pair).is_some();
                assert(found == self.related@.contains((arc.nextstate, dest)));
                if found {
                    elements.push(
                        Transition {
                            label,
                            to: arc.nextstate,
                            weight: member.weight.times(&arc.weight),
                        },
                    );
                }
            }
            j = j + 1;
            assert(elements@ =~= before + member_joins(
                self.ifst@,
                member.weight,
                arcs@,
                label,
                dest,
                j as int,
            ));
        }
    }

    /// The arc of the result that follows an arc of the head.
    fn step(&self, subset: &Vec<Member<W>>, label: i32, dest: usize) -> (step: Step<W, Headed<W>>)
        requires
            self.inv(),
            self.ifst@.wf(),
            members_fit(self.ifst@, subset@),
        ensures
            step == headed_step(self.ifst@, self.delta, subset@, label, dest),
            members_fit(self.ifst@, sequence(step.to.1)),
    {
        let ghost v = self.ifst@;
        let mut found: Vec<Transition<W>> = Vec::new();
        let mut i: usize = 0;
        while i < subset.len()
            invariant
                i <= subset@.len(),
                self.inv(),
                v == self.ifst@,
                members_fit(v, subset@),
                found@ == joins(v, subset@, label, dest, i as int),
            decreases subset@.len() - i,
        {
            self.join(&subset[i], label, dest, &mut found);
            i = i + 1;
        }
        let ghost from = found@;
        let elements = put_in_order(found);
        proof {
            lemma_joins(v, subset@, label, dest, subset@.len() as int);
            law_ranked(from);
            assert forall|x: int| 0 <= x < elements@.len() implies (
            #[trigger] elements@[x]).to < v.n() by {
                let y = lemma_ranked_from(from, x);
                assert(from[y].to < v.n());
            }
            lemma_merged(v, elements@, elements@.len() as int);
        }
        let mut taken = W::zero();
        let mut members: Vec<Member<W>> = Vec::new();
        let mut k: usize = 0;
        while k < elements.len()
            invariant
                k <= elements@.len(),
                taken == common_divisor(DefaultCommonDivisor, elements@, k as int),
                members@ == merged(elements@, k as int),
            decreases elements@.len() - k,
        {
            let way = &elements[k];
            taken = taken.plus(&way.weight);
            let n: usize = members.len();
            if n > 0 && members[n - 1].state == way.to {
                let weight = members[n - 1].weight.plus(&way.weight);
                members.set(n - 1, Member { state: way.to, weight });
            } else {
                members.push(Member { state: way.to, weight: way.weight.duplicate() });
            }
            k = k + 1;
        }
        let mut rest: Vec<Member<W>> = Vec::new();
        i = 0;
        while i < members.len()
            invariant
                i <= members@.len(),
                rest@ == remaining(members@, taken, self.delta).take(i as int),
            decreases members@.len() - i,
        {
            rest.push(
                Member {
                    state: members[i].state,
                    weight: members[i].weight.divide(&taken, DivideType::Left).quantize(
                        &self.delta,
                    ),
                },
            );
            i = i + 1;
            assert(rest@ =~= remaining(members@, taken, self.delta).take(i as int));
        }
        assert(rest@ =~= remaining(members@, taken, self.delta));
        Step { ilabel: label, olabel: label, weight: taken, to: (dest, List::from_vec(&rest)) }
    }
}

impl<'a, W: Divide> Unfolding<W, Headed<W>> for Heading<'a, W> {
    type Model = (FstV<W>, W::Delta);

    closed spec fn ready(&self) -> bool {
        self.inv()
    }

    closed spec fn model(&self) -> (FstV<W>, W::Delta) {
        (self.ifst@, self.delta)
    }

    open spec fn fits(m: (FstV<W>, W::Delta), key: Headed<W>) -> bool {
        m.0.wf() && key.0 < m.0.n() && members_fit(m.0, sequence(key.1))
    }

    open spec fn fails(m: (FstV<W>, W::Delta), key: Headed<W>) -> bool {
        false
    }

    open spec fn steps(m: (FstV<W>, W::Delta), key: Headed<W>) -> Seq<Step<W, Headed<W>>> {
        let arcs = m.0.arcs(key.0 as int);
        headed_steps(m.0, m.1, sequence(key.1), arcs, arcs.len() as int)
    }

    /// The result is final only where the head is; without that, two states merged
    /// into one subset could each contribute a way of finishing.
    open spec fn ending(m: (FstV<W>, W::Delta), key: Headed<W>) -> W {
        if m.0.fin(key.0 as int) != W::spec_zero() {
            subset_final(m.0, sequence(key.1), sequence(key.1).len() as int)
        } else {
            W::spec_zero()
        }
    }

    fn expand(&mut self, key: &Headed<W>) -> (expansion: Option<(Vec<Step<W, Headed<W>>>, W)>) {
        let ghost v = self.ifst@;
        let head: usize = key.0;
        let subset = key.1.to_vec();
        let zero = W::zero();
        let mut weight = W::zero();
        if !self.ifst.final_weight(head).same(&zero) {
            let mut k: usize = 0;
            while k < subset.len()
                invariant
                    k <= subset@.len(),
                    v == self.ifst@,
                    members_fit(v, subset@),
                    weight == subset_final(v, subset@, k as int),
                decreases subset@.len() - k,
            {
                let more = subset[k].weight.times(&self.ifst.final_weight(subset[k].state));
                weight = weight.plus(&more);
                k = k + 1;
            }
        }
        let arcs = self.ifst.arcs(head);
        let mut steps: Vec<Step<W, Headed<W>>> = Vec::new();
        let mut i: usize = 0;
        while i < arcs.len()
            invariant
                i <= arcs@.len(),
                v == self.ifst@,
                v.wf(),
                head < v.n(),
                arcs@ == v.arcs(head as int),
                self.inv(),
                members_fit(v, subset@),
                steps@ == headed_steps(v, self.delta, subset@, arcs@, i as int),
                forall|x: int|
                    0 <= x < steps@.len() ==> (#[trigger] steps@[x]).to.0 < v.n() && members_fit(
                        v,
                        sequence(steps@[x].to.1),
                    ),
            decreases arcs@.len() - i,
        {
            let arc = &arcs[i];
            assert(v.states[head as int].arcs[i as int].nextstate < v.n());
            let again = i > 0 && arcs[i - 1].ilabel == arc.ilabel && arcs[i - 1].nextstate
                == arc.nextstate;
            if !again {
                let step = self.step(&subset, arc.ilabel, arc.nextstate);
                steps.push(step);
            }
            i = i + 1;
        }
        Some((steps, weight))
    }
}

/// The state the result begins in.
pub open spec fn headed_start<W: Weight>(start: usize) -> Headed<W> {
    (start, list_of(seq![Member { state: start, weight: W::spec_one() }]))
}

/// The heads of the states.
pub open spec fn heads_of<W>(table: Seq<Headed<W>>) -> Seq<usize> {
    Seq::new(table.len(), |i: int| table[i].0)
}

/// Whether `r` is what determinizing `v` with the choices kept apart leaves where `o`
/// was, with the heads `heads`.
pub open spec fn pre_disambiguates<W: Divide>(
    v: FstV<W>,
    delta: W::Delta,
    o: FstV<W>,
    r: FstV<W>,
    heads: Seq<usize>,
) -> bool {
    &&& r == (FstV { start: r.start, states: r.states, ..named_after(v, o) })
    &&& match v.start {
        None => r.start is None && r.n() == 0 && heads.len() == 0,
        Some(s) => r.start == Some(0usize) && exists|table: Seq<Headed<W>>|
            {
                &&& #[trigger] is_unfolding::<W, Headed<W>, Heading<W>>(
                    (v, delta),
                    headed_start(s),
                    true,
                    table,
                    r.states,
                )
                &&& heads == heads_of(table)
            },
    }
}

/// Determinizes, but only merging the states that could still agree, and returns which
/// state of the input each result state came from.
pub fn pre_disambiguate<W: Divide>(
    ifst: &VectorFst<W>,
    ofst: &mut VectorFst<W>,
    related: &Table<(usize, usize)>,
    delta: &W::Delta,
    max_states: Option<usize>,
) -> (result: Result<Vec<usize>, OpenFstError>)
    requires
        ifst@.wf(),
        related.wf(),
        forall|a: usize, b: usize| #[trigger]
            related@.contains((a, b)) <==> is_related(ifst@, a as int, b as int),
    ensures
        match result {
            Ok(heads) => pre_disambiguates(ifst@, *delta, old(ofst)@, final(ofst)@, heads@)
                && within(final(ofst)@.states, max_states),
            Err(e) => e is InvalidOperation && ifst@.start is Some && meets_more::<
                W,
                Headed<W>,
                Heading<W>,
            >((ifst@, *delta), headed_start(ifst@.start->0), max_states),
        },
{
    ofst.delete_all_states();
    ofst.set_input_symbols(ifst.input_symbols());
    ofst.set_output_symbols(ifst.output_symbols());
    let ghost named = ofst@;
    proof {
        lemma_forget_forget(old(ofst)@);
        lemma_forget_forget(named);
        assert(named.states =~= Seq::empty());
        assert(named == named_after(ifst@, old(ofst)@));
    }
    let mut heads: Vec<usize> = Vec::new();
    let istart: usize = match ifst.start() {
        Some(s) => s,
        None => {
            return Ok(heads);
        },
    };
    let mut initial: Vec<Member<W>> = Vec::new();
    initial.push(Member { state: istart, weight: W::one() });
    assert(initial@ =~= seq![Member { state: istart, weight: W::spec_one() }]);
    let start = (istart, List::from_vec(&initial));
    let mut heading = Heading { ifst, related, delta: *delta };
    match unfold(&mut heading, start, true, max_states, ofst) {
        None => Err(
            OpenFstError::InvalidOperation(
                "Disambiguate: too many states; the FST may not be disambiguable",
            ),
        ),
        Some(table) => {
            let n: usize = table.len();
            let mut i: usize = 0;
            while i < n
                invariant
                    i <= n,
                    n == table@.len(),
                    table.wf(),
                    heads@ == heads_of(table@).take(i as int),
                decreases n - i,
            {
                heads.push(table.get(i).0);
                i = i + 1;
                assert(heads@ =~= heads_of(table@).take(i as int));
            }
            assert(heads@ =~= heads_of(table@));
            proof {
                assert(is_unfolding::<W, Headed<W>, Heading<W>>(
                    (ifst@, *delta),
                    headed_start(istart),
                    true,
                    table@,
                    ofst@.states,
                ));
            }
            Ok(heads)
        },
    }
}

} // verus!
