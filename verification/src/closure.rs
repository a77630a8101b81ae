//! Repeating what a machine accepts.
use crate::arc::{Arc, EPSILON};
use crate::paths::{
    end_of, is_accepting, is_run, lemma_reads_concat, lemma_run_stays, reads, state_at, steps,
    takes,
};
use crate::properties::{closure_properties, spec_closure_properties, K_FST_PROPERTIES};
use crate::vector_fst::{lemma_forget_forget, set_bits, FstV, StateV, VectorFst};
use crate::weight::Weight;
use vstd::prelude::*;

verus! {

/// Whether the empty string is one of the repetitions.
#[derive(Debug, Clone, Copy, PartialEq, Eq, Structural)]
pub enum ClosureType {
    /// Zero times or more, so the empty string is accepted.
    Star,
    /// One time or more.
    Plus,
}

/// The arc that goes round again from a state that weighs `w` to end in.
pub open spec fn round<W: Weight>(w: W, start: usize) -> Arc<W> {
    Arc { ilabel: EPSILON, olabel: EPSILON, weight: w, nextstate: start }
}

/// A state, with a way round again where a path may end.
pub open spec fn looped_state<W: Weight>(state: StateV<W>, start: Option<usize>) -> StateV<W> {
    if start is Some && state.final_weight != W::spec_zero() {
        StateV { arcs: state.arcs.push(round(state.final_weight, start->0)), ..state }
    } else {
        state
    }
}

/// The states, with a way round again from each where a path may end.
pub open spec fn looped<W: Weight>(v: FstV<W>) -> Seq<StateV<W>> {
    Seq::new(v.n(), |s: int| looped_state(v.states[s], v.start))
}

/// The new start of a machine that may also be skipped.
pub open spec fn skip_state<W: Weight>(start: Option<usize>) -> StateV<W> {
    StateV {
        final_weight: W::spec_one(),
        arcs: match start {
            Some(s) => seq![round(W::spec_one(), s)],
            None => Seq::empty(),
        },
    }
}

/// The states and the start of a machine made to repeat.
pub open spec fn closed_under<W: Weight>(v: FstV<W>, kind: ClosureType) -> FstV<W> {
    match kind {
        ClosureType::Plus => FstV { states: looped(v), ..v },
        ClosureType::Star => FstV {
            start: Some(v.n() as usize),
            states: looped(v).push(skip_state(v.start)),
            ..v
        },
    }
}

/// Whether making the machine repeat adds anything to it.
pub open spec fn closure_adds<W: Weight>(v: FstV<W>, kind: ClosureType) -> bool {
    kind == ClosureType::Star || (v.start is Some && exists|s: int|
        0 <= s < v.n() && #[trigger] v.fin(s) != W::spec_zero())
}

/// Lets `fst` repeat what it accepts.
///
/// Nothing is added when there is no start to go back to.
pub fn closure<W: Weight>(fst: &mut VectorFst<W>, closure_type: ClosureType)
    requires
        old(fst)@.n() < usize::MAX,
    ensures
        final(fst)@.start == closed_under(old(fst)@, closure_type).start,
        final(fst)@.states == closed_under(old(fst)@, closure_type).states,
        final(fst)@.isymbols == old(fst)@.isymbols,
        final(fst)@.osymbols == old(fst)@.osymbols,
        final(fst)@.props == set_bits(
            if closure_adds(old(fst)@, closure_type) {
                old(fst)@.forget().props
            } else {
                old(fst)@.props
            },
            spec_closure_properties(old(fst)@.props & K_FST_PROPERTIES),
            K_FST_PROPERTIES,
        ),
{
    let ghost v = fst@;
    let props: u64 = fst.known_properties(K_FST_PROPERTIES);
    let start: Option<usize> = fst.start();
    let nstates: usize = fst.num_states();
    proof {
        lemma_forget_forget(v);
    }

    // Every way of finishing becomes a way of going round again, carrying the
    // weight of having finished.
    if let Some(start) = start {
        let zero = W::zero();
        let mut s: usize = 0;
        while s < nstates
            invariant
                s <= nstates,
                nstates == v.n(),
                v.start == Some(start),
                zero == W::spec_zero(),
                fst@.n() == v.n(),
                fst@.start == v.start,
                fst@.isymbols == v.isymbols,
                fst@.osymbols == v.osymbols,
                v.forget().forget() == v.forget(),
                fst@.props == (if exists|x: int|
                    0 <= x < s && #[trigger] v.fin(x) != W::spec_zero() {
                    v.forget().props
                } else {
                    v.props
                }),
                forall|x: int| 0 <= x < s ==> #[trigger] fst@.states[x] == looped(v)[x],
                forall|x: int| s <= x < nstates ==> #[trigger] fst@.states[x] == v.states[x],
            decreases nstates - s,
        {
            let weight = fst.final_weight(s);
            assert(weight == v.fin(s as int));
            if !weight.same(&zero) {
                fst.add_arc(s, Arc::new(EPSILON, EPSILON, weight, start));
            }
            s = s + 1;
        }
    }
    assert(fst@.states =~= looped(v));

    if closure_type == ClosureType::Star {
        // A new start state that is also final: the empty string, plus a way
        // into the machine proper.
        let nstart: usize = fst.add_state();
        fst.set_start(nstart);
        fst.set_final(nstart, W::one());
        if let Some(start) = start {
            fst.add_arc(nstart, Arc::new(EPSILON, EPSILON, W::one(), start));
        }
        assert(fst@.states =~= closed_under(v, closure_type).states);
    }
    let after: u64 = closure_properties(props);
    fst.set_properties(after, K_FST_PROPERTIES);
}

/// What a machine accepts it accepts when it may repeat, with the same run.
pub proof fn law_repeating_once<W: Weight>(v: FstV<W>, run: Seq<Arc<W>>)
    requires
        v.wf(),
        is_accepting(v, run),
    ensures
        is_accepting(closed_under(v, ClosureType::Plus), run),
{
    let c = closed_under(v, ClosureType::Plus);
    let s = v.start->0 as int;
    lemma_looped_run(v, c, s, run);
}

proof fn lemma_looped_run<W: Weight>(v: FstV<W>, c: FstV<W>, s: int, run: Seq<Arc<W>>)
    requires
        is_run(v, s, run),
        c.n() >= v.n(),
        forall|x: int| 0 <= x < v.n() ==> #[trigger] c.states[x] == looped(v)[x],
    ensures
        is_run(c, s, run),
{
    assert forall|i: int| 0 <= i < run.len() implies #[trigger] steps(c, s, run, i) by {
        let p = state_at(s, run, i);
        assert(steps(v, s, run, i));
        let k = choose|k: int| 0 <= k < v.arcs(p).len() && v.arcs(p)[k] == run[i];
        assert(c.states[p] == looped(v)[p]);
        assert(c.arcs(p)[k] == run[i]);
    }
}

/// A run that is accepted, the way round and another repetition is a repetition.
pub proof fn law_repeating_again<W: Weight>(v: FstV<W>, run: Seq<Arc<W>>, more: Seq<Arc<W>>)
    requires
        v.wf(),
        is_accepting(v, run),
        is_accepting(closed_under(v, ClosureType::Plus), more),
    ensures
        ({
            let s = v.start->0;
            let again = round(v.fin(end_of(s as int, run)), s);
            &&& is_accepting(closed_under(v, ClosureType::Plus), run.push(again) + more)
            &&& reads(run.push(again) + more) == reads(run) + reads(more)
        }),
{
    let c = closed_under(v, ClosureType::Plus);
    let s = v.start->0;
    let e = end_of(s as int, run);
    let again = round(v.fin(e), s);
    let all = run.push(again) + more;
    lemma_looped_run(v, c, s as int, run);
    assert(takes(c, e, again)) by {
        assert(c.arcs(e)[v.arcs(e).len() as int] == again);
    }
    assert forall|i: int| 0 <= i < all.len() implies #[trigger] steps(c, s as int, all, i) by {
        if i < run.len() {
            assert(all[i] == run[i]);
            assert(steps(c, s as int, run, i));
            assert(state_at(s as int, all, i) == state_at(s as int, run, i));
        } else if i == run.len() {
            assert(state_at(s as int, all, i) == e);
        } else {
            let j = i - run.len() - 1;
            assert(all[i] == more[j]);
            assert(steps(c, s as int, more, j));
            assert(state_at(s as int, all, i) == state_at(s as int, more, j));
        }
    }
    assert(end_of(s as int, all) == end_of(s as int, more));
    lemma_reads_concat(run.push(again), more);
    assert(run.push(again).drop_last() =~= run);
}

/// Every repetition is an accepted run, or begins with one that is followed by the
/// way round and another repetition.
pub proof fn law_repetition_unfolds<W: Weight>(v: FstV<W>, run: Seq<Arc<W>>)
    requires
        v.wf(),
        v.start is Some,
        is_accepting(closed_under(v, ClosureType::Plus), run),
    ensures
        is_accepting(v, run) || exists|k: int| #[trigger] goes_round_at(v, run, k),
{
    let c = closed_under(v, ClosureType::Plus);
    let s = v.start->0 as int;
    if !is_run(v, s, run) {
        lemma_first_round(v, run, 0);
    }
}

/// Whether the first `k` arcs are accepted and the next goes round to a repetition.
pub open spec fn goes_round_at<W: Weight>(v: FstV<W>, run: Seq<Arc<W>>, k: int) -> bool {
    &&& 0 <= k < run.len()
    &&& is_accepting(v, run.take(k))
    &&& run[k] == round(v.fin(end_of(v.start->0 as int, run.take(k))), v.start->0)
    &&& is_accepting(closed_under(v, ClosureType::Plus), run.skip(k + 1))
}

proof fn lemma_goes_round<W: Weight>(v: FstV<W>, run: Seq<Arc<W>>, k: int)
    requires
        v.wf(),
        v.start is Some,
        is_accepting(closed_under(v, ClosureType::Plus), run),
        0 <= k < run.len(),
        is_run(v, v.start->0 as int, run.take(k)),
        !takes(v, state_at(v.start->0 as int, run, k), run[k]),
    ensures
        goes_round_at(v, run, k),
{
    let c = closed_under(v, ClosureType::Plus);
    let s = v.start->0 as int;
    let p = state_at(s, run, k);
    assert(steps(c, s, run, k));
    assert(state_at(s, run.take(k), k) == p);
    lemma_run_stays(v, s, run.take(k), k);
    let j = choose|j: int| 0 <= j < c.arcs(p).len() && c.arcs(p)[j] == run[k];
    if j < v.arcs(p).len() {
        assert(v.arcs(p)[j] == run[k]);
    }
    assert(run[k] == round(v.fin(p), v.start->0));
    assert(end_of(s, run.take(k)) == p);
    let rest = run.skip(k + 1);
    assert forall|i: int| 0 <= i < rest.len() implies #[trigger] steps(c, s, rest, i) by {
        assert(steps(c, s, run, k + 1 + i));
        assert(state_at(s, rest, i) == state_at(s, run, k + 1 + i));
    }
    assert(end_of(s, rest) == end_of(s, run));
}

proof fn lemma_first_round<W: Weight>(v: FstV<W>, run: Seq<Arc<W>>, k: int)
    requires
        v.wf(),
        v.start is Some,
        is_accepting(closed_under(v, ClosureType::Plus), run),
        0 <= k <= run.len(),
        is_run(v, v.start->0 as int, run.take(k)),
        !is_run(v, v.start->0 as int, run),
    ensures
        exists|k: int| #[trigger] goes_round_at(v, run, k),
    decreases run.len() - k,
{
    let s = v.start->0 as int;
    if k == run.len() {
        assert(run.take(k) =~= run);
    } else if takes(v, state_at(s, run, k), run[k]) {
        let next = run.take(k + 1);
        assert forall|i: int| 0 <= i < next.len() implies #[trigger] steps(v, s, next, i) by {
            if i < k {
                assert(steps(v, s, run.take(k), i));
                assert(state_at(s, next, i) == state_at(s, run.take(k), i));
            } else {
                assert(state_at(s, next, i) == state_at(s, run, k));
            }
        }
        lemma_first_round(v, run, k + 1);
    } else {
        lemma_goes_round(v, run, k);
    }
}

/// A machine that may be skipped accepts with no arc at all.
pub proof fn law_star_may_be_skipped<W: Weight>(v: FstV<W>)
    requires
        v.n() < usize::MAX,
        W::spec_one() != W::spec_zero(),
    ensures
        is_accepting(closed_under(v, ClosureType::Star), Seq::<Arc<W>>::empty()),
{
}

/// What a machine that may be skipped accepts along some arc is a way in and a
/// repetition.
pub proof fn law_star_unfolds<W: Weight>(v: FstV<W>, run: Seq<Arc<W>>)
    requires
        v.wf(),
        v.n() < usize::MAX,
        run.len() > 0,
    ensures
        is_accepting(closed_under(v, ClosureType::Star), run) <==> v.start is Some && run[0]
            == round(W::spec_one(), v.start->0) && is_accepting(
            closed_under(v, ClosureType::Plus),
            run.skip(1),
        ),
{
    let c = closed_under(v, ClosureType::Star);
    let p = closed_under(v, ClosureType::Plus);
    let n = v.n() as int;
    let rest = run.skip(1);
    if is_accepting(c, run) {
        assert(steps(c, n, run, 0));
        let s = v.start->0 as int;
        lemma_star_stays(v, run, run.len() as int);
        assert forall|i: int| 0 <= i < rest.len() implies #[trigger] steps(p, s, rest, i) by {
            lemma_star_stays(v, run, i + 1);
            assert(steps(c, n, run, i + 1));
            assert(state_at(s, rest, i) == state_at(n, run, i + 1));
        }
        assert(end_of(s, rest) == end_of(n, run));
        assert(is_accepting(p, rest));
    }
    if v.start is Some && run[0] == round(W::spec_one(), v.start->0) && is_accepting(p, rest) {
        let s = v.start->0 as int;
        assert forall|i: int| 0 <= i < run.len() implies #[trigger] steps(c, n, run, i) by {
            if i == 0 {
                assert(c.arcs(n)[0] == run[0]);
            } else {
                assert(steps(p, s, rest, i - 1));
                assert(state_at(s, rest, i - 1) == state_at(n, run, i));
                assert(c.states[state_at(n, run, i)] == p.states[state_at(n, run, i)]);
            }
        }
        assert(end_of(s, rest) == end_of(n, run));
    }
}

proof fn lemma_star_stays<W: Weight>(v: FstV<W>, run: Seq<Arc<W>>, i: int)
    requires
        v.wf(),
        v.n() < usize::MAX,
        is_accepting(closed_under(v, ClosureType::Star), run),
        1 <= i <= run.len(),
    ensures
        v.start is Some,
        run[0] == round(W::spec_one(), v.start->0),
        0 <= state_at(v.n() as int, run, i) < v.n(),
    decreases i,
{
    let c = closed_under(v, ClosureType::Star);
    let n = v.n() as int;
    let p = state_at(n, run, i - 1);
    assert(steps(c, n, run, i - 1));
    let k = choose|k: int| 0 <= k < c.arcs(p).len() && c.arcs(p)[k] == run[i - 1];
    if i > 1 {
        lemma_star_stays(v, run, i - 1);
        if k < v.arcs(p).len() {
            assert(v.states[p].arcs[k].nextstate < v.n());
        }
    } else {
        assert(p == n);
    }
}

} // verus!
