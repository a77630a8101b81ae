//! Removing the arcs that neither read nor write.
use crate::arc::{Arc, EPSILON};
use crate::connect::{connect, trimmed};
use crate::error::OpenFstError;
use crate::push::never_settles;
use crate::shortest_distance::{is_distance, shortest_distance_forward};
use crate::vector_fst::{lemma_forget_forget, FstV, StateV, VectorFst};
use crate::weight::Weight;
use vstd::prelude::*;

verus! {

/// Whether an arc neither reads nor writes.
pub open spec fn is_epsilon<W>(arc: Arc<W>) -> bool {
    arc.ilabel == EPSILON && arc.olabel == EPSILON
}

/// Those of the first `k` arcs that neither read nor write.
pub open spec fn epsilon_arcs<W>(arcs: Seq<Arc<W>>, k: int) -> Seq<Arc<W>>
    decreases k,
{
    if k <= 0 {
        Seq::empty()
    } else if is_epsilon(arcs[k - 1]) {
        epsilon_arcs(arcs, k - 1).push(arcs[k - 1])
    } else {
        epsilon_arcs(arcs, k - 1)
    }
}

/// The states with only the arcs that neither read nor write.
pub open spec fn epsilon_states<W: Weight>(v: FstV<W>) -> Seq<StateV<W>> {
    Seq::new(
        v.n(),
        |s: int|
            StateV {
                final_weight: W::spec_zero(),
                arcs: epsilon_arcs(v.arcs(s), v.arcs(s).len() as int),
            },
    )
}

/// The machine of the arcs that neither read nor write, begun at `s`.
pub open spec fn epsilon_part<W: Weight>(v: FstV<W>, s: int) -> FstV<W> {
    FstV { start: Some(s as usize), states: epsilon_states(v), ..FstV::empty() }
}

/// The first of the first `k` arcs that reads, writes and leads as `arc` does.
pub open spec fn place_of<W>(arcs: Seq<Arc<W>>, arc: Arc<W>, k: int) -> Option<int>
    decreases k,
{
    if k <= 0 {
        None
    } else {
        match place_of(arcs, arc, k - 1) {
            Some(i) => Some(i),
            None => if arcs[k - 1].ilabel == arc.ilabel && arcs[k - 1].olabel == arc.olabel && arcs[k
                - 1].nextstate == arc.nextstate {
                Some(k - 1)
            } else {
                None
            },
        }
    }
}

/// The arcs with one more, added to one that reads, writes and leads alike if there is
/// one.
pub open spec fn with_added<W: Weight>(arcs: Seq<Arc<W>>, arc: Arc<W>) -> Seq<Arc<W>> {
    match place_of(arcs, arc, arcs.len() as int) {
        Some(i) => arcs.update(
            i,
            Arc { weight: arcs[i].weight.spec_plus(arc.weight), ..arcs[i] },
        ),
        None => arcs.push(arc),
    }
}

/// The arcs with those of the first `k` of `more` added that read or write, each behind
/// `weight`.
pub open spec fn with_all_added<W: Weight>(
    arcs: Seq<Arc<W>>,
    weight: W,
    more: Seq<Arc<W>>,
    k: int,
) -> Seq<Arc<W>>
    decreases k,
{
    if k <= 0 {
        arcs
    } else {
        let before = with_all_added(arcs, weight, more, k - 1);
        if is_epsilon(more[k - 1]) {
            before
        } else {
            with_added(
                before,
                Arc { weight: weight.spec_times(more[k - 1].weight), ..more[k - 1] },
            )
        }
    }
}

/// The arcs that leave what can be reached without reading or writing, of the first `k`
/// states.
pub open spec fn closure_arcs<W: Weight>(v: FstV<W>, distance: Seq<W>, k: int) -> Seq<Arc<W>>
    decreases k,
{
    if k <= 0 {
        Seq::empty()
    } else {
        let before = closure_arcs(v, distance, k - 1);
        if distance[k - 1] == W::spec_zero() {
            before
        } else {
            with_all_added(before, distance[k - 1], v.arcs(k - 1), v.arcs(k - 1).len() as int)
        }
    }
}

/// What ending in what can be reached without reading or writing weighs, of the first `k`
/// states.
pub open spec fn closure_final<W: Weight>(v: FstV<W>, distance: Seq<W>, k: int) -> W
    decreases k,
{
    if k <= 0 {
        W::spec_zero()
    } else {
        let before = closure_final(v, distance, k - 1);
        if distance[k - 1] == W::spec_zero() {
            before
        } else {
            before.spec_plus(distance[k - 1].spec_times(v.fin(k - 1)))
        }
    }
}

/// Whether a state is the start, or some arc that reads or writes leads to it.
pub open spec fn is_entered<W: Weight>(v: FstV<W>, t: int) -> bool {
    v.start == Some(t as usize) || exists|s: int, i: int|
        0 <= s < v.n() && 0 <= i < v.states[s].arcs.len() && (#[trigger] v.states[s].arcs[i]).nextstate
            == t && !is_epsilon(v.states[s].arcs[i])
}

/// Whether `distances` holds, for each state, how far the others are from it without
/// reading or writing.
pub open spec fn are_closures<W: Weight>(
    v: FstV<W>,
    delta: W::Delta,
    distances: Seq<Seq<W>>,
) -> bool {
    &&& distances.len() == v.n()
    &&& forall|s: int|
        0 <= s < v.n() ==> is_distance(epsilon_part(v, s), false, delta, #[trigger] distances[s])
}

/// The machine without the arcs that neither read nor write at the states that anything
/// but such arcs leads to. The others are left as they are.
pub open spec fn without_epsilons<W: Weight>(v: FstV<W>, distances: Seq<Seq<W>>) -> FstV<W> {
    v.with_states(
        Seq::new(
            v.n(),
            |s: int|
                if is_entered(v, s) {
                    StateV {
                        final_weight: closure_final(v, distances[s], v.n() as int),
                        arcs: closure_arcs(v, distances[s], v.n() as int),
                    }
                } else {
                    v.states[s]
                },
        ),
    )
}

/// Which states are the start, or have an arc that reads or writes leading to them.
fn find_entered<W: Weight>(fst: &VectorFst<W>) -> (entered: Vec<bool>)
    requires
        fst@.wf(),
    ensures
        entered@.len() == fst@.n(),
        forall|t: int| 0 <= t < fst@.n() ==> #[trigger] entered@[t] == is_entered(fst@, t),
{
    let ghost v = fst@;
    let n: usize = fst.num_states();
    let mut entered: Vec<bool> = Vec::new();
    let mut t: usize = 0;
    while t < n
        invariant
            t <= n,
            entered@ =~= Seq::new(t as nat, |i: int| false),
        decreases n - t,
    {
        entered.push(false);
        t = t + 1;
    }
    if let Some(start) = fst.start() {
        entered.set(start, true);
    }
    let mut s: usize = 0;
    while s < n
        invariant
            s <= n,
            v == fst@,
            v.wf(),
            n == v.n(),
            entered@.len() == n,
            forall|t: int|
                0 <= t < n ==> #[trigger] entered@[t] == entered_by(v, t, s as int, 0),
        decreases n - s,
    {
        let arcs = fst.arcs(s);
        let mut i: usize = 0;
        while i < arcs.len()
            invariant
                s < n,
                v.wf(),
                n == v.n(),
                i <= arcs@.len(),
                arcs@ == v.states[s as int].arcs,
                entered@.len() == n,
                forall|t: int|
                    0 <= t < n ==> #[trigger] entered@[t] == entered_by(v, t, s as int, i as int),
            decreases arcs@.len() - i,
        {
            let arc = &arcs[i];
            assert(v.states[s as int].arcs[i as int].nextstate < v.n());
            let ghost before = entered@;
            if arc.ilabel != EPSILON || arc.olabel != EPSILON {
                entered.set(arc.nextstate, true);
            }
            proof {
                assert forall|t: int| 0 <= t < n implies #[trigger] entered@[t] == entered_by(
                    v,
                    t,
                    s as int,
                    i + 1,
                ) by {
                    assert(before[t] == entered_by(v, t, s as int, i as int));
                    lemma_entered_more(v, t, s as int, i as int);
                }
            }
            i = i + 1;
        }
        proof {
            assert forall|t: int| 0 <= t < n implies #[trigger] entered@[t] == entered_by(
                v,
                t,
                s + 1,
                0,
            ) by {
                lemma_entered_next(v, t, s as int);
            }
        }
        s = s + 1;
    }
    proof {
        assert forall|t: int| 0 <= t < n implies #[trigger] entered@[t] == is_entered(v, t) by {
            assert(entered@[t] == entered_by(v, t, n as int, 0));
            if is_entered(v, t) && v.start != Some(t as usize) {
                let (a, i) = choose|a: int, i: int|
                    0 <= a < v.n() && 0 <= i < v.states[a].arcs.len() && (
                    #[trigger] v.states[a].arcs[i]).nextstate == t && !is_epsilon(
                        v.states[a].arcs[i],
                    );
                assert(enters(v, a, i, t));
            }
            if entered_by(v, t, n as int, 0) && v.start != Some(t as usize) {
                let (a, i) = choose|a: int, i: int| #[trigger]
                    enters(v, a, i, t) && (a < n || (a == n && i < 0));
                assert(v.states[a].arcs[i].nextstate == t);
            }
        }
    }
    entered
}

/// Whether the `i`th arc of `s` reads or writes and leads to `t`.
spec fn enters<W: Weight>(v: FstV<W>, s: int, i: int, t: int) -> bool {
    &&& 0 <= s < v.n()
    &&& 0 <= i < v.states[s].arcs.len()
    &&& v.states[s].arcs[i].nextstate == t
    &&& !is_epsilon(v.states[s].arcs[i])
}

/// Whether `t` is the start, or an arc before the `i`th of `s` enters it.
spec fn entered_by<W: Weight>(v: FstV<W>, t: int, s: int, i: int) -> bool {
    v.start == Some(t as usize) || exists|a: int, j: int| #[trigger]
        enters(v, a, j, t) && (a < s || (a == s && j < i))
}

proof fn lemma_entered_more<W: Weight>(v: FstV<W>, t: int, s: int, i: int)
    requires
        0 <= s < v.n(),
        0 <= i < v.states[s].arcs.len(),
    ensures
        entered_by(v, t, s, i + 1) == (entered_by(v, t, s, i) || enters(v, s, i, t)),
{
    if entered_by(v, t, s, i) && v.start != Some(t as usize) {
        let (a, j) = choose|a: int, j: int| #[trigger]
            enters(v, a, j, t) && (a < s || (a == s && j < i));
        assert(enters(v, a, j, t));
    }
    if entered_by(v, t, s, i + 1) && v.start != Some(t as usize) {
        let (a, j) = choose|a: int, j: int| #[trigger]
            enters(v, a, j, t) && (a < s || (a == s && j < i + 1));
        assert(enters(v, a, j, t));
    }
}

proof fn lemma_entered_next<W: Weight>(v: FstV<W>, t: int, s: int)
    requires
        0 <= s < v.n(),
    ensures
        entered_by(v, t, s + 1, 0) == entered_by(v, t, s, v.states[s].arcs.len() as int),
{
    let n = v.states[s].arcs.len() as int;
    if entered_by(v, t, s, n) && v.start != Some(t as usize) {
        let (a, j) = choose|a: int, j: int| #[trigger]
            enters(v, a, j, t) && (a < s || (a == s && j < n));
        assert(enters(v, a, j, t));
    }
    if entered_by(v, t, s + 1, 0) && v.start != Some(t as usize) {
        let (a, j) = choose|a: int, j: int| #[trigger]
            enters(v, a, j, t) && (a < s + 1 || (a == s + 1 && j < 0));
        assert(enters(v, a, j, t));
    }
}

proof fn lemma_epsilon_arcs_lead<W>(arcs: Seq<Arc<W>>, k: int, n: nat)
    requires
        0 <= k <= arcs.len(),
        forall|i: int| 0 <= i < arcs.len() ==> (#[trigger] arcs[i]).nextstate < n,
    ensures
        forall|i: int|
            0 <= i < epsilon_arcs(arcs, k).len() ==> (#[trigger] epsilon_arcs(
                arcs,
                k,
            )[i]).nextstate < n,
    decreases k,
{
    if k > 0 {
        lemma_epsilon_arcs_lead(arcs, k - 1, n);
        let before = epsilon_arcs(arcs, k - 1);
        let now = epsilon_arcs(arcs, k);
        assert forall|i: int| 0 <= i < now.len() implies (#[trigger] now[i]).nextstate < n by {
            if i < before.len() {
                assert(now[i] == before[i]);
            } else {
                assert(arcs[k - 1].nextstate < n);
            }
        }
    }
}

/// Of a machine of no states nothing is known that could be true or false.
proof fn lemma_empty_forgets<W: Weight>()
    ensures
        FstV::<W>::empty().forget() == FstV::<W>::empty(),
{
    assert((0x1u64 | 0x2u64) & 0x7u64 == (0x1u64 | 0x2u64)) by (bit_vector);
}

/// The machine of the arcs that neither read nor write.
fn take_epsilons<W: Weight>(fst: &VectorFst<W>) -> (part: VectorFst<W>)
    requires
        fst@.wf(),
    ensures
        part@ == (FstV { states: epsilon_states(fst@), ..FstV::empty() }),
        forall|s: int, i: int|
            0 <= s < part@.n() && 0 <= i < part@.states[s].arcs.len() ==> (
            #[trigger] part@.states[s].arcs[i]).nextstate < part@.n(),
{
    let ghost v = fst@;
    let n: usize = fst.num_states();
    let mut part: VectorFst<W> = VectorFst::new();
    let ghost o = part@;
    proof {
        lemma_empty_forgets::<W>();
        lemma_forget_forget(o);
    }
    let mut s: usize = 0;
    assert(part@.states =~= epsilon_states(v).take(0));
    while s < n
        invariant
            s <= n,
            v == fst@,
            n == v.n(),
            o == FstV::<W>::empty(),
            o.forget() == o,
            part@ == (FstV { states: epsilon_states(v).take(s as int), ..o }),
        decreases n - s,
    {
        let from = fst.arcs(s);
        let mut arcs: Vec<Arc<W>> = Vec::new();
        let mut i: usize = 0;
        while i < from.len()
            invariant
                i <= from@.len(),
                arcs@ == epsilon_arcs(from@, i as int),
            decreases from@.len() - i,
        {
            if from[i].ilabel == EPSILON && from[i].olabel == EPSILON {
                arcs.push(from[i].duplicate());
            }
            i = i + 1;
        }
        let at: usize = part.add_state();
        part.set_arcs(at, arcs);
        proof {
            lemma_forget_forget(o);
            assert(part@.states =~= epsilon_states(v).take(s + 1));
        }
        s = s + 1;
    }
    proof {
        assert(part@.states =~= epsilon_states(v));
        assert forall|x: int, i: int|
            0 <= x < part@.n() && 0 <= i < part@.states[x].arcs.len() implies (
        #[trigger] part@.states[x].arcs[i]).nextstate < part@.n() by {
            assert forall|j: int| 0 <= j < v.arcs(x).len() implies (
            #[trigger] v.arcs(x)[j]).nextstate < v.n() by {
                assert(v.states[x].arcs[j].nextstate < v.n());
            }
            lemma_epsilon_arcs_lead(v.arcs(x), v.arcs(x).len() as int, v.n());
        }
    }
    part
}

/// Adds an arc, to one that reads, writes and leads alike if there is one.
fn add_to<W: Weight>(arcs: &mut Vec<Arc<W>>, arc: Arc<W>)
    ensures
        final(arcs)@ == with_added(old(arcs)@, arc),
{
    let ghost all = arcs@;
    let mut found: Option<usize> = None;
    let mut i: usize = 0;
    while i < arcs.len()
        invariant
            i <= arcs@.len(),
            arcs@ == all,
            match found {
                Some(x) => place_of(all, arc, i as int) == Some(x as int) && x < i,
                None => place_of(all, arc, i as int) is None,
            },
        decreases arcs@.len() - i,
    {
        if found.is_none() && arcs[i].ilabel == arc.ilabel && arcs[i].olabel == arc.olabel
            && arcs[i].nextstate == arc.nextstate {
            found = Some(i);
        }
        i = i + 1;
    }
    match found {
        None => {
            arcs.push(arc);
        },
        Some(x) => {
            let sum = arcs[x].weight.plus(&arc.weight);
            let merged = Arc::new(arcs[x].ilabel, arcs[x].olabel, sum, arcs[x].nextstate);
            arcs.set(x, merged);
        },
    }
}

/// The arcs and the final weight of a state once epsilons are removed.
fn close_state<W: Weight>(fst: &VectorFst<W>, distance: &Vec<W>) -> (state: (Vec<Arc<W>>, W))
    requires
        fst@.wf(),
        distance@.len() == fst@.n(),
    ensures
        state.0@ == closure_arcs(fst@, distance@, fst@.n() as int),
        state.1 == closure_final(fst@, distance@, fst@.n() as int),
{
    let ghost v = fst@;
    let n: usize = fst.num_states();
    let zero = W::zero();
    let mut arcs: Vec<Arc<W>> = Vec::new();
    let mut weight = W::zero();
    let mut q: usize = 0;
    while q < n
        invariant
            q <= n,
            v == fst@,
            n == v.n(),
            zero == W::spec_zero(),
            distance@.len() == n,
            arcs@ == closure_arcs(v, distance@, q as int),
            weight == closure_final(v, distance@, q as int),
        decreases n - q,
    {
        let d = &distance[q];
        if !d.same(&zero) {
            weight = weight.plus(&d.times(&fst.final_weight(q)));
            let more = fst.arcs(q);
            let ghost before = arcs@;
            let mut i: usize = 0;
            while i < more.len()
                invariant
                    i <= more@.len(),
                    arcs@ == with_all_added(before, *d, more@, i as int),
                decreases more@.len() - i,
            {
                let arc = &more[i];
                if arc.ilabel != EPSILON || arc.olabel != EPSILON {
                    add_to(
                        &mut arcs,
                        Arc::new(arc.ilabel, arc.olabel, d.times(&arc.weight), arc.nextstate),
                    );
                }
                i = i + 1;
            }
        }
        q = q + 1;
    }
    (arcs, weight)
}

proof fn lemma_added_lead<W: Weight>(arcs: Seq<Arc<W>>, arc: Arc<W>, n: nat)
    requires
        forall|i: int| 0 <= i < arcs.len() ==> (#[trigger] arcs[i]).nextstate < n,
        arc.nextstate < n,
    ensures
        forall|i: int|
            0 <= i < with_added(arcs, arc).len() ==> (#[trigger] with_added(arcs, arc)[i]).nextstate
                < n,
{
    lemma_place(arcs, arc, arcs.len() as int);
}

pub proof fn lemma_place<W>(arcs: Seq<Arc<W>>, arc: Arc<W>, k: int)
    ensures
        place_of(arcs, arc, k) matches Some(i) ==> 0 <= i < k,
    decreases k,
{
    if k > 0 {
        lemma_place(arcs, arc, k - 1);
    }
}

proof fn lemma_all_added_lead<W: Weight>(
    arcs: Seq<Arc<W>>,
    weight: W,
    more: Seq<Arc<W>>,
    k: int,
    n: nat,
)
    requires
        0 <= k <= more.len(),
        forall|i: int| 0 <= i < arcs.len() ==> (#[trigger] arcs[i]).nextstate < n,
        forall|i: int| 0 <= i < more.len() ==> (#[trigger] more[i]).nextstate < n,
    ensures
        forall|i: int|
            0 <= i < with_all_added(arcs, weight, more, k).len() ==> (#[trigger] with_all_added(
                arcs,
                weight,
                more,
                k,
            )[i]).nextstate < n,
    decreases k,
{
    if k > 0 {
        lemma_all_added_lead(arcs, weight, more, k - 1, n);
        let before = with_all_added(arcs, weight, more, k - 1);
        assert(more[k - 1].nextstate < n);
        lemma_added_lead(
            before,
            Arc { weight: weight.spec_times(more[k - 1].weight), ..more[k - 1] },
            n,
        );
    }
}

proof fn lemma_closure_leads<W: Weight>(v: FstV<W>, distance: Seq<W>, k: int)
    requires
        v.wf(),
        0 <= k <= v.n(),
    ensures
        forall|i: int|
            0 <= i < closure_arcs(v, distance, k).len() ==> (#[trigger] closure_arcs(
                v,
                distance,
                k,
            )[i]).nextstate < v.n(),
    decreases k,
{
    if k > 0 {
        lemma_closure_leads(v, distance, k - 1);
        assert forall|j: int| 0 <= j < v.arcs(k - 1).len() implies (
        #[trigger] v.arcs(k - 1)[j]).nextstate < v.n() by {
            assert(v.states[k - 1].arcs[j].nextstate < v.n());
        }
        lemma_all_added_lead(
            closure_arcs(v, distance, k - 1),
            distance[k - 1],
            v.arcs(k - 1),
            v.arcs(k - 1).len() as int,
            v.n(),
        );
    }
}

/// Removing epsilons leaves a machine in order.
pub proof fn lemma_without_epsilons_wf<W: Weight>(v: FstV<W>, distances: Seq<Seq<W>>)
    requires
        v.wf(),
    ensures
        without_epsilons(v, distances).wf(),
{
    let w = without_epsilons(v, distances);
    assert forall|s: int, i: int| 0 <= s < w.n() && 0 <= i < w.states[s].arcs.len() implies (
    #[trigger] w.states[s].arcs[i]).nextstate < w.n() by {
        if is_entered(v, s) {
            lemma_closure_leads(v, distances[s], v.n() as int);
        } else {
            assert(v.states[s].arcs[i].nextstate < v.n());
        }
    }
}

/// Whether the distances from some state without reading or writing keep on changing.
pub open spec fn closures_never_settle<W: Weight>(v: FstV<W>, delta: W::Delta) -> bool {
    exists|s: int|
        0 <= s < v.n() && #[trigger] never_settles(epsilon_part(v, s), false, delta)
}

/// Removes the arcs that neither read nor write, in place: each state gets the arcs and
/// the final weights of what it reaches by such arcs alone. A state that only such arcs
/// lead to is left as it is. With `trim`, what is on no path then is removed too.
pub fn rm_epsilon<W: Weight>(fst: &mut VectorFst<W>, trim: bool, delta: &W::Delta) -> (result:
    Result<(), OpenFstError>)
    requires
        old(fst)@.wf(),
    ensures
        match result {
            Ok(_) => final(fst)@.wf() && exists|distances: Seq<Seq<W>>| #[trigger]
                are_closures(old(fst)@, *delta, distances) && final(fst)@ == (if trim {
                    trimmed(without_epsilons(old(fst)@, distances))
                } else {
                    without_epsilons(old(fst)@, distances)
                }),
            Err(e) => e is InvalidOperation && closures_never_settle(old(fst)@, *delta)
                && final(fst)@ == old(fst)@,
        },
{
    let ghost v = fst@;
    let n: usize = fst.num_states();
    let entered = find_entered(&*fst);
    let mut part = take_epsilons(&*fst);
    let source = fst.duplicate();
    let ghost o = part@;
    let mut states: Vec<(Vec<Arc<W>>, W)> = Vec::new();
    let ghost mut distances: Seq<Seq<W>> = Seq::empty();
    let mut s: usize = 0;
    while s < n
        invariant
            s <= n,
            n == v.n(),
            v.wf(),
            source@ == v,
            fst@ == v,
            v == old(fst)@,
            o == (FstV { states: epsilon_states(v), ..FstV::<W>::empty() }),
            part@.states == o.states,
            part@.isymbols == o.isymbols,
            part@.osymbols == o.osymbols,
            s > 0 ==> part@.props == o.forget().props,
            s == 0 ==> part@.props == o.props,
            forall|x: int, i: int|
                0 <= x < o.n() && 0 <= i < o.states[x].arcs.len() ==> (
                #[trigger] o.states[x].arcs[i]).nextstate < o.n(),
            states@.len() == s,
            distances.len() == s,
            forall|x: int|
                0 <= x < s ==> is_distance(
                    epsilon_part(v, x),
                    false,
                    *delta,
                    #[trigger] distances[x],
                ),
            forall|x: int|
                0 <= x < s ==> (#[trigger] states@[x]).0@ == closure_arcs(
                    v,
                    distances[x],
                    n as int,
                ) && states@[x].1 == closure_final(v, distances[x], n as int),
        decreases n - s,
    {
        part.set_start(s);
        proof {
            lemma_forget_forget(o);
            lemma_empty_forgets::<W>();
            assert(part@ == epsilon_part(v, s as int));
            let p = part@;
            assert forall|x: int, i: int|
                0 <= x < p.n() && 0 <= i < p.states[x].arcs.len() implies (
            #[trigger] p.states[x].arcs[i]).nextstate < p.n() by {
                assert(o.states[x].arcs[i].nextstate < o.n());
            }
        }
        match shortest_distance_forward(&part, delta) {
            Ok(distance) => {
                states.push(close_state(&source, &distance));
                proof {
                    distances = distances.push(distance@);
                }
            },
            Err(e) => {
                assert(never_settles(epsilon_part(v, s as int), false, *delta));
                return Err(e);
            },
        }
        s = s + 1;
    }
    let ghost w = without_epsilons(v, distances);
    assert(are_closures(v, *delta, distances));
    fst.forget_properties();
    proof {
        lemma_forget_forget(v);
    }
    s = 0;
    while s < n
        invariant
            s <= n,
            n == v.n(),
            w == without_epsilons(v, distances),
            entered@.len() == n,
            forall|t: int| 0 <= t < n ==> #[trigger] entered@[t] == is_entered(v, t),
            states@.len() == n,
            distances.len() == n,
            forall|x: int|
                0 <= x < n ==> (#[trigger] states@[x]).0@ == closure_arcs(
                    v,
                    distances[x],
                    n as int,
                ) && states@[x].1 == closure_final(v, distances[x], n as int),
            fst@ == v.with_states(fst@.states),
            fst@.n() == n,
            forall|x: int| 0 <= x < s ==> #[trigger] fst@.states[x] == w.states[x],
            forall|x: int| s <= x < n ==> #[trigger] fst@.states[x] == v.states[x],
        decreases n - s,
    {
        let ghost now = fst@;
        if entered[s] {
            fst.set_arcs(s, crate::vector_fst::duplicate_arcs(&states[s].0));
            fst.set_final(s, states[s].1.duplicate());
        }
        proof {
            lemma_forget_forget(v);
            lemma_forget_forget(now);
            assert(states@[s as int].1 == closure_final(v, distances[s as int], n as int));
            assert forall|x: int| 0 <= x < s + 1 implies #[trigger] fst@.states[x]
                == w.states[x] by {
                if x < s {
                    assert(fst@.states[x] == now.states[x]);
                } else {
                    assert(is_entered(v, x) == entered@[x]);
                }
            }
        }
        s = s + 1;
    }
    proof {
        assert(fst@.states =~= w.states);
        lemma_without_epsilons_wf(v, distances);
    }
    if trim {
        connect(fst);
    }
    Ok(())
}

} // verus!
