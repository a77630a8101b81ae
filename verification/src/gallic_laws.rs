//! Moving the labels that are written into the weights, and back out of them.
use crate::arc::{Arc, EPSILON};
use crate::arc_map::{
    final_arc, is_labelled, lemma_plain, map_all, map_arcs, map_states, plain_state,
    superfinal_state,
};
use crate::difference_laws::one_changes_nothing;
use crate::gallic_map::{
    carriable, carried, from_gallic, is_no_final, to_gallic, written, FromGallicMapper,
    ToGallicMapper,
};
use crate::paths::{
    accepted_weight, end_of, is_accepting, is_ending, lemma_after_first, lemma_go_first,
    lemma_labels_from_front, noted, reads, state_at, steps, total, writes,
};
use crate::push::{labels_come_out, labels_in, labels_out, lemma_labels_in};
use crate::string_weight::{
    labels_of, lemma_labels_of_view, GallicWeight, StringWeight, StringWeightValue,
};
use crate::vector_fst::{FstV, StateV};
use crate::weight::Weight;
use vstd::prelude::*;

verus! {

/// The string that a weight is made of is the string of the weight.
pub proof fn lemma_string_of<const G: u8>(seq: Seq<i32>)
    ensures
        StringWeight::<G>::of(seq).string() == seq,
        StringWeight::<G>::of(seq).spec_member(),
        StringWeight::<G>::of(seq) != StringWeight::<G>::spec_zero(),
    decreases seq.len(),
{
    lemma_view_of(seq);
}

proof fn lemma_view_of(seq: Seq<i32>)
    ensures
        labels_of(seq)@ == seq,
    decreases seq.len(),
{
    if seq.len() > 0 {
        lemma_view_of(seq.drop_first());
        assert(labels_of(seq)@ =~= seq);
    } else {
        assert(labels_of(seq)@ =~= seq);
    }
}

/// One string after another, as weights.
pub proof fn lemma_strings_multiply<const G: u8>(a: Seq<i32>, b: Seq<i32>)
    ensures
        StringWeight::<G>::of(a).spec_times(StringWeight::<G>::of(b)) == StringWeight::<G>::of(
            a + b,
        ),
{
    lemma_string_of::<G>(a);
    lemma_string_of::<G>(b);
}

/// A string of labels and a weight.
pub open spec fn paired<W: Weight, const G: u8>(labels: Seq<i32>, weight: W) -> GallicWeight<W, G> {
    GallicWeight { labels: StringWeight::of(labels), weight }
}

/// The states of a machine with the labels it writes moved into its weights.
pub proof fn lemma_states_in<W: Weight, const G: u8>(v: FstV<W>)
    requires
        v.wf(),
        v.n() < usize::MAX,
        v.start is Some,
    ensures
        labels_in::<W, G>(v).start == v.start,
        labels_in::<W, G>(v).n() == v.n(),
        forall|s: int|
            0 <= s < v.n() ==> #[trigger] labels_in::<W, G>(v).states[s] == plain_state::<
                W,
                GallicWeight<W, G>,
                ToGallicMapper<G>,
            >((), v.states[s]),
{
    lemma_plain::<W, GallicWeight<W, G>, ToGallicMapper<G>>(
        (),
        v.states,
        v.n() as usize,
        v.n() as int,
    );
}

/// A run with the labels it writes moved into its weights.
pub open spec fn run_in<W: Weight, const G: u8>(run: Seq<Arc<W>>) -> Seq<Arc<GallicWeight<W, G>>> {
    run.map_values(|arc: Arc<W>| to_gallic::<W, G>(arc))
}

proof fn lemma_run_in<W: Weight, const G: u8>(v: FstV<W>, s: int, run: Seq<Arc<W>>)
    requires
        v.wf(),
        v.n() < usize::MAX,
        v.start is Some,
        is_ending(v, s, run),
    ensures
        ({
            let g = labels_in::<W, G>(v);
            let there = run_in::<W, G>(run);
            let end = v.fin(end_of(s, run));
            &&& is_ending(g, s, there)
            &&& reads(there) == reads(run)
            &&& end_of(s, there) == end_of(s, run)
            &&& g.fin(end_of(s, run)) == paired::<W, G>(Seq::empty(), end)
            &&& total(there, paired::<W, G>(Seq::empty(), end)) == paired::<W, G>(
                writes(run),
                total(run, end),
            )
        }),
    decreases run.len(),
{
    lemma_states_in::<W, G>(v);
    let g = labels_in::<W, G>(v);
    let there = run_in::<W, G>(run);
    let e = end_of(s, run);
    let end = v.fin(e);
    assert(g.states[s] == plain_state::<W, GallicWeight<W, G>, ToGallicMapper<G>>(
        (),
        v.states[s],
    ));
    if run.len() == 0 {
        lemma_string_of::<G>(Seq::empty());
        assert(there =~= Seq::empty());
    } else {
        lemma_after_first(v, s, run);
        let rest = run.drop_first();
        let t = run[0].nextstate as int;
        lemma_run_in::<W, G>(v, t, rest);
        let i = choose|i: int| 0 <= i < v.arcs(s).len() && v.arcs(s)[i] == run[0];
        let arc = to_gallic::<W, G>(run[0]);
        assert(g.arcs(s)[i] == arc);
        lemma_go_first(g, s, arc, run_in::<W, G>(rest));
        assert(there =~= seq![arc] + run_in::<W, G>(rest));
        lemma_labels_from_front(run[0], rest);
        lemma_labels_from_front(arc, run_in::<W, G>(rest));
        assert(run =~= seq![run[0]] + rest);
        lemma_strings_multiply::<G>(noted(run[0].olabel), writes(rest));
        assert(written::<G>(run[0].olabel) == StringWeight::<G>::of(noted(run[0].olabel)));
        assert(there.drop_first() =~= run_in::<W, G>(rest));
    }
}

/// A path with the labels it writes moved into its weights reads what it read, and weighs
/// what it wrote together with what it weighed.
pub proof fn law_labels_move_in<W: Weight, const G: u8>(v: FstV<W>, run: Seq<Arc<W>>)
    requires
        v.wf(),
        v.n() < usize::MAX,
        is_accepting(v, run),
    ensures
        is_accepting(labels_in::<W, G>(v), run_in::<W, G>(run)),
        reads(run_in::<W, G>(run)) == reads(run),
        accepted_weight(labels_in::<W, G>(v), run_in::<W, G>(run)) == paired::<W, G>(
            writes(run),
            accepted_weight(v, run),
        ),
{
    lemma_states_in::<W, G>(v);
    lemma_run_in::<W, G>(v, v.start->0 as int, run);
}

/// Every path that has labels in its weights comes from one that writes them.
pub proof fn law_labels_moved_in_came_from_there<W: Weight, const G: u8>(
    v: FstV<W>,
    there: Seq<Arc<GallicWeight<W, G>>>,
) -> (run: Seq<Arc<W>>)
    requires
        v.wf(),
        v.n() < usize::MAX,
        v.start is Some,
        is_accepting(labels_in::<W, G>(v), there),
    ensures
        is_accepting(v, run),
        there == run_in::<W, G>(run),
{
    lemma_states_in::<W, G>(v);
    lemma_run_came_in::<W, G>(v, v.start->0 as int, there)
}

proof fn lemma_run_came_in<W: Weight, const G: u8>(
    v: FstV<W>,
    s: int,
    there: Seq<Arc<GallicWeight<W, G>>>,
) -> (run: Seq<Arc<W>>)
    requires
        v.wf(),
        v.n() < usize::MAX,
        v.start is Some,
        is_ending(labels_in::<W, G>(v), s, there),
    ensures
        is_ending(v, s, run),
        there == run_in::<W, G>(run),
    decreases there.len(),
{
    lemma_states_in::<W, G>(v);
    lemma_labels_in::<W, G>(v);
    let g = labels_in::<W, G>(v);
    assert(g.states[s] == plain_state::<W, GallicWeight<W, G>, ToGallicMapper<G>>(
        (),
        v.states[s],
    ));
    if there.len() == 0 {
        let run = Seq::<Arc<W>>::empty();
        assert(there =~= run_in::<W, G>(run));
        run
    } else {
        lemma_after_first(g, s, there);
        let i = choose|i: int| 0 <= i < g.arcs(s).len() && g.arcs(s)[i] == there[0];
        let arc = v.arcs(s)[i];
        assert(v.states[s].arcs[i].nextstate < v.n());
        assert(there[0] == to_gallic::<W, G>(arc));
        let rest = lemma_run_came_in::<W, G>(v, arc.nextstate as int, there.drop_first());
        lemma_go_first(v, s, arc, rest);
        let run = seq![arc] + rest;
        assert(there =~= run_in::<W, G>(run));
        run
    }
}

/// A state with the labels of its weights moved back out of them.
pub open spec fn state_out<W: Weight, const G: u8>(
    state: StateV<GallicWeight<W, G>>,
    top: usize,
) -> StateV<W> {
    let last = from_gallic(EPSILON, final_arc(state.final_weight));
    let arcs = state.arcs.map_values(|arc: Arc<GallicWeight<W, G>>| from_gallic(EPSILON, arc));
    if is_labelled(last) {
        StateV { final_weight: W::spec_zero(), arcs: arcs.push(Arc { nextstate: top, ..last }) }
    } else {
        StateV { final_weight: last.weight, arcs }
    }
}

/// Whether a weight, and an arc of it, can be carried by a single arc.
pub open spec fn arc_comes_out<W: Weight, const G: u8>(arc: Arc<GallicWeight<W, G>>) -> bool {
    is_no_final(arc) || (carriable(arc.weight) && arc.ilabel == arc.olabel)
}

proof fn lemma_arcs_out<W: Weight, const G: u8>(
    arcs: Seq<Arc<GallicWeight<W, G>>>,
    error: bool,
    k: int,
)
    requires
        0 <= k <= arcs.len(),
        !map_arcs::<GallicWeight<W, G>, W, FromGallicMapper<G>>((EPSILON, error), arcs, k).0.1,
    ensures
        !error,
        map_arcs::<GallicWeight<W, G>, W, FromGallicMapper<G>>((EPSILON, error), arcs, k) == (
            (EPSILON, false),
            arcs.take(k).map_values(|arc: Arc<GallicWeight<W, G>>| from_gallic(EPSILON, arc)),
        ),
        forall|i: int| 0 <= i < k ==> arc_comes_out(#[trigger] arcs[i]),
    decreases k,
{
    let out = |arc: Arc<GallicWeight<W, G>>| from_gallic(EPSILON, arc);
    if k > 0 {
        let (p, done) = map_arcs::<GallicWeight<W, G>, W, FromGallicMapper<G>>(
            (EPSILON, error),
            arcs,
            k - 1,
        );
        lemma_arcs_out(arcs, error, k - 1);
        assert(arcs.take(k).map_values(out) =~= arcs.take(k - 1).map_values(out).push(
            from_gallic(EPSILON, arcs[k - 1]),
        ));
    } else {
        assert(arcs.take(0).map_values(out) =~= Seq::empty());
    }
}

/// The states with the labels of their weights moved back out of them.
proof fn lemma_states_out<W: Weight, const G: u8>(
    states: Seq<StateV<GallicWeight<W, G>>>,
    top: usize,
    k: int,
)
    requires
        0 <= k <= states.len(),
        !map_states::<GallicWeight<W, G>, W, FromGallicMapper<G>>(
            (EPSILON, false),
            states,
            top,
            k,
        ).model.1,
    ensures
        ({
            let r = map_states::<GallicWeight<W, G>, W, FromGallicMapper<G>>(
                (EPSILON, false),
                states,
                top,
                k,
            );
            &&& r.model == (EPSILON, false)
            &&& r.failed is None
            &&& r.done.len() == k
            &&& forall|s: int| 0 <= s < k ==> #[trigger] r.done[s] == state_out(states[s], top)
            &&& forall|s: int|
                0 <= s < k ==> arc_comes_out(final_arc((#[trigger] states[s]).final_weight))
            &&& forall|s: int, i: int|
                0 <= s < k && 0 <= i < states[s].arcs.len() ==> arc_comes_out(
                    #[trigger] states[s].arcs[i],
                )
            &&& forall|s: int|
                0 <= s < k && is_labelled(
                    from_gallic(EPSILON, final_arc((#[trigger] states[s]).final_weight)),
                ) ==> r.superfinal
        }),
    decreases k,
{
    if k > 0 {
        let p = map_states::<GallicWeight<W, G>, W, FromGallicMapper<G>>(
            (EPSILON, false),
            states,
            top,
            k - 1,
        );
        let state = states[k - 1];
        let n = state.arcs.len() as int;
        lemma_never_fails::<W, G>(states, top, k - 1);
        let (q, arcs) = map_arcs::<GallicWeight<W, G>, W, FromGallicMapper<G>>(
            p.model,
            state.arcs,
            n,
        );
        assert(p.model == (EPSILON, p.model.1));
        lemma_arcs_out(state.arcs, p.model.1, n);
        lemma_states_out(states, top, k - 1);
        assert(state.arcs.take(n) =~= state.arcs);
        let r = map_states::<GallicWeight<W, G>, W, FromGallicMapper<G>>(
            (EPSILON, false),
            states,
            top,
            k,
        );
        assert(r.done == p.done.push(state_out(state, top)));
    }
}

/// Moving labels out never fails on the way: what a single arc cannot carry is noted.
proof fn lemma_never_fails<W: Weight, const G: u8>(
    states: Seq<StateV<GallicWeight<W, G>>>,
    top: usize,
    k: int,
)
    requires
        0 <= k <= states.len(),
    ensures
        ({
            let r = map_states::<GallicWeight<W, G>, W, FromGallicMapper<G>>(
                (EPSILON, false),
                states,
                top,
                k,
            );
            r.failed is None && r.model.0 == EPSILON
        }),
    decreases k,
{
    if k > 0 {
        lemma_never_fails::<W, G>(states, top, k - 1);
        let p = map_states::<GallicWeight<W, G>, W, FromGallicMapper<G>>(
            (EPSILON, false),
            states,
            top,
            k - 1,
        );
        lemma_label_stays::<W, G>(p.model, states[k - 1].arcs, states[k - 1].arcs.len() as int);
    }
}

proof fn lemma_label_stays<W: Weight, const G: u8>(
    m: (i32, bool),
    arcs: Seq<Arc<GallicWeight<W, G>>>,
    k: int,
)
    ensures
        map_arcs::<GallicWeight<W, G>, W, FromGallicMapper<G>>(m, arcs, k).0.0 == m.0,
    decreases k,
{
    if k > 0 {
        lemma_label_stays::<W, G>(m, arcs, k - 1);
    }
}

/// Whether no string that a weight of the machine holds has an epsilon in it.
pub open spec fn strings_are_plain<W: Weight, const G: u8>(f: FstV<GallicWeight<W, G>>) -> bool {
    &&& forall|s: int|
        0 <= s < f.n() ==> !(#[trigger] f.fin(s)).labels.string().contains(EPSILON)
    &&& forall|s: int, i: int|
        0 <= s < f.n() && 0 <= i < f.arcs(s).len() ==> !(#[trigger] f.arcs(
            s,
        )[i]).weight.labels.string().contains(EPSILON)
}

/// The labels of a string, without those that stand for nothing.
pub open spec fn spoken(string: Seq<i32>) -> Seq<i32>
    decreases string.len(),
{
    if string.len() == 0 {
        Seq::empty()
    } else {
        noted(string[0]) + spoken(string.drop_first())
    }
}

/// What one string after another says.
pub proof fn lemma_spoken_concat(a: Seq<i32>, b: Seq<i32>)
    ensures
        spoken(a + b) == spoken(a) + spoken(b),
    decreases a.len(),
{
    if a.len() == 0 {
        assert(a + b =~= b);
        assert(spoken(a) + spoken(b) =~= spoken(b));
    } else {
        lemma_spoken_concat(a.drop_first(), b);
        assert((a + b).drop_first() =~= a.drop_first() + b);
        assert((a + b)[0] == a[0]);
        assert(noted(a[0]) + (spoken(a.drop_first()) + spoken(b)) =~= (noted(a[0]) + spoken(
            a.drop_first(),
        )) + spoken(b));
    }
}

/// A string without an epsilon says itself.
pub proof fn lemma_spoken_plain(string: Seq<i32>)
    requires
        !string.contains(EPSILON),
    ensures
        spoken(string) == string,
    decreases string.len(),
{
    if string.len() > 0 {
        let rest = string.drop_first();
        assert(string.contains(string[0]));
        assert(!rest.contains(EPSILON)) by {
            if rest.contains(EPSILON) {
                let i = choose|i: int| 0 <= i < rest.len() && rest[i] == EPSILON;
                assert(string[i + 1] == EPSILON);
            }
        }
        lemma_spoken_plain(rest);
        assert(noted(string[0]) + rest =~= string);
    } else {
        assert(spoken(string) =~= string);
    }
}

/// Whether a pair holds a string that says `labels`.
pub open spec fn speaks<W: Weight, const G: u8>(w: GallicWeight<W, G>, labels: Seq<i32>) -> bool {
    w.labels.value is Labels && spoken(w.labels.string()) == labels
}

/// A product of pairs holds what both hold.
proof fn lemma_speaks_on<W: Weight, const G: u8>(
    a: GallicWeight<W, G>,
    x: Seq<i32>,
    b: GallicWeight<W, G>,
    y: Seq<i32>,
)
    requires
        speaks(a, x),
        speaks(b, y),
    ensures
        speaks(a.spec_times(b), x + y),
{
    lemma_spoken_concat(a.labels.string(), b.labels.string());
    lemma_string_of::<G>(a.labels.string() + b.labels.string());
}

/// What a weight that a single arc can carry says: the label that is carried.
proof fn lemma_carried_speaks<W: Weight, const G: u8>(w: GallicWeight<W, G>)
    requires
        carriable(w),
    ensures
        speaks(w, noted(carried(w))),
{
    let string = w.labels.string();
    if string.len() == 1 {
        assert(string.drop_first() =~= Seq::empty());
        assert(spoken(string.drop_first()) =~= Seq::empty());
        assert(noted(string[0]) + Seq::<i32>::empty() =~= noted(string[0]));
    } else {
        assert(spoken(string) =~= noted(carried(w)));
    }
}

/// A run over strings that have no epsilon in them holds a string that has none.
proof fn lemma_total_is_plain<W: Weight, const G: u8>(
    f: FstV<GallicWeight<W, G>>,
    s: int,
    there: Seq<Arc<GallicWeight<W, G>>>,
)
    requires
        f.wf(),
        strings_are_plain(f),
        is_ending(f, s, there),
    ensures
        !total(there, f.fin(end_of(s, there))).labels.string().contains(EPSILON),
    decreases there.len(),
{
    if there.len() > 0 {
        lemma_after_first(f, s, there);
        let i = choose|i: int| 0 <= i < f.arcs(s).len() && f.arcs(s)[i] == there[0];
        assert(!f.arcs(s)[i].weight.labels.string().contains(EPSILON));
        let rest = there.drop_first();
        lemma_total_is_plain(f, there[0].nextstate as int, rest);
        let a = there[0].weight.labels;
        let b = total(rest, f.fin(end_of(s, there))).labels;
        lemma_string_of::<G>(a.string() + b.string());
        assert(!(a.string() + b.string()).contains(EPSILON)) by {
            if (a.string() + b.string()).contains(EPSILON) {
                let j = choose|j: int|
                    0 <= j < (a.string() + b.string()).len() && (a.string() + b.string())[j]
                        == EPSILON;
                if j < a.string().len() {
                    assert(a.string()[j] == EPSILON);
                } else {
                    assert(b.string()[j - a.string().len()] == EPSILON);
                }
            }
        }
    }
}

/// A pair that says `labels`, and has no epsilon in its string, is that string.
proof fn lemma_speaks_plainly<W: Weight, const G: u8>(
    w: GallicWeight<W, G>,
    labels: Seq<i32>,
)
    requires
        speaks(w, labels),
        !w.labels.string().contains(EPSILON),
    ensures
        w == paired::<W, G>(labels, w.weight),
{
    lemma_spoken_plain(w.labels.string());
    match w.labels.value {
        StringWeightValue::Labels(held) => {
            lemma_labels_of_view(held);
        },
        _ => {},
    }
}

/// What a weight that a single arc can carry holds: the label that is carried.
pub proof fn lemma_carried<W: Weight, const G: u8>(w: GallicWeight<W, G>)
    requires
        carriable(w),
        !w.labels.string().contains(EPSILON),
    ensures
        w == paired::<W, G>(noted(carried(w)), w.weight),
{
    lemma_carried_speaks(w);
    lemma_speaks_plainly(w, noted(carried(w)));
}

/// What is known of a machine whose labels are moved out of its weights.
proof fn lemma_machine_out<W: Weight, const G: u8>(
    f: FstV<GallicWeight<W, G>>,
    v: FstV<W>,
    o: FstV<W>,
)
    requires
        f.wf(),
        f.start is Some,
        labels_come_out(f),
    ensures
        ({
            let out = labels_out(f, v, o);
            let top = f.n() as usize;
            &&& out.start == f.start
            &&& f.n() <= out.n() <= f.n() + 1
            &&& forall|s: int| 0 <= s < f.n() ==> #[trigger] out.states[s] == state_out(
                f.states[s],
                top,
            )
            &&& out.n() > f.n() ==> out.fin(f.n() as int) == W::spec_one() && out.arcs(
                f.n() as int,
            ).len() == 0
            &&& forall|s: int|
                0 <= s < f.n() && is_labelled(
                    from_gallic(EPSILON, final_arc((#[trigger] f.states[s]).final_weight)),
                ) ==> out.n() > f.n()
            &&& forall|s: int|
                0 <= s < f.n() ==> arc_comes_out(final_arc((#[trigger] f.states[s]).final_weight))
            &&& forall|s: int, i: int|
                0 <= s < f.n() && 0 <= i < f.states[s].arcs.len() ==> arc_comes_out(
                    #[trigger] f.states[s].arcs[i],
                )
        }),
{
    lemma_states_out::<W, G>(f.states, f.n() as usize, f.n() as int);
    let r = map_all::<GallicWeight<W, G>, W, FromGallicMapper<G>>((EPSILON, false), f);
    let out = labels_out(f, v, o);
    assert(out.states =~= r.done + superfinal_state(r.superfinal));
    assert forall|s: int| 0 <= s < f.n() implies #[trigger] out.states[s] == state_out(
        f.states[s],
        f.n() as usize,
    ) by {
        assert(out.states[s] == r.done[s]);
    }
}

/// A path whose labels are moved out of its weights is still there: it reads what it read,
/// writes what the string that its weight held says, and weighs the rest of it.
///
/// What the path ends with weighs something.
pub proof fn law_labels_are_spoken<W: Weight, const G: u8>(
    f: FstV<GallicWeight<W, G>>,
    v: FstV<W>,
    o: FstV<W>,
    there: Seq<Arc<GallicWeight<W, G>>>,
) -> (run: Seq<Arc<W>>)
    requires
        f.wf(),
        labels_come_out(f),
        W::spec_one() != W::spec_zero(),
        is_accepting(f, there),
        f.fin(end_of(f.start->0 as int, there)).weight != W::spec_zero(),
    ensures
        is_accepting(labels_out(f, v, o), run),
        reads(run) == reads(there),
        speaks(accepted_weight(f, there), writes(run)),
        one_changes_nothing::<W>() ==> accepted_weight(f, there).weight == accepted_weight(
            labels_out(f, v, o),
            run,
        ),
{
    lemma_machine_out(f, v, o);
    lemma_run_out(f, v, o, f.start->0 as int, there)
}

/// A path whose labels are moved out of its weights is still there: it reads what it read,
/// and writes the string that its weight held, and weighs the rest of it.
///
/// The strings have no epsilon in them, and what the path ends with weighs something.
pub proof fn law_labels_move_out<W: Weight, const G: u8>(
    f: FstV<GallicWeight<W, G>>,
    v: FstV<W>,
    o: FstV<W>,
    there: Seq<Arc<GallicWeight<W, G>>>,
) -> (run: Seq<Arc<W>>)
    requires
        f.wf(),
        labels_come_out(f),
        strings_are_plain(f),
        W::spec_one() != W::spec_zero(),
        is_accepting(f, there),
        f.fin(end_of(f.start->0 as int, there)).weight != W::spec_zero(),
    ensures
        is_accepting(labels_out(f, v, o), run),
        reads(run) == reads(there),
        one_changes_nothing::<W>() ==> accepted_weight(f, there) == paired::<W, G>(
            writes(run),
            accepted_weight(labels_out(f, v, o), run),
        ),
{
    let run = law_labels_are_spoken(f, v, o, there);
    lemma_total_is_plain(f, f.start->0 as int, there);
    lemma_speaks_plainly(accepted_weight(f, there), writes(run));
    run
}

#[verifier::rlimit(40)]
#[verifier::spinoff_prover]
proof fn lemma_run_out<W: Weight, const G: u8>(
    f: FstV<GallicWeight<W, G>>,
    v: FstV<W>,
    o: FstV<W>,
    s: int,
    there: Seq<Arc<GallicWeight<W, G>>>,
) -> (run: Seq<Arc<W>>)
    requires
        f.wf(),
        f.start is Some,
        labels_come_out(f),
        W::spec_one() != W::spec_zero(),
        is_ending(f, s, there),
        f.fin(end_of(s, there)).weight != W::spec_zero(),
    ensures
        is_ending(labels_out(f, v, o), s, run),
        reads(run) == reads(there),
        speaks(total(there, f.fin(end_of(s, there))), writes(run)),
        one_changes_nothing::<W>() ==> total(there, f.fin(end_of(s, there))).weight == total(
            run,
            labels_out(f, v, o).fin(end_of(s, run)),
        ),
    decreases there.len(),
{
    lemma_machine_out(f, v, o);
    let out = labels_out(f, v, o);
    let n = f.n() as int;
    let state = f.states[s];
    assert(out.states[s] == state_out(state, n as usize));
    if there.len() == 0 {
        let w = f.fin(s);
        assert(w == state.final_weight);
        assert(arc_comes_out(final_arc(state.final_weight)));
        lemma_carried_speaks(w);
        let last = from_gallic(EPSILON, final_arc(w));
        assert(last.olabel == carried(w) && last.weight == w.weight && last.ilabel == EPSILON);
        if is_labelled(last) {
            let arc = Arc { nextstate: n as usize, ..last };
            let none = Seq::<Arc<W>>::empty();
            assert(out.arcs(s)[state.arcs.len() as int] == arc);
            assert(is_ending(out, n, none));
            lemma_go_first(out, s, arc, none);
            let run = seq![arc] + none;
            lemma_labels_from_front(arc, none);
            assert(writes(run) =~= noted(carried(w)));
            assert(reads(run) =~= Seq::empty());
            if one_changes_nothing::<W>() {
                reveal(one_changes_nothing);
                assert(total(none, W::spec_one()) == W::spec_one());
                assert(total(run, W::spec_one()) == w.weight.spec_times(W::spec_one()));
            }
            run
        } else {
            let run = Seq::<Arc<W>>::empty();
            assert(noted(carried(w)) =~= Seq::empty());
            run
        }
    } else {
        lemma_after_first(f, s, there);
        let rest = there.drop_first();
        let t = there[0].nextstate as int;
        let i = choose|i: int| 0 <= i < f.arcs(s).len() && f.arcs(s)[i] == there[0];
        assert(arc_comes_out(f.states[s].arcs[i]));
        assert(f.states[s].arcs[i].nextstate < f.n());
        let w = there[0].weight;
        lemma_carried_speaks(w);
        let arc = from_gallic(EPSILON, there[0]);
        assert(out.arcs(s)[i] == arc);
        let more = lemma_run_out(f, v, o, t, rest);
        lemma_go_first(out, s, arc, more);
        lemma_labels_from_front(arc, more);
        lemma_labels_from_front(there[0], rest);
        let run = seq![arc] + more;
        assert(there =~= seq![there[0]] + rest);
        lemma_speaks_on(
            w,
            noted(carried(w)),
            total(rest, f.fin(end_of(t, rest))),
            writes(more),
        );
        run
    }
}

/// Every path whose labels have been moved out of its weights was there, and its weight held
/// a string that says what is written now.
pub proof fn law_what_is_spoken_was_held<W: Weight, const G: u8>(
    f: FstV<GallicWeight<W, G>>,
    v: FstV<W>,
    o: FstV<W>,
    run: Seq<Arc<W>>,
) -> (there: Seq<Arc<GallicWeight<W, G>>>)
    requires
        f.wf(),
        f.start is Some,
        labels_come_out(f),
        is_accepting(labels_out(f, v, o), run),
    ensures
        is_accepting(f, there),
        reads(there) == reads(run),
        speaks(accepted_weight(f, there), writes(run)),
        one_changes_nothing::<W>() ==> accepted_weight(f, there).weight == accepted_weight(
            labels_out(f, v, o),
            run,
        ),
{
    lemma_machine_out(f, v, o);
    assert(f.start->0 < f.n());
    lemma_run_came_out(f, v, o, f.start->0 as int, run)
}

/// Every path whose labels have been moved out of its weights was there.
pub proof fn law_labels_moved_out_came_from_there<W: Weight, const G: u8>(
    f: FstV<GallicWeight<W, G>>,
    v: FstV<W>,
    o: FstV<W>,
    run: Seq<Arc<W>>,
) -> (there: Seq<Arc<GallicWeight<W, G>>>)
    requires
        f.wf(),
        f.start is Some,
        labels_come_out(f),
        strings_are_plain(f),
        is_accepting(labels_out(f, v, o), run),
    ensures
        is_accepting(f, there),
        reads(there) == reads(run),
        one_changes_nothing::<W>() ==> accepted_weight(f, there) == paired::<W, G>(
            writes(run),
            accepted_weight(labels_out(f, v, o), run),
        ),
{
    let there = law_what_is_spoken_was_held(f, v, o, run);
    lemma_total_is_plain(f, f.start->0 as int, there);
    lemma_speaks_plainly(accepted_weight(f, there), writes(run));
    there
}

#[verifier::rlimit(40)]
#[verifier::spinoff_prover]
proof fn lemma_run_came_out<W: Weight, const G: u8>(
    f: FstV<GallicWeight<W, G>>,
    v: FstV<W>,
    o: FstV<W>,
    s: int,
    run: Seq<Arc<W>>,
) -> (there: Seq<Arc<GallicWeight<W, G>>>)
    requires
        f.wf(),
        f.start is Some,
        labels_come_out(f),
        0 <= s < f.n(),
        is_ending(labels_out(f, v, o), s, run),
    ensures
        is_ending(f, s, there),
        reads(run) == reads(there),
        speaks(total(there, f.fin(end_of(s, there))), writes(run)),
        one_changes_nothing::<W>() ==> total(there, f.fin(end_of(s, there))).weight == total(
            run,
            labels_out(f, v, o).fin(end_of(s, run)),
        ),
    decreases run.len(),
{
    lemma_machine_out(f, v, o);
    let out = labels_out(f, v, o);
    let n = f.n() as int;
    let state = f.states[s];
    let w = f.fin(s);
    assert(out.states[s] == state_out(state, n as usize));
    assert(arc_comes_out(final_arc(state.final_weight)));
    let none = Seq::<Arc<GallicWeight<W, G>>>::empty();
    if run.len() == 0 {
        if is_no_final(final_arc(w)) {
            assert(out.fin(s) == W::spec_zero());
        }
        lemma_carried_speaks(w);
        assert(noted(carried(w)) =~= Seq::empty());
        none
    } else {
        assert(run[0].nextstate < out.n() && out.arcs(s).contains(run[0])) by {
            assert(steps(out, s, run, 0));
            let j = choose|j: int| 0 <= j < out.arcs(s).len() && out.arcs(s)[j] == run[0];
            if j < state.arcs.len() {
                assert(arc_comes_out(f.states[s].arcs[j]));
                assert(f.states[s].arcs[j].nextstate < f.n());
            }
        }
        let j = choose|j: int| 0 <= j < out.arcs(s).len() && out.arcs(s)[j] == run[0];
        let rest = run.drop_first();
        lemma_ending_goes_on(out, s, run);
        if j < state.arcs.len() {
            let arc = f.arcs(s)[j];
            assert(arc_comes_out(f.states[s].arcs[j]));
            assert(f.states[s].arcs[j].nextstate < f.n());
            assert(run[0] == from_gallic(EPSILON, arc));
            lemma_carried_speaks(arc.weight);
            let more = lemma_run_came_out(f, v, o, arc.nextstate as int, rest);
            lemma_go_first(f, s, arc, more);
            lemma_labels_from_front(run[0], rest);
            lemma_labels_from_front(arc, more);
            assert(run =~= seq![run[0]] + rest);
            let there = seq![arc] + more;
            assert(there.drop_first() =~= more);
            lemma_speaks_on(
                arc.weight,
                noted(carried(arc.weight)),
                total(more, f.fin(end_of(arc.nextstate as int, more))),
                writes(rest),
            );
            there
        } else {
            let last = from_gallic(EPSILON, final_arc(w));
            assert(is_labelled(last));
            assert(run[0] == (Arc { nextstate: n as usize, ..last }));
            lemma_carried_speaks(w);
            if rest.len() > 0 {
                assert(steps(out, n, rest, 0));
            }
            assert(rest.len() == 0);
            assert(run =~= seq![run[0]] + rest);
            lemma_labels_from_front(run[0], rest);
            assert(writes(run) =~= noted(carried(w)));
            assert(reads(run) =~= Seq::empty());
            if one_changes_nothing::<W>() {
                reveal(one_changes_nothing);
                assert(total(rest, W::spec_one()) == W::spec_one());
                assert(total(run, W::spec_one()) == w.weight.spec_times(W::spec_one()));
            }
            none
        }
    }
}

/// What comes after the first arc of a run, where that arc leads to a state that is there.
proof fn lemma_ending_goes_on<W: Weight>(v: FstV<W>, s: int, run: Seq<Arc<W>>)
    requires
        is_ending(v, s, run),
        run.len() > 0,
        run[0].nextstate < v.n(),
    ensures
        is_ending(v, run[0].nextstate as int, run.drop_first()),
        end_of(run[0].nextstate as int, run.drop_first()) == end_of(s, run),
{
    let rest = run.drop_first();
    let t = run[0].nextstate as int;
    assert forall|i: int| 0 <= i < rest.len() implies #[trigger] steps(v, t, rest, i) by {
        assert(steps(v, s, run, i + 1));
        assert(state_at(s, run, i + 1) == state_at(t, rest, i));
    }
    if rest.len() > 0 {
        assert(rest[rest.len() - 1] == run[run.len() - 1]);
    }
}

} // verus!
