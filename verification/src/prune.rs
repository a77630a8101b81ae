//! Throwing away what no good path goes through.
//!
//! A state or arc is kept when some accepting path through it weighs no more than the
//! shortest path times a threshold; the rest go. That is how a lattice becomes the part
//! of it worth searching.
//!
//! The weight has to have the path property, so that "shortest" means something, and
//! the distances the decision rests on have to settle.
use crate::arc::Arc;
use crate::arc_filter::{AnyArcFilter, ArcFilter};
use crate::error::OpenFstError;
use crate::shortest_distance::{is_distance, shortest_distance_reverse};
use crate::push::never_settles;
use crate::vector_fst::{
    lemma_forget_forget, lemma_rank_monotone, named_after, rank, restricted, FstV, StateV,
    VectorFst,
};
use crate::weight::{natural_less, spec_natural_less, Weight};
use vstd::prelude::*;

verus! {

/// What to keep.
pub struct PruneOptions<W: Weight, F> {
    /// How much heavier than the shortest path a path may be and still count.
    pub weight_threshold: W,
    /// At most this many states, or `None` for no limit.
    pub state_threshold: Option<usize>,
    /// Which arcs to consider.
    pub filter: F,
    /// The distance from each state to the final states, if it is already known.
    pub distance: Option<Vec<W>>,
    /// How close the distances have to converge.
    pub delta: W::Delta,
    /// Whether the threshold multiplies the shortest weight on the left rather than the
    /// right, which only matters where the product does not commute.
    pub threshold_initial: bool,
}

impl<W: Weight, F> PruneOptions<W, F> {
    /// Keeps everything within `weight_threshold` of the shortest path.
    pub fn new(weight_threshold: W, filter: F) -> (opts: Self)
        ensures
            opts.weight_threshold == weight_threshold,
            opts.state_threshold is None,
            opts.filter == filter,
            opts.distance is None,
            opts.delta == W::spec_default_delta(),
            !opts.threshold_initial,
    {
        PruneOptions {
            weight_threshold,
            state_threshold: None,
            filter,
            distance: None,
            delta: W::default_delta(),
            threshold_initial: false,
        }
    }
}

impl<W: Weight> PruneOptions<W, AnyArcFilter> {
    /// As [`new`](PruneOptions::new), considering every arc.
    pub fn threshold(weight_threshold: W) -> (opts: Self)
        ensures
            opts.weight_threshold == weight_threshold,
            opts.state_threshold is None,
            opts.filter == AnyArcFilter,
            opts.distance is None,
            opts.delta == W::spec_default_delta(),
            !opts.threshold_initial,
    {
        Self::new(weight_threshold, AnyArcFilter)
    }
}

/// The distance of a state; one past the end cannot reach a final state.
pub open spec fn distance_at<W: Weight>(distance: Seq<W>, s: int) -> W {
    if 0 <= s < distance.len() {
        distance[s]
    } else {
        W::spec_zero()
    }
}

/// The distance of a state; one past the end cannot reach a final state.
fn distance_of<W: Weight>(distance: &Vec<W>, s: usize) -> (w: W)
    ensures
        w == distance_at(distance@, s as int),
{
    if s < distance.len() {
        distance[s].duplicate()
    } else {
        W::zero()
    }
}

/// How far the search has come: what is known of the way to each state, which states
/// have been met, and which have been visited.
#[verifier::ext_equal]
pub struct FrontV<W> {
    /// The best way found to each state.
    pub idist: Seq<W>,
    /// Which states have been met.
    pub met: Seq<bool>,
    /// Which states have been visited.
    pub visited: Seq<bool>,
}

/// How far the search has come.
struct Front<W> {
    idist: Vec<W>,
    met: Vec<bool>,
    visited: Vec<bool>,
}

impl<W> View for Front<W> {
    type V = FrontV<W>;

    closed spec fn view(&self) -> FrontV<W> {
        FrontV { idist: self.idist@, met: self.met@, visited: self.visited@ }
    }
}

impl<W: Weight> FrontV<W> {
    /// Whether everything is known of `n` states.
    pub open spec fn sized(self, n: nat) -> bool {
        &&& self.idist.len() == n
        &&& self.met.len() == n
        &&& self.visited.len() == n
    }

    /// Whether a state has been met but not visited.
    pub open spec fn waits(self, s: int) -> bool {
        self.met[s] && !self.visited[s]
    }

    /// What the best path known through a state weighs.
    pub open spec fn through(self, fdist: Seq<W>, s: int) -> W {
        self.idist[s].spec_times(distance_at(fdist, s))
    }

    /// The lightest of the states below `k` that wait; the first of those no later one
    /// is lighter than.
    pub open spec fn lightest(self, fdist: Seq<W>, k: int) -> Option<int>
        decreases k,
    {
        if k <= 0 {
            None
        } else {
            let best = self.lightest(fdist, k - 1);
            if !self.waits(k - 1) {
                best
            } else {
                match best {
                    None => Some(k - 1),
                    Some(b) => if spec_natural_less(
                        self.through(fdist, k - 1),
                        self.through(fdist, b),
                    ) {
                        Some(k - 1)
                    } else {
                        best
                    },
                }
            }
        }
    }

    /// The front with a better way to `s`, if `way` is one.
    pub open spec fn improved(self, s: int, way: W) -> Self {
        FrontV {
            idist: if spec_natural_less(way, self.idist[s]) {
                self.idist.update(s, way)
            } else {
                self.idist
            },
            ..self
        }
    }
}

impl<W: Weight> Front<W> {
    /// A front of `n` states that starts at `start`, if it is worth starting.
    fn new(n: usize, start: usize, begins: bool) -> (front: Self)
        requires
            start < n,
        ensures
            front@ == front_at::<W>(n as nat, start as int, begins),
    {
        let mut idist: Vec<W> = Vec::new();
        let mut met: Vec<bool> = Vec::new();
        let mut visited: Vec<bool> = Vec::new();
        let mut i: usize = 0;
        while i < n
            invariant
                i <= n,
                idist@ =~= Seq::new(i as nat, |s: int| W::spec_zero()),
                met@ =~= Seq::new(i as nat, |s: int| false),
                visited@ =~= Seq::new(i as nat, |s: int| false),
            decreases n - i,
        {
            idist.push(W::zero());
            met.push(false);
            visited.push(false);
            i = i + 1;
        }
        if begins {
            idist.set(start, W::one());
            met.set(start, true);
        }
        let front = Front { idist, met, visited };
        assert(front@ =~= front_at::<W>(n as nat, start as int, begins));
        front
    }

    /// The lightest state that waits.
    fn lightest(&self, fdist: &Vec<W>) -> (best: Option<usize>)
        requires
            self@.sized(self@.idist.len()),
        ensures
            match best {
                None => self@.lightest(fdist@, self@.idist.len() as int) is None,
                Some(s) => {
                    &&& self@.lightest(fdist@, self@.idist.len() as int) == Some(s as int)
                    &&& s < self@.idist.len()
                    &&& self@.waits(s as int)
                },
            },
    {
        let n: usize = self.idist.len();
        let mut best: Option<usize> = None;
        let mut k: usize = 0;
        while k < n
            invariant
                k <= n,
                self@.sized(n as nat),
                match best {
                    None => self@.lightest(fdist@, k as int) is None,
                    Some(s) => {
                        &&& self@.lightest(fdist@, k as int) == Some(s as int)
                        &&& s < k
                        &&& self@.waits(s as int)
                    },
                },
            decreases n - k,
        {
            if self.met[k] && !self.visited[k] {
                match best {
                    None => {
                        best = Some(k);
                    },
                    Some(b) => {
                        let x = self.idist[k].times(&distance_of(fdist, k));
                        let y = self.idist[b].times(&distance_of(fdist, b));
                        if natural_less(&x, &y) {
                            best = Some(k);
                        }
                    },
                }
            }
            k = k + 1;
        }
        best
    }

    /// Takes down a way to `s`, if it is better than what is known.
    fn improve(&mut self, s: usize, way: W)
        requires
            old(self)@.sized(old(self)@.idist.len()),
            s < old(self)@.idist.len(),
        ensures
            final(self)@ == old(self)@.improved(s as int, way),
    {
        let ghost v = self@;
        if natural_less(&way, &self.idist[s]) {
            self.idist.set(s, way);
        }
        assert(self@ =~= v.improved(s as int, way));
    }
}

/// The front of `n` states that starts at `start`, if it is worth starting.
pub open spec fn front_at<W: Weight>(n: nat, start: int, begins: bool) -> FrontV<W> {
    FrontV {
        idist: Seq::new(
            n,
            |s: int|
                if begins && s == start {
                    W::spec_one()
                } else {
                    W::spec_zero()
                },
        ),
        met: Seq::new(n, |s: int| begins && s == start),
        visited: Seq::new(n, |s: int| false),
    }
}

/// What a path may weigh at most.
pub open spec fn limit_of<W: Weight, F>(opts: PruneOptions<W, F>, shortest: W) -> W {
    if opts.threshold_initial {
        opts.weight_threshold.spec_times(shortest)
    } else {
        shortest.spec_times(opts.weight_threshold)
    }
}

/// Whether there is no room for one more state.
pub open spec fn is_full(state_threshold: Option<usize>, count: nat) -> bool {
    state_threshold matches Some(most) && count >= most
}

/// Whether a flag comes to be set.
pub proof fn lemma_rank_set(flags: Seq<bool>, s: int, n: int)
    requires
        0 <= n <= flags.len(),
        0 <= s < flags.len(),
        !flags[s],
    ensures
        rank(flags.update(s, true), n) == rank(flags, n) + (if s < n {
            1nat
        } else {
            0nat
        }),
    decreases n,
{
    if n > 0 {
        lemma_rank_set(flags, s, n - 1);
    }
}

proof fn lemma_rank_below(flags: Seq<bool>, s: int, n: int)
    requires
        0 <= s < n <= flags.len(),
        !flags[s],
    ensures
        rank(flags, n) < n,
    decreases n,
{
    lemma_rank_monotone(flags, 0, n - 1);
    if s < n - 1 {
        lemma_rank_below(flags, s, n - 1);
    }
}

proof fn lemma_rank_zero(flags: Seq<bool>, n: int)
    requires
        0 <= n <= flags.len(),
        forall|s: int| 0 <= s < flags.len() ==> !#[trigger] flags[s],
    ensures
        rank(flags, n) == 0,
    decreases n,
{
    if n > 0 {
        lemma_rank_zero(flags, n - 1);
    }
}

/// The search while the arcs of one state are looked at.
#[verifier::ext_equal]
pub struct Sifting<W> {
    /// How far the search has come.
    pub front: FrontV<W>,
    /// The arcs that are kept.
    pub kept: Seq<Arc<W>>,
}

/// The front with one more state met, where there is room for it.
pub open spec fn with_met<W: Weight>(
    front: FrontV<W>,
    state_threshold: Option<usize>,
    s: int,
) -> FrontV<W> {
    if front.visited[s] || is_full(state_threshold, rank(front.met, front.met.len() as int)) {
        front
    } else {
        FrontV { met: front.met.update(s, true), ..front }
    }
}

/// What looking at the first `k` arcs of a state comes to, `here` being the way to it.
pub open spec fn sifted<W: Weight, F: ArcFilter<W>>(
    opts: PruneOptions<W, F>,
    fdist: Seq<W>,
    limit: W,
    here: W,
    front: FrontV<W>,
    arcs: Seq<Arc<W>>,
    k: int,
) -> Sifting<W>
    decreases k,
{
    if k <= 0 {
        Sifting { front, kept: Seq::empty() }
    } else {
        let before = sifted(opts, fdist, limit, here, front, arcs, k - 1);
        let arc = arcs[k - 1];
        let next = arc.nextstate as int;
        let way = here.spec_times(arc.weight);
        if !opts.filter.accepts(arc) {
            Sifting { kept: before.kept.push(arc), ..before }
        } else if spec_natural_less(limit, way.spec_times(distance_at(fdist, next))) {
            before
        } else {
            Sifting {
                front: with_met(before.front.improved(next, way), opts.state_threshold, next),
                kept: before.kept.push(arc),
            }
        }
    }
}

/// The search and what it leaves of each state.
#[verifier::ext_equal]
pub struct Pruning<W> {
    /// How far the search has come.
    pub front: FrontV<W>,
    /// What is left of each state.
    pub states: Seq<StateV<W>>,
}

/// The search once `s` has been visited.
pub open spec fn visited_one<W: Weight, F: ArcFilter<W>>(
    opts: PruneOptions<W, F>,
    fdist: Seq<W>,
    limit: W,
    p: Pruning<W>,
    s: int,
) -> Pruning<W> {
    let here = p.front.idist[s];
    let state = p.states[s];
    let entered = FrontV { visited: p.front.visited.update(s, true), ..p.front };
    let r = sifted(opts, fdist, limit, here, entered, state.arcs, state.arcs.len() as int);
    Pruning {
        front: r.front,
        states: p.states.update(
            s,
            StateV {
                final_weight: if spec_natural_less(limit, here.spec_times(state.final_weight)) {
                    W::spec_zero()
                } else {
                    state.final_weight
                },
                arcs: r.kept,
            },
        ),
    }
}

/// The search once up to `fuel` more states have been visited, the lightest first.
pub open spec fn searched<W: Weight, F: ArcFilter<W>>(
    opts: PruneOptions<W, F>,
    fdist: Seq<W>,
    limit: W,
    p: Pruning<W>,
    fuel: nat,
) -> Pruning<W>
    decreases fuel,
{
    if fuel == 0 {
        p
    } else {
        match p.front.lightest(fdist, p.front.idist.len() as int) {
            None => p,
            Some(s) => searched(
                opts,
                fdist,
                limit,
                visited_one(opts, fdist, limit, p, s),
                (fuel - 1) as nat,
            ),
        }
    }
}

/// The machine without its states.
pub open spec fn emptied<W: Weight>(v: FstV<W>) -> FstV<W> {
    FstV { start: None, states: Seq::<StateV<W>>::empty(), ..v }.forget()
}

/// What pruning `v` by the distances `fdist` leaves.
pub open spec fn pruned<W: Weight, F: ArcFilter<W>>(
    opts: PruneOptions<W, F>,
    v: FstV<W>,
    fdist: Seq<W>,
) -> FstV<W> {
    if v.start is None || opts.state_threshold == Some(0usize) || distance_at(
        fdist,
        v.start->0 as int,
    ) == W::spec_zero() {
        // Nothing accepts, so nothing is worth keeping.
        emptied(v)
    } else {
        let start = v.start->0 as int;
        let limit = limit_of(opts, fdist[start]);
        let begins = !spec_natural_less(limit, fdist[start]);
        let p = searched(
            opts,
            fdist,
            limit,
            Pruning { front: front_at(v.n(), start, begins), states: v.states },
            v.n(),
        );
        restricted(v.with_states(p.states), p.front.visited)
    }
}

/// Whether `fdist` is the distance to go by: the one supplied, or what shortest
/// distance comes to.
pub open spec fn is_final_distance<W: Weight>(
    v: FstV<W>,
    supplied: Option<Vec<W>>,
    delta: W::Delta,
    fdist: Seq<W>,
) -> bool {
    match supplied {
        Some(distance) => fdist == distance@,
        None => is_distance(v, true, delta, fdist),
    }
}

/// The distance from each state to the final states, computed if it was not supplied.
fn final_distance<W: Weight>(
    fst: &VectorFst<W>,
    supplied: &Option<Vec<W>>,
    delta: &W::Delta,
) -> (result: Result<Vec<W>, OpenFstError>)
    requires
        fst@.wf(),
    ensures
        match result {
            Ok(fdist) => is_final_distance(fst@, *supplied, *delta, fdist@),
            Err(e) => e is InvalidOperation && *supplied is None && never_settles(
                fst@,
                true,
                *delta,
            ),
        },
{
    match supplied {
        Some(distance) => {
            let mut copy: Vec<W> = Vec::new();
            let mut i: usize = 0;
            while i < distance.len()
                invariant
                    i <= distance@.len(),
                    copy@ =~= distance@.take(i as int),
                decreases distance@.len() - i,
            {
                copy.push(distance[i].duplicate());
                i = i + 1;
            }
            assert(copy@ =~= distance@);
            Ok(copy)
        },
        None => shortest_distance_reverse(fst, delta),
    }
}

/// What a path may weigh at most.
fn find_limit<W: Weight, F>(opts: &PruneOptions<W, F>, shortest: &W) -> (limit: W)
    ensures
        limit == limit_of(*opts, *shortest),
{
    if opts.threshold_initial {
        opts.weight_threshold.times(shortest)
    } else {
        shortest.times(&opts.weight_threshold)
    }
}

proof fn lemma_sifted_sized<W: Weight, F: ArcFilter<W>>(
    opts: PruneOptions<W, F>,
    fdist: Seq<W>,
    limit: W,
    here: W,
    front: FrontV<W>,
    arcs: Seq<Arc<W>>,
    k: int,
    n: nat,
)
    requires
        0 <= k <= arcs.len(),
        front.sized(n),
        forall|i: int| 0 <= i < arcs.len() ==> (#[trigger] arcs[i]).nextstate < n,
    ensures
        sifted(opts, fdist, limit, here, front, arcs, k).front.sized(n),
        sifted(opts, fdist, limit, here, front, arcs, k).front.visited == front.visited,
        forall|i: int|
            0 <= i < sifted(opts, fdist, limit, here, front, arcs, k).kept.len() ==> (
            #[trigger] sifted(opts, fdist, limit, here, front, arcs, k).kept[i]).nextstate < n,
    decreases k,
{
    if k > 0 {
        lemma_sifted_sized(opts, fdist, limit, here, front, arcs, k - 1, n);
        assert(arcs[k - 1].nextstate < n);
    }
}

/// Looks at the arcs of one state, and returns those that are kept.
fn sift<W: Weight, F: ArcFilter<W>>(
    opts: &PruneOptions<W, F>,
    fdist: &Vec<W>,
    limit: &W,
    here: &W,
    front: &mut Front<W>,
    count: &mut usize,
    arcs: &Vec<Arc<W>>,
) -> (kept: Vec<Arc<W>>)
    requires
        old(front)@.sized(old(front)@.idist.len()),
        old(front)@.idist.len() <= usize::MAX,
        *old(count) == rank(old(front)@.met, old(front)@.idist.len() as int),
        forall|i: int|
            0 <= i < arcs@.len() ==> (#[trigger] arcs@[i]).nextstate < old(front)@.idist.len(),
    ensures
        final(front)@.sized(old(front)@.idist.len()),
        *final(count) == rank(final(front)@.met, old(front)@.idist.len() as int),
        ({
            let r = sifted(
                *opts,
                fdist@,
                *limit,
                *here,
                old(front)@,
                arcs@,
                arcs@.len() as int,
            );
            final(front)@ == r.front && kept@ == r.kept
        }),
{
    let ghost f0 = front@;
    let ghost n = f0.idist.len();
    let mut kept: Vec<Arc<W>> = Vec::new();
    let mut k: usize = 0;
    while k < arcs.len()
        invariant
            k <= arcs@.len(),
            f0.sized(n),
            n <= usize::MAX,
            front@.sized(n),
            *count == rank(front@.met, n as int),
            forall|i: int| 0 <= i < arcs@.len() ==> (#[trigger] arcs@[i]).nextstate < n,
            ({
                let r = sifted(*opts, fdist@, *limit, *here, f0, arcs@, k as int);
                front@ == r.front && kept@ == r.kept
            }),
        decreases arcs@.len() - k,
    {
        let arc = &arcs[k];
        let ghost f1 = front@;
        if !opts.filter.call(arc) {
            kept.push(arc.duplicate());
        } else {
            let next: usize = arc.nextstate;
            assert(next < n);
            let way = here.times(&arc.weight);
            let onward = way.times(&distance_of(fdist, next));
            if !natural_less(limit, &onward) {
                kept.push(arc.duplicate());
                front.improve(next, way);
                let full = match opts.state_threshold {
                    Some(most) => *count >= most,
                    None => false,
                };
                if !front.visited[next] && !full {
                    let ghost met = front@.met;
                    if !front.met[next] {
                        proof {
                            lemma_rank_set(met, next as int, n as int);
                            lemma_rank_below(met, next as int, n as int);
                        }
                        front.met.set(next, true);
                        *count = *count + 1;
                    }
                    assert(front@.met =~= met.update(next as int, true));
                }
            }
        }
        k = k + 1;
        assert(front@ =~= sifted(*opts, fdist@, *limit, *here, f0, arcs@, k as int).front);
    }
    kept
}

/// Whether every arc of the states leads to one of `n` states.
pub open spec fn all_lead<W>(states: Seq<StateV<W>>, n: nat) -> bool {
    forall|s: int, i: int|
        0 <= s < states.len() && 0 <= i < states[s].arcs.len() ==> (
        #[trigger] states[s].arcs[i]).nextstate < n
}

/// Removes from `fst` everything no path within the threshold goes through.
pub fn prune<W: Weight, F: ArcFilter<W>>(fst: &mut VectorFst<W>, opts: &PruneOptions<W, F>) -> (
result: Result<(), OpenFstError>)
    requires
        old(fst)@.wf(),
    ensures
        match result {
            Ok(_) => if old(fst)@.n() == 0 {
                final(fst)@ == old(fst)@
            } else {
                exists|fdist: Seq<W>| #[trigger]
                    is_final_distance(old(fst)@, opts.distance, opts.delta, fdist) && final(fst)@
                        == pruned(*opts, old(fst)@, fdist)
            },
            Err(e) => {
                &&& e is InvalidOperation
                &&& old(fst)@.n() > 0
                &&& opts.distance is None
                &&& never_settles(old(fst)@, true, opts.delta)
                &&& final(fst)@ == old(fst)@
            },
        },
{
    let ghost v = fst@;
    let n: usize = fst.num_states();
    if n == 0 {
        return Ok(());
    }
    let fdist = match final_distance(&*fst, &opts.distance, &opts.delta) {
        Ok(fdist) => fdist,
        Err(e) => {
            return Err(e);
        },
    };
    let start: usize = match fst.start() {
        Some(s) => s,
        None => {
            fst.delete_all_states();
            assert(fst@ == pruned(*opts, v, fdist@));
            return Ok(());
        },
    };
    let nothing = match opts.state_threshold {
        Some(most) => most == 0,
        None => false,
    };
    if nothing || distance_of(&fdist, start).same(&W::zero()) {
        fst.delete_all_states();
        assert(fst@ == pruned(*opts, v, fdist@));
        return Ok(());
    }
    let limit = find_limit(opts, &fdist[start]);
    let begins = !natural_less(&limit, &fdist[start]);
    let mut front: Front<W> = Front::new(n, start, begins);
    let mut count: usize = if begins {
        1
    } else {
        0
    };
    let ghost p0 = Pruning { front: front@, states: v.states };
    proof {
        lemma_forget_forget(v);
        lemma_rank_zero(front@.visited, n as int);
        let none = Seq::new(n as nat, |s: int| false);
        lemma_rank_zero(none, n as int);
        if begins {
            lemma_rank_set(none, start as int, n as int);
            assert(front@.met =~= none.update(start as int, true));
        } else {
            assert(front@.met =~= none);
        }
        assert(p0.front == front_at::<W>(v.n(), start as int, begins));
    }
    fst.forget_properties();
    let mut next: Option<usize> = front.lightest(&fdist);
    loop
        invariant_except_break
            match next {
                None => front@.lightest(fdist@, n as int) is None,
                Some(s) => front@.lightest(fdist@, n as int) == Some(s as int) && s < n
                    && front@.waits(s as int),
            },
        invariant
            n == v.n(),
            fst@.n() == n,
            fst@ == v.with_states(fst@.states),
            all_lead(fst@.states, n as nat),
            front@.sized(n as nat),
            count == rank(front@.met, n as int),
            rank(front@.visited, n as int) <= n,
            searched(*opts, fdist@, limit, p0, n as nat) == searched(
                *opts,
                fdist@,
                limit,
                Pruning { front: front@, states: fst@.states },
                (n - rank(front@.visited, n as int)) as nat,
            ),
        ensures
            front@.lightest(fdist@, n as int) is None,
        decreases n - rank(front@.visited, n as int),
    {
        let s: usize = match next {
            None => {
                break;
            },
            Some(s) => s,
        };
        let ghost f1 = front@;
        let ghost w = fst@;
        let ghost p = Pruning { front: f1, states: w.states };
        let here = front.idist[s].duplicate();
        front.visited.set(s, true);
        let weight = here.times(&fst.final_weight(s));
        let ends = !natural_less(&limit, &weight);
        assert forall|i: int| 0 <= i < w.arcs(s as int).len() implies (
        #[trigger] w.arcs(s as int)[i]).nextstate < n by {
            assert(w.states[s as int].arcs[i].nextstate < n);
        }
        let kept = sift(opts, &fdist, &limit, &here, &mut front, &mut count, fst.arcs(s));
        let ghost kept_arcs = kept@;
        fst.set_arcs(s, kept);
        if !ends {
            fst.set_final(s, W::zero());
        }
        proof {
            lemma_forget_forget(v);
            lemma_forget_forget(w);
            let entered = FrontV { visited: f1.visited.update(s as int, true), ..f1 };
            lemma_sifted_sized(
                *opts,
                fdist@,
                limit,
                here,
                entered,
                w.arcs(s as int),
                w.arcs(s as int).len() as int,
                n as nat,
            );
            lemma_rank_set(f1.visited, s as int, n as int);
            lemma_rank_below(f1.visited, s as int, n as int);
            let q = visited_one(*opts, fdist@, limit, p, s as int);
            assert(fst@.states =~= q.states);
            assert(front@ == q.front);
            assert forall|x: int, i: int|
                0 <= x < fst@.n() && 0 <= i < fst@.states[x].arcs.len() implies (
            #[trigger] fst@.states[x].arcs[i]).nextstate < n by {
                if x != s {
                    assert(fst@.states[x] == w.states[x]);
                    assert(w.states[x].arcs[i].nextstate < n);
                } else {
                    assert(fst@.states[x].arcs[i] == kept_arcs[i]);
                }
            }
        }
        next = front.lightest(&fdist);
    }
    fst.restrict(&front.visited);
    proof {
        assert(searched(*opts, fdist@, limit, p0, n as nat) == Pruning {
            front: front@,
            states: v.with_states(searched(*opts, fdist@, limit, p0, n as nat).states).states,
        });
        assert(fst@ == pruned(*opts, v, fdist@));
    }
    Ok(())
}

/// The search while a copy of what is kept is built.
#[verifier::ext_equal]
pub struct Copying<W> {
    /// How far the search has come.
    pub front: FrontV<W>,
    /// The state of the copy that each state has become.
    pub copy: Seq<Option<usize>>,
    /// The states of the copy.
    pub states: Seq<StateV<W>>,
}

/// The map, made long enough to hold `s`.
pub open spec fn grown(copy: Seq<Option<usize>>, s: int) -> Seq<Option<usize>> {
    if s < copy.len() {
        copy
    } else {
        copy + Seq::new((s + 1 - copy.len()) as nat, |i: int| None::<usize>)
    }
}

/// The state of the copy that `s` becomes, where the copy has `n` states.
pub open spec fn becomes(copy: Seq<Option<usize>>, s: int, n: nat) -> usize {
    match grown(copy, s)[s] {
        Some(x) => x,
        None => n as usize,
    }
}

/// A state with one more arc.
pub open spec fn with_arc<W>(state: StateV<W>, arc: Arc<W>) -> StateV<W> {
    StateV { arcs: state.arcs.push(arc), ..state }
}

/// The copy with an arc from `from` to what `arc` leads to.
pub open spec fn with_copied<W: Weight>(
    c: Copying<W>,
    from: int,
    arc: Arc<W>,
    way: W,
) -> Copying<W> {
    let next = arc.nextstate as int;
    let to = becomes(c.copy, next, c.states.len());
    let states = if grown(c.copy, next)[next] is Some {
        c.states
    } else {
        c.states.push(StateV::fresh())
    };
    let front = c.front.improved(next, way);
    Copying {
        front: FrontV { met: front.met.update(next, true), ..front },
        copy: grown(c.copy, next).update(next, Some(to)),
        states: states.update(from, with_arc(states[from], Arc { nextstate: to, ..arc })),
    }
}

/// What copying the first `k` arcs of a state comes to, `here` being the way to it.
pub open spec fn copied<W: Weight, F: ArcFilter<W>>(
    opts: PruneOptions<W, F>,
    fdist: Seq<W>,
    limit: W,
    here: W,
    from: int,
    c: Copying<W>,
    arcs: Seq<Arc<W>>,
    k: int,
) -> Copying<W>
    decreases k,
{
    if k <= 0 {
        c
    } else {
        let before = copied(opts, fdist, limit, here, from, c, arcs, k - 1);
        let arc = arcs[k - 1];
        let way = here.spec_times(arc.weight);
        if !opts.filter.accepts(arc) || spec_natural_less(
            limit,
            way.spec_times(distance_at(fdist, arc.nextstate as int)),
        ) || is_full(opts.state_threshold, before.states.len()) {
            before
        } else {
            with_copied(before, from, arc, way)
        }
    }
}

/// The copy once `s` has been visited.
pub open spec fn copied_one<W: Weight, F: ArcFilter<W>>(
    opts: PruneOptions<W, F>,
    v: FstV<W>,
    fdist: Seq<W>,
    limit: W,
    c: Copying<W>,
    s: int,
) -> Copying<W> {
    let here = c.front.idist[s];
    let from = c.copy[s]->0 as int;
    let entered = Copying {
        front: FrontV { visited: c.front.visited.update(s, true), ..c.front },
        states: if spec_natural_less(limit, here.spec_times(v.fin(s))) {
            c.states
        } else {
            c.states.update(from, StateV { final_weight: v.fin(s), ..c.states[from] })
        },
        ..c
    };
    copied(opts, fdist, limit, here, from, entered, v.arcs(s), v.arcs(s).len() as int)
}

/// The copy once up to `fuel` more states have been visited, the lightest first.
pub open spec fn copied_all<W: Weight, F: ArcFilter<W>>(
    opts: PruneOptions<W, F>,
    v: FstV<W>,
    fdist: Seq<W>,
    limit: W,
    c: Copying<W>,
    fuel: nat,
) -> Copying<W>
    decreases fuel,
{
    if fuel == 0 {
        c
    } else {
        match c.front.lightest(fdist, c.front.idist.len() as int) {
            None => c,
            Some(s) => copied_all(
                opts,
                v,
                fdist,
                limit,
                copied_one(opts, v, fdist, limit, c, s),
                (fuel - 1) as nat,
            ),
        }
    }
}

/// What the copy begins with: the start alone.
pub open spec fn copy_start<W: Weight>(n: nat, start: int) -> Copying<W> {
    Copying {
        front: front_at(n, start, true),
        copy: grown(Seq::empty(), start).update(start, Some(0usize)),
        states: seq![StateV::<W>::fresh()],
    }
}

/// What pruning `v` by the distances `fdist` into a copy comes to.
pub open spec fn pruned_copy<W: Weight, F: ArcFilter<W>>(
    opts: PruneOptions<W, F>,
    v: FstV<W>,
    fdist: Seq<W>,
) -> Copying<W> {
    let start = v.start->0 as int;
    copied_all(opts, v, fdist, limit_of(opts, fdist[start]), copy_start(v.n(), start), v.n())
}

/// Whether nothing is kept before any distance is looked at. A threshold lighter than
/// one would keep nothing at all.
pub open spec fn keeps_nothing<W: Weight, F>(opts: PruneOptions<W, F>, v: FstV<W>) -> bool {
    v.start is None || opts.state_threshold == Some(0usize) || spec_natural_less(
        opts.weight_threshold,
        W::spec_one(),
    )
}

/// Whether the map is in order: it tells of every state met, and tells states of the
/// copy.
spec fn maps_met<W>(c: Copying<W>) -> bool {
    &&& forall|s: int|
        0 <= s < c.front.met.len() && #[trigger] c.front.met[s] ==> s < c.copy.len()
            && c.copy[s] is Some
    &&& forall|s: int|
        0 <= s < c.copy.len() && (#[trigger] c.copy[s]) is Some ==> c.copy[s]->0 < c.states.len()
}

/// Copies one arc.
fn copy_arc<W: Weight>(
    arc: &Arc<W>,
    way: W,
    from: usize,
    front: &mut Front<W>,
    copy: &mut Vec<Option<usize>>,
    ofst: &mut VectorFst<W>,
)
    requires
        old(front)@.sized(old(front)@.idist.len()),
        arc.nextstate < old(front)@.idist.len(),
        from < old(ofst)@.n(),
        maps_met(
            Copying { front: old(front)@, copy: old(copy)@, states: old(ofst)@.states },
        ),
    ensures
        final(front)@.sized(old(front)@.idist.len()),
        final(front)@.visited == old(front)@.visited,
        from < final(ofst)@.n(),
        final(ofst)@ == old(ofst)@.with_states(final(ofst)@.states),
        ({
            let c = Copying { front: final(front)@, copy: final(copy)@, states: final(ofst)@.states };
            &&& maps_met(c)
            &&& c == with_copied(
                Copying { front: old(front)@, copy: old(copy)@, states: old(ofst)@.states },
                from as int,
                *arc,
                way,
            )
        }),
{
    let ghost c0 = Copying { front: front@, copy: copy@, states: ofst@.states };
    let ghost v0 = ofst@;
    let next: usize = arc.nextstate;
    front.improve(next, way);
    let ghost copy0 = copy@;
    while copy.len() <= next
        invariant
            copy0.len() <= copy@.len(),
            copy@.len() <= next + 1 || copy@ == copy0,
            copy@ =~= copy0 + Seq::new((copy@.len() - copy0.len()) as nat, |i: int| None::<usize>),
        decreases next + 1 - copy@.len(),
    {
        copy.push(None);
    }
    assert(copy@ =~= grown(copy0, next as int));
    let to: usize = match copy[next] {
        Some(x) => x,
        None => {
            let x: usize = ofst.add_state();
            x
        },
    };
    copy.set(next, Some(to));
    proof {
        lemma_forget_forget(v0);
    }
    ofst.add_arc(from, Arc::new(arc.ilabel, arc.olabel, arc.weight.duplicate(), to));
    front.met.set(next, true);
    proof {
        let c = Copying { front: front@, copy: copy@, states: ofst@.states };
        let d = with_copied(c0, from as int, *arc, way);
        assert(c.front =~= d.front);
        assert(c.copy =~= d.copy);
        assert(c.states =~= d.states);
        assert forall|s: int| 0 <= s < c.front.met.len() && #[trigger] c.front.met[s] implies s
            < c.copy.len() && c.copy[s] is Some by {
            if s != next {
                assert(c0.front.met[s]);
            }
        }
        assert forall|s: int|
            0 <= s < c.copy.len() && (#[trigger] c.copy[s]) is Some implies c.copy[s]->0
            < c.states.len() by {
            if s != next && s < copy0.len() {
                assert(c.copy[s] == copy0[s]);
            }
        }
    }
}

/// Copies the arcs of one state.
fn copy_arcs<W: Weight, F: ArcFilter<W>>(
    opts: &PruneOptions<W, F>,
    fdist: &Vec<W>,
    limit: &W,
    here: &W,
    from: usize,
    arcs: &Vec<Arc<W>>,
    front: &mut Front<W>,
    copy: &mut Vec<Option<usize>>,
    ofst: &mut VectorFst<W>,
)
    requires
        old(front)@.sized(old(front)@.idist.len()),
        from < old(ofst)@.n(),
        maps_met(
            Copying { front: old(front)@, copy: old(copy)@, states: old(ofst)@.states },
        ),
        forall|i: int|
            0 <= i < arcs@.len() ==> (#[trigger] arcs@[i]).nextstate < old(front)@.idist.len(),
        old(ofst)@ == old(ofst)@.forget(),
    ensures
        final(front)@.sized(old(front)@.idist.len()),
        final(front)@.visited == old(front)@.visited,
        final(ofst)@ == old(ofst)@.with_states(final(ofst)@.states),
        ({
            let c = Copying { front: final(front)@, copy: final(copy)@, states: final(ofst)@.states };
            &&& maps_met(c)
            &&& c == copied(
                *opts,
                fdist@,
                *limit,
                *here,
                from as int,
                Copying { front: old(front)@, copy: old(copy)@, states: old(ofst)@.states },
                arcs@,
                arcs@.len() as int,
            )
        }),
{
    let ghost c0 = Copying { front: front@, copy: copy@, states: ofst@.states };
    let ghost v0 = ofst@;
    let ghost n = front@.idist.len();
    let mut k: usize = 0;
    while k < arcs.len()
        invariant
            k <= arcs@.len(),
            front@.sized(n),
            front@.visited == c0.front.visited,
            from < ofst@.n(),
            v0 == v0.forget(),
            ofst@ == v0.with_states(ofst@.states),
            maps_met(Copying { front: front@, copy: copy@, states: ofst@.states }),
            forall|i: int| 0 <= i < arcs@.len() ==> (#[trigger] arcs@[i]).nextstate < n,
            (Copying { front: front@, copy: copy@, states: ofst@.states }) == copied(
                *opts,
                fdist@,
                *limit,
                *here,
                from as int,
                c0,
                arcs@,
                k as int,
            ),
        decreases arcs@.len() - k,
    {
        let arc = &arcs[k];
        let way = here.times(&arc.weight);
        let onward = way.times(&distance_of(fdist, arc.nextstate));
        let full = match opts.state_threshold {
            Some(most) => ofst.num_states() >= most,
            None => false,
        };
        if opts.filter.call(arc) && !natural_less(limit, &onward) && !full {
            copy_arc(arc, way, from, front, copy, ofst);
            proof {
                lemma_forget_forget(v0);
            }
        }
        k = k + 1;
    }
}

/// As [`prune`], writing the result to `ofst` and leaving the input alone. Arcs that the
/// filter does not look at are not copied.
///
/// `state_map` comes back holding the state of `ofst` each state of `ifst` became, or
/// `None` for one that was dropped.
pub fn prune_to<W: Weight, F: ArcFilter<W>>(
    ifst: &VectorFst<W>,
    ofst: &mut VectorFst<W>,
    opts: &PruneOptions<W, F>,
    state_map: &mut Vec<Option<usize>>,
) -> (result: Result<(), OpenFstError>)
    requires
        ifst@.wf(),
    ensures
        match result {
            Ok(_) => if keeps_nothing(*opts, ifst@) {
                final(ofst)@ == named_after(ifst@, old(ofst)@) && final(state_map)@.len() == 0
            } else {
                exists|fdist: Seq<W>|
                    {
                        &&& #[trigger] is_final_distance(
                            ifst@,
                            opts.distance,
                            opts.delta,
                            fdist,
                        )
                        &&& if distance_at(fdist, ifst@.start->0 as int) == W::spec_zero() {
                            &&& final(ofst)@ == named_after(ifst@, old(ofst)@)
                            &&& final(state_map)@.len() == 0
                        } else {
                            let c = pruned_copy(*opts, ifst@, fdist);
                            &&& final(state_map)@ == c.copy
                            &&& final(ofst)@ == (FstV {
                                start: Some(0usize),
                                states: c.states,
                                ..named_after(ifst@, old(ofst)@)
                            })
                        }
                    }
            },
            Err(e) => {
                &&& e is InvalidOperation
                &&& !keeps_nothing(*opts, ifst@)
                &&& opts.distance is None
                &&& never_settles(ifst@, true, opts.delta)
                &&& final(ofst)@ == named_after(ifst@, old(ofst)@)
                &&& final(state_map)@.len() == 0
            },
        },
{
    ofst.delete_all_states();
    ofst.set_input_symbols(ifst.input_symbols());
    ofst.set_output_symbols(ifst.output_symbols());
    state_map.clear();
    let ghost v = ifst@;
    let ghost named = ofst@;
    proof {
        lemma_forget_forget(old(ofst)@);
        lemma_forget_forget(named);
        assert(named == named_after(v, old(ofst)@));
        assert(named == named.forget());
    }
    let start: usize = match ifst.start() {
        Some(s) => s,
        None => {
            return Ok(());
        },
    };
    let nothing = match opts.state_threshold {
        Some(most) => most == 0,
        None => false,
    };
    if nothing || natural_less(&opts.weight_threshold, &W::one()) {
        return Ok(());
    }
    let fdist = match final_distance(ifst, &opts.distance, &opts.delta) {
        Ok(fdist) => fdist,
        Err(e) => {
            return Err(e);
        },
    };
    if distance_of(&fdist, start).same(&W::zero()) {
        assert(is_final_distance(v, opts.distance, opts.delta, fdist@));
        return Ok(());
    }
    let limit = find_limit(opts, &fdist[start]);
    let n: usize = ifst.num_states();
    let mut front: Front<W> = Front::new(n, start, true);
    let at: usize = ofst.add_state();
    ofst.set_start(at);
    while state_map.len() < start
        invariant
            state_map@.len() <= start,
            state_map@ =~= Seq::new(state_map@.len(), |i: int| None::<usize>),
        decreases start - state_map@.len(),
    {
        state_map.push(None);
    }
    state_map.push(Some(at));
    let ghost c0 = copy_start::<W>(n as nat, start as int);
    proof {
        lemma_rank_zero(front@.visited, n as int);
        lemma_forget_forget(named);
        assert(state_map@ =~= c0.copy);
        assert(ofst@.states =~= c0.states);
        assert(front@ =~= c0.front);
    }
    let mut next: Option<usize> = front.lightest(&fdist);
    loop
        invariant_except_break
            match next {
                None => front@.lightest(fdist@, n as int) is None,
                Some(s) => front@.lightest(fdist@, n as int) == Some(s as int) && s < n
                    && front@.waits(s as int),
            },
        invariant
            v == ifst@,
            v.wf(),
            n == v.n(),
            named == named.forget(),
            ofst@ == (FstV { start: Some(0usize), states: ofst@.states, ..named }),
            front@.sized(n as nat),
            rank(front@.visited, n as int) <= n,
            maps_met(Copying { front: front@, copy: state_map@, states: ofst@.states }),
            copied_all(*opts, v, fdist@, limit, c0, n as nat) == copied_all(
                *opts,
                v,
                fdist@,
                limit,
                Copying { front: front@, copy: state_map@, states: ofst@.states },
                (n - rank(front@.visited, n as int)) as nat,
            ),
        ensures
            front@.lightest(fdist@, n as int) is None,
        decreases n - rank(front@.visited, n as int),
    {
        let s: usize = match next {
            None => {
                break;
            },
            Some(s) => s,
        };
        let ghost f1 = front@;
        let ghost w = ofst@;
        let ghost c = Copying { front: f1, copy: state_map@, states: w.states };
        let here = front.idist[s].duplicate();
        front.visited.set(s, true);
        assert(c.front.met[s as int]);
        let from: usize = match state_map[s] {
            Some(x) => x,
            None => 0,
        };
        assert(from == c.copy[s as int]->0 && from < w.n());
        let weight = here.times(&ifst.final_weight(s));
        if !natural_less(&limit, &weight) {
            ofst.set_final(from, ifst.final_weight(s));
        }
        proof {
            lemma_forget_forget(named);
            assert forall|i: int| 0 <= i < v.arcs(s as int).len() implies (
            #[trigger] v.arcs(s as int)[i]).nextstate < n by {
                assert(v.states[s as int].arcs[i].nextstate < n);
            }
            let entered = Copying { front: front@, copy: state_map@, states: ofst@.states };
            assert(entered.states.len() == c.states.len());
            assert forall|x: int| 0 <= x < entered.front.met.len() && #[trigger] entered.front.met[x]
                implies x < entered.copy.len() && entered.copy[x] is Some by {
                assert(c.front.met[x]);
            }
            assert(maps_met(entered));
        }
        copy_arcs(
            opts,
            &fdist,
            &limit,
            &here,
            from,
            ifst.arcs(s),
            &mut front,
            state_map,
            ofst,
        );
        proof {
            lemma_forget_forget(named);
            lemma_rank_set(f1.visited, s as int, n as int);
            lemma_rank_below(f1.visited, s as int, n as int);
            let q = copied_one(*opts, v, fdist@, limit, c, s as int);
            assert(Copying { front: front@, copy: state_map@, states: ofst@.states } == q);
        }
        next = front.lightest(&fdist);
    }
    proof {
        let c = Copying { front: front@, copy: state_map@, states: ofst@.states };
        assert(pruned_copy(*opts, v, fdist@) == c);
        assert(is_final_distance(v, opts.distance, opts.delta, fdist@));
    }
    Ok(())
}

} // verus!
