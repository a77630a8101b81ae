//! Finding the transitions that leave two paths spelling the same input.
use crate::hash_table::Table;
use crate::sort::Ranked;
use crate::union_find::UnionFind;
use crate::vector_fst::{FstV, VectorFst};
use crate::weight::Weight;
use vstd::prelude::*;

verus! {

/// A transition, as the state it leaves and its position among that state's arcs;
/// without a position, the way of finishing there.
pub type ArcId = (usize, Option<usize>);

/// A pair of transitions that leave two paths spelling the same input.
pub struct Candidate {
    /// The head of the state that the first leaves.
    pub head: usize,
    /// The one that would go.
    pub a: ArcId,
    /// The other.
    pub b: ArcId,
}

impl Ranked for Candidate {
    open spec fn rank(self) -> (int, int, int) {
        (
            self.head as int,
            self.a.0 as int,
            match self.a.1 {
                None => -1,
                Some(i) => i as int,
            },
        )
    }

    fn before(&self, other: &Self) -> (b: bool) {
        if self.head != other.head {
            return self.head < other.head;
        }
        if self.a.0 != other.a.0 {
            return self.a.0 < other.a.0;
        }
        match (self.a.1, other.a.1) {
            (None, Some(_)) => true,
            (Some(i), Some(j)) => i < j,
            _ => false,
        }
    }
}

/// The head of a state; one past the end has none.
pub open spec fn head_at(heads: Seq<usize>, s: int) -> usize {
    if 0 <= s < heads.len() {
        heads[s]
    } else {
        usize::MAX
    }
}

/// The head of a state; one past the end has none.
fn head_of(heads: &Vec<usize>, s: usize) -> (head: usize)
    ensures
        head == head_at(heads@, s as int),
{
    if s < heads.len() {
        heads[s]
    } else {
        usize::MAX
    }
}

/// Whether two states are told apart by more than quantization.
pub open spec fn expands(heads: Seq<usize>, p: (usize, usize)) -> bool {
    p.0 == p.1 || head_at(heads, p.0 as int) != head_at(heads, p.1 as int)
}

/// Two states as a pair, the smaller first.
pub open spec fn as_pair(a: usize, b: usize) -> (usize, usize) {
    if a <= b {
        (a, b)
    } else {
        (b, a)
    }
}

/// Whether an arc of one and an arc of the other read the same label.
pub open spec fn same_label<W: Weight>(w: FstV<W>, p: (usize, usize), i: int, j: int) -> bool {
    &&& 0 <= i < w.arcs(p.0 as int).len()
    &&& 0 <= j < w.arcs(p.1 as int).len()
    &&& w.arcs(p.0 as int)[i].ilabel == w.arcs(p.1 as int)[j].ilabel
}

/// The pair that two arcs lead to.
pub open spec fn lead_to<W: Weight>(w: FstV<W>, p: (usize, usize), i: int, j: int) -> (
    usize,
    usize,
) {
    as_pair(w.arcs(p.0 as int)[i].nextstate, w.arcs(p.1 as int)[j].nextstate)
}

/// Whether reading one label leads from the pair `p` to the pair `q`.
pub open spec fn pair_leads<W: Weight>(w: FstV<W>, p: (usize, usize), q: (usize, usize)) -> bool {
    exists|i: int, j: int| #[trigger] same_label(w, p, i, j) && q == lead_to(w, p, i, j)
}

/// Whether reading `k` labels leads from the start to the pair `q`, through pairs told
/// apart by more than quantization.
pub open spec fn paired_in<W: Weight>(
    w: FstV<W>,
    heads: Seq<usize>,
    q: (usize, usize),
    k: nat,
) -> bool
    decreases k,
{
    if k == 0 {
        w.start is Some && q == (w.start->0, w.start->0)
    } else {
        exists|p: (usize, usize)| #[trigger]
            pair_leads(w, p, q) && expands(heads, p) && paired_in(w, heads, p, (k - 1) as nat)
    }
}

/// Whether one string may lead to both states of the pair.
pub open spec fn paired<W: Weight>(w: FstV<W>, heads: Seq<usize>, q: (usize, usize)) -> bool {
    exists|k: nat| paired_in(w, heads, q, k)
}

/// Whether two transitions read the same label into the same state, or both finish.
pub open spec fn meet<W: Weight>(w: FstV<W>, a: ArcId, b: ArcId) -> bool {
    match (a.1, b.1) {
        (Some(i), Some(j)) => {
            &&& i < w.arcs(a.0 as int).len()
            &&& j < w.arcs(b.0 as int).len()
            &&& w.arcs(a.0 as int)[i as int].ilabel == w.arcs(b.0 as int)[j as int].ilabel
            &&& w.arcs(a.0 as int)[i as int].nextstate == w.arcs(b.0 as int)[j as int].nextstate
        },
        (None, None) => w.fin(a.0 as int) != W::spec_zero() && w.fin(b.0 as int)
            != W::spec_zero(),
        _ => false,
    }
}

/// Whether two transitions that leave the states of a pair meet, the first leaving the
/// one with the greater head.
pub open spec fn clash_at<W: Weight>(
    w: FstV<W>,
    heads: Seq<usize>,
    p: (usize, usize),
    a: ArcId,
    b: ArcId,
) -> bool {
    &&& p.0 != p.1
    &&& (a.0 == p.0 && b.0 == p.1) || (a.0 == p.1 && b.0 == p.0)
    &&& head_at(heads, a.0 as int) > head_at(heads, b.0 as int)
    &&& meet(w, a, b)
}

/// Whether two transitions leave two paths spelling the same input.
pub open spec fn clash<W: Weight>(w: FstV<W>, heads: Seq<usize>, a: ArcId, b: ArcId) -> bool {
    exists|p: (usize, usize)| #[trigger]
        paired(w, heads, p) && expands(heads, p) && clash_at(w, heads, p, a, b)
}

/// Whether a pair of transitions is among the candidates.
pub open spec fn listed(found: Seq<Candidate>, a: ArcId, b: ArcId) -> bool {
    exists|i: int| 0 <= i < found.len() && (#[trigger] found[i]).a == a && found[i].b == b
}

/// Whether the candidates are the pairs of transitions that clash.
pub open spec fn are_candidates<W: Weight>(
    w: FstV<W>,
    heads: Seq<usize>,
    found: Seq<Candidate>,
) -> bool {
    &&& forall|i: int|
        0 <= i < found.len() ==> clash(w, heads, (#[trigger] found[i]).a, found[i].b)
            && found[i].head == head_at(heads, found[i].a.0 as int)
    &&& forall|a: ArcId, b: ArcId| #[trigger] clash(w, heads, a, b) ==> listed(found, a, b)
}

/// Whether a pair that one string leads to is told apart by quantization alone.
pub open spec fn is_split<W: Weight>(w: FstV<W>, heads: Seq<usize>, p: (usize, usize)) -> bool {
    paired(w, heads, p) && !expands(heads, p)
}

/// Whether no pair is told apart by quantization alone.
pub open spec fn no_splits<W: Weight>(w: FstV<W>, heads: Seq<usize>) -> bool {
    forall|p: (usize, usize)| !#[trigger] is_split(w, heads, p)
}

/// Whether `color` gives the states of every split pair one color.
pub open spec fn respects<W: Weight>(
    w: FstV<W>,
    heads: Seq<usize>,
    color: spec_fn(int) -> int,
) -> bool {
    forall|p: (usize, usize)| #[trigger]
        is_split(w, heads, p) ==> color(p.0 as int) == color(p.1 as int)
}

/// Whether the sets are the states that splits connect: each split pair is in one set,
/// and nothing is in one set that could be told apart otherwise.
pub open spec fn joins_splits<W: Weight>(
    w: FstV<W>,
    heads: Seq<usize>,
    sets: UnionFind,
) -> bool {
    &&& forall|x: int| #[trigger] sets.has(x) <==> 0 <= x < w.n()
    &&& forall|p: (usize, usize)| #[trigger]
        is_split(w, heads, p) ==> sets.same(p.0 as int, p.1 as int)
    &&& forall|color: spec_fn(int) -> int, x: int, y: int| #[trigger]
        respects(w, heads, color) && #[trigger] sets.same(x, y) ==> color(x) == color(y)
}

/// Whether a sequence went on from another.
pub open spec fn went_on<T>(a: Seq<T>, b: Seq<T>) -> bool {
    &&& a.len() <= b.len()
    &&& forall|i: int| 0 <= i < a.len() ==> #[trigger] b[i] == a[i]
}

/// What was there stays there.
proof fn lemma_went_on<T>(a: Seq<T>, b: Seq<T>, x: T)
    requires
        went_on(a, b),
        a.contains(x),
    ensures
        b.contains(x),
{
    let i = choose|i: int| 0 <= i < a.len() && a[i] == x;
    assert(b[i] == x);
}

proof fn lemma_still_listed(f: Seq<Candidate>, g: Seq<Candidate>, a: ArcId, b: ArcId)
    requires
        went_on(f, g),
        listed(f, a, b),
    ensures
        listed(g, a, b),
{
    let i = choose|i: int| 0 <= i < f.len() && (#[trigger] f[i]).a == a && f[i].b == b;
    assert(g[i] == f[i]);
}

/// Two transitions, the one leaving the state with the greater head first.
pub open spec fn by_head(heads: Seq<usize>, a: ArcId, b: ArcId) -> (ArcId, ArcId) {
    if head_at(heads, a.0 as int) > head_at(heads, b.0 as int) {
        (a, b)
    } else {
        (b, a)
    }
}

/// Whether what two arcs lead to has been taken down.
pub open spec fn looked_at<W: Weight>(
    w: FstV<W>,
    heads: Seq<usize>,
    table: Seq<(usize, usize)>,
    found: Seq<Candidate>,
    p: (usize, usize),
    i: int,
    j: int,
) -> bool {
    same_label(w, p, i, j) ==> {
        &&& table.contains(lead_to(w, p, i, j))
        &&& p.0 != p.1 && w.arcs(p.0 as int)[i].nextstate == w.arcs(p.1 as int)[j].nextstate ==> {
            let (a, b) = by_head(heads, (p.0, Some(i as usize)), (p.1, Some(j as usize)));
            listed(found, a, b)
        }
    }
}

/// Whether all that was taken down since came from the pair `p`.
pub open spec fn came_from<W: Weight>(
    w: FstV<W>,
    heads: Seq<usize>,
    p: (usize, usize),
    table0: Seq<(usize, usize)>,
    table: Seq<(usize, usize)>,
    found0: Seq<Candidate>,
    found: Seq<Candidate>,
) -> bool {
    &&& went_on(table0, table)
    &&& went_on(found0, found)
    &&& forall|x: int|
        table0.len() <= x < table.len() ==> pair_leads(w, p, #[trigger] table[x])
    &&& forall|x: int|
        found0.len() <= x < found.len() ==> clash_at(
            w,
            heads,
            p,
            (#[trigger] found[x]).a,
            found[x].b,
        ) && found[x].head == head_at(heads, found[x].a.0 as int)
}

/// Takes down what the `i`th arc of one state and the `j`th of the other lead to.
fn look_at<W: Weight>(
    fst: &VectorFst<W>,
    heads: &Vec<usize>,
    p: (usize, usize),
    i: usize,
    j: usize,
    pairs: &mut Table<(usize, usize)>,
    found: &mut Vec<Candidate>,
)
    requires
        old(pairs).wf(),
        p.0 < fst@.n(),
        p.1 < fst@.n(),
        expands(heads@, p),
        i < fst@.arcs(p.0 as int).len(),
        j < fst@.arcs(p.1 as int).len(),
    ensures
        final(pairs).wf(),
        looked_at(fst@, heads@, final(pairs)@, final(found)@, p, i as int, j as int),
        came_from(fst@, heads@, p, old(pairs)@, final(pairs)@, old(found)@, final(found)@),
{
    let ghost w = fst@;
    let arc1 = &fst.arcs(p.0)[i];
    let arc2 = &fst.arcs(p.1)[j];
    if arc1.ilabel != arc2.ilabel {
        return;
    }
    let next1: usize = arc1.nextstate;
    let next2: usize = arc2.nextstate;
    assert(same_label(w, p, i as int, j as int));
    // Two ways of reading the same label into the same state: one of them has to go.
    if p.0 != p.1 && next1 == next2 {
        let a: ArcId = (p.0, Some(i));
        let b: ArcId = (p.1, Some(j));
        let ghost (x, y) = by_head(heads@, a, b);
        let head1: usize = head_of(heads, p.0);
        let head2: usize = head_of(heads, p.1);
        let ghost before = found@;
        if head1 > head2 {
            found.push(Candidate { head: head1, a, b });
        } else {
            found.push(Candidate { head: head2, a: b, b: a });
        }
        assert(found@[before.len() as int].a == x && found@[before.len() as int].b == y);
        assert(listed(found@, x, y));
    }
    let ghost table0 = pairs@;
    let pair = if next1 <= next2 {
        (next1, next2)
    } else {
        (next2, next1)
    };
    let at: usize = pairs.insert(pair);
    assert(pairs@[at as int] == lead_to(w, p, i as int, j as int));
}

proof fn lemma_came_further<W: Weight>(
    w: FstV<W>,
    heads: Seq<usize>,
    p: (usize, usize),
    table0: Seq<(usize, usize)>,
    table1: Seq<(usize, usize)>,
    table2: Seq<(usize, usize)>,
    found0: Seq<Candidate>,
    found1: Seq<Candidate>,
    found2: Seq<Candidate>,
)
    requires
        came_from(w, heads, p, table0, table1, found0, found1),
        came_from(w, heads, p, table1, table2, found1, found2),
    ensures
        came_from(w, heads, p, table0, table2, found0, found2),
        forall|i: int, j: int|
            looked_at(w, heads, table1, found1, p, i, j) ==> #[trigger] looked_at(
                w,
                heads,
                table2,
                found2,
                p,
                i,
                j,
            ),
{
    assert forall|x: int| table0.len() <= x < table2.len() implies pair_leads(
        w,
        p,
        #[trigger] table2[x],
    ) by {
        if x < table1.len() {
            assert(table2[x] == table1[x]);
        }
    }
    assert forall|x: int| found0.len() <= x < found2.len() implies clash_at(
        w,
        heads,
        p,
        (#[trigger] found2[x]).a,
        found2[x].b,
    ) && found2[x].head == head_at(heads, found2[x].a.0 as int) by {
        if x < found1.len() {
            assert(found2[x] == found1[x]);
        }
    }
    assert forall|i: int| 0 <= i < table0.len() implies #[trigger] table2[i] == table0[i] by {
        assert(table1[i] == table0[i]);
    }
    assert forall|i: int| 0 <= i < found0.len() implies #[trigger] found2[i] == found0[i] by {
        assert(found1[i] == found0[i]);
    }
    assert forall|i: int, j: int| looked_at(w, heads, table1, found1, p, i, j) implies #[trigger]
        looked_at(w, heads, table2, found2, p, i, j) by {
        if same_label(w, p, i, j) {
            lemma_went_on(table1, table2, lead_to(w, p, i, j));
            if p.0 != p.1 && w.arcs(p.0 as int)[i].nextstate == w.arcs(p.1 as int)[j].nextstate {
                let (a, b) = by_head(heads, (p.0, Some(i as usize)), (p.1, Some(j as usize)));
                lemma_still_listed(found1, found2, a, b);
            }
        }
    }
}

/// Whether all that a pair leads to has been taken down.
pub open spec fn examined<W: Weight>(
    w: FstV<W>,
    heads: Seq<usize>,
    table: Seq<(usize, usize)>,
    found: Seq<Candidate>,
    p: (usize, usize),
) -> bool {
    &&& forall|q: (usize, usize)| #[trigger] pair_leads(w, p, q) ==> table.contains(q)
    &&& forall|a: ArcId, b: ArcId| #[trigger] clash_at(w, heads, p, a, b) ==> listed(found, a, b)
}

/// Takes down all that a pair leads to.
fn examine<W: Weight>(
    fst: &VectorFst<W>,
    heads: &Vec<usize>,
    p: (usize, usize),
    pairs: &mut Table<(usize, usize)>,
    found: &mut Vec<Candidate>,
)
    requires
        old(pairs).wf(),
        p.0 < fst@.n(),
        p.1 < fst@.n(),
        expands(heads@, p),
    ensures
        final(pairs).wf(),
        examined(fst@, heads@, final(pairs)@, final(found)@, p),
        came_from(fst@, heads@, p, old(pairs)@, final(pairs)@, old(found)@, final(found)@),
{
    let ghost w = fst@;
    let ghost table0 = pairs@;
    let ghost found0 = found@;
    let n1: usize = fst.num_arcs(p.0);
    let n2: usize = fst.num_arcs(p.1);
    let mut i: usize = 0;
    while i < n1
        invariant
            i <= n1,
            w == fst@,
            n1 == w.arcs(p.0 as int).len(),
            n2 == w.arcs(p.1 as int).len(),
            pairs.wf(),
            p.0 < w.n(),
            p.1 < w.n(),
            expands(heads@, p),
            came_from(w, heads@, p, table0, pairs@, found0, found@),
            forall|x: int, y: int|
                0 <= x < i && 0 <= y < n2 ==> #[trigger] looked_at(
                    w,
                    heads@,
                    pairs@,
                    found@,
                    p,
                    x,
                    y,
                ),
        decreases n1 - i,
    {
        let mut j: usize = 0;
        while j < n2
            invariant
                i < n1,
                j <= n2,
                w == fst@,
                n1 == w.arcs(p.0 as int).len(),
                n2 == w.arcs(p.1 as int).len(),
                pairs.wf(),
                p.0 < w.n(),
                p.1 < w.n(),
                expands(heads@, p),
                came_from(w, heads@, p, table0, pairs@, found0, found@),
                forall|x: int, y: int|
                    (0 <= x < i && 0 <= y < n2) || (x == i && 0 <= y < j) ==> #[trigger] looked_at(
                        w,
                        heads@,
                        pairs@,
                        found@,
                        p,
                        x,
                        y,
                    ),
            decreases n2 - j,
        {
            let ghost table1 = pairs@;
            let ghost found1 = found@;
            look_at(fst, heads, p, i, j, pairs, found);
            proof {
                lemma_came_further(
                    w,
                    heads@,
                    p,
                    table0,
                    table1,
                    pairs@,
                    found0,
                    found1,
                    found@,
                );
            }
            j = j + 1;
        }
        i = i + 1;
    }
    let ghost table1 = pairs@;
    let ghost found1 = found@;
    // Two ways of finishing here is the same ambiguity, at the end.
    let zero = W::zero();
    if p.0 != p.1 && !fst.final_weight(p.0).same(&zero) && !fst.final_weight(p.1).same(&zero) {
        let a: ArcId = (p.0, None);
        let b: ArcId = (p.1, None);
        let head1: usize = head_of(heads, p.0);
        let head2: usize = head_of(heads, p.1);
        if head1 > head2 {
            found.push(Candidate { head: head1, a, b });
        } else {
            found.push(Candidate { head: head2, a: b, b: a });
        }
        proof {
            let (x, y) = by_head(heads@, a, b);
            assert(found@[found1.len() as int].a == x && found@[found1.len() as int].b == y);
            assert(listed(found@, x, y));
        }
    }
    proof {
        lemma_came_further(w, heads@, p, table0, table1, pairs@, found0, found1, found@);
        assert forall|q: (usize, usize)| #[trigger] pair_leads(w, p, q) implies pairs@.contains(
            q,
        ) by {
            let (x, y) = choose|x: int, y: int| #[trigger]
                same_label(w, p, x, y) && q == lead_to(w, p, x, y);
            assert(looked_at(w, heads@, pairs@, found@, p, x, y));
        }
        assert forall|a: ArcId, b: ArcId| #[trigger] clash_at(w, heads@, p, a, b) implies listed(
            found@,
            a,
            b,
        ) by {
            if let (Some(x), Some(y)) = (a.1, b.1) {
                if a.0 == p.0 {
                    assert(same_label(w, p, x as int, y as int));
                    assert(looked_at(w, heads@, pairs@, found@, p, x as int, y as int));
                } else {
                    assert(same_label(w, p, y as int, x as int));
                    assert(looked_at(w, heads@, pairs@, found@, p, y as int, x as int));
                }
            }
        }
    }
}

/// What the ambiguity search found.
pub struct Ambiguities {
    /// Pairs of transitions that leave two paths spelling the same input, the first of
    /// each being the one that would go.
    pub candidates: Vec<Candidate>,
    /// States that only quantization told apart, to be merged back.
    pub merge: Option<UnionFind>,
}

/// The sets of a union of which nothing is joined yet.
fn apart(n: usize) -> (sets: UnionFind)
    ensures
        sets.wf(),
        forall|x: int| #[trigger] sets.has(x) <==> 0 <= x < n,
        forall|x: int| 0 <= x < n ==> #[trigger] sets.rep(x) == x,
{
    let mut sets = UnionFind::new();
    let mut x: usize = 0;
    while x < n
        invariant
            x <= n,
            sets.wf(),
            forall|y: int| #[trigger] sets.has(y) <==> 0 <= y < x,
            forall|y: int| 0 <= y < x ==> #[trigger] sets.rep(y) == y,
        decreases n - x,
    {
        let ghost before = sets;
        sets.make_set(x);
        assert forall|y: int| 0 <= y <= x implies #[trigger] sets.rep(y) == y by {
            if y < x {
                assert(before.has(y));
                assert(before.rep(y) == y);
            } else {
                assert(!before.has(x as int));
            }
        }
        x = x + 1;
    }
    sets
}

/// Whether the sets are what the splits among the first `k` pairs connect.
spec fn joined_so_far(
    heads: Seq<usize>,
    table: Seq<(usize, usize)>,
    k: int,
    n: int,
    sets: UnionFind,
) -> bool {
    &&& sets.wf()
    &&& forall|x: int| #[trigger] sets.has(x) <==> 0 <= x < n
    &&& forall|i: int|
        0 <= i < k && !expands(heads, #[trigger] table[i]) ==> sets.same(
            table[i].0 as int,
            table[i].1 as int,
        )
    &&& forall|color: spec_fn(int) -> int, x: int, y: int| #[trigger]
        respects_first(heads, table, k, color) && #[trigger] sets.same(x, y) ==> color(x) == color(
            y,
        )
}

/// Whether `color` gives the states of every split among the first `k` pairs one color.
spec fn respects_first(
    heads: Seq<usize>,
    table: Seq<(usize, usize)>,
    k: int,
    color: spec_fn(int) -> int,
) -> bool {
    forall|i: int|
        0 <= i < k && !expands(heads, #[trigger] table[i]) ==> color(table[i].0 as int) == color(
            table[i].1 as int,
        )
}

/// Joining the states of one more split.
proof fn lemma_join_one(
    heads: Seq<usize>,
    table: Seq<(usize, usize)>,
    k: int,
    n: int,
    before: UnionFind,
    after: UnionFind,
)
    requires
        0 <= k < table.len(),
        joined_so_far(heads, table, k, n, before),
        after.wf(),
        forall|z: int| #[trigger] after.has(z) <==> before.has(z),
        table[k].0 < n,
        table[k].1 < n,
        !expands(heads, table[k]),
        forall|a: int, b: int| #[trigger]
            after.same(a, b) <==> before.same(a, b) || (before.same(a, table[k].0 as int)
                && before.same(b, table[k].1 as int)) || (before.same(a, table[k].1 as int)
                && before.same(b, table[k].0 as int)),
    ensures
        joined_so_far(heads, table, k + 1, n, after),
{
    let (p, q) = (table[k].0 as int, table[k].1 as int);
    assert(before.has(p) && before.has(q));
    assert(before.same(p, p) && before.same(q, q));
    assert forall|i: int| 0 <= i < k + 1 && !expands(heads, #[trigger] table[i]) implies after.same(
        table[i].0 as int,
        table[i].1 as int,
    ) by {
        if i < k {
            assert(before.same(table[i].0 as int, table[i].1 as int));
        }
    }
    assert forall|color: spec_fn(int) -> int, x: int, y: int| #[trigger]
        respects_first(heads, table, k + 1, color) && #[trigger] after.same(x, y) implies color(x)
        == color(y) by {
        assert(respects_first(heads, table, k, color)) by {
            assert forall|i: int| 0 <= i < k && !expands(heads, #[trigger] table[i]) implies color(
                table[i].0 as int,
            ) == color(table[i].1 as int) by {}
        }
        assert(color(p) == color(q));
        if before.same(x, y) {
        } else if before.same(x, p) && before.same(y, q) {
        } else {
            assert(before.same(x, q) && before.same(y, p));
        }
    }
}

/// Nothing is joined where there is no split.
proof fn lemma_join_none(
    heads: Seq<usize>,
    table: Seq<(usize, usize)>,
    k: int,
    n: int,
    sets: UnionFind,
)
    requires
        0 <= k < table.len(),
        expands(heads, table[k]),
        joined_so_far(heads, table, k, n, sets),
    ensures
        joined_so_far(heads, table, k + 1, n, sets),
{
    assert forall|color: spec_fn(int) -> int, x: int, y: int| #[trigger]
        respects_first(heads, table, k + 1, color) && #[trigger] sets.same(x, y) implies color(x)
        == color(y) by {
        assert(respects_first(heads, table, k, color)) by {
            assert forall|i: int| 0 <= i < k && !expands(heads, #[trigger] table[i]) implies color(
                table[i].0 as int,
            ) == color(table[i].1 as int) by {}
        }
    }
}

/// Looking at further pairs leaves what is joined as it is.
proof fn lemma_joined_still(
    heads: Seq<usize>,
    table: Seq<(usize, usize)>,
    more: Seq<(usize, usize)>,
    k: int,
    n: int,
    sets: UnionFind,
)
    requires
        0 <= k <= table.len(),
        went_on(table, more),
        joined_so_far(heads, table, k, n, sets),
    ensures
        joined_so_far(heads, more, k, n, sets),
{
    assert forall|i: int| 0 <= i < k && !expands(heads, #[trigger] more[i]) implies sets.same(
        more[i].0 as int,
        more[i].1 as int,
    ) by {
        assert(more[i] == table[i]);
    }
    assert forall|color: spec_fn(int) -> int, x: int, y: int| #[trigger]
        respects_first(heads, more, k, color) && #[trigger] sets.same(x, y) implies color(x)
        == color(y) by {
        assert(respects_first(heads, table, k, color)) by {
            assert forall|i: int| 0 <= i < k && !expands(heads, #[trigger] table[i]) implies color(
                table[i].0 as int,
            ) == color(table[i].1 as int) by {
                assert(more[i] == table[i]);
            }
        }
    }
}

/// A pair that a pair leads to can be met too.
proof fn lemma_paired_step<W: Weight>(
    w: FstV<W>,
    heads: Seq<usize>,
    p: (usize, usize),
    q: (usize, usize),
)
    requires
        paired(w, heads, p),
        expands(heads, p),
        pair_leads(w, p, q),
    ensures
        paired(w, heads, q),
{
    let k = choose|k: nat| paired_in(w, heads, p, k);
    assert(paired_in(w, heads, q, k + 1));
}

/// Once everything taken down has been looked at, everything has been taken down.
proof fn lemma_all_paired<W: Weight>(
    w: FstV<W>,
    heads: Seq<usize>,
    table: Seq<(usize, usize)>,
    found: Seq<Candidate>,
    q: (usize, usize),
    k: nat,
)
    requires
        w.start is Some,
        table.contains((w.start->0, w.start->0)),
        forall|i: int|
            0 <= i < table.len() && expands(heads, #[trigger] table[i]) ==> examined(
                w,
                heads,
                table,
                found,
                table[i],
            ),
        paired_in(w, heads, q, k),
    ensures
        table.contains(q),
    decreases k,
{
    if k > 0 {
        let p = choose|p: (usize, usize)| #[trigger]
            pair_leads(w, p, q) && expands(heads, p) && paired_in(w, heads, p, (k - 1) as nat);
        lemma_all_paired(w, heads, table, found, p, (k - 1) as nat);
        let i = choose|i: int| 0 <= i < table.len() && table[i] == p;
        assert(examined(w, heads, table, found, table[i]));
    }
}

/// Whether the states of a pair are states of the machine.
pub open spec fn pair_fits<W: Weight>(w: FstV<W>, p: (usize, usize)) -> bool {
    p.0 < w.n() && p.1 < w.n()
}

proof fn lemma_pair_fits<W: Weight>(w: FstV<W>, p: (usize, usize), q: (usize, usize))
    requires
        w.wf(),
        pair_fits(w, p),
        pair_leads(w, p, q),
    ensures
        pair_fits(w, q),
{
    let (i, j) = choose|i: int, j: int| #[trigger]
        same_label(w, p, i, j) && q == lead_to(w, p, i, j);
    assert(w.states[p.0 as int].arcs[i].nextstate < w.n());
    assert(w.states[p.1 as int].arcs[j].nextstate < w.n());
}

/// What has been found once the first `k` pairs have been looked at.
spec fn searched<W: Weight>(
    w: FstV<W>,
    heads: Seq<usize>,
    table: Seq<(usize, usize)>,
    found: Seq<Candidate>,
    k: int,
) -> bool {
    &&& table.contains((w.start->0, w.start->0))
    &&& forall|i: int|
        0 <= i < table.len() ==> pair_fits(w, #[trigger] table[i]) && paired(w, heads, table[i])
    &&& forall|i: int|
        0 <= i < k && expands(heads, #[trigger] table[i]) ==> examined(
            w,
            heads,
            table,
            found,
            table[i],
        )
    &&& forall|i: int|
        0 <= i < found.len() ==> clash(w, heads, (#[trigger] found[i]).a, found[i].b)
            && found[i].head == head_at(heads, found[i].a.0 as int)
}

/// The search after one more pair has been looked at.
proof fn lemma_searched_on<W: Weight>(
    w: FstV<W>,
    heads: Seq<usize>,
    table0: Seq<(usize, usize)>,
    table: Seq<(usize, usize)>,
    found0: Seq<Candidate>,
    found: Seq<Candidate>,
    k: int,
)
    requires
        w.wf(),
        0 <= k < table0.len(),
        searched(w, heads, table0, found0, k),
        expands(heads, table0[k]),
        examined(w, heads, table, found, table0[k]),
        came_from(w, heads, table0[k], table0, table, found0, found),
    ensures
        searched(w, heads, table, found, k + 1),
{
    let p = table0[k];
    lemma_went_on(table0, table, (w.start->0, w.start->0));
    assert forall|i: int| 0 <= i < table.len() implies pair_fits(w, #[trigger] table[i]) && paired(
        w,
        heads,
        table[i],
    ) by {
        if i < table0.len() {
            assert(table[i] == table0[i]);
        } else {
            assert(pair_leads(w, p, table[i]));
            lemma_pair_fits(w, p, table[i]);
            lemma_paired_step(w, heads, p, table[i]);
        }
    }
    assert forall|i: int| 0 <= i < k + 1 && expands(heads, #[trigger] table[i]) implies examined(
        w,
        heads,
        table,
        found,
        table[i],
    ) by {
        assert(table[i] == table0[i]);
        if i < k {
            let x = table0[i];
            assert(examined(w, heads, table0, found0, x));
            assert forall|q: (usize, usize)| #[trigger] pair_leads(
                w,
                x,
                q,
            ) implies table.contains(q) by {
                lemma_went_on(table0, table, q);
            }
            assert forall|a: ArcId, b: ArcId| #[trigger] clash_at(
                w,
                heads,
                x,
                a,
                b,
            ) implies listed(found, a, b) by {
                lemma_still_listed(found0, found, a, b);
            }
        }
    }
    assert forall|i: int| 0 <= i < found.len() implies clash(
        w,
        heads,
        (#[trigger] found[i]).a,
        found[i].b,
    ) && found[i].head == head_at(heads, found[i].a.0 as int) by {
        if i < found0.len() {
            assert(found[i] == found0[i]);
        } else {
            assert(clash_at(w, heads, p, found[i].a, found[i].b));
            assert(paired(w, heads, p));
        }
    }
}

/// The search, when a split has been passed over.
proof fn lemma_searched_past<W: Weight>(
    w: FstV<W>,
    heads: Seq<usize>,
    table: Seq<(usize, usize)>,
    found: Seq<Candidate>,
    k: int,
)
    requires
        0 <= k < table.len(),
        searched(w, heads, table, found, k),
        !expands(heads, table[k]),
    ensures
        searched(w, heads, table, found, k + 1),
{
}

/// Finds the pairs of transitions that give two paths the same input, and the states
/// that only quantization told apart.
pub fn find_ambiguities<W: Weight>(fst: &VectorFst<W>, heads: &Vec<usize>) -> (found: Ambiguities)
    requires
        fst@.wf(),
    ensures
        are_candidates(fst@, heads@, found.candidates@),
        match found.merge {
            None => no_splits(fst@, heads@),
            Some(sets) => sets.wf() && joins_splits(fst@, heads@, sets) && !no_splits(
                fst@,
                heads@,
            ),
        },
{
    let ghost w = fst@;
    let mut candidates: Vec<Candidate> = Vec::new();
    let start: usize = match fst.start() {
        Some(s) => s,
        None => {
            proof {
                assert forall|p: (usize, usize)| !#[trigger] paired(w, heads@, p) by {
                    lemma_none_paired(w, heads@, p);
                }
            }
            return Ambiguities { candidates, merge: None };
        },
    };
    let n: usize = fst.num_states();
    let mut pairs: Table<(usize, usize)> = Table::new();
    let at: usize = pairs.insert((start, start));
    let mut sets = apart(n);
    let mut split = false;
    let mut k: usize = 0;
    proof {
        assert(paired_in(w, heads@, (start, start), 0));
        assert(pairs@ =~= seq![(start, start)]);
        assert(pairs@[0] == (start, start));
        assert(searched(w, heads@, pairs@, candidates@, 0));
        assert(joined_so_far(heads@, pairs@, 0, n as int, sets));
    }
    let mut known: usize = pairs.len();
    while k < known
        invariant
            w == fst@,
            w.wf(),
            n == w.n(),
            w.start == Some(start),
            pairs.wf(),
            known == pairs@.len(),
            k <= known,
            searched(w, heads@, pairs@, candidates@, k as int),
            joined_so_far(heads@, pairs@, k as int, n as int, sets),
            split <==> exists|i: int| 0 <= i < k && !expands(heads@, #[trigger] pairs@[i]),
        decreases usize::MAX - k,
    {
        let p = *pairs.get(k);
        let ghost table0 = pairs@;
        let ghost found0 = candidates@;
        assert(pair_fits(w, table0[k as int]));
        if p.0 == p.1 || head_of(heads, p.0) != head_of(heads, p.1) {
            examine(fst, heads, p, &mut pairs, &mut candidates);
            proof {
                lemma_searched_on(
                    w,
                    heads@,
                    table0,
                    pairs@,
                    found0,
                    candidates@,
                    k as int,
                );
                lemma_joined_still(heads@, table0, pairs@, k as int, n as int, sets);
                assert(pairs@[k as int] == table0[k as int]);
                lemma_join_none(heads@, pairs@, k as int, n as int, sets);
                assert forall|i: int| 0 <= i < k implies pairs@[i] == table0[i] by {}
                if exists|i: int| 0 <= i < k + 1 && !expands(heads@, #[trigger] pairs@[i]) {
                    let i = choose|i: int|
                        0 <= i < k + 1 && !expands(heads@, #[trigger] pairs@[i]);
                    assert(!expands(heads@, table0[i]));
                }
                if split {
                    let i = choose|i: int| 0 <= i < k && !expands(heads@, #[trigger] table0[i]);
                    assert(!expands(heads@, pairs@[i]));
                }
            }
        } else {
            // Only quantization put these apart; they are one state.
            let ghost before = sets;
            sets.union(p.0, p.1);
            proof {
                lemma_join_one(heads@, pairs@, k as int, n as int, before, sets);
                lemma_searched_past(w, heads@, pairs@, candidates@, k as int);
                assert(!expands(heads@, pairs@[k as int]));
            }
            split = true;
        }
        known = pairs.len();
        k = k + 1;
    }
    proof {
        let table = pairs@;
        assert forall|q: (usize, usize)| #[trigger] paired(w, heads@, q) implies table.contains(
            q,
        ) by {
            let x = choose|x: nat| paired_in(w, heads@, q, x);
            lemma_all_paired(w, heads@, table, candidates@, q, x);
        }
        assert forall|a: ArcId, b: ArcId| #[trigger] clash(w, heads@, a, b) implies listed(
            candidates@,
            a,
            b,
        ) by {
            let p = choose|p: (usize, usize)| #[trigger]
                paired(w, heads@, p) && expands(heads@, p) && clash_at(w, heads@, p, a, b);
            let i = choose|i: int| 0 <= i < table.len() && table[i] == p;
            assert(examined(w, heads@, table, candidates@, table[i]));
        }
        lemma_splits_joined(w, heads@, table, candidates@, sets);
        if split {
            let i = choose|i: int| 0 <= i < k && !expands(heads@, #[trigger] table[i]);
            assert(is_split(w, heads@, table[i]));
        } else {
            assert forall|p: (usize, usize)| !#[trigger] is_split(w, heads@, p) by {
                if is_split(w, heads@, p) {
                    let i = choose|i: int| 0 <= i < table.len() && table[i] == p;
                    assert(!expands(heads@, table[i]));
                }
            }
        }
    }
    let merge = if split {
        Some(sets)
    } else {
        None
    };
    Ambiguities { candidates, merge }
}

proof fn lemma_none_paired<W: Weight>(w: FstV<W>, heads: Seq<usize>, p: (usize, usize))
    requires
        w.start is None,
    ensures
        !paired(w, heads, p),
{
    if paired(w, heads, p) {
        let k = choose|k: nat| paired_in(w, heads, p, k);
        lemma_none_paired_in(w, heads, p, k);
    }
}

proof fn lemma_none_paired_in<W: Weight>(
    w: FstV<W>,
    heads: Seq<usize>,
    p: (usize, usize),
    k: nat,
)
    requires
        w.start is None,
    ensures
        !paired_in(w, heads, p, k),
    decreases k,
{
    if k > 0 && paired_in(w, heads, p, k) {
        let q = choose|q: (usize, usize)| #[trigger]
            pair_leads(w, q, p) && expands(heads, q) && paired_in(w, heads, q, (k - 1) as nat);
        lemma_none_paired_in(w, heads, q, (k - 1) as nat);
    }
}

/// Once all pairs have been looked at, the sets are what the splits connect.
proof fn lemma_splits_joined<W: Weight>(
    w: FstV<W>,
    heads: Seq<usize>,
    table: Seq<(usize, usize)>,
    found: Seq<Candidate>,
    sets: UnionFind,
)
    requires
        searched(w, heads, table, found, table.len() as int),
        joined_so_far(heads, table, table.len() as int, w.n() as int, sets),
        forall|q: (usize, usize)| #[trigger] paired(w, heads, q) ==> table.contains(q),
    ensures
        joins_splits(w, heads, sets),
{
    assert forall|p: (usize, usize)| #[trigger] is_split(w, heads, p) implies sets.same(
        p.0 as int,
        p.1 as int,
    ) by {
        assert(paired(w, heads, p));
        let i = choose|i: int| 0 <= i < table.len() && table[i] == p;
        assert(!expands(heads, table[i]));
    }
    assert forall|color: spec_fn(int) -> int, x: int, y: int| #[trigger]
        respects(w, heads, color) && #[trigger] sets.same(x, y) implies color(x) == color(y) by {
        assert(respects_first(heads, table, table.len() as int, color)) by {
            assert forall|i: int|
                0 <= i < table.len() && !expands(heads, #[trigger] table[i]) implies color(
                table[i].0 as int,
            ) == color(table[i].1 as int) by {
                assert(is_split(w, heads, table[i]));
            }
        }
    }
}

} // verus!
