//! The coarsest way to put together states that cannot be told apart.
use crate::arc::Arc;
use crate::hash_table::{Key, Table};
use crate::list::{list_of, List};
use crate::sort::{is_ranked, law_ranked, lemma_ranked_from, lemma_ranked_to, lower, put_in_order,
    ranked, Ranked};
use crate::vector_fst::{FstV, VectorFst};
use crate::weight::Weight;
use vstd::prelude::*;

verus! {

/// A label, and the state that stands for where it leads.
pub type Onward = (i32, usize);

impl Ranked for Onward {
    open spec fn rank(self) -> (int, int, int) {
        (self.0 as int, self.1 as int, 0)
    }

    fn before(&self, other: &Self) -> (b: bool) {
        self.0 < other.0 || (self.0 == other.0 && self.1 < other.1)
    }
}

/// Where the first `k` arcs of a state lead, by the states that stand for those.
pub open spec fn onwards<W>(arcs: Seq<Arc<W>>, rep: Seq<usize>, k: int) -> Seq<Onward>
    decreases k,
{
    if k <= 0 {
        Seq::empty()
    } else {
        onwards(arcs, rep, k - 1).push(
            (arcs[k - 1].ilabel, rep[arcs[k - 1].nextstate as int]),
        )
    }
}

/// Each of the first `k` values that is not what the one before it is.
pub open spec fn without_repeats(all: Seq<Onward>, k: int) -> Seq<Onward>
    decreases k,
{
    if k <= 0 {
        Seq::empty()
    } else {
        let before = without_repeats(all, k - 1);
        if k > 1 && all[k - 1] == all[k - 2] {
            before
        } else {
            before.push(all[k - 1])
        }
    }
}

/// What a state's arcs look like: the labels and where they lead, in order, each once.
pub open spec fn signature<W>(arcs: Seq<Arc<W>>, rep: Seq<usize>) -> Seq<Onward> {
    let all = ranked(onwards(arcs, rep, arcs.len() as int));
    without_repeats(all, all.len() as int)
}

/// Whether some arc reads `label` and leads to what `to` stands for.
pub open spec fn leads_on<W>(arcs: Seq<Arc<W>>, rep: Seq<usize>, on: Onward) -> bool {
    exists|i: int|
        0 <= i < arcs.len() && (#[trigger] arcs[i]).ilabel == on.0 && rep[arcs[i].nextstate as int]
            == on.1
}

/// Whether values strictly ascend.
spec fn ascends(all: Seq<Onward>) -> bool {
    forall|i: int, j: int|
        0 <= i < j < all.len() ==> lower((#[trigger] all[i]).rank(), (#[trigger] all[j]).rank())
}

proof fn lemma_onwards<W>(arcs: Seq<Arc<W>>, rep: Seq<usize>, k: int)
    requires
        0 <= k <= arcs.len(),
    ensures
        onwards(arcs, rep, k).len() == k,
        forall|i: int|
            0 <= i < k ==> #[trigger] onwards(arcs, rep, k)[i] == (
                arcs[i].ilabel,
                rep[arcs[i].nextstate as int],
            ),
    decreases k,
{
    if k > 0 {
        lemma_onwards(arcs, rep, k - 1);
    }
}

proof fn lemma_without_repeats(all: Seq<Onward>, k: int)
    requires
        is_ranked(all),
        0 <= k <= all.len(),
    ensures
        ascends(without_repeats(all, k)),
        k > 0 ==> without_repeats(all, k).len() > 0 && without_repeats(all, k).last() == all[k - 1],
        forall|x: Onward| #[trigger]
            without_repeats(all, k).contains(x) <==> all.take(k).contains(x),
    decreases k,
{
    if k > 0 {
        lemma_without_repeats(all, k - 1);
        let before = without_repeats(all, k - 1);
        let now = without_repeats(all, k);
        let last = all[k - 1];
        if k > 1 {
            assert(!lower(all[k - 1].rank(), all[k - 2].rank()));
        }
        assert forall|i: int, j: int| 0 <= i < j < now.len() implies lower(
            (#[trigger] now[i]).rank(),
            (#[trigger] now[j]).rank(),
        ) by {
            if j == before.len() {
                assert(now[i] == before[i]);
                if i < before.len() - 1 {
                    assert(lower(before[i].rank(), before[before.len() - 1].rank()));
                }
            } else {
                assert(now[i] == before[i] && now[j] == before[j]);
            }
        }
        assert(all.take(k) =~= all.take(k - 1).push(last));
        assert forall|x: Onward| #[trigger] now.contains(x) <==> all.take(k).contains(x) by {
            let t = all.take(k);
            let u = all.take(k - 1);
            if now.contains(x) {
                let i = choose|i: int| 0 <= i < now.len() && now[i] == x;
                if i < before.len() {
                    assert(before[i] == x);
                    assert(before.contains(x));
                    let j = choose|j: int| 0 <= j < u.len() && u[j] == x;
                    assert(t[j] == x);
                } else {
                    assert(t[k - 1] == x);
                }
            }
            if t.contains(x) {
                let j = choose|j: int| 0 <= j < t.len() && t[j] == x;
                if j < k - 1 {
                    assert(u[j] == x);
                    assert(before.contains(x));
                    let i = choose|i: int| 0 <= i < before.len() && before[i] == x;
                    assert(now[i] == x);
                } else {
                    assert(now.last() == last);
                    assert(now[now.len() - 1] == x);
                }
            }
        }
    } else {
        assert(all.take(0) =~= Seq::empty());
    }
}

/// Ascending sequences of the same values are one sequence.
proof fn lemma_ascending_is_one(a: Seq<Onward>, b: Seq<Onward>)
    requires
        ascends(a),
        ascends(b),
        forall|x: Onward| #[trigger] a.contains(x) <==> b.contains(x),
    ensures
        a == b,
    decreases a.len(),
{
    if a.len() == 0 {
        if b.len() > 0 {
            assert(b.contains(b[0]));
            assert(a.contains(b[0]));
        }
        assert(a =~= b);
    } else {
        assert(a.contains(a[a.len() - 1]));
        assert(b.contains(a[a.len() - 1]));
        let p = a.len() - 1;
        let q = b.len() - 1;
        assert(b.contains(b[q]));
        assert(a.contains(b[q]));
        let i = choose|i: int| 0 <= i < b.len() && b[i] == a[p];
        let j = choose|j: int| 0 <= j < a.len() && a[j] == b[q];
        if i < q {
            assert(lower(b[i].rank(), b[q].rank()));
            if j < p {
                assert(lower(a[j].rank(), a[p].rank()));
            }
        }
        assert(a[p] == b[q]);
        let c = a.drop_last();
        let d = b.drop_last();
        assert forall|x: Onward| #[trigger] c.contains(x) <==> d.contains(x) by {
            if c.contains(x) {
                let k = choose|k: int| 0 <= k < c.len() && c[k] == x;
                assert(a[k] == x);
                assert(a.contains(x));
                assert(lower(a[k].rank(), a[p].rank()));
                let l = choose|l: int| 0 <= l < b.len() && b[l] == x;
                assert(l < q);
                assert(d[l] == x);
            }
            if d.contains(x) {
                let k = choose|k: int| 0 <= k < d.len() && d[k] == x;
                assert(b[k] == x);
                assert(b.contains(x));
                assert(a.contains(x));
                assert(lower(b[k].rank(), b[q].rank()));
                let l = choose|l: int| 0 <= l < a.len() && a[l] == x;
                assert(l < p);
                assert(c[l] == x);
            }
        }
        assert(ascends(c)) by {
            assert forall|x: int, y: int| 0 <= x < y < c.len() implies lower(
                (#[trigger] c[x]).rank(),
                (#[trigger] c[y]).rank(),
            ) by {
                assert(lower(a[x].rank(), a[y].rank()));
            }
        }
        assert(ascends(d)) by {
            assert forall|x: int, y: int| 0 <= x < y < d.len() implies lower(
                (#[trigger] d[x]).rank(),
                (#[trigger] d[y]).rank(),
            ) by {
                assert(lower(b[x].rank(), b[y].rank()));
            }
        }
        lemma_ascending_is_one(c, d);
        assert(a =~= c.push(a[p]));
        assert(b =~= d.push(b[q]));
    }
}

/// A signature holds what the arcs lead on to.
proof fn lemma_signature<W>(arcs: Seq<Arc<W>>, rep: Seq<usize>)
    ensures
        ascends(signature(arcs, rep)),
        forall|on: Onward| #[trigger]
            signature(arcs, rep).contains(on) <==> leads_on(arcs, rep, on),
{
    let from = onwards(arcs, rep, arcs.len() as int);
    let all = ranked(from);
    lemma_onwards(arcs, rep, arcs.len() as int);
    law_ranked(from);
    lemma_without_repeats(all, all.len() as int);
    assert(all.take(all.len() as int) =~= all);
    assert forall|on: Onward| #[trigger] signature(arcs, rep).contains(on) <==> leads_on(
        arcs,
        rep,
        on,
    ) by {
        assert(signature(arcs, rep).contains(on) <==> all.contains(on));
        if all.contains(on) {
            let i = choose|i: int| 0 <= i < all.len() && all[i] == on;
            let j = lemma_ranked_from(from, i);
            assert(from[j] == (arcs[j].ilabel, rep[arcs[j].nextstate as int]));
        }
        if leads_on(arcs, rep, on) {
            let j = choose|j: int|
                0 <= j < arcs.len() && (#[trigger] arcs[j]).ilabel == on.0
                    && rep[arcs[j].nextstate as int] == on.1;
            assert(from[j] == on);
            let i = lemma_ranked_to(from, j);
            assert(all[i] == on);
        }
    }
}

/// Whether two states' arcs lead on to the same.
pub open spec fn lead_alike<W: Weight>(v: FstV<W>, rep: Seq<usize>, s: int, t: int) -> bool {
    forall|on: Onward| #[trigger]
        leads_on(v.arcs(s), rep, on) <==> leads_on(v.arcs(t), rep, on)
}

proof fn lemma_signatures_tell<W: Weight>(v: FstV<W>, rep: Seq<usize>, s: int, t: int)
    ensures
        signature(v.arcs(s), rep) == signature(v.arcs(t), rep) <==> lead_alike(v, rep, s, t),
{
    lemma_signature(v.arcs(s), rep);
    lemma_signature(v.arcs(t), rep);
    let a = signature(v.arcs(s), rep);
    let b = signature(v.arcs(t), rep);
    if a == b {
        assert forall|on: Onward| #[trigger] leads_on(v.arcs(s), rep, on) <==> leads_on(
            v.arcs(t),
            rep,
            on,
        ) by {
            assert(a.contains(on) <==> leads_on(v.arcs(s), rep, on));
            assert(b.contains(on) <==> leads_on(v.arcs(t), rep, on));
        }
    }
    if lead_alike(v, rep, s, t) {
        assert forall|x: Onward| #[trigger] a.contains(x) <==> b.contains(x) by {
            assert(leads_on(v.arcs(s), rep, x) <==> leads_on(v.arcs(t), rep, x));
        }
        lemma_ascending_is_one(a, b);
    }
}

/// What a state's arcs look like.
fn signature_of<W: Weight>(fst: &VectorFst<W>, rep: &Vec<usize>, s: usize) -> (list: List<Onward>)
    requires
        fst@.wf(),
        s < fst@.n(),
        rep@.len() == fst@.n(),
    ensures
        list == list_of(signature(fst@.arcs(s as int), rep@)),
{
    let arcs = fst.arcs(s);
    let mut found: Vec<Onward> = Vec::new();
    let mut k: usize = 0;
    while k < arcs.len()
        invariant
            k <= arcs@.len(),
            fst@.wf(),
            s < fst@.n(),
            arcs@ == fst@.arcs(s as int),
            rep@.len() == fst@.n(),
            found@ == onwards(arcs@, rep@, k as int),
        decreases arcs@.len() - k,
    {
        assert(fst@.states[s as int].arcs[k as int].nextstate < fst@.n());
        found.push((arcs[k].ilabel, rep[arcs[k].nextstate]));
        k = k + 1;
    }
    let all = put_in_order(found);
    let mut once: Vec<Onward> = Vec::new();
    k = 0;
    while k < all.len()
        invariant
            k <= all@.len(),
            once@ == without_repeats(all@, k as int),
        decreases all@.len() - k,
    {
        let again = k > 0 && all[k - 1].0 == all[k].0 && all[k - 1].1 == all[k].1;
        if !again {
            once.push(all[k]);
        }
        k = k + 1;
    }
    List::from_vec(&once)
}

/// Whether each state is stood for by the lowest state in its part.
pub open spec fn names_parts(rep: Seq<usize>) -> bool {
    forall|s: int|
        0 <= s < rep.len() ==> (#[trigger] rep[s]) <= s && rep[rep[s] as int] == rep[s]
}

/// Names the parts that keys make, given in the order of the states.
fn name_parts<K: Key>(keys: Vec<K>) -> (rep: Vec<usize>)
    ensures
        rep@.len() == keys@.len(),
        names_parts(rep@),
        forall|s: int, t: int|
            0 <= s < rep@.len() && 0 <= t < rep@.len() ==> (#[trigger] rep@[s] == #[trigger] rep@[t]
                <==> keys@[s] == keys@[t]),
{
    let mut table: Table<K> = Table::new();
    let mut firsts: Vec<usize> = Vec::new();
    let mut rep: Vec<usize> = Vec::new();
    let mut s: usize = 0;
    while s < keys.len()
        invariant
            s <= keys@.len(),
            table.wf(),
            rep@.len() == s,
            firsts@.len() == table@.len(),
            forall|i: int|
                0 <= i < firsts@.len() ==> (#[trigger] firsts@[i]) < s && keys@[firsts@[i] as int]
                    == table@[i] && rep@[firsts@[i] as int] == firsts@[i],
            forall|x: int|
                0 <= x < s ==> (#[trigger] rep@[x]) <= x && keys@[rep@[x] as int] == keys@[x]
                    && exists|i: int| 0 <= i < firsts@.len() && #[trigger] firsts@[i] == rep@[x],
        decreases keys@.len() - s,
    {
        let ghost table0 = table@;
        let ghost firsts0 = firsts@;
        let ghost rep0 = rep@;
        let known: usize = table.len();
        let id: usize = table.insert(keys[s].key_copy());
        proof {
            table.lemma_distinct();
        }
        if id == known {
            proof {
                if table0.contains(keys@[s as int]) {
                    assert(table@ == table0);
                    assert(false);
                }
            }
            firsts.push(s);
        }
        proof {
            if id != known {
                assert(table@ =~= table0) by {
                    if !table0.contains(keys@[s as int]) {
                        assert(table@[known as int] == keys@[s as int]);
                        assert(table@[id as int] == keys@[s as int]);
                    }
                }
            }
        }
        rep.push(firsts[id]);
        proof {
            assert forall|x: int| 0 <= x < s + 1 implies (#[trigger] rep@[x]) <= x
                && keys@[rep@[x] as int] == keys@[x] && exists|i: int|
                0 <= i < firsts@.len() && #[trigger] firsts@[i] == rep@[x] by {
                if x < s {
                    assert(rep@[x] == rep0[x]);
                    let i = choose|i: int|
                        0 <= i < firsts0.len() && #[trigger] firsts0[i] == rep0[x];
                    assert(firsts@[i] == rep@[x]);
                } else {
                    assert(firsts@[id as int] == rep@[x]);
                }
            }
            assert forall|i: int| 0 <= i < firsts@.len() implies (#[trigger] firsts@[i]) < s + 1
                && keys@[firsts@[i] as int] == table@[i] && rep@[firsts@[i] as int]
                == firsts@[i] by {
                if i < firsts0.len() {
                    assert(firsts@[i] == firsts0[i]);
                    assert(table@[i] == table0[i]);
                }
            }
        }
        s = s + 1;
    }
    proof {
        table.lemma_distinct();
        assert forall|x: int| 0 <= x < rep@.len() implies (#[trigger] rep@[x]) <= x
            && rep@[rep@[x] as int] == rep@[x] by {
            let i = choose|i: int| 0 <= i < firsts@.len() && #[trigger] firsts@[i] == rep@[x];
        }
        assert forall|x: int, y: int| 0 <= x < rep@.len() && 0 <= y < rep@.len() implies (
        #[trigger] rep@[x] == #[trigger] rep@[y] <==> keys@[x] == keys@[y]) by {
            let i = choose|i: int| 0 <= i < firsts@.len() && #[trigger] firsts@[i] == rep@[x];
            let j = choose|j: int| 0 <= j < firsts@.len() && #[trigger] firsts@[j] == rep@[y];
            if keys@[x] == keys@[y] {
                assert(table@[i] == table@[j]);
                assert(i == j);
            }
        }
    }
    rep
}

/// A final weight, to be looked up.
pub struct Ending<W> {
    /// The final weight.
    pub weight: W,
}

impl<W: Weight> Key for Ending<W> {
    open spec fn spec_key_word(self) -> u64 {
        self.weight.spec_hash_word()
    }

    fn key_word(&self) -> (h: u64) {
        self.weight.hash_word()
    }

    fn key_same(&self, other: &Self) -> (b: bool) {
        self.weight.same(&other.weight)
    }

    fn key_copy(&self) -> (k: Self) {
        Ending { weight: self.weight.duplicate() }
    }
}

/// Whether `color` tells apart what ends or goes on differently: states of one color end
/// with one weight, and for each arc of one the other has an arc that reads the same
/// label and leads to the same color.
pub open spec fn is_stable<W: Weight>(v: FstV<W>, color: spec_fn(int) -> int) -> bool {
    forall|s: int, t: int|
        0 <= s < v.n() && 0 <= t < v.n() ==> #[trigger] is_consistent(v, color, s, t)
}

/// Whether `s` and `t`, if they are of one color, end with one weight and `t` follows `s`.
pub open spec fn is_consistent<W: Weight>(
    v: FstV<W>,
    color: spec_fn(int) -> int,
    s: int,
    t: int,
) -> bool {
    color(s) == color(t) ==> v.fin(s) == v.fin(t) && follows(v, color, s, t)
}

/// Whether for each arc of `s`, `t` has one that reads the same label and leads to the
/// same color.
pub open spec fn follows<W: Weight>(
    v: FstV<W>,
    color: spec_fn(int) -> int,
    s: int,
    t: int,
) -> bool {
    forall|i: int|
        0 <= i < v.arcs(s).len() ==> has_match(v, color, #[trigger] v.arcs(s)[i], t)
}

/// Whether `t` has an arc that reads what `arc` reads and leads to the same color.
pub open spec fn has_match<W: Weight>(
    v: FstV<W>,
    color: spec_fn(int) -> int,
    arc: Arc<W>,
    t: int,
) -> bool {
    exists|j: int|
        0 <= j < v.arcs(t).len() && (#[trigger] v.arcs(t)[j]).ilabel == arc.ilabel && color(
            v.arcs(t)[j].nextstate as int,
        ) == color(arc.nextstate as int)
}

/// The parts as a coloring.
pub open spec fn by_part(rep: Seq<usize>) -> spec_fn(int) -> int {
    |s: int| rep[s] as int
}

/// Whether the parts are no finer than any coloring that tells apart what ends or goes
/// on differently.
pub open spec fn is_coarse<W: Weight>(v: FstV<W>, rep: Seq<usize>) -> bool {
    forall|color: spec_fn(int) -> int, s: int, t: int|
        #![trigger is_stable(v, color), rep[s], rep[t]]
        is_stable(v, color) && 0 <= s < v.n() && 0 <= t < v.n() && color(s) == color(t) ==> rep[s]
            == rep[t]
}

/// Whether the parts are the coarsest that tell apart what ends or goes on differently.
pub open spec fn is_coarsest<W: Weight>(v: FstV<W>, rep: Seq<usize>) -> bool {
    &&& rep.len() == v.n()
    &&& names_parts(rep)
    &&& is_stable(v, by_part(rep))
    &&& is_coarse(v, rep)
}

/// How much finer the parts of the first `k` states could still become.
spec fn slack(rep: Seq<usize>, n: int, k: int) -> nat
    decreases k,
{
    if k <= 0 {
        0
    } else {
        slack(rep, n, k - 1) + (if rep[k - 1] < n { (n - rep[k - 1]) as nat } else { 0nat })
    }
}

proof fn lemma_slack(a: Seq<usize>, b: Seq<usize>, n: int, k: int)
    requires
        a.len() == n,
        b.len() == n,
        0 <= k <= n,
        forall|s: int| 0 <= s < n ==> (#[trigger] a[s]) <= b[s] < n,
    ensures
        slack(b, n, k) <= slack(a, n, k),
        (exists|s: int| 0 <= s < k && #[trigger] a[s] != b[s]) ==> slack(b, n, k) < slack(a, n, k),
    decreases k,
{
    if k > 0 {
        lemma_slack(a, b, n, k - 1);
        assert(a[k - 1] <= b[k - 1]);
        if exists|s: int| 0 <= s < k && #[trigger] a[s] != b[s] {
            let s = choose|s: int| 0 <= s < k && #[trigger] a[s] != b[s];
            if s < k - 1 {
                assert(slack(b, n, k - 1) < slack(a, n, k - 1));
            }
        }
    }
}

/// Parts that split what leads on differently within each part.
spec fn is_split_of<W: Weight>(v: FstV<W>, rep: Seq<usize>, next: Seq<usize>) -> bool {
    &&& next.len() == rep.len()
    &&& names_parts(next)
    &&& forall|s: int, t: int|
        0 <= s < rep.len() && 0 <= t < rep.len() ==> (#[trigger] next[s] == #[trigger] next[t]
            <==> rep[s] == rep[t] && lead_alike(v, rep, s, t))
}

/// Splits each part by where its states lead on.
fn split_parts<W: Weight>(fst: &VectorFst<W>, rep: &Vec<usize>) -> (next: Vec<usize>)
    requires
        fst@.wf(),
        rep@.len() == fst@.n(),
    ensures
        is_split_of(fst@, rep@, next@),
{
    let ghost v = fst@;
    let n: usize = fst.num_states();
    let mut keys: Vec<(usize, List<Onward>)> = Vec::new();
    let mut s: usize = 0;
    while s < n
        invariant
            s <= n,
            n == v.n(),
            v == fst@,
            v.wf(),
            rep@.len() == n,
            keys@.len() == s,
            forall|x: int|
                0 <= x < s ==> #[trigger] keys@[x] == (
                    rep@[x],
                    list_of(signature(v.arcs(x), rep@)),
                ),
        decreases n - s,
    {
        keys.push((rep[s], signature_of(fst, rep, s)));
        s = s + 1;
    }
    let ghost all = keys@;
    let next = name_parts(keys);
    proof {
        assert forall|x: int, y: int| 0 <= x < n && 0 <= y < n implies (#[trigger] next@[x]
            == #[trigger] next@[y] <==> rep@[x] == rep@[y] && lead_alike(v, rep@, x, y)) by {
            assert(all[x] == (rep@[x], list_of(signature(v.arcs(x), rep@))));
            assert(all[y] == (rep@[y], list_of(signature(v.arcs(y), rep@))));
            lemma_signatures_tell(v, rep@, x, y);
            crate::list::lemma_list_sequence(signature(v.arcs(x), rep@));
            crate::list::lemma_list_sequence(signature(v.arcs(y), rep@));
        }
    }
    next
}

/// Splitting keeps parts as coarse as they can be.
proof fn lemma_split_is_coarse<W: Weight>(v: FstV<W>, rep: Seq<usize>, next: Seq<usize>)
    requires
        v.wf(),
        rep.len() == v.n(),
        is_coarse(v, rep),
        is_split_of(v, rep, next),
    ensures
        is_coarse(v, next),
{
    assert forall|color: spec_fn(int) -> int, s: int, t: int|
        #![trigger is_stable(v, color), next[s], next[t]]
        is_stable(v, color) && 0 <= s < v.n() && 0 <= t < v.n() && color(s) == color(
            t,
        ) implies next[s] == next[t] by {
        assert(rep[s] == rep[t]);
        assert forall|on: Onward| #[trigger] leads_on(v.arcs(s), rep, on) <==> leads_on(
            v.arcs(t),
            rep,
            on,
        ) by {
            if leads_on(v.arcs(s), rep, on) {
                lemma_color_leads(v, rep, color, s, t, on);
            }
            if leads_on(v.arcs(t), rep, on) {
                lemma_color_leads(v, rep, color, t, s, on);
            }
        }
    }
}

proof fn lemma_color_leads<W: Weight>(
    v: FstV<W>,
    rep: Seq<usize>,
    color: spec_fn(int) -> int,
    s: int,
    t: int,
    on: Onward,
)
    requires
        v.wf(),
        is_coarse(v, rep),
        is_stable(v, color),
        0 <= s < v.n(),
        0 <= t < v.n(),
        color(s) == color(t),
        leads_on(v.arcs(s), rep, on),
    ensures
        leads_on(v.arcs(t), rep, on),
{
    let i = choose|i: int|
        0 <= i < v.arcs(s).len() && (#[trigger] v.arcs(s)[i]).ilabel == on.0
            && rep[v.arcs(s)[i].nextstate as int] == on.1;
    let arc = v.arcs(s)[i];
    assert(is_consistent(v, color, s, t));
    assert(has_match(v, color, arc, t));
    let j = choose|j: int|
        0 <= j < v.arcs(t).len() && (#[trigger] v.arcs(t)[j]).ilabel == arc.ilabel && color(
            v.arcs(t)[j].nextstate as int,
        ) == color(arc.nextstate as int);
    assert(v.states[s].arcs[i].nextstate < v.n());
    assert(v.states[t].arcs[j].nextstate < v.n());
    let x = v.arcs(t)[j].nextstate as int;
    let y = arc.nextstate as int;
    assert(rep[x] == rep[y]);
}

/// Parts that splitting leaves alone tell apart what goes on differently.
proof fn lemma_unsplit_is_stable<W: Weight>(v: FstV<W>, rep: Seq<usize>)
    requires
        v.wf(),
        rep.len() == v.n(),
        is_split_of(v, rep, rep),
        forall|s: int, t: int|
            0 <= s < v.n() && 0 <= t < v.n() && #[trigger] rep[s] == #[trigger] rep[t] ==> v.fin(s)
                == v.fin(t),
    ensures
        is_stable(v, by_part(rep)),
{
    let color = by_part(rep);
    assert forall|s: int, t: int|
        0 <= s < v.n() && 0 <= t < v.n() && color(s) == color(t) implies v.fin(s) == v.fin(t)
        && #[trigger] follows(v, color, s, t) by {
        assert(rep[s] == rep[t]);
        assert(lead_alike(v, rep, s, t));
        assert forall|i: int| 0 <= i < v.arcs(s).len() implies has_match(
            v,
            color,
            #[trigger] v.arcs(s)[i],
            t,
        ) by {
            let arc = v.arcs(s)[i];
            let on: Onward = (arc.ilabel, rep[arc.nextstate as int]);
            assert(leads_on(v.arcs(s), rep, on));
            assert(leads_on(v.arcs(t), rep, on));
            let j = choose|j: int|
                0 <= j < v.arcs(t).len() && (#[trigger] v.arcs(t)[j]).ilabel == on.0
                    && rep[v.arcs(t)[j].nextstate as int] == on.1;
            assert(v.arcs(t)[j].ilabel == arc.ilabel);
        }
    }
    assert forall|s: int, t: int| 0 <= s < v.n() && 0 <= t < v.n() implies #[trigger] is_consistent(
        v,
        color,
        s,
        t,
    ) by {
        if color(s) == color(t) {
            assert(follows(v, color, s, t));
        }
    }
}

/// Puts together the states that cannot be told apart: those that end with one weight
/// and go on alike. Each state is stood for by the lowest one in its part.
///
/// Parts are split by where their states lead on until nothing changes.
pub fn coarsest_parts<W: Weight>(fst: &VectorFst<W>) -> (rep: Vec<usize>)
    requires
        fst@.wf(),
    ensures
        is_coarsest(fst@, rep@),
{
    let ghost v = fst@;
    let n: usize = fst.num_states();
    let mut endings: Vec<Ending<W>> = Vec::new();
    let mut s: usize = 0;
    while s < n
        invariant
            s <= n,
            n == v.n(),
            v == fst@,
            endings@.len() == s,
            forall|x: int| 0 <= x < s ==> (#[trigger] endings@[x]).weight == v.fin(x),
        decreases n - s,
    {
        endings.push(Ending { weight: fst.final_weight(s) });
        s = s + 1;
    }
    let ghost ends = endings@;
    let mut rep = name_parts(endings);
    proof {
        assert forall|x: int, y: int|
            0 <= x < v.n() && 0 <= y < v.n() && #[trigger] rep@[x] == #[trigger] rep@[y] implies v.fin(
            x,
        ) == v.fin(y) by {
            assert(ends[x] == ends[y]);
        }
        assert forall|color: spec_fn(int) -> int, x: int, y: int|
            #![trigger is_stable(v, color), rep@[x], rep@[y]]
            is_stable(v, color) && 0 <= x < v.n() && 0 <= y < v.n() && color(x) == color(
                y,
            ) implies rep@[x] == rep@[y] by {
            assert(is_consistent(v, color, x, y));
            assert(ends[x].weight == v.fin(x) && ends[y].weight == v.fin(y));
            assert(ends[x] == ends[y]);
        }
    }
    loop
        invariant
            v == fst@,
            v.wf(),
            n == v.n(),
            rep@.len() == n,
            names_parts(rep@),
            is_coarse(v, rep@),
            forall|x: int, y: int|
                0 <= x < v.n() && 0 <= y < v.n() && #[trigger] rep@[x] == #[trigger] rep@[y]
                    ==> v.fin(x) == v.fin(y),
        decreases slack(rep@, n as int, n as int),
    {
        let next = split_parts(fst, &rep);
        let mut same = true;
        let mut x: usize = 0;
        while x < n
            invariant
                x <= n,
                rep@.len() == n,
                next@.len() == n,
                same <==> forall|y: int| 0 <= y < x ==> #[trigger] rep@[y] == next@[y],
            decreases n - x,
        {
            if rep[x] != next[x] {
                same = false;
            }
            x = x + 1;
        }
        if same {
            proof {
                assert(rep@ =~= next@);
                lemma_unsplit_is_stable(v, rep@);
            }
            return rep;
        }
        proof {
            lemma_split_is_coarse(v, rep@, next@);
            assert forall|y: int| 0 <= y < n implies (#[trigger] rep@[y]) <= next@[y] < n by {
                let z = next@[y] as int;
                assert(next@[z] == next@[y]);
                assert(rep@[z] == rep@[y]);
            }
            lemma_slack(rep@, next@, n as int, n as int);
            assert forall|a: int, b: int|
                0 <= a < v.n() && 0 <= b < v.n() && #[trigger] next@[a] == #[trigger] next@[b] implies v.fin(
                a,
            ) == v.fin(b) by {
                assert(rep@[a] == rep@[b]);
            }
        }
        rep = next;
    }
}

} // verus!
