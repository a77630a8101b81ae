//! Finding the arcs of a state that carry a label.
use crate::arc::{Arc, EPSILON, NO_LABEL};
use crate::error::OpenFstError;
use crate::inspect::said;
use crate::properties::{
    K_I_LABEL_SORTED, K_NOT_I_LABEL_SORTED, K_NOT_O_LABEL_SORTED, K_O_LABEL_SORTED,
};
use crate::vector_fst::{FstV, VectorFst};
use crate::weight::Weight;
use vstd::prelude::*;

verus! {

/// Which side of an arc is matched.
#[derive(Debug, Clone, Copy, PartialEq, Eq, Structural)]
pub enum MatchType {
    /// The label read.
    Input,
    /// The label written.
    Output,
    /// Either.
    Both,
    /// No side at all.
    Neither,
}

/// The label of an arc on the side that is matched.
pub open spec fn side_label<W>(arc: Arc<W>, output: bool) -> i32 {
    if output {
        arc.olabel
    } else {
        arc.ilabel
    }
}

/// The label of an arc on the side that is matched.
pub fn label_on<W>(arc: &Arc<W>, output: bool) -> (label: i32)
    ensures
        label == side_label(*arc, output),
{
    if output {
        arc.olabel
    } else {
        arc.ilabel
    }
}

/// Those of the first `k` arcs that carry `label`, in order.
pub open spec fn carrying<W>(arcs: Seq<Arc<W>>, output: bool, label: i32, k: int) -> Seq<Arc<W>>
    decreases k,
{
    if k <= 0 {
        Seq::empty()
    } else if side_label(arcs[k - 1], output) == label {
        carrying(arcs, output, label, k - 1).push(arcs[k - 1])
    } else {
        carrying(arcs, output, label, k - 1)
    }
}

/// The arc that stands for taking nothing on the matched side and staying put.
pub open spec fn staying<W: Weight>(s: usize, output: bool) -> Arc<W> {
    if output {
        Arc { ilabel: EPSILON, olabel: NO_LABEL, weight: W::spec_one(), nextstate: s }
    } else {
        Arc { ilabel: NO_LABEL, olabel: EPSILON, weight: W::spec_one(), nextstate: s }
    }
}

/// The arc that stands for taking nothing on the matched side and staying put.
pub fn staying_arc<W: Weight>(s: usize, output: bool) -> (arc: Arc<W>)
    ensures
        arc == staying::<W>(s, output),
{
    if output {
        Arc::new(EPSILON, NO_LABEL, W::one(), s)
    } else {
        Arc::new(NO_LABEL, EPSILON, W::one(), s)
    }
}

/// What matches `label` at `s`: asked for epsilon, staying put and the epsilon
/// arcs; asked for no label, the epsilon arcs alone; asked for a label, the arcs
/// that carry it.
pub open spec fn arcs_matching<W: Weight>(v: FstV<W>, output: bool, s: usize, label: i32) -> Seq<
    Arc<W>,
> {
    let arcs = v.arcs(s as int);
    (if label == EPSILON {
        seq![staying::<W>(s, output)]
    } else {
        Seq::empty()
    }) + carrying(
        arcs,
        output,
        if label == NO_LABEL {
            EPSILON
        } else {
            label
        },
        arcs.len() as int,
    )
}

/// Finds the arcs of a state that carry a label.
pub trait Matcher<W: Weight>: Sized {
    /// Whether the matcher is in order.
    spec fn wf(&self) -> bool;

    /// How many states there are.
    spec fn spec_states(&self) -> nat;

    /// Which side is matched.
    spec fn spec_match_type(&self) -> MatchType;

    /// What matches `label` at `s`.
    spec fn spec_matches(&self, s: usize, label: i32) -> Seq<Arc<W>>;

    /// How much work it is to match at `s`; nothing where matching has to be done
    /// here.
    spec fn spec_priority(&self, s: usize) -> Option<usize>;

    /// Which side is matched.
    fn match_type(&self) -> (t: MatchType)
        requires
            self.wf(),
        ensures
            t == self.spec_match_type(),
    ;

    /// What matches `label` at `s`.
    fn matches(&self, s: usize, label: i32) -> (arcs: Vec<Arc<W>>)
        requires
            self.wf(),
            self.spec_match_type() !is Neither,
            s < self.spec_states(),
        ensures
            arcs@ == self.spec_matches(s, label),
            forall|i: int|
                0 <= i < arcs@.len() ==> (#[trigger] arcs@[i]).nextstate < self.spec_states(),
    ;

    /// How much work it is to match at `s`; nothing where matching has to be done
    /// here.
    fn priority(&self, s: usize) -> (p: Option<usize>)
        requires
            self.wf(),
            s < self.spec_states(),
        ensures
            p == self.spec_priority(s),
    ;
}

/// Whether the arcs of every state are sorted by label.
pub open spec fn labels_sorted<W: Weight>(v: FstV<W>, output: bool) -> bool {
    forall|s: int| 0 <= s < v.n() ==> #[trigger] state_sorted(v.arcs(s), output)
}

/// Whether arcs are sorted by label.
pub open spec fn state_sorted<W>(arcs: Seq<Arc<W>>, output: bool) -> bool {
    forall|i: int, j: int|
        0 <= i <= j < arcs.len() ==> side_label(#[trigger] arcs[i], output) <= side_label(
            #[trigger] arcs[j],
            output,
        )
}

/// Whether the arcs of every state are sorted by label.
pub fn check_sorted<W: Weight>(fst: &VectorFst<W>, output: bool) -> (sorted: bool)
    ensures
        sorted == labels_sorted(fst@, output),
{
    let n: usize = fst.num_states();
    let mut s: usize = 0;
    while s < n
        invariant
            s <= n,
            n == fst@.n(),
            forall|t: int| 0 <= t < s ==> #[trigger] state_sorted(fst@.arcs(t), output),
        decreases n - s,
    {
        let arcs = fst.arcs(s);
        let mut k: usize = 1;
        while k < arcs.len()
            invariant
                1 <= k,
                s < n,
                n == fst@.n(),
                arcs@ == fst@.arcs(s as int),
                k <= arcs@.len() || arcs@.len() == 0,
                forall|i: int, j: int|
                    0 <= i <= j < k && j < arcs@.len() ==> side_label(#[trigger] arcs@[i], output)
                        <= side_label(#[trigger] arcs@[j], output),
            decreases arcs@.len() - k,
        {
            if label_on(&arcs[k - 1], output) > label_on(&arcs[k], output) {
                assert(!state_sorted(fst@.arcs(s as int), output)) by {
                    assert(side_label(arcs@[k - 1], output) > side_label(arcs@[k as int], output));
                }
                return false;
            }
            assert forall|i: int, j: int| 0 <= i <= j < k + 1 && j < arcs@.len() implies side_label(
                #[trigger] arcs@[i],
                output,
            ) <= side_label(#[trigger] arcs@[j], output) by {
                if j == k {
                    assert(side_label(arcs@[k - 1], output) <= side_label(
                        arcs@[k as int],
                        output,
                    ));
                    if i < k {
                        assert(side_label(arcs@[i], output) <= side_label(arcs@[k - 1], output));
                    }
                }
            }
            k = k + 1;
        }
        s = s + 1;
    }
    true
}

proof fn lemma_carrying_none<W>(arcs: Seq<Arc<W>>, output: bool, label: i32, from: int, k: int)
    requires
        0 <= from <= k <= arcs.len(),
        forall|i: int| from <= i < k ==> side_label(#[trigger] arcs[i], output) != label,
    ensures
        carrying(arcs, output, label, k) == carrying(arcs, output, label, from),
    decreases k,
{
    if from < k {
        lemma_carrying_none(arcs, output, label, from, k - 1);
    }
}

/// What carries a label is among the arcs.
pub proof fn lemma_carrying_among<W>(arcs: Seq<Arc<W>>, output: bool, label: i32, k: int, i: int)
    requires
        0 <= k <= arcs.len(),
        0 <= i < carrying(arcs, output, label, k).len(),
    ensures
        exists|j: int|
            0 <= j < k && #[trigger] arcs[j] == carrying(arcs, output, label, k)[i] && side_label(
                arcs[j],
                output,
            ) == label,
    decreases k,
{
    let before = carrying(arcs, output, label, k - 1);
    if i < before.len() {
        lemma_carrying_among(arcs, output, label, k - 1, i);
    } else {
        assert(arcs[k - 1] == carrying(arcs, output, label, k)[i]);
    }
}

/// What matches is a part of the machine.
pub proof fn lemma_matching_leads<W: Weight>(v: FstV<W>, output: bool, s: usize, label: i32)
    requires
        v.wf(),
        s < v.n(),
    ensures
        forall|i: int|
            0 <= i < arcs_matching(v, output, s, label).len() ==> (
            #[trigger] arcs_matching(v, output, s, label)[i]).nextstate < v.n(),
{
    let arcs = v.arcs(s as int);
    let found = arcs_matching(v, output, s, label);
    let want = if label == NO_LABEL {
        EPSILON
    } else {
        label
    };
    let carry = carrying(arcs, output, want, arcs.len() as int);
    let k: int = if label == EPSILON {
        1
    } else {
        0
    };
    assert forall|i: int| 0 <= i < found.len() implies (#[trigger] found[i]).nextstate < v.n() by {
        if i >= k {
            assert(found[i] == carry[i - k]);
            lemma_carrying_among(arcs, output, want, arcs.len() as int, i - k);
            let j = choose|j: int| 0 <= j < arcs.len() && #[trigger] arcs[j] == carry[i - k];
            assert(v.states[s as int].arcs[j].nextstate < v.n());
        }
    }
}

/// Whether a machine is said to be sorted by the label written, or by the one read.
pub open spec fn said_sorted<W: Weight>(v: FstV<W>, by_output: bool) -> bool {
    if by_output {
        said(v, K_O_LABEL_SORTED, K_NOT_O_LABEL_SORTED, labels_sorted(v, true))
    } else {
        said(v, K_I_LABEL_SORTED, K_NOT_I_LABEL_SORTED, labels_sorted(v, false))
    }
}

/// Whether a machine is sorted by the label written, or by the one read: as it is
/// said to be, or, where nothing is said, as its arcs are.
pub fn sorted_by<W: Weight>(fst: &VectorFst<W>, by_output: bool) -> (sorted: bool)
    ensures
        sorted == said_sorted(fst@, by_output),
{
    let (is, is_not): (u64, u64) = if by_output {
        (K_O_LABEL_SORTED, K_NOT_O_LABEL_SORTED)
    } else {
        (K_I_LABEL_SORTED, K_NOT_I_LABEL_SORTED)
    };
    if fst.known_properties(is) != 0 {
        true
    } else if fst.known_properties(is_not) != 0 {
        false
    } else {
        check_sorted(fst, by_output)
    }
}

/// Matches on one side of a machine whose arcs are sorted on that side, by binary
/// search.
pub struct SortedMatcher<'a, W> {
    fst: &'a VectorFst<W>,
    output: bool,
    sorted: bool,
}

impl<'a, W: Weight> SortedMatcher<'a, W> {
    /// The machine that is matched.
    pub closed spec fn machine(&self) -> FstV<W> {
        self.fst@
    }

    /// Whether the label written is matched.
    pub closed spec fn on_output(&self) -> bool {
        self.output
    }

    /// Matches on the side that `match_type` says, which has to be one side. A
    /// machine that is not sorted on that side cannot be matched.
    pub fn new(fst: &'a VectorFst<W>, match_type: MatchType) -> (result: Result<
        Self,
        OpenFstError,
    >)
        requires
            fst@.wf(),
        ensures
            result is Ok <==> match_type is Input || match_type is Output,
            result matches Ok(m) ==> m.wf() && m.machine() == fst@ && m.on_output() == (match_type
                is Output),
            result matches Err(e) ==> e is InvalidOperation,
    {
        let output = match match_type {
            MatchType::Input => false,
            MatchType::Output => true,
            _ => {
                return Err(OpenFstError::InvalidOperation("SortedMatcher: bad match type"));
            },
        };
        Ok(SortedMatcher { fst, output, sorted: check_sorted(fst, output) })
    }

    /// The first arc whose label is not before `label`.
    fn lower_bound(&self, arcs: &Vec<Arc<W>>, label: i32) -> (at: usize)
        requires
            state_sorted(arcs@, self.output),
        ensures
            at <= arcs@.len(),
            forall|i: int| 0 <= i < at ==> side_label(#[trigger] arcs@[i], self.output) < label,
            forall|i: int|
                at <= i < arcs@.len() ==> side_label(#[trigger] arcs@[i], self.output) >= label,
    {
        let mut low: usize = 0;
        let mut high: usize = arcs.len();
        while low < high
            invariant
                low <= high <= arcs@.len(),
                state_sorted(arcs@, self.output),
                forall|i: int|
                    0 <= i < low ==> side_label(#[trigger] arcs@[i], self.output) < label,
                forall|i: int|
                    high <= i < arcs@.len() ==> side_label(#[trigger] arcs@[i], self.output)
                        >= label,
            decreases high - low,
        {
            let mid: usize = low + (high - low) / 2;
            if label_on(&arcs[mid], self.output) < label {
                assert(side_label(arcs@[mid as int], self.output) < label);
                low = mid + 1;
            } else {
                assert(side_label(arcs@[mid as int], self.output) >= label);
                high = mid;
            }
        }
        low
    }
}

impl<'a, W: Weight> Matcher<W> for SortedMatcher<'a, W> {
    closed spec fn wf(&self) -> bool {
        self.fst@.wf() && self.sorted == labels_sorted(self.fst@, self.output)
    }

    open spec fn spec_states(&self) -> nat {
        self.machine().n()
    }

    open spec fn spec_match_type(&self) -> MatchType {
        if !labels_sorted(self.machine(), self.on_output()) {
            MatchType::Neither
        } else if self.on_output() {
            MatchType::Output
        } else {
            MatchType::Input
        }
    }

    open spec fn spec_matches(&self, s: usize, label: i32) -> Seq<Arc<W>> {
        arcs_matching(self.machine(), self.on_output(), s, label)
    }

    open spec fn spec_priority(&self, s: usize) -> Option<usize> {
        Some(self.machine().arcs(s as int).len() as usize)
    }

    fn match_type(&self) -> (t: MatchType) {
        if !self.sorted {
            MatchType::Neither
        } else if self.output {
            MatchType::Output
        } else {
            MatchType::Input
        }
    }

    fn matches(&self, s: usize, label: i32) -> (found: Vec<Arc<W>>) {
        let arcs = self.fst.arcs(s);
        let mut found: Vec<Arc<W>> = Vec::new();
        if label == EPSILON {
            found.push(staying_arc(s, self.output));
        }
        let ghost head = found@;
        let want: i32 = if label == NO_LABEL {
            EPSILON
        } else {
            label
        };
        assert(state_sorted(self.fst@.arcs(s as int), self.output));
        let mut at: usize = self.lower_bound(arcs, want);
        proof {
            lemma_carrying_none(arcs@, self.output, want, 0, at as int);
            assert(head + carrying(arcs@, self.output, want, at as int) =~= head);
        }
        let ghost low = at;
        while at < arcs.len() && label_on(&arcs[at], self.output) == want
            invariant
                low <= at <= arcs@.len(),
                found@ == head + carrying(arcs@, self.output, want, at as int),
            decreases arcs@.len() - at,
        {
            found.push(arcs[at].duplicate());
            at = at + 1;
            assert(found@ =~= head + carrying(arcs@, self.output, want, at as int));
        }
        proof {
            if at < arcs@.len() {
                assert(side_label(arcs@[at as int], self.output) >= want);
                assert forall|i: int| at <= i < arcs@.len() implies side_label(
                    #[trigger] arcs@[i],
                    self.output,
                ) != want by {
                    assert(side_label(arcs@[at as int], self.output) <= side_label(
                        arcs@[i],
                        self.output,
                    ));
                }
            }
            lemma_carrying_none(arcs@, self.output, want, at as int, arcs@.len() as int);
            lemma_matching_leads(self.fst@, self.output, s, label);
            assert(found@ =~= arcs_matching(self.fst@, self.output, s, label));
        }
        found
    }

    fn priority(&self, s: usize) -> (p: Option<usize>) {
        Some(self.fst.num_arcs(s))
    }
}

/// Matches on one side of a machine by going through all the arcs.
pub struct ScanMatcher<'a, W> {
    fst: &'a VectorFst<W>,
    output: bool,
}

impl<'a, W: Weight> ScanMatcher<'a, W> {
    /// The machine that is matched.
    pub closed spec fn machine(&self) -> FstV<W> {
        self.fst@
    }

    /// Whether the label written is matched.
    pub closed spec fn on_output(&self) -> bool {
        self.output
    }

    /// Matches on the label written, or on the label read.
    pub fn new(fst: &'a VectorFst<W>, output: bool) -> (m: Self)
        requires
            fst@.wf(),
        ensures
            m.wf(),
            m.machine() == fst@,
            m.on_output() == output,
    {
        ScanMatcher { fst, output }
    }
}

impl<'a, W: Weight> Matcher<W> for ScanMatcher<'a, W> {
    closed spec fn wf(&self) -> bool {
        self.fst@.wf()
    }

    open spec fn spec_states(&self) -> nat {
        self.machine().n()
    }

    open spec fn spec_match_type(&self) -> MatchType {
        if self.on_output() {
            MatchType::Output
        } else {
            MatchType::Input
        }
    }

    open spec fn spec_matches(&self, s: usize, label: i32) -> Seq<Arc<W>> {
        arcs_matching(self.machine(), self.on_output(), s, label)
    }

    open spec fn spec_priority(&self, s: usize) -> Option<usize> {
        Some(self.machine().arcs(s as int).len() as usize)
    }

    fn match_type(&self) -> (t: MatchType) {
        if self.output {
            MatchType::Output
        } else {
            MatchType::Input
        }
    }

    fn matches(&self, s: usize, label: i32) -> (found: Vec<Arc<W>>) {
        let arcs = self.fst.arcs(s);
        let mut found: Vec<Arc<W>> = Vec::new();
        if label == EPSILON {
            found.push(staying_arc(s, self.output));
        }
        let ghost head = found@;
        let want: i32 = if label == NO_LABEL {
            EPSILON
        } else {
            label
        };
        let mut at: usize = 0;
        assert(head + carrying(arcs@, self.output, want, 0) =~= head);
        while at < arcs.len()
            invariant
                at <= arcs@.len(),
                found@ == head + carrying(arcs@, self.output, want, at as int),
            decreases arcs@.len() - at,
        {
            if label_on(&arcs[at], self.output) == want {
                found.push(arcs[at].duplicate());
            }
            at = at + 1;
            assert(found@ =~= head + carrying(arcs@, self.output, want, at as int));
        }
        proof {
            lemma_matching_leads(self.fst@, self.output, s, label);
            assert(found@ =~= arcs_matching(self.fst@, self.output, s, label));
        }
        found
    }

    fn priority(&self, s: usize) -> (p: Option<usize>) {
        Some(self.fst.num_arcs(s))
    }
}

/// Matches a label that a state has no arc for with the arcs that carry a label
/// set aside to stand for it.
pub struct RhoMatcher<M> {
    /// Finds the arcs.
    pub matcher: M,
    /// The label set aside.
    pub rho: i32,
}

/// The arc with `label` in place of the label set aside.
pub open spec fn rewritten<W>(arc: Arc<W>, rho: i32, label: i32) -> Arc<W> {
    Arc {
        ilabel: if arc.ilabel == rho {
            label
        } else {
            arc.ilabel
        },
        olabel: if arc.olabel == rho {
            label
        } else {
            arc.olabel
        },
        ..arc
    }
}

impl<M> RhoMatcher<M> {
    /// Lets `rho` stand for every label that a state has no arc for.
    pub fn new(matcher: M, rho: i32) -> (m: Self)
        ensures
            m.matcher == matcher,
            m.rho == rho,
    {
        RhoMatcher { matcher, rho }
    }
}

impl<W: Weight, M: Matcher<W>> Matcher<W> for RhoMatcher<M> {
    open spec fn wf(&self) -> bool {
        self.matcher.wf() && self.matcher.spec_match_type() !is Neither
    }

    open spec fn spec_states(&self) -> nat {
        self.matcher.spec_states()
    }

    open spec fn spec_match_type(&self) -> MatchType {
        self.matcher.spec_match_type()
    }

    open spec fn spec_matches(&self, s: usize, label: i32) -> Seq<Arc<W>> {
        let own = self.matcher.spec_matches(s, label);
        if own.len() > 0 || label == EPSILON || label == NO_LABEL {
            own
        } else {
            self.matcher.spec_matches(s, self.rho).map_values(
                |arc: Arc<W>| rewritten(arc, self.rho, label),
            )
        }
    }

    open spec fn spec_priority(&self, s: usize) -> Option<usize> {
        if self.matcher.spec_matches(s, self.rho).len() > 0 {
            None
        } else {
            self.matcher.spec_priority(s)
        }
    }

    fn match_type(&self) -> (t: MatchType) {
        self.matcher.match_type()
    }

    fn matches(&self, s: usize, label: i32) -> (found: Vec<Arc<W>>) {
        let own = self.matcher.matches(s, label);
        if own.len() > 0 || label == EPSILON || label == NO_LABEL {
            return own;
        }
        let others = self.matcher.matches(s, self.rho);
        let ghost all = others@.map_values(|arc: Arc<W>| rewritten(arc, self.rho, label));
        let mut found: Vec<Arc<W>> = Vec::new();
        let mut i: usize = 0;
        while i < others.len()
            invariant
                i <= others@.len(),
                all == others@.map_values(|arc: Arc<W>| rewritten(arc, self.rho, label)),
                found@ =~= all.take(i as int),
            decreases others@.len() - i,
        {
            let arc = &others[i];
            let ilabel: i32 = if arc.ilabel == self.rho {
                label
            } else {
                arc.ilabel
            };
            let olabel: i32 = if arc.olabel == self.rho {
                label
            } else {
                arc.olabel
            };
            found.push(Arc::new(ilabel, olabel, arc.weight.duplicate(), arc.nextstate));
            i = i + 1;
        }
        assert(all.take(all.len() as int) =~= all);
        found
    }

    fn priority(&self, s: usize) -> (p: Option<usize>) {
        let found = self.matcher.matches(s, self.rho);
        if found.len() > 0 {
            None
        } else {
            self.matcher.priority(s)
        }
    }
}

} // verus!
