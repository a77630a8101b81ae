//! What one acceptor accepts and another does not.
//!
//! The difference is the intersection with the complement: `A - B = A ∩ B'`.
//!
//! The complement of an unweighted deterministic acceptor is that acceptor with
//! a state added standing for "somewhere B could not go", which every label it
//! has no arc for leads to. Composition reaches that state through a ρ label,
//! which stands for "any label the state has no arc for", and that is why it
//! takes a matcher that understands ρ to read it.
use crate::arc::Arc;
use crate::compose::{
    askable, compose_with, composition_fails, is_composition, is_sorted_copy, lemma_composition_wf,
    lemma_sorted_copy, searches, sorted_copy,
};
use crate::compose_filter::{ComposeFilter, SequenceComposeFilter};
use crate::concat::{shifted, shifted_arcs};
use crate::connect::{connect, trimmed};
use crate::error::OpenFstError;
use crate::inspect::{
    acceptor, input_deterministic, no_epsilons, said_acceptor, said_input_deterministic,
    said_no_epsilons, said_unweighted, unweighted,
};
use crate::matcher::{MatchType, Matcher, RhoMatcher, ScanMatcher, SortedMatcher};
use crate::properties::{
    K_ACCEPTOR, K_ACCESSIBLE, K_CYCLIC, K_ERROR, K_FST_PROPERTIES, K_INITIAL_CYCLIC,
    K_I_DETERMINISTIC, K_I_LABEL_SORTED, K_NOT_I_LABEL_SORTED, K_NOT_O_LABEL_SORTED, K_NO_EPSILONS,
    K_NO_I_EPSILONS, K_NO_O_EPSILONS, K_O_DETERMINISTIC, K_O_LABEL_SORTED, K_UNWEIGHTED,
    K_UNWEIGHTED_CYCLES,
};
use crate::vector_fst::{lemma_forget_forget, set_bits, FstV, StateV, VectorFst};
use crate::weight::Weight;
use vstd::prelude::*;

verus! {

/// The label that stands for every label a state has no arc for.
pub const RHO_LABEL: i32 = -2;

/// What holds of every complement.
pub const K_COMPLEMENT_PROPERTIES: u64 = K_ACCEPTOR | K_UNWEIGHTED | K_UNWEIGHTED_CYCLES
    | K_NO_EPSILONS | K_NO_I_EPSILONS | K_NO_O_EPSILONS | K_I_DETERMINISTIC | K_O_DETERMINISTIC
    | K_ACCESSIBLE;

/// What a complement has in common with what it is the complement of.
pub const K_COMPLEMENT_KEPT_PROPERTIES: u64 = K_ERROR | K_I_LABEL_SORTED | K_O_LABEL_SORTED
    | K_INITIAL_CYCLIC;

/// What is known of a complement.
pub open spec fn spec_complement_properties(props: u64) -> u64 {
    let out = K_COMPLEMENT_PROPERTIES | (K_COMPLEMENT_KEPT_PROPERTIES & props);
    if props & K_ACCESSIBLE != 0 {
        out | K_NOT_I_LABEL_SORTED | K_NOT_O_LABEL_SORTED | K_CYCLIC
    } else {
        out
    }
}

/// What is known of a complement.
pub fn complement_properties(props: u64) -> (out: u64)
    ensures
        out == spec_complement_properties(props),
{
    let out: u64 = K_COMPLEMENT_PROPERTIES | (K_COMPLEMENT_KEPT_PROPERTIES & props);
    if props & K_ACCESSIBLE != 0 {
        out | K_NOT_I_LABEL_SORTED | K_NOT_O_LABEL_SORTED | K_CYCLIC
    } else {
        out
    }
}

/// The arc that every label without an arc of its own takes.
pub open spec fn rho_arc<W: Weight>() -> Arc<W> {
    Arc { ilabel: RHO_LABEL, olabel: RHO_LABEL, weight: W::spec_one(), nextstate: 0 }
}

/// A state of the complement: it is final where the state was not.
pub open spec fn complement_state<W: Weight>(state: StateV<W>) -> StateV<W> {
    StateV {
        final_weight: if state.final_weight == W::spec_zero() {
            W::spec_one()
        } else {
            W::spec_zero()
        },
        arcs: seq![rho_arc::<W>()] + shifted_arcs(state.arcs, 1),
    }
}

/// The state for everything the acceptor could not read.
pub open spec fn complement_sink<W: Weight>() -> StateV<W> {
    StateV { final_weight: W::spec_one(), arcs: seq![rho_arc::<W>()] }
}

/// The complement of an acceptor. Its first state stands for everything the
/// acceptor could not read.
pub open spec fn complement<W: Weight>(v: FstV<W>) -> FstV<W> {
    FstV {
        start: Some(
            match v.start {
                Some(s) => (s + 1) as usize,
                None => 0,
            },
        ),
        states: seq![complement_sink::<W>()] + Seq::new(
            v.n(),
            |s: int| complement_state(v.states[s]),
        ),
        isymbols: v.isymbols,
        osymbols: v.osymbols,
        props: set_bits(
            FstV::<W>::empty().forget().props,
            spec_complement_properties(v.props & K_FST_PROPERTIES),
            K_FST_PROPERTIES,
        ),
    }
}

/// The complement of `fst`, which has to be an unweighted epsilon-free
/// deterministic acceptor for the result to deserve the name.
pub fn complement_of<W: Weight>(fst: &VectorFst<W>) -> (out: VectorFst<W>)
    requires
        fst@.wf(),
        fst@.n() < usize::MAX,
    ensures
        out@ == complement(fst@),
        out@.wf(),
{
    let ghost v = fst@;
    let mut out: VectorFst<W> = VectorFst::new();
    proof {
        lemma_forget_forget(FstV::<W>::empty());
    }
    out.set_input_symbols(fst.input_symbols());
    out.set_output_symbols(fst.output_symbols());
    let sink: usize = out.add_state();
    out.set_final(sink, W::one());
    out.add_arc(sink, Arc::new(RHO_LABEL, RHO_LABEL, W::one(), 0));
    let n: usize = fst.num_states();
    let ghost base = FstV::<W> {
        start: None,
        states: Seq::empty(),
        isymbols: v.isymbols,
        osymbols: v.osymbols,
        props: FstV::<W>::empty().props,
    }.forget();
    let zero = W::zero();
    proof {
        lemma_forget_forget(base);
        assert(out@.states =~= seq![complement_sink::<W>()] + Seq::new(
            0,
            |k: int| complement_state(v.states[k]),
        )) by {
            assert(out@.states[0].arcs =~= seq![rho_arc::<W>()]);
        }
        assert(out@ == (FstV { states: out@.states, ..base }));
    }
    let mut s: usize = 0;
    while s < n
        invariant
            s <= n,
            n == v.n(),
            v == fst@,
            v.wf(),
            n < usize::MAX,
            zero == W::spec_zero(),
            base.forget() == base,
            out@ == (FstV { states: out@.states, ..base }),
            out@.states == seq![complement_sink::<W>()] + Seq::new(
                s as nat,
                |k: int| complement_state(v.states[k]),
            ),
        decreases n - s,
    {
        let ghost before = out@.states;
        let state: usize = out.add_state();
        let is_final = !fst.final_weight(s).same(&zero);
        if !is_final {
            out.set_final(state, W::one());
        }
        let from = fst.arcs(s);
        let mut arcs: Vec<Arc<W>> = Vec::new();
        arcs.push(Arc::new(RHO_LABEL, RHO_LABEL, W::one(), 0));
        let mut i: usize = 0;
        while i < from.len()
            invariant
                i <= from@.len(),
                s < n,
                n == v.n(),
                v.wf(),
                n < usize::MAX,
                from@ == v.arcs(s as int),
                arcs@ =~= seq![rho_arc::<W>()] + shifted_arcs(from@.take(i as int), 1),
            decreases from@.len() - i,
        {
            assert(v.states[s as int].arcs[i as int].nextstate < v.n());
            arcs.push(from[i].redirected(from[i].nextstate + 1));
            i = i + 1;
        }
        assert(from@.take(from@.len() as int) =~= from@);
        out.set_arcs(state, arcs);
        s = s + 1;
        assert(out@.states =~= before.push(complement_state(v.states[s - 1])));
        assert(out@.states =~= seq![complement_sink::<W>()] + Seq::new(
            s as nat,
            |k: int| complement_state(v.states[k]),
        ));
    }
    let start: usize = match fst.start() {
        Some(start) => start + 1,
        None => 0,
    };
    out.set_start(start);
    let props: u64 = complement_properties(fst.known_properties(K_FST_PROPERTIES));
    out.set_properties(props, K_FST_PROPERTIES);
    proof {
        let c = out@;
        assert forall|t: int, i: int|
            0 <= t < c.n() && 0 <= i < c.states[t].arcs.len() implies (
        #[trigger] c.states[t].arcs[i]).nextstate < c.n() by {
            if t > 0 && i > 0 {
                assert(v.states[t - 1].arcs[i - 1].nextstate < v.n());
                assert(c.states[t] == complement_state(v.states[t - 1]));
                assert(c.states[t].arcs[i] == shifted(v.states[t - 1].arcs[i - 1], 1));
            }
        }
    }
    out
}

/// What finds the arcs of a complement.
pub type ComplementMatcher<'a, W> = RhoMatcher<ScanMatcher<'a, W>>;

/// Whether a matcher reads ρ in a machine as any label that has no arc.
pub open spec fn reads_rho<W: Weight>(m: ComplementMatcher<W>, v: FstV<W>) -> bool {
    m.wf() && m.matcher.machine() == v && !m.matcher.on_output() && m.rho == RHO_LABEL
}

/// Whether `raw` is the composition of `l` and `r`, ρ in the second standing for
/// any label that has no arc.
pub open spec fn is_rho_composition<W: Weight>(
    l: FstV<W>,
    r: FstV<W>,
    o: FstV<W>,
    raw: FstV<W>,
) -> bool {
    exists|m1: SortedMatcher<W>, m2: ComplementMatcher<W>| #[trigger]
        searches(m1, l, true) && #[trigger] reads_rho(m2, r) && is_composition::<
            W,
            SequenceComposeFilter<W, SortedMatcher<W>, ComplementMatcher<W>>,
        >(l, r, (l, m1, m2), o, raw)
}

/// Whether `c` is the difference of two machines.
pub open spec fn is_difference<W: Weight>(v1: FstV<W>, v2: FstV<W>, o: FstV<W>, c: FstV<W>) -> bool {
    exists|l: FstV<W>, raw: FstV<W>|
        is_sorted_copy(v1, true, l) && #[trigger] is_rho_composition(l, complement(v2), o, raw)
            && c == trimmed(raw) && raw.n() <= usize::MAX
}

/// Whether a machine can be complemented.
pub open spec fn complementable<W: Weight>(v: FstV<W>) -> bool {
    said_acceptor(v) && said_input_deterministic(v) && said_no_epsilons(v) && said_unweighted(v)
}

/// The acceptor accepting what `fst1` accepts and `fst2` does not.
///
/// `fst2` has to be an unweighted epsilon-free deterministic acceptor, since
/// only such a machine can be complemented.
pub fn difference<W: Weight>(
    fst1: &VectorFst<W>,
    fst2: &VectorFst<W>,
    ofst: &mut VectorFst<W>,
) -> (result: Result<(), OpenFstError>)
    requires
        fst1@.wf(),
        fst2@.wf(),
        fst2@.n() < usize::MAX,
    ensures
        result is Ok <==> said_acceptor(fst1@) && complementable(fst2@),
        result is Ok ==> is_difference(fst1@, fst2@, old(ofst)@, final(ofst)@),
        result matches Err(e) ==> e is InvalidOperation && final(ofst)@ == old(ofst)@,
{
    let ghost o = ofst@;
    if !acceptor(fst1) {
        return Err(
            OpenFstError::InvalidOperation("Difference: the 1st argument is not an acceptor"),
        );
    }
    if !(acceptor(fst2) && input_deterministic(fst2) && no_epsilons(fst2) && unweighted(fst2)) {
        return Err(
            OpenFstError::InvalidOperation(
                "Difference: the 2nd argument is not an unweighted epsilon-free deterministic acceptor, so it cannot be complemented",
            ),
        );
    }
    // The matcher over the first machine searches by output label, which takes it
    // sorted that way.
    let left = sorted_copy(fst1, true);
    let complement = complement_of(fst2);
    proof {
        lemma_sorted_copy(fst1@, true, left@);
    }
    let matcher1 = match SortedMatcher::new(&left, MatchType::Output) {
        Ok(m) => m,
        Err(e) => {
            return Err(e);
        },
    };
    // The complement's "anything else" arcs carry ρ, so the matcher over it has
    // to know that ρ stands for whatever label is asked for.
    let matcher2 = RhoMatcher::new(ScanMatcher::new(&complement, false), RHO_LABEL);
    let ghost m1 = matcher1;
    let ghost m2 = matcher2;
    let filter = SequenceComposeFilter::new(&left, matcher1, matcher2);
    let ghost rule = filter.rule();
    proof {
        assert(askable::<W, SequenceComposeFilter<W, SortedMatcher<W>, ComplementMatcher<W>>>(
            rule,
        ).1);
        lemma_never_fails(left@, complement@, m1, m2);
    }
    match compose_with(&left, &complement, ofst, filter) {
        Ok(()) => {},
        Err(e) => {
            return Err(e);
        },
    }
    let ghost raw = ofst@;
    let count: usize = ofst.num_states();
    proof {
        assert(raw.n() == count);
        lemma_composition_wf::<
            W,
            SequenceComposeFilter<W, SortedMatcher<W>, ComplementMatcher<W>>,
        >(left@, complement@, rule, o, raw);
        assert(searches(m1, left@, true));
        assert(reads_rho(m2, complement@));
        assert(is_rho_composition(left@, complement@, o, raw));
    }
    // The states the result cannot reach or cannot finish from are the pairs
    // composition had to build to find out they lead nowhere.
    connect(ofst);
    Ok(())
}

proof fn lemma_never_fails<W: Weight>(
    l: FstV<W>,
    r: FstV<W>,
    m1: SortedMatcher<W>,
    m2: ComplementMatcher<W>,
)
    ensures
        !composition_fails::<
            W,
            SequenceComposeFilter<W, SortedMatcher<W>, ComplementMatcher<W>>,
        >(l, r, (l, m1, m2)),
{
}

} // verus!
