//! Running one transducer's output into another's input.
//!
//! A state of the result is a state of each input together with a *filter state*;
//! an arc is a pair of arcs, one from each, whose meeting labels agree. The filter
//! stops the same path being found several times when epsilons are involved:
//! without it, an epsilon on one side and an epsilon on the other can be taken in
//! either order, and the result counts the path twice.
//!
//! > Mohri, M., Pereira, F. and Riley, M. 1996. Weighted automata in text and
//! > speech processing. In *Proc. ECAI-96 Workshop*.
//!
//! Which side is matched against is not fixed: at each state the matcher that
//! says it has less work to do is the one iterated over, so composing a small
//! machine with a large one costs what the small one costs.
use crate::arc::Arc;
use crate::arcsort::{
    arc_sort, is_arc_sorted, is_stable_order, law_sorted_arcs_are_in_order, law_sorting_permutes,
    ILabelCompare, OLabelCompare,
};
use crate::compose_filter::{ComposeFilter, SequenceComposeFilter};
use crate::connect::{connect, trimmed};
use crate::error::OpenFstError;
use crate::hash_table::{fx_hash, fx_word, Key};
use crate::matcher::{
    labels_sorted, said_sorted, side_label, sorted_by, state_sorted, staying, staying_arc,
    MatchType, Matcher, SortedMatcher,
};
use crate::properties::{
    compose_properties, spec_compose_properties, K_FST_PROPERTIES,
};
use crate::unfold::{
    is_unfolding, meets_failure, numbered, unfold, unfolded, Step, Unfolding,
};
use crate::vector_fst::{lemma_forget_forget, set_bits, FstV, VectorFst};
use crate::weight::Weight;
use vstd::prelude::*;

verus! {

/// A state of a composition.
pub struct ComposeStateTuple<FS> {
    /// The state of the first machine.
    pub state1: usize,
    /// The state of the second machine.
    pub state2: usize,
    /// The filter state.
    pub filter_state: FS,
}

impl<FS: Key> Key for ComposeStateTuple<FS> {
    open spec fn spec_key_word(self) -> u64 {
        fx_word(
            fx_word(self.state1 as u64, self.state2 as u64, usize::BITS),
            self.filter_state.spec_key_word(),
            usize::BITS,
        )
    }

    fn key_word(&self) -> (h: u64) {
        fx_hash(fx_hash(self.state1 as u64, self.state2 as u64), self.filter_state.key_word())
    }

    fn key_same(&self, other: &Self) -> (b: bool) {
        self.state1 == other.state1 && self.state2 == other.state2 && self.filter_state.key_same(
            &other.filter_state,
        )
    }

    fn key_copy(&self) -> (k: Self) {
        ComposeStateTuple {
            state1: self.state1,
            state2: self.state2,
            filter_state: self.filter_state.key_copy(),
        }
    }
}

/// What a composition depends on.
pub struct ComposeModel<W, R> {
    /// The first machine.
    pub fst1: FstV<W>,
    /// The second machine.
    pub fst2: FstV<W>,
    /// The filter's rule.
    pub rule: R,
}

/// Whether a matcher over the first machine can look up what that writes.
pub open spec fn can_output<W: Weight, M: Matcher<W>>(matcher1: M) -> bool {
    matcher1.spec_match_type() is Output || matcher1.spec_match_type() is Both
}

/// Whether a matcher over the second machine can look up what that reads.
pub open spec fn can_input<W: Weight, M: Matcher<W>>(matcher2: M) -> bool {
    matcher2.spec_match_type() is Input || matcher2.spec_match_type() is Both
}

/// Which of the two matchers can be asked.
pub open spec fn askable<W: Weight, F: ComposeFilter<W>>(rule: F::Rule) -> (bool, bool) {
    (can_output::<W, F::Matcher1>(F::first(rule)), can_input::<W, F::Matcher2>(F::second(rule)))
}

/// Which side each matcher works on, and which side is iterated over.
///
/// Composition matches the *output* of the first against the *input* of the
/// second, so a matcher over the first has to look up output labels and one
/// over the second input labels.
fn match_types<W: Weight, M1: Matcher<W>, M2: Matcher<W>>(
    matcher1: &M1,
    matcher2: &M2,
) -> (result: Result<MatchType, OpenFstError>)
    requires
        matcher1.wf(),
        matcher2.wf(),
    ensures
        result is Ok <==> can_output::<W, M1>(*matcher1) || can_input::<W, M2>(*matcher2),
        result matches Ok(t) ==> t == (if !can_input::<W, M2>(*matcher2) {
            MatchType::Output
        } else if !can_output::<W, M1>(*matcher1) {
            MatchType::Input
        } else {
            MatchType::Both
        }),
        result matches Err(e) ==> e is InvalidOperation,
{
    let output = match matcher1.match_type() {
        MatchType::Output => true,
        MatchType::Both => true,
        _ => false,
    };
    let input = match matcher2.match_type() {
        MatchType::Input => true,
        MatchType::Both => true,
        _ => false,
    };
    match (output, input) {
        (true, true) => Ok(MatchType::Both),
        (true, false) => Ok(MatchType::Output),
        (false, true) => Ok(MatchType::Input),
        (false, false) => Err(
            OpenFstError::InvalidOperation(
                "Compose: neither matcher can match the side composition needs",
            ),
        ),
    }
}

/// Whether it is the second machine that is asked, the arcs of the first being
/// walked through: the one with less work to do, if both can be asked.
pub open spec fn asks_second<W: Weight, F: ComposeFilter<W>>(
    rule: F::Rule,
    s1: usize,
    s2: usize,
) -> bool {
    let (output, input) = askable::<W, F>(rule);
    if !(output && input) {
        input
    } else {
        match (F::first(rule).spec_priority(s1), F::second(rule).spec_priority(s2)) {
            (None, _) => false,
            (Some(_), None) => true,
            (Some(p1), Some(p2)) => p1 <= p2,
        }
    }
}

/// Whether both matchers could be asked, and each has to be.
pub open spec fn both_required<W: Weight, F: ComposeFilter<W>>(
    rule: F::Rule,
    s1: usize,
    s2: usize,
) -> bool {
    let (output, input) = askable::<W, F>(rule);
    &&& output && input
    &&& F::first(rule).spec_priority(s1) is None
    &&& F::second(rule).spec_priority(s2) is None
}

/// The step that a pair of arcs makes, if the filter allows it.
pub open spec fn pair_step<W: Weight, F: ComposeFilter<W>>(
    rule: F::Rule,
    key: ComposeStateTuple<F::State>,
    arc1: Arc<W>,
    arc2: Arc<W>,
) -> Option<Step<W, ComposeStateTuple<F::State>>> {
    let (next, a1, a2) = F::filtered(rule, key.state1, key.state2, key.filter_state, arc1, arc2);
    match next {
        Some(filter_state) => Some(
            Step {
                ilabel: a1.ilabel,
                olabel: a2.olabel,
                weight: a1.weight.spec_times(a2.weight),
                to: ComposeStateTuple {
                    state1: a1.nextstate,
                    state2: a2.nextstate,
                    filter_state,
                },
            },
        ),
        None => None,
    }
}

/// The steps that an arc of the side walked makes with the first `k` arcs found on
/// the other.
pub open spec fn pair_steps<W: Weight, F: ComposeFilter<W>>(
    rule: F::Rule,
    key: ComposeStateTuple<F::State>,
    arc: Arc<W>,
    found: Seq<Arc<W>>,
    second: bool,
    k: int,
) -> Seq<Step<W, ComposeStateTuple<F::State>>>
    decreases k,
{
    if k <= 0 {
        Seq::empty()
    } else {
        let before = pair_steps::<W, F>(rule, key, arc, found, second, k - 1);
        let step = if second {
            pair_step::<W, F>(rule, key, arc, found[k - 1])
        } else {
            pair_step::<W, F>(rule, key, found[k - 1], arc)
        };
        match step {
            Some(step) => before.push(step),
            None => before,
        }
    }
}

/// What an arc of the side walked finds on the other.
pub open spec fn found_for<W: Weight, F: ComposeFilter<W>>(
    rule: F::Rule,
    key: ComposeStateTuple<F::State>,
    arc: Arc<W>,
    second: bool,
) -> Seq<Arc<W>> {
    if second {
        F::matches2(rule, key.filter_state, key.state2, arc.olabel)
    } else {
        F::matches1(rule, key.filter_state, key.state1, arc.ilabel)
    }
}

/// The steps that the first `k` arcs of the side walked make.
pub open spec fn walked_steps<W: Weight, F: ComposeFilter<W>>(
    rule: F::Rule,
    key: ComposeStateTuple<F::State>,
    walked: Seq<Arc<W>>,
    second: bool,
    k: int,
) -> Seq<Step<W, ComposeStateTuple<F::State>>>
    decreases k,
{
    if k <= 0 {
        Seq::empty()
    } else {
        let found = found_for::<W, F>(rule, key, walked[k - 1], second);
        walked_steps::<W, F>(rule, key, walked, second, k - 1) + pair_steps::<W, F>(
            rule,
            key,
            walked[k - 1],
            found,
            second,
            found.len() as int,
        )
    }
}

/// The arcs of the side walked. The extra arc at the front stands for "take nothing
/// here", which is how an epsilon on the other side is followed on its own.
pub open spec fn walked_arcs<W: Weight, F: ComposeFilter<W>>(
    model: ComposeModel<W, F::Rule>,
    key: ComposeStateTuple<F::State>,
    second: bool,
) -> Seq<Arc<W>> {
    if second {
        seq![staying::<W>(key.state1, true)] + model.fst1.arcs(key.state1 as int)
    } else {
        seq![staying::<W>(key.state2, false)] + model.fst2.arcs(key.state2 as int)
    }
}

/// What a composition is built from.
pub struct Composing<'a, W, F> {
    fst1: &'a VectorFst<W>,
    fst2: &'a VectorFst<W>,
    filter: F,
    match_type: MatchType,
}

/// Whether the steps lead to states of the two machines.
pub open spec fn steps_lead<W, FS>(
    steps: Seq<Step<W, ComposeStateTuple<FS>>>,
    n1: nat,
    n2: nat,
) -> bool {
    forall|i: int|
        0 <= i < steps.len() ==> (#[trigger] steps[i]).to.state1 < n1 && steps[i].to.state2 < n2
}

impl<'a, W: Weight, F: ComposeFilter<W>> Composing<'a, W, F> {
    spec fn at(&self, key: ComposeStateTuple<F::State>) -> bool {
        let rule = self.filter.rule();
        &&& self.filter.wf()
        &&& self.filter.place() == Some((key.state1, key.state2, key.filter_state))
        &&& F::first(rule).spec_states() == self.fst1@.n()
        &&& F::second(rule).spec_states() == self.fst2@.n()
        &&& key.state1 < self.fst1@.n()
        &&& key.state2 < self.fst2@.n()
    }

    /// Matches one arc of the side being walked against the other side.
    fn match_arc(
        &mut self,
        arc: &Arc<W>,
        second: bool,
        steps: &mut Vec<Step<W, ComposeStateTuple<F::State>>>,
        key: &ComposeStateTuple<F::State>,
    )
        requires
            old(self).at(*key),
            second ==> can_input::<W, F::Matcher2>(F::second(old(self).filter.rule())),
            !second ==> can_output::<W, F::Matcher1>(F::first(old(self).filter.rule())),
            second ==> arc.nextstate < old(self).fst1@.n(),
            !second ==> arc.nextstate < old(self).fst2@.n(),
            steps_lead(old(steps)@, old(self).fst1@.n(), old(self).fst2@.n()),
        ensures
            final(self).at(*key),
            final(self).filter.rule() == old(self).filter.rule(),
            final(self).fst1 == old(self).fst1,
            final(self).fst2 == old(self).fst2,
            final(self).match_type == old(self).match_type,
            steps_lead(final(steps)@, old(self).fst1@.n(), old(self).fst2@.n()),
            final(steps)@ == old(steps)@ + pair_steps::<W, F>(
                old(self).filter.rule(),
                *key,
                *arc,
                found_for::<W, F>(old(self).filter.rule(), *key, *arc, second),
                second,
                found_for::<W, F>(old(self).filter.rule(), *key, *arc, second).len() as int,
            ),
    {
        let ghost rule = self.filter.rule();
        // The label to look for is the one that meets the other side: the output
        // of the first machine against the input of the second.
        let found = if second {
            self.filter.find2(key.state2, arc.olabel)
        } else {
            self.filter.find1(key.state1, arc.ilabel)
        };
        let ghost before = steps@;
        let ghost n1 = self.fst1@.n();
        let ghost n2 = self.fst2@.n();
        assert(before + pair_steps::<W, F>(rule, *key, *arc, found@, second, 0) =~= before);
        let mut k: usize = 0;
        while k < found.len()
            invariant
                k <= found@.len(),
                self.at(*key),
                self.filter.rule() == rule,
                self.fst1 == old(self).fst1,
                self.fst2 == old(self).fst2,
                self.match_type == old(self).match_type,
                n1 == self.fst1@.n(),
                n2 == self.fst2@.n(),
                second ==> arc.nextstate < n1,
                !second ==> arc.nextstate < n2,
                forall|i: int|
                    0 <= i < found@.len() ==> (#[trigger] found@[i]).nextstate < (if second {
                        n2
                    } else {
                        n1
                    }),
                steps_lead(steps@, n1, n2),
                steps@ == before + pair_steps::<W, F>(
                    rule,
                    *key,
                    *arc,
                    found@,
                    second,
                    k as int,
                ),
            decreases found@.len() - k,
        {
            // `arc1` is always the first machine's, `arc2` the second's, whichever
            // side was walked.
            assert(found@[k as int].nextstate < if second {
                n2
            } else {
                n1
            });
            let (mut arc1, mut arc2) = if second {
                (arc.duplicate(), found[k].duplicate())
            } else {
                (found[k].duplicate(), arc.duplicate())
            };
            let next = self.filter.filter_arc(&mut arc1, &mut arc2);
            if let Some(filter_state) = next {
                steps.push(
                    Step {
                        ilabel: arc1.ilabel,
                        olabel: arc2.olabel,
                        weight: arc1.weight.times(&arc2.weight),
                        to: ComposeStateTuple {
                            state1: arc1.nextstate,
                            state2: arc2.nextstate,
                            filter_state,
                        },
                    },
                );
            }
            k = k + 1;
            assert(steps@ =~= before + pair_steps::<W, F>(
                rule,
                *key,
                *arc,
                found@,
                second,
                k as int,
            ));
        }
    }

    /// Whether it is the second machine that is asked here; nothing where both
    /// would have to be.
    fn choose_side(&self, s1: usize, s2: usize) -> (side: Option<bool>)
        requires
            self.filter.wf(),
            s1 < F::first(self.filter.rule()).spec_states(),
            s2 < F::second(self.filter.rule()).spec_states(),
            askable::<W, F>(self.filter.rule()).0 || askable::<W, F>(self.filter.rule()).1,
            self.match_type == (if !askable::<W, F>(self.filter.rule()).1 {
                MatchType::Output
            } else if !askable::<W, F>(self.filter.rule()).0 {
                MatchType::Input
            } else {
                MatchType::Both
            }),
        ensures
            side is None <==> both_required::<W, F>(self.filter.rule(), s1, s2),
            side matches Some(second) ==> second == asks_second::<W, F>(
                self.filter.rule(),
                s1,
                s2,
            ),
    {
        match self.match_type {
            MatchType::Input => Some(true),
            MatchType::Output => Some(false),
            _ => {
                let priority1 = self.filter.matcher1().priority(s1);
                let priority2 = self.filter.matcher2().priority(s2);
                match (priority1, priority2) {
                    (None, None) => None,
                    (None, Some(_)) => Some(false),
                    (Some(_), None) => Some(true),
                    (Some(p1), Some(p2)) => Some(p1 <= p2),
                }
            },
        }
    }
}

impl<'a, W: Weight, F: ComposeFilter<W>> Unfolding<W, ComposeStateTuple<F::State>> for Composing<
    'a,
    W,
    F,
> {
    type Model = ComposeModel<W, F::Rule>;

    closed spec fn ready(&self) -> bool {
        let rule = self.filter.rule();
        &&& self.filter.wf()
        &&& self.fst1@.wf()
        &&& self.fst2@.wf()
        &&& F::first(rule).spec_states() == self.fst1@.n()
        &&& F::second(rule).spec_states() == self.fst2@.n()
        &&& askable::<W, F>(rule).0 || askable::<W, F>(rule).1
        &&& self.match_type == (if !askable::<W, F>(rule).1 {
            MatchType::Output
        } else if !askable::<W, F>(rule).0 {
            MatchType::Input
        } else {
            MatchType::Both
        })
    }

    closed spec fn model(&self) -> Self::Model {
        ComposeModel { fst1: self.fst1@, fst2: self.fst2@, rule: self.filter.rule() }
    }

    open spec fn fits(model: Self::Model, key: ComposeStateTuple<F::State>) -> bool {
        key.state1 < model.fst1.n() && key.state2 < model.fst2.n()
    }

    open spec fn fails(model: Self::Model, key: ComposeStateTuple<F::State>) -> bool {
        both_required::<W, F>(model.rule, key.state1, key.state2)
    }

    open spec fn steps(model: Self::Model, key: ComposeStateTuple<F::State>) -> Seq<
        Step<W, ComposeStateTuple<F::State>>,
    > {
        let second = asks_second::<W, F>(model.rule, key.state1, key.state2);
        let walked = walked_arcs::<W, F>(model, key, second);
        walked_steps::<W, F>(model.rule, key, walked, second, walked.len() as int)
    }

    /// The final weight is what both say, once the filter has had its say about
    /// whether finishing here is allowed at all.
    open spec fn ending(model: Self::Model, key: ComposeStateTuple<F::State>) -> W {
        let w1 = model.fst1.fin(key.state1 as int);
        let w2 = model.fst2.fin(key.state2 as int);
        if w1 != W::spec_zero() && w2 != W::spec_zero() {
            let (f1, f2) = F::finals(
                model.rule,
                key.state1,
                key.state2,
                key.filter_state,
                w1,
                w2,
            );
            f1.spec_times(f2)
        } else {
            W::spec_zero()
        }
    }

    fn expand(&mut self, key: &ComposeStateTuple<F::State>) -> (expansion: Option<
        (Vec<Step<W, ComposeStateTuple<F::State>>>, W),
    >) {
        let ghost model = self.model();
        let s1: usize = key.state1;
        let s2: usize = key.state2;
        self.filter.set_state(s1, s2, &key.filter_state);
        let zero = W::zero();
        let mut final1 = self.fst1.final_weight(s1);
        let mut final2 = self.fst2.final_weight(s2);
        let weight = if !final1.same(&zero) && !final2.same(&zero) {
            self.filter.filter_final(&mut final1, &mut final2);
            final1.times(&final2)
        } else {
            W::zero()
        };
        // Matching is done on whichever side has less to do, so the arcs of the
        // busier one are never walked.
        let second = match self.choose_side(s1, s2) {
            Some(second) => second,
            None => {
                return None;
            },
        };
        let mut steps: Vec<Step<W, ComposeStateTuple<F::State>>> = Vec::new();
        let ghost walked = walked_arcs::<W, F>(model, *key, second);
        // Matching on one side means walking the *other* side's arcs and
        // asking the matcher for each.
        let staying = if second {
            staying_arc(s1, true)
        } else {
            staying_arc(s2, false)
        };
        assert(walked[0] == staying);
        self.match_arc(&staying, second, &mut steps, key);
        assert(steps@ =~= walked_steps::<W, F>(model.rule, *key, walked, second, 1)) by {
            reveal_with_fuel(walked_steps, 2);
        }
        let arcs = if second {
            self.fst1.arcs(s1)
        } else {
            self.fst2.arcs(s2)
        };
        let mut k: usize = 0;
        while k < arcs.len()
            invariant
                k <= arcs@.len(),
                self.ready(),
                self.at(*key),
                self.model() == model,
                second ==> can_input::<W, F::Matcher2>(F::second(model.rule)),
                !second ==> can_output::<W, F::Matcher1>(F::first(model.rule)),
                arcs@ == (if second {
                    model.fst1.arcs(key.state1 as int)
                } else {
                    model.fst2.arcs(key.state2 as int)
                }),
                walked == walked_arcs::<W, F>(model, *key, second),
                walked.len() == arcs@.len() + 1,
                steps_lead(steps@, model.fst1.n(), model.fst2.n()),
                steps@ == walked_steps::<W, F>(model.rule, *key, walked, second, k + 1),
            decreases arcs@.len() - k,
        {
            proof {
                assert(walked[k + 1] == arcs@[k as int]);
                if second {
                    assert(model.fst1.states[key.state1 as int].arcs[k as int].nextstate
                        < model.fst1.n());
                } else {
                    assert(model.fst2.states[key.state2 as int].arcs[k as int].nextstate
                        < model.fst2.n());
                }
            }
            self.match_arc(&arcs[k], second, &mut steps, key);
            k = k + 1;
        }
        Some((steps, weight))
    }
}

/// What a composition into `o` starts from: a machine of no states that reads what
/// the first reads and writes what the second writes.
pub open spec fn compose_base<W: Weight>(v1: FstV<W>, v2: FstV<W>, o: FstV<W>) -> FstV<W> {
    FstV {
        start: None,
        states: Seq::empty(),
        isymbols: v1.isymbols,
        osymbols: v2.osymbols,
        props: o.props,
    }.forget()
}

/// The value of the state where a composition begins.
pub open spec fn compose_start<W: Weight, F: ComposeFilter<W>>(
    rule: F::Rule,
    start1: usize,
    start2: usize,
) -> ComposeStateTuple<F::State> {
    ComposeStateTuple { state1: start1, state2: start2, filter_state: F::spec_start(rule) }
}

/// Whether `c` is the composition of two machines through a filter, with the
/// symbols and properties it was given.
pub open spec fn is_composition<W: Weight, F: ComposeFilter<W>>(
    v1: FstV<W>,
    v2: FstV<W>,
    rule: F::Rule,
    o: FstV<W>,
    c: FstV<W>,
) -> bool {
    let base = compose_base(v1, v2, o);
    &&& c == (FstV {
        start: c.start,
        states: c.states,
        props: set_bits(
            base.props,
            F::spec_properties(
                rule,
                spec_compose_properties(v1.props & K_FST_PROPERTIES, v2.props & K_FST_PROPERTIES),
            ),
            K_FST_PROPERTIES,
        ),
        ..base
    })
    &&& match (v1.start, v2.start) {
        (Some(s1), Some(s2)) => unfolded::<W, ComposeStateTuple<F::State>, Composing<W, F>>(
            ComposeModel { fst1: v1, fst2: v2, rule },
            compose_start::<W, F>(rule, s1, s2),
            true,
            c,
        ),
        _ => c.start is None && c.n() == 0,
    }
}

/// Whether a composition comes to a pair of states where both matchers have to be
/// asked.
pub open spec fn composition_fails<W: Weight, F: ComposeFilter<W>>(
    v1: FstV<W>,
    v2: FstV<W>,
    rule: F::Rule,
) -> bool {
    match (v1.start, v2.start) {
        (Some(s1), Some(s2)) => meets_failure::<
            W,
            ComposeStateTuple<F::State>,
            Composing<W, F>,
        >(
            ComposeModel { fst1: v1, fst2: v2, rule },
            compose_start::<W, F>(rule, s1, s2),
        ),
        _ => false,
    }
}

/// Composes `fst1` and `fst2` into `ofst`, through `filter`.
///
/// `filter` carries the two matchers, one over each input, since which matches
/// are allowed and how they are found are the same decision.
pub fn compose_with<W: Weight, F: ComposeFilter<W>>(
    fst1: &VectorFst<W>,
    fst2: &VectorFst<W>,
    ofst: &mut VectorFst<W>,
    filter: F,
) -> (result: Result<(), OpenFstError>)
    requires
        fst1@.wf(),
        fst2@.wf(),
        filter.wf(),
        F::first(filter.rule()).spec_states() == fst1@.n(),
        F::second(filter.rule()).spec_states() == fst2@.n(),
    ensures
        result is Ok ==> is_composition::<W, F>(
            fst1@,
            fst2@,
            filter.rule(),
            old(ofst)@,
            final(ofst)@,
        ) && (askable::<W, F>(filter.rule()).0 || askable::<W, F>(filter.rule()).1),
        result matches Err(e) ==> e is InvalidOperation && (!(askable::<W, F>(filter.rule()).0
            || askable::<W, F>(filter.rule()).1) || composition_fails::<W, F>(
            fst1@,
            fst2@,
            filter.rule(),
        )),
{
    ofst.delete_all_states();
    ofst.set_input_symbols(fst1.input_symbols());
    ofst.set_output_symbols(fst2.output_symbols());
    let ghost base = ofst@;
    let ghost rule = filter.rule();
    proof {
        lemma_forget_forget(old(ofst)@);
        lemma_forget_forget(base);
        assert(base.states =~= Seq::empty());
        assert(base == compose_base(fst1@, fst2@, old(ofst)@));
    }
    let match_type = match match_types(filter.matcher1(), filter.matcher2()) {
        Ok(match_type) => match_type,
        Err(e) => {
            return Err(e);
        },
    };
    let props1: u64 = fst1.known_properties(K_FST_PROPERTIES);
    let props2: u64 = fst2.known_properties(K_FST_PROPERTIES);
    let props: u64 = filter.properties(compose_properties(props1, props2));
    if let (Some(start1), Some(start2)) = (fst1.start(), fst2.start()) {
        let start = ComposeStateTuple {
            state1: start1,
            state2: start2,
            filter_state: filter.start(),
        };
        let mut composing = Composing { fst1, fst2, filter, match_type };
        let ghost model = composing.model();
        match unfold(&mut composing, start, true, None, ofst) {
            Some(table) => {
                assert(is_unfolding::<W, ComposeStateTuple<F::State>, Composing<W, F>>(
                    model,
                    compose_start::<W, F>(rule, start1, start2),
                    true,
                    table@,
                    ofst@.states,
                ));
            },
            None => {
                return Err(
                    OpenFstError::InvalidOperation(
                        "Compose: both sides require the match to be made on them",
                    ),
                );
            },
        }
    }
    ofst.set_properties(props, K_FST_PROPERTIES);
    Ok(())
}

/// Every state that a composition names is there.
pub proof fn lemma_composition_wf<W: Weight, F: ComposeFilter<W>>(
    v1: FstV<W>,
    v2: FstV<W>,
    rule: F::Rule,
    o: FstV<W>,
    c: FstV<W>,
)
    requires
        is_composition::<W, F>(v1, v2, rule, o, c),
    ensures
        c.wf(),
{
    if let (Some(s1), Some(s2)) = (v1.start, v2.start) {
        let model = ComposeModel { fst1: v1, fst2: v2, rule };
        let start = compose_start::<W, F>(rule, s1, s2);
        let table = choose|table: Seq<ComposeStateTuple<F::State>>| #[trigger]
            is_unfolding::<W, ComposeStateTuple<F::State>, Composing<W, F>>(
                model,
                start,
                true,
                table,
                c.states,
            );
        assert forall|s: int, i: int|
            0 <= s < c.n() && 0 <= i < c.states[s].arcs.len() implies (
        #[trigger] c.states[s].arcs[i]).nextstate < c.n() by {
            let steps = Composing::<W, F>::steps(model, table[s]);
            assert(numbered(steps[i], c.states[s].arcs[i], table));
        }
    }
}

/// Whether `w` is what `v` is, sorted the way a matcher needs.
pub open spec fn is_sorted_copy<W: Weight>(v: FstV<W>, by_output: bool, w: FstV<W>) -> bool {
    if said_sorted(v, by_output) {
        w == v
    } else if by_output {
        is_arc_sorted(OLabelCompare, v, w)
    } else {
        is_arc_sorted(ILabelCompare, v, w)
    }
}

/// A machine holding what `fst` holds, sorted the way a matcher needs.
///
/// Sorting lets the matcher find a label by binary search rather than by
/// scanning; a machine already sorted that way is copied but not sorted again.
/// Public because [`compose_lookahead_indexed`] takes its arguments already sorted,
/// and this is how a caller gets them that way.
pub fn sorted_copy<W: Weight>(fst: &VectorFst<W>, by_output: bool) -> (copy: VectorFst<W>)
    ensures
        is_sorted_copy(fst@, by_output, copy@),
{
    let mut copy = fst.duplicate();
    if !sorted_by(&copy, by_output) {
        if by_output {
            arc_sort(&mut copy, &OLabelCompare);
        } else {
            arc_sort(&mut copy, &ILabelCompare);
        }
    }
    copy
}

/// Sorting keeps a machine in order, and puts its labels in order.
pub proof fn lemma_sorted_copy<W: Weight>(v: FstV<W>, by_output: bool, w: FstV<W>)
    requires
        v.wf(),
        is_sorted_copy(v, by_output, w),
    ensures
        w.wf(),
        w.n() == v.n(),
        w.start == v.start,
        !said_sorted(v, by_output) ==> labels_sorted(w, by_output),
{
    if !said_sorted(v, by_output) {
        assert forall|s: int, i: int|
            0 <= s < w.n() && 0 <= i < w.states[s].arcs.len() implies (
        #[trigger] w.states[s].arcs[i]).nextstate < w.n() by {
            let arcs = v.states[s].arcs;
            let sorted = w.states[s].arcs;
            if by_output {
                law_sorting_permutes(OLabelCompare, arcs, sorted);
                let order = choose|order: Seq<usize>| #[trigger]
                    is_stable_order(OLabelCompare, arcs, order) && order.no_duplicates()
                        && forall|i: int|
                        0 <= i < order.len() ==> sorted[i] == arcs[#[trigger] order[i] as int];
                assert(sorted[i] == arcs[order[i] as int]);
                assert(v.states[s].arcs[order[i] as int].nextstate < v.n());
            } else {
                law_sorting_permutes(ILabelCompare, arcs, sorted);
                let order = choose|order: Seq<usize>| #[trigger]
                    is_stable_order(ILabelCompare, arcs, order) && order.no_duplicates()
                        && forall|i: int|
                        0 <= i < order.len() ==> sorted[i] == arcs[#[trigger] order[i] as int];
                assert(sorted[i] == arcs[order[i] as int]);
                assert(v.states[s].arcs[order[i] as int].nextstate < v.n());
            }
        }
        assert forall|s: int| 0 <= s < w.n() implies #[trigger] state_sorted(
            w.arcs(s),
            by_output,
        ) by {
            let arcs = v.states[s].arcs;
            let sorted = w.states[s].arcs;
            assert forall|i: int, j: int| 0 <= i <= j < sorted.len() implies side_label(
                #[trigger] sorted[i],
                by_output,
            ) <= side_label(#[trigger] sorted[j], by_output) by {
                if i < j {
                    if by_output {
                        law_sorted_arcs_are_in_order(OLabelCompare, arcs, sorted, i, j);
                    } else {
                        law_sorted_arcs_are_in_order(ILabelCompare, arcs, sorted, i, j);
                    }
                }
            }
        }
    }
}

/// Whether a matcher searches one side of `v`.
pub open spec fn searches<W: Weight>(m: SortedMatcher<W>, v: FstV<W>, output: bool) -> bool {
    m.wf() && m.machine() == v && m.on_output() == output
}

/// Whether `c` is the composition of `l`, matched on what it writes, and `r`,
/// matched on what it reads, the epsilons of the first being taken first.
pub open spec fn is_sequence_composition<W: Weight>(
    l: FstV<W>,
    r: FstV<W>,
    o: FstV<W>,
    c: FstV<W>,
) -> bool {
    exists|m1: SortedMatcher<W>, m2: SortedMatcher<W>| #[trigger]
        searches(m1, l, true) && #[trigger] searches(m2, r, false) && is_composition::<
            W,
            SequenceComposeFilter<W, SortedMatcher<W>, SortedMatcher<W>>,
        >(l, r, (l, m1, m2), o, c)
}

/// What [`compose`](fn@compose) may be asked to do differently.
#[derive(Debug, Clone, Copy, PartialEq, Eq)]
pub struct ComposeOptions {
    /// Whether to drop the states the result cannot reach or cannot finish
    /// from.
    ///
    /// Composition builds a state for every pair it can reach, and most pairs
    /// turn out to lead nowhere; on by default.
    pub connect: bool,
}

impl Default for ComposeOptions {
    fn default() -> (opts: Self)
        ensures
            opts.connect,
    {
        ComposeOptions { connect: true }
    }
}

/// Whether `c` is what composing `v1` and `v2` comes to: both are sorted for
/// matching where they are not, and the states that lead nowhere are dropped if
/// that is asked for.
pub open spec fn composes<W: Weight>(
    v1: FstV<W>,
    v2: FstV<W>,
    o: FstV<W>,
    connects: bool,
    c: FstV<W>,
) -> bool {
    exists|l: FstV<W>, r: FstV<W>, raw: FstV<W>|
        {
            &&& is_sorted_copy(v1, true, l)
            &&& is_sorted_copy(v2, false, r)
            &&& #[trigger] composes_sorted(l, r, o, raw)
            &&& c == (if connects {
                trimmed(raw)
            } else {
                raw
            })
        }
}

/// Whether `raw` is the composition of two machines sorted for it.
pub open spec fn composes_sorted<W: Weight>(
    l: FstV<W>,
    r: FstV<W>,
    o: FstV<W>,
    raw: FstV<W>,
) -> bool {
    &&& is_sequence_composition(l, r, o, raw)
    &&& labels_sorted(l, true) || labels_sorted(r, false)
    &&& raw.n() <= usize::MAX
}

/// As [`compose`](fn@compose), saying whether to connect the result.
pub fn compose_options<W: Weight>(
    fst1: &VectorFst<W>,
    fst2: &VectorFst<W>,
    ofst: &mut VectorFst<W>,
    opts: &ComposeOptions,
) -> (result: Result<(), OpenFstError>)
    requires
        fst1@.wf(),
        fst2@.wf(),
    ensures
        result is Ok <==> !said_sorted(fst1@, true) || labels_sorted(fst1@, true) || !said_sorted(
            fst2@,
            false,
        ) || labels_sorted(fst2@, false),
        result is Ok ==> composes(fst1@, fst2@, old(ofst)@, opts.connect, final(ofst)@),
        result is Ok ==> final(ofst)@.wf(),
        result matches Err(e) ==> e is InvalidOperation,
{
    let ghost o = ofst@;
    let left = sorted_copy(fst1, true);
    let right = sorted_copy(fst2, false);
    proof {
        lemma_sorted_copy(fst1@, true, left@);
        lemma_sorted_copy(fst2@, false, right@);
    }
    let matcher1 = match SortedMatcher::new(&left, MatchType::Output) {
        Ok(m) => m,
        Err(e) => {
            return Err(e);
        },
    };
    let matcher2 = match SortedMatcher::new(&right, MatchType::Input) {
        Ok(m) => m,
        Err(e) => {
            return Err(e);
        },
    };
    let ghost m1 = matcher1;
    let ghost m2 = matcher2;
    let filter = SequenceComposeFilter::new(&left, matcher1, matcher2);
    let ghost rule = filter.rule();
    match compose_with(&left, &right, ofst, filter) {
        Ok(()) => {},
        Err(e) => {
            proof {
                lemma_no_failure(left@, right@, m1, m2);
            }
            return Err(e);
        },
    }
    let ghost raw = ofst@;
    let count: usize = ofst.num_states();
    proof {
        assert(raw.n() == count);
        assert(searches(m1, left@, true));
        assert(searches(m2, right@, false));
        lemma_composition_wf::<
            W,
            SequenceComposeFilter<W, SortedMatcher<W>, SortedMatcher<W>>,
        >(left@, right@, rule, o, raw);
        assert(composes_sorted(left@, right@, o, raw));
    }
    if opts.connect {
        connect(ofst);
    }
    Ok(())
}

/// Searching is never required, so a composition by searching never fails.
proof fn lemma_no_failure<W: Weight>(
    l: FstV<W>,
    r: FstV<W>,
    m1: SortedMatcher<W>,
    m2: SortedMatcher<W>,
)
    ensures
        !composition_fails::<
            W,
            SequenceComposeFilter<W, SortedMatcher<W>, SortedMatcher<W>>,
        >(l, r, (l, m1, m2)),
{
}

/// Composes `fst1` and `fst2`.
///
/// The first machine's output side is matched against the second's input side, so
/// the result reads what the first reads and writes what the second writes. The
/// sequence filter is used: it settles the order epsilons are taken in so that a
/// path is found once rather than once per order.
///
/// The two are copied, and sorted if they are not already, so that the matchers
/// can search them. The copy is `O(V + E)`, the same order as composition itself;
/// [`compose_with`](fn@compose_with) takes matchers directly and copies nothing.
pub fn compose<W: Weight>(
    fst1: &VectorFst<W>,
    fst2: &VectorFst<W>,
    ofst: &mut VectorFst<W>,
) -> (result: Result<(), OpenFstError>)
    requires
        fst1@.wf(),
        fst2@.wf(),
    ensures
        result is Ok <==> !said_sorted(fst1@, true) || labels_sorted(fst1@, true) || !said_sorted(
            fst2@,
            false,
        ) || labels_sorted(fst2@, false),
        result is Ok ==> composes(fst1@, fst2@, old(ofst)@, true, final(ofst)@),
        result is Ok ==> final(ofst)@.wf(),
        result matches Err(e) ==> e is InvalidOperation,
{
    compose_options(fst1, fst2, ofst, &ComposeOptions::default())
}

} // verus!
