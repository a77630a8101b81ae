//! Moving the label written into the weight, and back.
use crate::arc::{Arc, EPSILON, NO_STATE};
use crate::arc_map::{ArcMapper, MapFinalAction, MapSymbolsAction};
use crate::properties::{
    project_properties, spec_project_properties, K_ADD_SUPER_FINAL_PROPERTIES, K_ERROR,
    K_O_LABEL_INVARIANT_PROPERTIES, K_WEIGHT_INVARIANT_PROPERTIES,
};
use crate::string_weight::{GallicWeight, StringWeight, StringWeightValue};
use crate::weight::Weight;
use vstd::prelude::*;

verus! {

/// Moves the output label of every arc into its weight.
///
/// The gallic semiring pairs a label sequence with a weight, so an arc's output
/// side becomes part of what a shortest-distance computation sums over. That is
/// what lets labels be pushed the way weights are.
#[derive(Debug, Clone, Copy)]
pub struct ToGallicMapper<const G: u8>;

impl<const G: u8> ToGallicMapper<G> {
    /// Creates the mapper.
    pub fn new() -> (mapper: Self)
        ensures
            mapper == ToGallicMapper::<G>,
    {
        ToGallicMapper
    }
}

/// The string that a label written stands for.
pub open spec fn written<const G: u8>(olabel: i32) -> StringWeight<G> {
    if olabel == EPSILON {
        StringWeight::of(Seq::empty())
    } else {
        StringWeight::of(seq![olabel])
    }
}

/// The arc with the label it writes moved into its weight. A final weight, offered
/// as an arc, has no label to move.
pub open spec fn to_gallic<W: Weight, const G: u8>(arc: Arc<W>) -> Arc<GallicWeight<W, G>> {
    if arc.nextstate == NO_STATE {
        Arc {
            ilabel: EPSILON,
            olabel: EPSILON,
            weight: if arc.weight == W::spec_zero() {
                GallicWeight::<W, G>::spec_zero()
            } else {
                GallicWeight { labels: StringWeight::of(Seq::empty()), weight: arc.weight }
            },
            nextstate: NO_STATE,
        }
    } else {
        Arc {
            ilabel: arc.ilabel,
            olabel: arc.ilabel,
            weight: GallicWeight { labels: written(arc.olabel), weight: arc.weight },
            nextstate: arc.nextstate,
        }
    }
}

impl<W: Weight, const G: u8> ArcMapper<W, GallicWeight<W, G>> for ToGallicMapper<G> {
    type Model = ();

    open spec fn wf(&self) -> bool {
        true
    }

    closed spec fn model(&self) -> () {
        ()
    }

    open spec fn mapped(m: (), arc: Arc<W>) -> Arc<GallicWeight<W, G>> {
        to_gallic(arc)
    }

    open spec fn moved(m: (), arc: Arc<W>) -> () {
        ()
    }

    open spec fn spec_final_action(m: ()) -> MapFinalAction {
        MapFinalAction::NoSuperfinal
    }

    open spec fn spec_input_symbols_action(m: ()) -> MapSymbolsAction {
        MapSymbolsAction::Copy
    }

    open spec fn spec_output_symbols_action(m: ()) -> MapSymbolsAction {
        MapSymbolsAction::Clear
    }

    open spec fn spec_properties(m: (), props: u64) -> u64 {
        spec_project_properties(props, true) & K_WEIGHT_INVARIANT_PROPERTIES
    }

    fn map(&mut self, arc: &Arc<W>) -> (to: Arc<GallicWeight<W, G>>) {
        if arc.nextstate == NO_STATE {
            // A final weight, offered as an arc. A state that is not final has
            // nothing to carry across.
            let weight = if arc.weight.same(&W::zero()) {
                GallicWeight::zero()
            } else {
                GallicWeight::from_parts(StringWeight::one(), arc.weight.duplicate())
            };
            return Arc::new(EPSILON, EPSILON, weight, NO_STATE);
        }
        // The result is an acceptor over the input side; the output label moves
        // into the weight, and an epsilon output contributes no label at all.
        let labels = if arc.olabel == EPSILON {
            StringWeight::one()
        } else {
            StringWeight::single(arc.olabel)
        };
        Arc::new(
            arc.ilabel,
            arc.ilabel,
            GallicWeight::from_parts(labels, arc.weight.duplicate()),
            arc.nextstate,
        )
    }

    fn final_action(&self) -> (action: MapFinalAction) {
        MapFinalAction::NoSuperfinal
    }

    fn input_symbols_action(&self) -> (action: MapSymbolsAction) {
        MapSymbolsAction::Copy
    }

    fn output_symbols_action(&self) -> (action: MapSymbolsAction) {
        // The output labels are now inside the weights, so a table keyed on
        // them no longer describes anything the machine has.
        MapSymbolsAction::Clear
    }

    fn properties(&self, props: u64) -> (out: u64) {
        project_properties(props, true) & K_WEIGHT_INVARIANT_PROPERTIES
    }
}

/// Moves the label out of a gallic weight and back onto the arc's output side.
///
/// A weight that carries more than one label, which no single arc can represent,
/// is remembered as an error.
#[derive(Debug)]
pub struct FromGallicMapper<const G: u8> {
    superfinal_label: i32,
    error: bool,
}

impl<const G: u8> View for FromGallicMapper<G> {
    type V = (i32, bool);

    closed spec fn view(&self) -> (i32, bool) {
        (self.superfinal_label, self.error)
    }
}

impl<const G: u8> FromGallicMapper<G> {
    /// Uses epsilon as the label of an arc made from a labelled final weight.
    pub fn new() -> (mapper: Self)
        ensures
            mapper@ == (EPSILON, false),
    {
        Self::with_superfinal_label(EPSILON)
    }

    /// Uses `superfinal_label` for such an arc.
    pub fn with_superfinal_label(superfinal_label: i32) -> (mapper: Self)
        ensures
            mapper@ == (superfinal_label, false),
    {
        FromGallicMapper { superfinal_label, error: false }
    }

    /// Whether a weight was met that no single arc can carry.
    pub fn error(&self) -> (error: bool)
        ensures
            error == self@.1,
    {
        self.error
    }
}

/// Whether a single arc can carry the weight: its string is at most one label.
pub open spec fn carriable<W: Weight, const G: u8>(w: GallicWeight<W, G>) -> bool {
    w.labels.value is Labels && w.labels.string().len() <= 1
}

/// Whether an arc is a final weight of a state that is not final.
pub open spec fn is_no_final<W: Weight, const G: u8>(arc: Arc<GallicWeight<W, G>>) -> bool {
    arc.nextstate == NO_STATE && arc.weight == GallicWeight::<W, G>::spec_zero()
}

/// The label that a weight carries.
pub open spec fn carried<W: Weight, const G: u8>(w: GallicWeight<W, G>) -> i32 {
    if carriable(w) && w.labels.string().len() == 1 {
        w.labels.string()[0]
    } else {
        EPSILON
    }
}

/// The arc with the label that its weight carries moved out of it.
pub open spec fn from_gallic<W: Weight, const G: u8>(
    superfinal_label: i32,
    arc: Arc<GallicWeight<W, G>>,
) -> Arc<W> {
    if is_no_final(arc) {
        Arc {
            ilabel: arc.ilabel,
            olabel: EPSILON,
            weight: W::spec_zero(),
            nextstate: NO_STATE,
        }
    } else {
        let label = carried(arc.weight);
        Arc {
            ilabel: if arc.ilabel == EPSILON && label != EPSILON && arc.nextstate == NO_STATE {
                superfinal_label
            } else {
                arc.ilabel
            },
            olabel: label,
            weight: if carriable(arc.weight) {
                arc.weight.weight
            } else {
                W::spec_zero()
            },
            nextstate: arc.nextstate,
        }
    }
}

impl<W: Weight, const G: u8> ArcMapper<GallicWeight<W, G>, W> for FromGallicMapper<G> {
    type Model = (i32, bool);

    open spec fn wf(&self) -> bool {
        true
    }

    open spec fn model(&self) -> (i32, bool) {
        self@
    }

    open spec fn mapped(m: (i32, bool), arc: Arc<GallicWeight<W, G>>) -> Arc<W> {
        from_gallic(m.0, arc)
    }

    open spec fn moved(m: (i32, bool), arc: Arc<GallicWeight<W, G>>) -> (i32, bool) {
        (m.0, m.1 || (!is_no_final(arc) && (!carriable(arc.weight) || arc.ilabel != arc.olabel)))
    }

    open spec fn spec_final_action(m: (i32, bool)) -> MapFinalAction {
        MapFinalAction::AllowSuperfinal
    }

    open spec fn spec_input_symbols_action(m: (i32, bool)) -> MapSymbolsAction {
        MapSymbolsAction::Copy
    }

    open spec fn spec_output_symbols_action(m: (i32, bool)) -> MapSymbolsAction {
        MapSymbolsAction::Clear
    }

    open spec fn spec_properties(m: (i32, bool), props: u64) -> u64 {
        let out = props & K_O_LABEL_INVARIANT_PROPERTIES & K_WEIGHT_INVARIANT_PROPERTIES
            & K_ADD_SUPER_FINAL_PROPERTIES;
        if m.1 {
            out | K_ERROR
        } else {
            out
        }
    }

    fn map(&mut self, arc: &Arc<GallicWeight<W, G>>) -> (to: Arc<W>) {
        if arc.nextstate == NO_STATE && arc.weight.same(&GallicWeight::zero()) {
            // A state that was not final stays not final.
            return Arc::new(arc.ilabel, EPSILON, W::zero(), NO_STATE);
        }
        // A gallic weight an arc can carry holds at most one label.
        let is_string = match &arc.weight.labels.value {
            StringWeightValue::Labels(_) => true,
            _ => false,
        };
        let labels = arc.weight.labels.labels();
        let (label, weight): (i32, W) = if is_string && labels.len() <= 1 {
            if labels.len() == 1 {
                (labels[0], arc.weight.weight.duplicate())
            } else {
                (EPSILON, arc.weight.weight.duplicate())
            }
        } else {
            self.error = true;
            (EPSILON, W::zero())
        };
        if arc.ilabel != arc.olabel {
            self.error = true;
        }
        if arc.ilabel == EPSILON && label != EPSILON && arc.nextstate == NO_STATE {
            // A final weight carrying a label has to become a real arc, and
            // needs an input label to go on it.
            Arc::new(self.superfinal_label, label, weight, arc.nextstate)
        } else {
            Arc::new(arc.ilabel, label, weight, arc.nextstate)
        }
    }

    fn final_action(&self) -> (action: MapFinalAction) {
        MapFinalAction::AllowSuperfinal
    }

    fn input_symbols_action(&self) -> (action: MapSymbolsAction) {
        MapSymbolsAction::Copy
    }

    fn output_symbols_action(&self) -> (action: MapSymbolsAction) {
        MapSymbolsAction::Clear
    }

    fn properties(&self, props: u64) -> (out: u64) {
        let out: u64 = props & K_O_LABEL_INVARIANT_PROPERTIES & K_WEIGHT_INVARIANT_PROPERTIES
            & K_ADD_SUPER_FINAL_PROPERTIES;
        if self.error {
            out | K_ERROR
        } else {
            out
        }
    }
}

/// An arc that writes the label its acceptor side reads back comes back as it was.
pub proof fn law_gallic_round_trip<W: Weight, const G: u8>(superfinal_label: i32, arc: Arc<W>)
    requires
        arc.nextstate != NO_STATE,
    ensures
        from_gallic(superfinal_label, to_gallic::<W, G>(arc)) == arc,
{
    crate::string_weight::lemma_labels_view(Seq::empty());
    crate::string_weight::lemma_labels_view(seq![arc.olabel]);
}

} // verus!
