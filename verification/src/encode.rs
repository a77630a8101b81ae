//! Folding labels and weights into a single label, and unfolding them again.
//!
//! Determinization and minimization are defined for unweighted acceptors; encoding
//! lets them be run on a weighted transducer. Each distinct (input label, output
//! label, weight) triple is given a label of its own, so the machine becomes an
//! unweighted acceptor over those labels, and decoding puts the triples back.
use crate::arc::{Arc, EPSILON, NO_LABEL, NO_STATE};
use crate::arc_map::{
    arc_map, map_all, map_arcs, map_in_place, map_states, ArcMapper, MapFinalAction,
    MapSymbolsAction,
};
use crate::error::OpenFstError;
use crate::hash_table::{fx_hash, fx_word, Key, Table};
use crate::properties::{
    K_ACCEPTOR, K_ADD_SUPER_FINAL_PROPERTIES, K_ERROR, K_FST_PROPERTIES, K_I_DETERMINISTIC,
    K_I_LABEL_INVARIANT_PROPERTIES, K_O_LABEL_INVARIANT_PROPERTIES, K_RM_SUPER_FINAL_PROPERTIES,
    K_UNWEIGHTED, K_UNWEIGHTED_CYCLES, K_WEIGHT_INVARIANT_PROPERTIES,
};
use crate::rmfinalepsilon::{final_folded, rm_final_epsilon};
use crate::symbol_table::{share_symbols, SymbolTable};
use crate::vector_fst::{FstV, StateV, VectorFst};
use crate::weight::Weight;
use std::rc::Rc;
use vstd::prelude::*;

verus! {

/// Fold the output label into the encoded label, making the result an acceptor.
pub const ENCODE_LABELS: u8 = 0x01;

/// Fold the weight into the encoded label, making the result unweighted.
pub const ENCODE_WEIGHTS: u8 = 0x02;

/// Both of the above.
pub const ENCODE_FLAGS: u8 = 0x03;

/// Set in the stored flags when the table carries an input symbol table.
pub const ENCODE_HAS_ISYMBOLS: u8 = 0x04;

/// Set in the stored flags when the table carries an output symbol table.
pub const ENCODE_HAS_OSYMBOLS: u8 = 0x08;

/// Which direction a mapper runs in.
#[derive(Debug, Clone, Copy, PartialEq, Eq, Structural)]
pub enum EncodeType {
    /// Triples to labels.
    Encode,
    /// Labels back to triples.
    Decode,
}

/// What an encoded label stands for.
#[derive(Debug, PartialEq, Eq)]
pub struct Triple<W> {
    /// The original input label.
    pub ilabel: i32,
    /// The original output label, or epsilon when labels are not encoded.
    pub olabel: i32,
    /// The original weight, or one when weights are not encoded.
    pub weight: W,
}

impl<W: Weight> Key for Triple<W> {
    open spec fn spec_key_word(self) -> u64 {
        fx_word(
            fx_word(self.ilabel.spec_key_word(), self.olabel.spec_key_word(), usize::BITS),
            self.weight.spec_hash_word(),
            usize::BITS,
        )
    }

    fn key_word(&self) -> (h: u64) {
        fx_hash(fx_hash(self.ilabel.key_word(), self.olabel.key_word()), self.weight.hash_word())
    }

    fn key_same(&self, other: &Self) -> (b: bool) {
        self.ilabel == other.ilabel && self.olabel == other.olabel && self.weight.same(
            &other.weight,
        )
    }

    fn key_copy(&self) -> (k: Self) {
        Triple { ilabel: self.ilabel, olabel: self.olabel, weight: self.weight.duplicate() }
    }
}

/// The triple an arc stands for under `flags`.
///
/// What the flags do not cover is left at its identity, so that two arcs
/// differing only in a field that is not being encoded get the same label.
pub open spec fn arc_triple<W: Weight>(arc: Arc<W>, flags: u8) -> Triple<W> {
    if arc.nextstate == NO_STATE && flags & ENCODE_WEIGHTS != 0 {
        // Encoding the weight of a final weight offered as an arc could collide
        // with a true epsilon arc, so it is given no label on both sides.
        Triple { ilabel: NO_LABEL, olabel: NO_LABEL, weight: arc.weight }
    } else {
        Triple {
            ilabel: arc.ilabel,
            olabel: if flags & ENCODE_LABELS != 0 {
                arc.olabel
            } else {
                EPSILON
            },
            weight: if flags & ENCODE_WEIGHTS != 0 {
                arc.weight
            } else {
                W::spec_one()
            },
        }
    }
}

/// The triple an arc stands for under `flags`.
fn triple_of<W: Weight>(arc: &Arc<W>, flags: u8) -> (triple: Triple<W>)
    ensures
        triple == arc_triple(*arc, flags),
{
    if arc.nextstate == NO_STATE && flags & ENCODE_WEIGHTS != 0 {
        Triple { ilabel: NO_LABEL, olabel: NO_LABEL, weight: arc.weight.duplicate() }
    } else {
        Triple {
            ilabel: arc.ilabel,
            olabel: if flags & ENCODE_LABELS != 0 {
                arc.olabel
            } else {
                EPSILON
            },
            weight: if flags & ENCODE_WEIGHTS != 0 {
                arc.weight.duplicate()
            } else {
                W::one()
            },
        }
    }
}

/// A table as mathematics sees it.
#[verifier::ext_equal]
pub struct EncodeTableV<W> {
    /// The encode flags, with the symbol-table bits.
    pub flags: u8,
    /// What each label stands for, the labels counting from one.
    pub triples: Seq<Triple<W>>,
    /// The names of the labels read.
    pub isymbols: Option<Rc<SymbolTable>>,
    /// The names of the labels written.
    pub osymbols: Option<Rc<SymbolTable>>,
}

/// The triples once `triple` has a label.
pub open spec fn with_triple<W>(triples: Seq<Triple<W>>, triple: Triple<W>) -> Seq<Triple<W>> {
    if triples.contains(triple) {
        triples
    } else {
        triples.push(triple)
    }
}

/// The label of the triple at `i`. Labels count from one, since zero is epsilon.
pub open spec fn label_at(i: int) -> i32 {
    if i + 1 <= i32::MAX {
        (i + 1) as i32
    } else {
        NO_LABEL
    }
}

/// The label of a triple that has one.
pub open spec fn label_of<W>(triples: Seq<Triple<W>>, triple: Triple<W>) -> i32 {
    label_at(triples.index_of(triple))
}

impl<W: Weight> EncodeTableV<W> {
    /// What `label` stands for, if it stands for anything.
    pub open spec fn decoded(self, label: i32) -> Option<Triple<W>> {
        if 0 < label && label - 1 < self.triples.len() {
            Some(self.triples[label - 1])
        } else {
            None
        }
    }

    /// The table once `arc` has a label.
    pub open spec fn having(self, arc: Arc<W>) -> Self {
        EncodeTableV { triples: with_triple(self.triples, arc_triple(arc, self.flags)), ..self }
    }
}

/// The bijection between triples and encoded labels.
pub struct EncodeTable<W> {
    flags: u8,
    triples: Table<Triple<W>>,
    isymbols: Option<Rc<SymbolTable>>,
    osymbols: Option<Rc<SymbolTable>>,
}

impl<W> View for EncodeTable<W> {
    type V = EncodeTableV<W>;

    closed spec fn view(&self) -> EncodeTableV<W> {
        EncodeTableV {
            flags: self.flags,
            triples: self.triples@,
            isymbols: self.isymbols,
            osymbols: self.osymbols,
        }
    }
}

impl<W: Weight> EncodeTable<W> {
    /// Whether the table is in order.
    pub closed spec fn wf(&self) -> bool {
        self.triples.wf()
    }

    /// No triple has two labels.
    pub proof fn lemma_distinct(&self)
        requires
            self.wf(),
        ensures
            self@.triples.no_duplicates(),
    {
        self.triples.lemma_distinct();
    }

    /// An empty table encoding what `flags` asks for.
    pub fn new(flags: u8) -> (table: Self)
        ensures
            table.wf(),
            table@ == (EncodeTableV {
                flags,
                triples: Seq::<Triple<W>>::empty(),
                isymbols: None,
                osymbols: None,
            }),
    {
        EncodeTable { flags, triples: Table::new(), isymbols: None, osymbols: None }
    }

    /// The label standing for `arc`, assigning one if this is the first time it
    /// has been seen.
    pub fn encode(&mut self, arc: &Arc<W>) -> (label: i32)
        requires
            old(self).wf(),
        ensures
            final(self).wf(),
            final(self)@ == old(self)@.having(*arc),
            label == label_of(final(self)@.triples, arc_triple(*arc, old(self)@.flags)),
    {
        let triple = triple_of(arc, self.flags);
        self.encode_triple(triple)
    }

    /// The label for a triple, assigning one if it is new.
    pub fn encode_triple(&mut self, triple: Triple<W>) -> (label: i32)
        requires
            old(self).wf(),
        ensures
            final(self).wf(),
            final(self)@ == (EncodeTableV {
                triples: with_triple(old(self)@.triples, triple),
                ..old(self)@
            }),
            label == label_of(final(self)@.triples, triple),
    {
        let ghost t = triple;
        let id: usize = self.triples.insert(triple);
        proof {
            self.triples.lemma_distinct();
            assert(self.triples@.contains(t));
            let i = self.triples@.index_of(t);
            assert(self.triples@[i] == t);
        }
        if id < 0x7fff_ffff {
            (id + 1) as i32
        } else {
            NO_LABEL
        }
    }

    /// What `label` stands for, or `None` if no such label was ever assigned.
    pub fn decode(&self, label: i32) -> (triple: Option<&Triple<W>>)
        ensures
            match triple {
                Some(t) => self@.decoded(label) == Some(*t),
                None => self@.decoded(label) is None,
            },
    {
        if label <= 0 {
            return None;
        }
        let index: usize = (label - 1) as usize;
        if index < self.triples.len() {
            Some(self.triples.get(index))
        } else {
            None
        }
    }

    /// The triple at `i`, the labels counting from one more.
    pub(crate) fn triple_at(&self, i: usize) -> (triple: &Triple<W>)
        requires
            i < self@.triples.len(),
        ensures
            *triple == self@.triples[i as int],
    {
        self.triples.get(i)
    }

    /// How many labels have been assigned.
    pub fn len(&self) -> (n: usize)
        ensures
            n == self@.triples.len(),
    {
        self.triples.len()
    }

    /// Whether no label has been assigned.
    pub fn is_empty(&self) -> (b: bool)
        ensures
            b == (self@.triples.len() == 0),
    {
        self.triples.len() == 0
    }

    /// The encode flags, without the internal symbol-table bits.
    pub fn flags(&self) -> (flags: u8)
        ensures
            flags == self@.flags & ENCODE_FLAGS,
    {
        self.flags & ENCODE_FLAGS
    }

    /// The encode flags, with the internal symbol-table bits.
    pub(crate) fn all_flags(&self) -> (flags: u8)
        ensures
            flags == self@.flags,
    {
        self.flags
    }

    /// The input symbol table the encoded machine had.
    pub fn input_symbols(&self) -> (symbols: Option<Rc<SymbolTable>>)
        ensures
            symbols == self@.isymbols,
    {
        share_symbols(&self.isymbols)
    }

    /// The output symbol table the encoded machine had.
    pub fn output_symbols(&self) -> (symbols: Option<Rc<SymbolTable>>)
        ensures
            symbols == self@.osymbols,
    {
        share_symbols(&self.osymbols)
    }

    /// Remembers the input symbol table, so that decoding can put it back.
    pub fn set_input_symbols(&mut self, symbols: Option<Rc<SymbolTable>>)
        requires
            old(self).wf(),
        ensures
            final(self).wf(),
            final(self)@ == (EncodeTableV {
                isymbols: symbols,
                flags: if symbols is Some {
                    old(self)@.flags | ENCODE_HAS_ISYMBOLS
                } else {
                    old(self)@.flags & !ENCODE_HAS_ISYMBOLS
                },
                ..old(self)@
            }),
    {
        match symbols {
            Some(symbols) => {
                self.isymbols = Some(symbols);
                self.flags = self.flags | ENCODE_HAS_ISYMBOLS;
            },
            None => {
                self.isymbols = None;
                self.flags = self.flags & !ENCODE_HAS_ISYMBOLS;
            },
        }
    }

    /// Remembers the output symbol table, so that decoding can put it back.
    pub fn set_output_symbols(&mut self, symbols: Option<Rc<SymbolTable>>)
        requires
            old(self).wf(),
        ensures
            final(self).wf(),
            final(self)@ == (EncodeTableV {
                osymbols: symbols,
                flags: if symbols is Some {
                    old(self)@.flags | ENCODE_HAS_OSYMBOLS
                } else {
                    old(self)@.flags & !ENCODE_HAS_OSYMBOLS
                },
                ..old(self)@
            }),
    {
        match symbols {
            Some(symbols) => {
                self.osymbols = Some(symbols);
                self.flags = self.flags | ENCODE_HAS_OSYMBOLS;
            },
            None => {
                self.osymbols = None;
                self.flags = self.flags & !ENCODE_HAS_OSYMBOLS;
            },
        }
    }

    /// A copy of the table.
    pub fn duplicate(&self) -> (table: Self)
        requires
            self.wf(),
        ensures
            table.wf(),
            table@ == self@,
    {
        let mut triples: Table<Triple<W>> = Table::new();
        let mut i: usize = 0;
        while i < self.triples.len()
            invariant
                i <= self.triples@.len(),
                self.triples.wf(),
                triples.wf(),
                triples@ =~= self.triples@.take(i as int),
            decreases self.triples@.len() - i,
        {
            proof {
                self.triples.lemma_distinct();
                if triples@.contains(self.triples@[i as int]) {
                    let j = choose|j: int|
                        0 <= j < triples@.len() && triples@[j] == self.triples@[i as int];
                    assert(self.triples@[j] == self.triples@[i as int]);
                }
            }
            triples.insert(self.triples.get(i).key_copy());
            i = i + 1;
        }
        assert(self.triples@.take(self.triples@.len() as int) =~= self.triples@);
        EncodeTable {
            flags: self.flags,
            triples,
            isymbols: share_symbols(&self.isymbols),
            osymbols: share_symbols(&self.osymbols),
        }
    }
}

/// What matters of a mapper.
#[verifier::ext_equal]
pub struct EncodeModel<W> {
    /// What is encoded.
    pub flags: u8,
    /// Which direction it runs in.
    pub encode_type: EncodeType,
    /// The table.
    pub table: EncodeTableV<W>,
    /// Whether a decode has failed.
    pub error: bool,
}

/// Rewrites arcs into encoded labels, or back again.
pub struct EncodeMapper<W> {
    flags: u8,
    encode_type: EncodeType,
    table: EncodeTable<W>,
    error: bool,
}

impl<W> View for EncodeMapper<W> {
    type V = EncodeModel<W>;

    closed spec fn view(&self) -> EncodeModel<W> {
        EncodeModel {
            flags: self.flags,
            encode_type: self.encode_type,
            table: self.table@,
            error: self.error,
        }
    }
}

/// Whether an arc is a final weight offered as an arc that is passed through: there
/// is no weight to fold into a label, or the state is not final at all.
pub open spec fn passes_through<W: Weight>(flags: u8, arc: Arc<W>) -> bool {
    arc.nextstate == NO_STATE && (flags & ENCODE_WEIGHTS == 0 || arc.weight == W::spec_zero())
}

/// An arc that carries `label` in place of what is encoded.
pub open spec fn labelled<W: Weight>(flags: u8, arc: Arc<W>, label: i32) -> Arc<W> {
    Arc {
        ilabel: label,
        olabel: if flags & ENCODE_LABELS != 0 {
            label
        } else {
            arc.olabel
        },
        weight: if flags & ENCODE_WEIGHTS != 0 {
            W::spec_one()
        } else {
            arc.weight
        },
        nextstate: arc.nextstate,
    }
}

/// An arc that carries a triple in place of its label.
pub open spec fn unlabelled<W: Weight>(flags: u8, arc: Arc<W>, triple: Option<Triple<W>>) -> Arc<
    W,
> {
    match triple {
        None => Arc {
            ilabel: NO_LABEL,
            olabel: NO_LABEL,
            weight: W::spec_no_weight(),
            nextstate: arc.nextstate,
        },
        Some(triple) => if triple.ilabel == NO_LABEL {
            // What a final weight was given: it becomes an epsilon arc carrying the
            // weight.
            Arc {
                ilabel: EPSILON,
                olabel: EPSILON,
                weight: triple.weight,
                nextstate: arc.nextstate,
            }
        } else {
            Arc {
                ilabel: triple.ilabel,
                olabel: if flags & ENCODE_LABELS != 0 {
                    triple.olabel
                } else {
                    arc.olabel
                },
                weight: if flags & ENCODE_WEIGHTS != 0 {
                    triple.weight
                } else {
                    arc.weight
                },
                nextstate: arc.nextstate,
            }
        },
    }
}

/// Whether an arc is left alone by decoding.
pub open spec fn undecoded<W: Weight>(arc: Arc<W>) -> bool {
    arc.nextstate == NO_STATE || arc.ilabel == EPSILON
}

/// Whether an arc could have come from encoding.
pub open spec fn is_decodable<W: Weight>(m: EncodeModel<W>, arc: Arc<W>) -> bool {
    &&& m.flags & ENCODE_LABELS != 0 ==> arc.ilabel == arc.olabel
    &&& m.flags & ENCODE_WEIGHTS != 0 ==> arc.weight == W::spec_one()
    &&& m.table.decoded(arc.ilabel) is Some
}

impl<W: Weight> EncodeMapper<W> {
    /// Whether the mapper is in order.
    pub closed spec fn table_wf(&self) -> bool {
        self.table.wf()
    }

    /// An encoder with an empty table.
    ///
    /// `flags` is some combination of [`ENCODE_LABELS`] and [`ENCODE_WEIGHTS`].
    pub fn new(flags: u8) -> (mapper: Self)
        ensures
            mapper.table_wf(),
            mapper@ == (EncodeModel {
                flags: flags & ENCODE_FLAGS,
                encode_type: EncodeType::Encode,
                table: EncodeTableV {
                    flags: flags & ENCODE_FLAGS,
                    triples: Seq::<Triple<W>>::empty(),
                    isymbols: None,
                    osymbols: None,
                },
                error: false,
            }),
    {
        EncodeMapper {
            flags: flags & ENCODE_FLAGS,
            encode_type: EncodeType::Encode,
            table: EncodeTable::new(flags & ENCODE_FLAGS),
            error: false,
        }
    }

    /// A mapper running the other way over a copy of the table. What either of the two
    /// adds to its table afterwards, the other does not see.
    pub fn inverse(&self) -> (mapper: Self)
        requires
            self.table_wf(),
        ensures
            mapper.table_wf(),
            mapper@ == (EncodeModel {
                encode_type: match self@.encode_type {
                    EncodeType::Encode => EncodeType::Decode,
                    EncodeType::Decode => EncodeType::Encode,
                },
                ..self@
            }),
    {
        EncodeMapper {
            flags: self.flags,
            encode_type: match self.encode_type {
                EncodeType::Encode => EncodeType::Decode,
                EncodeType::Decode => EncodeType::Encode,
            },
            table: self.table.duplicate(),
            error: self.error,
        }
    }

    /// A mapper over an existing table, which it takes over.
    pub fn from_table(table: EncodeTable<W>, encode_type: EncodeType) -> (mapper: Self)
        requires
            table.wf(),
        ensures
            mapper.table_wf(),
            mapper@ == (EncodeModel {
                flags: table@.flags & ENCODE_FLAGS,
                encode_type,
                table: table@,
                error: false,
            }),
    {
        let flags: u8 = table.flags();
        EncodeMapper { flags, encode_type, table, error: false }
    }

    /// Which direction this runs in.
    pub fn encode_type(&self) -> (t: EncodeType)
        ensures
            t == self@.encode_type,
    {
        self.encode_type
    }

    /// The encode flags.
    pub fn flags(&self) -> (flags: u8)
        ensures
            flags == self@.flags,
    {
        self.flags
    }

    /// The table.
    pub fn table(&self) -> (table: &EncodeTable<W>)
        requires
            self.table_wf(),
        ensures
            table@ == self@.table,
            table.wf(),
    {
        &self.table
    }

    /// Whether a decode has failed since this mapper was made.
    pub fn error(&self) -> (error: bool)
        ensures
            error == self@.error,
    {
        self.error
    }

    /// The input symbol table the encoded machine had.
    pub fn input_symbols(&self) -> (symbols: Option<Rc<SymbolTable>>)
        ensures
            symbols == self@.table.isymbols,
    {
        self.table.input_symbols()
    }

    /// The output symbol table the encoded machine had.
    pub fn output_symbols(&self) -> (symbols: Option<Rc<SymbolTable>>)
        ensures
            symbols == self@.table.osymbols,
    {
        self.table.output_symbols()
    }

    /// Remembers the input symbol table, so that decoding can put it back.
    pub fn set_input_symbols(&mut self, symbols: Option<Rc<SymbolTable>>)
        requires
            old(self).table_wf(),
        ensures
            final(self).table_wf(),
            final(self)@ == (EncodeModel {
                table: with_isymbols(old(self)@.table, symbols),
                ..old(self)@
            }),
    {
        self.table.set_input_symbols(symbols);
    }

    /// Remembers the output symbol table, so that decoding can put it back.
    pub fn set_output_symbols(&mut self, symbols: Option<Rc<SymbolTable>>)
        requires
            old(self).table_wf(),
        ensures
            final(self).table_wf(),
            final(self)@ == (EncodeModel {
                table: with_osymbols(old(self)@.table, symbols),
                ..old(self)@
            }),
    {
        self.table.set_output_symbols(symbols);
    }

    fn encode_arc(&mut self, arc: &Arc<W>) -> (to: Arc<W>)
        requires
            old(self).table_wf(),
        ensures
            final(self).table_wf(),
            passes_through(old(self)@.flags, *arc) ==> to == *arc && final(self)@ == old(self)@,
            !passes_through(old(self)@.flags, *arc) ==> {
                let table = old(self)@.table.having(*arc);
                &&& final(self)@ == (EncodeModel { table, ..old(self)@ })
                &&& to == labelled(
                    old(self)@.flags,
                    *arc,
                    label_of(table.triples, arc_triple(*arc, old(self)@.table.flags)),
                )
            },
    {
        // A final weight is passed through untouched when there is no weight to
        // fold into a label, and when the state is not final at all.
        if arc.nextstate == NO_STATE && (self.flags & ENCODE_WEIGHTS == 0 || arc.weight.same(
            &W::zero(),
        )) {
            return arc.duplicate();
        }
        let label: i32 = self.table.encode(arc);
        let olabel: i32 = if self.flags & ENCODE_LABELS != 0 {
            label
        } else {
            arc.olabel
        };
        let weight = if self.flags & ENCODE_WEIGHTS != 0 {
            W::one()
        } else {
            arc.weight.duplicate()
        };
        Arc::new(label, olabel, weight, arc.nextstate)
    }

    fn decode_arc(&mut self, arc: &Arc<W>) -> (to: Arc<W>)
        requires
            old(self).table_wf(),
        ensures
            final(self).table_wf(),
            undecoded(*arc) ==> to == *arc && final(self)@ == old(self)@,
            !undecoded(*arc) ==> {
                &&& final(self)@ == (EncodeModel {
                    error: old(self)@.error || !is_decodable(old(self)@, *arc),
                    ..old(self)@
                })
                &&& to == unlabelled(
                    old(self)@.flags,
                    *arc,
                    old(self)@.table.decoded(arc.ilabel),
                )
            },
    {
        if arc.nextstate == NO_STATE || arc.ilabel == EPSILON {
            return arc.duplicate();
        }
        if self.flags & ENCODE_LABELS != 0 && arc.ilabel != arc.olabel {
            self.error = true;
        }
        if self.flags & ENCODE_WEIGHTS != 0 && !arc.weight.same(&W::one()) {
            self.error = true;
        }
        match self.table.decode(arc.ilabel) {
            None => {
                self.error = true;
                Arc::new(NO_LABEL, NO_LABEL, W::no_weight(), arc.nextstate)
            },
            Some(triple) => {
                if triple.ilabel == NO_LABEL {
                    // What a final weight was given: it becomes an epsilon arc
                    // carrying the weight, which is folded back into the state.
                    return Arc::new(
                        EPSILON,
                        EPSILON,
                        triple.weight.duplicate(),
                        arc.nextstate,
                    );
                }
                let olabel: i32 = if self.flags & ENCODE_LABELS != 0 {
                    triple.olabel
                } else {
                    arc.olabel
                };
                let weight = if self.flags & ENCODE_WEIGHTS != 0 {
                    triple.weight.duplicate()
                } else {
                    arc.weight.duplicate()
                };
                Arc::new(triple.ilabel, olabel, weight, arc.nextstate)
            },
        }
    }
}

/// A table that remembers how the labels read are named.
pub open spec fn with_isymbols<W>(
    table: EncodeTableV<W>,
    symbols: Option<Rc<SymbolTable>>,
) -> EncodeTableV<W> {
    EncodeTableV {
        isymbols: symbols,
        flags: if symbols is Some {
            table.flags | ENCODE_HAS_ISYMBOLS
        } else {
            table.flags & !ENCODE_HAS_ISYMBOLS
        },
        ..table
    }
}

/// A table that remembers how the labels written are named.
pub open spec fn with_osymbols<W>(
    table: EncodeTableV<W>,
    symbols: Option<Rc<SymbolTable>>,
) -> EncodeTableV<W> {
    EncodeTableV {
        osymbols: symbols,
        flags: if symbols is Some {
            table.flags | ENCODE_HAS_OSYMBOLS
        } else {
            table.flags & !ENCODE_HAS_OSYMBOLS
        },
        ..table
    }
}

/// What encoding leaves of the properties.
pub open spec fn encode_mask(flags: u8, encodes: bool) -> u64 {
    let m0 = K_FST_PROPERTIES;
    let m1 = if flags & ENCODE_LABELS != 0 {
        m0 & (K_I_LABEL_INVARIANT_PROPERTIES & K_O_LABEL_INVARIANT_PROPERTIES)
    } else {
        m0
    };
    let m2 = if flags & ENCODE_WEIGHTS != 0 {
        m1 & (K_I_LABEL_INVARIANT_PROPERTIES & K_WEIGHT_INVARIANT_PROPERTIES & (if encodes {
            K_ADD_SUPER_FINAL_PROPERTIES
        } else {
            K_RM_SUPER_FINAL_PROPERTIES
        }))
    } else {
        m1
    };
    if encodes {
        m2 | K_I_DETERMINISTIC
    } else {
        m2
    }
}

impl<W: Weight> ArcMapper<W, W> for EncodeMapper<W> {
    type Model = EncodeModel<W>;

    open spec fn wf(&self) -> bool {
        self.table_wf()
    }

    open spec fn model(&self) -> EncodeModel<W> {
        self@
    }

    open spec fn mapped(m: EncodeModel<W>, arc: Arc<W>) -> Arc<W> {
        match m.encode_type {
            EncodeType::Encode => if passes_through(m.flags, arc) {
                arc
            } else {
                labelled(
                    m.flags,
                    arc,
                    label_of(m.table.having(arc).triples, arc_triple(arc, m.table.flags)),
                )
            },
            EncodeType::Decode => if undecoded(arc) {
                arc
            } else {
                unlabelled(m.flags, arc, m.table.decoded(arc.ilabel))
            },
        }
    }

    open spec fn moved(m: EncodeModel<W>, arc: Arc<W>) -> EncodeModel<W> {
        match m.encode_type {
            EncodeType::Encode => if passes_through(m.flags, arc) {
                m
            } else {
                EncodeModel { table: m.table.having(arc), ..m }
            },
            EncodeType::Decode => if undecoded(arc) {
                m
            } else {
                EncodeModel { error: m.error || !is_decodable(m, arc), ..m }
            },
        }
    }

    open spec fn spec_final_action(m: EncodeModel<W>) -> MapFinalAction {
        if m.encode_type == EncodeType::Encode && m.flags & ENCODE_WEIGHTS != 0 {
            MapFinalAction::RequireSuperfinal
        } else {
            MapFinalAction::NoSuperfinal
        }
    }

    open spec fn spec_input_symbols_action(m: EncodeModel<W>) -> MapSymbolsAction {
        MapSymbolsAction::Clear
    }

    open spec fn spec_output_symbols_action(m: EncodeModel<W>) -> MapSymbolsAction {
        MapSymbolsAction::Clear
    }

    open spec fn spec_properties(m: EncodeModel<W>, props: u64) -> u64 {
        let encodes = m.encode_type == EncodeType::Encode;
        let p0 = (if m.error {
            props | K_ERROR
        } else {
            props
        }) & encode_mask(m.flags, encodes);
        let p1 = if encodes && m.flags & ENCODE_LABELS != 0 {
            p0 | K_ACCEPTOR
        } else {
            p0
        };
        if encodes && m.flags & ENCODE_WEIGHTS != 0 {
            p1 | (K_UNWEIGHTED | K_UNWEIGHTED_CYCLES)
        } else {
            p1
        }
    }

    fn map(&mut self, arc: &Arc<W>) -> (to: Arc<W>) {
        match self.encode_type {
            EncodeType::Encode => self.encode_arc(arc),
            EncodeType::Decode => self.decode_arc(arc),
        }
    }

    fn final_action(&self) -> (action: MapFinalAction) {
        // Encoding a weight turns a final weight into an arc, so a superfinal
        // state is always needed; nothing else moves final weights.
        if self.encode_type == EncodeType::Encode && self.flags & ENCODE_WEIGHTS != 0 {
            MapFinalAction::RequireSuperfinal
        } else {
            MapFinalAction::NoSuperfinal
        }
    }

    fn input_symbols_action(&self) -> (action: MapSymbolsAction) {
        MapSymbolsAction::Clear
    }

    fn output_symbols_action(&self) -> (action: MapSymbolsAction) {
        MapSymbolsAction::Clear
    }

    fn properties(&self, props: u64) -> (out: u64) {
        let mut out: u64 = props;
        if self.error {
            out = out | K_ERROR;
        }
        let mut mask: u64 = K_FST_PROPERTIES;
        if self.flags & ENCODE_LABELS != 0 {
            mask = mask & (K_I_LABEL_INVARIANT_PROPERTIES & K_O_LABEL_INVARIANT_PROPERTIES);
        }
        if self.flags & ENCODE_WEIGHTS != 0 {
            mask = mask & (K_I_LABEL_INVARIANT_PROPERTIES & K_WEIGHT_INVARIANT_PROPERTIES & (
            if self.encode_type == EncodeType::Encode {
                K_ADD_SUPER_FINAL_PROPERTIES
            } else {
                K_RM_SUPER_FINAL_PROPERTIES
            }));
        }
        if self.encode_type == EncodeType::Encode {
            // Distinct triples get distinct labels, so no state can have two
            // arcs with the same input label going anywhere different.
            mask = mask | K_I_DETERMINISTIC;
        }
        out = out & mask;
        if self.encode_type == EncodeType::Encode {
            if self.flags & ENCODE_LABELS != 0 {
                out = out | K_ACCEPTOR;
            }
            if self.flags & ENCODE_WEIGHTS != 0 {
                out = out | (K_UNWEIGHTED | K_UNWEIGHTED_CYCLES);
            }
        }
        out
    }
}

/// A mapper that remembers how a machine names its labels.
pub open spec fn remembering<W: Weight>(m: EncodeModel<W>, v: FstV<W>) -> EncodeModel<W> {
    EncodeModel {
        table: with_osymbols(with_isymbols(m.table, v.isymbols), v.osymbols),
        ..m
    }
}

/// Folds each arc's labels and weight into a single label, in place.
///
/// The machine's symbol tables are remembered in the mapper's table, and
/// [`decode`](fn@decode) puts them back.
///
/// Complexity: O(V + E).
pub fn encode<W: Weight>(fst: &mut VectorFst<W>, mapper: &mut EncodeMapper<W>) -> (result: Result<
    (),
    OpenFstError,
>)
    requires
        old(mapper).table_wf(),
        old(fst)@.wf(),
        old(fst)@.n() < usize::MAX,
    ensures
        final(mapper).table_wf(),
        final(fst)@ == map_in_place::<W, EncodeMapper<W>>(
            remembering(old(mapper)@, old(fst)@),
            old(fst)@,
        ),
        old(fst)@.start is None ==> result is Ok && final(mapper)@ == remembering(
            old(mapper)@,
            old(fst)@,
        ),
        old(fst)@.start is Some ==> {
            let r = map_all::<W, W, EncodeMapper<W>>(remembering(old(mapper)@, old(fst)@), old(
                fst,
            )@);
            &&& final(mapper)@ == r.model
            &&& result is Ok <==> r.failed is None
            &&& result matches Err(e) ==> e is InvalidOperation
        },
{
    mapper.set_input_symbols(fst.input_symbols());
    mapper.set_output_symbols(fst.output_symbols());
    arc_map(fst, mapper)
}

/// Whether every arc of a machine could have come from encoding.
pub open spec fn all_decodable<W: Weight>(m: EncodeModel<W>, v: FstV<W>) -> bool {
    forall|s: int, i: int|
        0 <= s < v.n() && 0 <= i < v.arcs(s).len() && (#[trigger] v.arcs(s)[i]).ilabel != EPSILON
            ==> is_decodable(m, v.arcs(s)[i])
}

/// A mapper that runs the other way.
pub open spec fn reversed<W: Weight>(m: EncodeModel<W>) -> EncodeModel<W> {
    EncodeModel {
        encode_type: match m.encode_type {
            EncodeType::Encode => EncodeType::Decode,
            EncodeType::Decode => EncodeType::Encode,
        },
        ..m
    }
}

/// What decoding makes of a machine.
pub open spec fn decoded_machine<W: Weight>(m: EncodeModel<W>, v: FstV<W>) -> FstV<W> {
    FstV {
        isymbols: m.table.isymbols,
        osymbols: m.table.osymbols,
        ..final_folded(map_in_place::<W, EncodeMapper<W>>(reversed(m), v))
    }
}

/// Puts back the labels and weights [`encode`](fn@encode) folded away, in place.
///
/// Every label is checked before anything is rewritten, which costs one pass
/// over arcs the rewrite walks anyway, and the machine is left untouched if any of
/// them is bad.
pub fn decode<W: Weight>(fst: &mut VectorFst<W>, mapper: &EncodeMapper<W>) -> (result: Result<
    (),
    OpenFstError,
>)
    requires
        mapper.table_wf(),
        mapper@.encode_type is Encode,
        old(fst)@.wf(),
        old(fst)@.n() < usize::MAX,
    ensures
        result is Ok <==> all_decodable(mapper@, old(fst)@),
        result is Ok ==> final(fst)@ == decoded_machine(mapper@, old(fst)@) && final(fst)@.wf(),
        result matches Err(e) ==> e is InvalidOperation && final(fst)@ == old(fst)@,
{
    let ghost v = fst@;
    let mut decoder = mapper.inverse();
    match check_decodable(&*fst, &decoder) {
        Ok(()) => {},
        Err(e) => {
            return Err(e);
        },
    }
    let ghost m = decoder@;
    proof {
        lemma_decoding_succeeds(m, v);
    }
    match arc_map(fst, &mut decoder) {
        Ok(()) => {},
        Err(e) => {
            return Err(e);
        },
    }
    proof {
        lemma_decoded_wf(m, v);
    }
    // Encoding a weight turned each final weight into an arc to a superfinal
    // state; decoding turned those back into epsilon arcs carrying the weight,
    // and this folds them back into final weights.
    rm_final_epsilon(fst);
    let ghost folded = fst@;
    fst.set_input_symbols(mapper.input_symbols());
    fst.set_output_symbols(mapper.output_symbols());
    assert forall|s: int, i: int|
        0 <= s < fst@.n() && 0 <= i < fst@.states[s].arcs.len() implies (
    #[trigger] fst@.states[s].arcs[i]).nextstate < fst@.n() by {
        assert(folded.states[s].arcs[i].nextstate < folded.n());
    }
    Ok(())
}

/// Reports the first arc `decoder` could not decode.
fn check_decodable<W: Weight>(fst: &VectorFst<W>, decoder: &EncodeMapper<W>) -> (result: Result<
    (),
    OpenFstError,
>)
    requires
        decoder.table_wf(),
    ensures
        result is Ok <==> all_decodable(decoder@, fst@),
        result matches Err(e) ==> e is InvalidOperation,
{
    let flags: u8 = decoder.flags();
    let one = W::one();
    let n: usize = fst.num_states();
    let mut s: usize = 0;
    while s < n
        invariant
            s <= n,
            n == fst@.n(),
            flags == decoder@.flags,
            one == W::spec_one(),
            decoder.table_wf(),
            forall|t: int, i: int|
                0 <= t < s && 0 <= i < fst@.arcs(t).len() && (#[trigger] fst@.arcs(t)[i]).ilabel
                    != EPSILON ==> is_decodable(decoder@, fst@.arcs(t)[i]),
        decreases n - s,
    {
        let arcs = fst.arcs(s);
        let mut i: usize = 0;
        while i < arcs.len()
            invariant
                i <= arcs@.len(),
                s < n,
                n == fst@.n(),
                arcs@ == fst@.arcs(s as int),
                flags == decoder@.flags,
                one == W::spec_one(),
                decoder.table_wf(),
                forall|j: int|
                    0 <= j < i && (#[trigger] arcs@[j]).ilabel != EPSILON ==> is_decodable(
                        decoder@,
                        arcs@[j],
                    ),
            decreases arcs@.len() - i,
        {
            let arc = &arcs[i];
            if arc.ilabel != EPSILON {
                if flags & ENCODE_LABELS != 0 && arc.ilabel != arc.olabel {
                    assert(!is_decodable(decoder@, fst@.arcs(s as int)[i as int]));
                    return Err(
                        OpenFstError::InvalidOperation(
                            "Decode: label-encoded arc has different input and output labels",
                        ),
                    );
                }
                if flags & ENCODE_WEIGHTS != 0 && !arc.weight.same(&one) {
                    assert(!is_decodable(decoder@, fst@.arcs(s as int)[i as int]));
                    return Err(
                        OpenFstError::InvalidOperation(
                            "Decode: weight-encoded arc has non-trivial weight",
                        ),
                    );
                }
                if decoder.table().decode(arc.ilabel).is_none() {
                    assert(!is_decodable(decoder@, fst@.arcs(s as int)[i as int]));
                    return Err(
                        OpenFstError::InvalidOperation(
                            "Decode: arc carries a label which the encode table does not have",
                        ),
                    );
                }
            }
            i = i + 1;
        }
        s = s + 1;
    }
    Ok(())
}

/// What decoding makes of a state.
pub open spec fn decoded_state<W: Weight>(m: EncodeModel<W>, state: StateV<W>) -> StateV<W> {
    StateV {
        final_weight: state.final_weight,
        arcs: state.arcs.map_values(
            |arc: Arc<W>| <EncodeMapper<W> as ArcMapper<W, W>>::mapped(m, arc),
        ),
    }
}

proof fn lemma_decoded_arcs<W: Weight>(m: EncodeModel<W>, arcs: Seq<Arc<W>>, k: int)
    requires
        0 <= k <= arcs.len(),
        m.encode_type is Decode,
        forall|i: int|
            0 <= i < arcs.len() && (#[trigger] arcs[i]).ilabel != EPSILON ==> is_decodable(
                m,
                arcs[i],
            ),
    ensures
        map_arcs::<W, W, EncodeMapper<W>>(m, arcs, k) == (
            m,
            arcs.take(k).map_values(
                |arc: Arc<W>| <EncodeMapper<W> as ArcMapper<W, W>>::mapped(m, arc),
            ),
        ),
    decreases k,
{
    if k > 0 {
        lemma_decoded_arcs(m, arcs, k - 1);
        let arc = arcs[k - 1];
        if !undecoded(arc) {
            assert(is_decodable(m, arc));
        }
        assert(<EncodeMapper<W> as ArcMapper<W, W>>::moved(m, arc) == m);
    }
    assert(map_arcs::<W, W, EncodeMapper<W>>(m, arcs, k).1 =~= arcs.take(k).map_values(
        |arc: Arc<W>| <EncodeMapper<W> as ArcMapper<W, W>>::mapped(m, arc),
    ));
}

proof fn lemma_decoded_states<W: Weight>(m: EncodeModel<W>, v: FstV<W>, top: usize, k: int)
    requires
        0 <= k <= v.n(),
        m.encode_type is Decode,
        all_decodable(m, v),
    ensures
        ({
            let r = map_states::<W, W, EncodeMapper<W>>(m, v.states, top, k);
            &&& r.model == m
            &&& r.failed is None
            &&& !r.superfinal
            &&& r.done == Seq::new(k as nat, |s: int| decoded_state(m, v.states[s]))
        }),
    decreases k,
{
    if k > 0 {
        lemma_decoded_states(m, v, top, k - 1);
        let arcs = v.states[k - 1].arcs;
        assert forall|i: int|
            0 <= i < arcs.len() && (#[trigger] arcs[i]).ilabel != EPSILON implies is_decodable(
            m,
            arcs[i],
        ) by {
            assert(v.arcs(k - 1)[i] == arcs[i]);
        }
        lemma_decoded_arcs(m, arcs, arcs.len() as int);
        assert(arcs.take(arcs.len() as int) =~= arcs);
    }
    assert(map_states::<W, W, EncodeMapper<W>>(m, v.states, top, k).done =~= Seq::new(
        k as nat,
        |s: int| decoded_state(m, v.states[s]),
    ));
}

/// Decoding a machine whose arcs can all be decoded succeeds, and decodes each.
pub proof fn lemma_decoding_succeeds<W: Weight>(m: EncodeModel<W>, v: FstV<W>)
    requires
        m.encode_type is Decode,
        all_decodable(m, v),
    ensures
        map_all::<W, W, EncodeMapper<W>>(m, v).failed is None,
        map_all::<W, W, EncodeMapper<W>>(m, v).model == m,
        v.start is Some ==> map_in_place::<W, EncodeMapper<W>>(m, v).states == Seq::new(
            v.n(),
            |s: int| decoded_state(m, v.states[s]),
        ),
{
    lemma_decoded_states(m, v, v.n() as usize, v.n() as int);
    assert(map_in_place::<W, EncodeMapper<W>>(m, v).states =~= if v.start is Some {
        Seq::new(v.n(), |s: int| decoded_state(m, v.states[s]))
    } else {
        v.states
    });
}

proof fn lemma_decoded_wf<W: Weight>(m: EncodeModel<W>, v: FstV<W>)
    requires
        v.wf(),
        m.encode_type is Decode,
        all_decodable(m, v),
    ensures
        map_in_place::<W, EncodeMapper<W>>(m, v).wf(),
{
    lemma_decoding_succeeds(m, v);
    let w = map_in_place::<W, EncodeMapper<W>>(m, v);
    if v.start is Some {
        assert forall|s: int, i: int|
            0 <= s < w.n() && 0 <= i < w.states[s].arcs.len() implies (
        #[trigger] w.states[s].arcs[i]).nextstate < w.n() by {
            assert(w.states[s] == decoded_state(m, v.states[s]));
            assert(v.states[s].arcs[i].nextstate < v.n());
        }
    }
}

/// Whether one table holds all that another does, at the same labels.
pub open spec fn extends<W>(later: Seq<Triple<W>>, table: Seq<Triple<W>>) -> bool {
    table.len() <= later.len() && forall|i: int| 0 <= i < table.len() ==> later[i] == table[i]
}

/// What is folded away comes back: an arc that encoding gave a label is what decoding
/// makes of that label, by the same table or one that has grown since.
pub proof fn law_decoding_undoes_encoding<W: Weight>(
    m: EncodeModel<W>,
    arc: Arc<W>,
    later: EncodeTableV<W>,
)
    requires
        m.encode_type is Encode,
        m.flags == m.table.flags & ENCODE_FLAGS,
        arc.nextstate != NO_STATE,
        arc.ilabel != NO_LABEL,
        extends(later.triples, m.table.having(arc).triples),
        later.triples.len() <= i32::MAX,
    ensures
        ({
            let encoded = <EncodeMapper<W> as ArcMapper<W, W>>::mapped(m, arc);
            let decoder = reversed(EncodeModel { table: later, ..m });
            &&& !undecoded(encoded)
            &&& is_decodable(decoder, encoded)
            &&& <EncodeMapper<W> as ArcMapper<W, W>>::mapped(decoder, encoded) == arc
        }),
{
    let flags = m.table.flags;
    let kept = m.flags;
    assert(kept & ENCODE_LABELS == flags & ENCODE_LABELS && kept & ENCODE_WEIGHTS == flags
        & ENCODE_WEIGHTS) by (bit_vector)
        requires
            kept == flags & 0x03u8,
            ENCODE_LABELS == 0x01u8,
            ENCODE_WEIGHTS == 0x02u8,
    ;
    let triple = arc_triple(arc, flags);
    let triples = m.table.having(arc).triples;
    assert(triples.contains(triple)) by {
        if !m.table.triples.contains(triple) {
            assert(triples[m.table.triples.len() as int] == triple);
        }
    }
    let i = triples.index_of(triple);
    assert(0 <= i < triples.len() && triples[i] == triple);
    assert(later.triples[i] == triple);
    assert(label_of(triples, triple) == i + 1);
}

/// Arcs share a label exactly when what is encoded of them is the same.
pub proof fn law_labels_tell_triples_apart<W: Weight>(triples: Seq<Triple<W>>, a: Triple<W>, b: Triple<W>)
    requires
        triples.contains(a),
        triples.contains(b),
        triples.len() <= i32::MAX,
    ensures
        label_of(triples, a) == label_of(triples, b) <==> a == b,
{
}

} // verus!
