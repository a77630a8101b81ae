//! Encode tables as bytes.
use crate::add_on::{reads_back, refuses_cut_off, AddOn};
use crate::encode::{
    with_triple, EncodeTable, EncodeTableV, Triple, ENCODE_HAS_ISYMBOLS, ENCODE_HAS_OSYMBOLS,
};
use crate::error::OpenFstError;
use crate::symbol_table::{
    is_writable_table, law_symbols_read_back, parse_symbols, symbols_bytes, SymbolTable, SymbolsV,
};
use crate::weight::Weight;
use crate::wire::{
    i32_bytes, is_writable_name, law_names_read_back, law_values_read_back, name_bytes, parse_i32,
    parse_i64, parse_name, parse_u32, parse_u64, parse_u8, write_i32, write_name, write_u64,
    ByteReader, Parsed,
};
use std::rc::Rc;
use vstd::bytes::{lemma_auto_spec_u32_to_from_le_bytes, spec_u64_to_le_bytes};
use vstd::prelude::*;

verus! {

/// Identifies bytes as an encode table.
pub const ENCODE_MAGIC_NUMBER: i32 = 2_128_178_506;

/// Identifies bytes as an encode table in the format there was before.
pub const ENCODE_DEPRECATED_MAGIC_NUMBER: i32 = 2_129_983_209;

/// What a file says of an encode table before the table itself.
#[derive(Debug)]
pub struct EncodeTableHeader {
    /// The arc type the table was written for.
    pub arc_type: String,
    /// The encode flags, including the internal symbol-table bits.
    pub flags: u8,
    /// How many triples follow.
    pub size: u64,
}

/// A header as mathematics sees it.
#[verifier::ext_equal]
pub struct EncodeHeaderV {
    /// The arc type the table was written for.
    pub arc_type: Seq<char>,
    /// The encode flags, including the internal symbol-table bits.
    pub flags: u8,
    /// How many triples follow.
    pub size: u64,
}

impl View for EncodeTableHeader {
    type V = EncodeHeaderV;

    open spec fn view(&self) -> EncodeHeaderV {
        EncodeHeaderV { arc_type: self.arc_type@, flags: self.flags, size: self.size }
    }
}

/// The bytes of a header.
pub open spec fn encode_header_bytes(h: EncodeHeaderV) -> Seq<u8> {
    i32_bytes(ENCODE_MAGIC_NUMBER) + (name_bytes(h.arc_type) + (seq![h.flags]
        + spec_u64_to_le_bytes(h.size)))
}

/// What follows the magic number of a header.
pub open spec fn parse_current_header(bytes: Seq<u8>) -> Parsed<EncodeHeaderV> {
    match parse_name(bytes) {
        Some((arc_type, rest)) => match parse_u8(rest) {
            Some((flags, rest)) => match parse_u64(rest) {
                Some((size, rest)) => Some((EncodeHeaderV { arc_type, flags, size }, rest)),
                None => None,
            },
            None => None,
        },
        None => None,
    }
}

/// What follows the magic number of a header in the format there was before: no arc
/// type, wide flags and a signed size.
pub open spec fn parse_deprecated_header(bytes: Seq<u8>) -> Parsed<EncodeHeaderV> {
    match parse_u32(bytes) {
        Some((flags, rest)) => match parse_i64(rest) {
            Some((size, rest)) => Some(
                (
                    EncodeHeaderV {
                        arc_type: Seq::empty(),
                        flags: flags as u8,
                        size: size as u64,
                    },
                    rest,
                ),
            ),
            None => None,
        },
        None => None,
    }
}

/// Whether a magic number is that of an encode table.
pub open spec fn is_encode_magic(magic: i32) -> bool {
    magic == ENCODE_MAGIC_NUMBER || magic == ENCODE_DEPRECATED_MAGIC_NUMBER
}

/// A header at the front of some bytes, in the one format or the other.
pub open spec fn parse_encode_header(bytes: Seq<u8>) -> Parsed<EncodeHeaderV> {
    match parse_i32(bytes) {
        Some((magic, rest)) => if magic == ENCODE_MAGIC_NUMBER {
            parse_current_header(rest)
        } else if magic == ENCODE_DEPRECATED_MAGIC_NUMBER {
            parse_deprecated_header(rest)
        } else {
            None
        },
        None => None,
    }
}

/// Whether bytes begin with a number that is not that of an encode table.
pub open spec fn is_something_else(bytes: Seq<u8>) -> bool {
    parse_i32(bytes) matches Some((magic, _)) && !is_encode_magic(magic)
}

/// A header that is written is read back, whatever comes after it.
pub proof fn law_encode_headers_read_back(h: EncodeHeaderV, rest: Seq<u8>)
    requires
        is_writable_name(h.arc_type),
    ensures
        parse_encode_header(encode_header_bytes(h) + rest) == Some((h, rest)),
{
    let s = spec_u64_to_le_bytes(h.size) + rest;
    let f = seq![h.flags] + s;
    let a = name_bytes(h.arc_type) + f;
    assert(encode_header_bytes(h) + rest =~= i32_bytes(ENCODE_MAGIC_NUMBER) + a);
    law_values_read_back(a);
    law_names_read_back(h.arc_type, f);
    law_values_read_back(s);
    law_values_read_back(rest);
}

impl EncodeTableHeader {
    /// Reads what follows the magic number of a header.
    fn read_current(reader: &mut ByteReader<'_>) -> (result: Result<Self, OpenFstError>)
        requires
            old(reader).wf(),
        ensures
            final(reader).wf(),
            match parse_current_header(old(reader).rest()) {
                Some((h, rest)) => {
                    &&& result matches Ok(header) && header@ == h
                    &&& final(reader).rest() == rest
                },
                None => result matches Err(e) && e is Io,
            },
    {
        let arc_type = match reader.read_name() {
            Ok(name) => name,
            Err(e) => {
                return Err(e);
            },
        };
        let flags: u8 = match reader.read_u8() {
            Ok(x) => x,
            Err(e) => {
                return Err(e);
            },
        };
        match reader.read_u64() {
            Ok(size) => Ok(EncodeTableHeader { arc_type, flags, size }),
            Err(e) => Err(e),
        }
    }

    /// Reads what follows the magic number of a header in the format there was before.
    fn read_deprecated(reader: &mut ByteReader<'_>) -> (result: Result<Self, OpenFstError>)
        requires
            old(reader).wf(),
        ensures
            final(reader).wf(),
            match parse_deprecated_header(old(reader).rest()) {
                Some((h, rest)) => {
                    &&& result matches Ok(header) && header@ == h
                    &&& final(reader).rest() == rest
                },
                None => result matches Err(e) && e is Io,
            },
    {
        let flags: u32 = match reader.read_u32() {
            Ok(x) => x,
            Err(e) => {
                return Err(e);
            },
        };
        match reader.read_i64() {
            Ok(size) => {
                let arc_type = String::new();
                #[verifier::truncate]
                let flags: u8 = flags as u8;
                #[verifier::truncate]
                let size: u64 = size as u64;
                Ok(EncodeTableHeader { arc_type, flags, size })
            },
            Err(e) => Err(e),
        }
    }

    /// Reads a header, accepting both the current and the deprecated format.
    pub fn read(reader: &mut ByteReader<'_>) -> (result: Result<Self, OpenFstError>)
        requires
            old(reader).wf(),
        ensures
            final(reader).wf(),
            match parse_encode_header(old(reader).rest()) {
                Some((h, rest)) => {
                    &&& result matches Ok(header) && header@ == h
                    &&& final(reader).rest() == rest
                },
                None => result is Err,
            },
            result matches Err(e) ==> e is InvalidFstHeader || e is Io,
            result matches Err(e) ==> (e is InvalidFstHeader <==> is_something_else(
                old(reader).rest(),
            )),
    {
        let magic: i32 = match reader.read_i32() {
            Ok(x) => x,
            Err(e) => {
                return Err(e);
            },
        };
        if magic == ENCODE_MAGIC_NUMBER {
            Self::read_current(reader)
        } else if magic == ENCODE_DEPRECATED_MAGIC_NUMBER {
            Self::read_deprecated(reader)
        } else {
            Err(OpenFstError::InvalidFstHeader("EncodeTableHeader::read: bad magic number"))
        }
    }

    /// Writes a header in the current format.
    pub fn write(&self, writer: &mut Vec<u8>) -> (result: Result<(), OpenFstError>)
        ensures
            result is Ok <==> is_writable_name(self@.arc_type),
            result is Ok ==> final(writer)@ == old(writer)@ + encode_header_bytes(self@),
            result matches Err(e) ==> e is Io,
    {
        let ghost before = writer@;
        write_i32(writer, ENCODE_MAGIC_NUMBER);
        match write_name(writer, self.arc_type.as_str()) {
            Ok(()) => {},
            Err(e) => {
                return Err(e);
            },
        }
        writer.push(self.flags);
        write_u64(writer, self.size);
        assert(writer@ =~= before + encode_header_bytes(self@));
        Ok(())
    }
}

/// What of a table is kept in bytes.
#[verifier::ext_equal]
pub struct StoredTable<W> {
    /// The encode flags, with the symbol-table bits.
    pub flags: u8,
    /// What each label stands for, the labels counting from one.
    pub triples: Seq<Triple<W>>,
    /// The names of the labels read.
    pub isymbols: Option<SymbolsV>,
    /// The names of the labels written.
    pub osymbols: Option<SymbolsV>,
}

/// The names that a table of them gives, if there is one.
pub open spec fn seen(symbols: Option<Rc<SymbolTable>>) -> Option<SymbolsV> {
    match symbols {
        Some(table) => Some(table@),
        None => None,
    }
}

/// What of a table is kept in bytes.
pub open spec fn stored<W>(v: EncodeTableV<W>) -> StoredTable<W> {
    StoredTable {
        flags: v.flags,
        triples: v.triples,
        isymbols: seen(v.isymbols),
        osymbols: seen(v.osymbols),
    }
}

/// The bytes of a triple.
pub open spec fn triple_bytes<W: Weight + AddOn>(triple: Triple<W>) -> Seq<u8> {
    i32_bytes(triple.ilabel) + (i32_bytes(triple.olabel) + triple.weight.written())
}

/// The bytes of the triples from the one at `from` on.
pub open spec fn triples_bytes<W: Weight + AddOn>(triples: Seq<Triple<W>>, from: int) -> Seq<u8>
    decreases triples.len() - from,
{
    if from < 0 || from >= triples.len() {
        Seq::empty()
    } else {
        triple_bytes(triples[from]) + triples_bytes(triples, from + 1)
    }
}

/// The bytes of the names, where the bit of the flags says that they are there.
pub open spec fn names_bytes(told: bool, symbols: Option<SymbolsV>) -> Seq<u8> {
    match symbols {
        Some(v) if told => symbols_bytes(v),
        _ => Seq::empty(),
    }
}

/// Whether the names can be written, where the bit of the flags says that they are there.
pub open spec fn are_writable_names(told: bool, symbols: Option<SymbolsV>) -> bool {
    told ==> (symbols matches Some(v) ==> is_writable_table(v))
}

/// The header of a table.
pub open spec fn header_of<W>(t: StoredTable<W>, arc_type: Seq<char>) -> EncodeHeaderV {
    EncodeHeaderV { arc_type, flags: t.flags, size: t.triples.len() as u64 }
}

/// Whether the flags tell of names for the labels read.
pub open spec fn tells_isymbols(flags: u8) -> bool {
    flags & ENCODE_HAS_ISYMBOLS != 0
}

/// Whether the flags tell of names for the labels written.
pub open spec fn tells_osymbols(flags: u8) -> bool {
    flags & ENCODE_HAS_OSYMBOLS != 0
}

/// The bytes of a table.
pub open spec fn table_bytes<W: Weight + AddOn>(t: StoredTable<W>, arc_type: Seq<char>) -> Seq<u8> {
    encode_header_bytes(header_of(t, arc_type)) + (triples_bytes(t.triples, 0) + (names_bytes(
        tells_isymbols(t.flags),
        t.isymbols,
    ) + names_bytes(tells_osymbols(t.flags), t.osymbols)))
}

/// Whether a table can be written.
pub open spec fn can_be_written<W: Weight + AddOn>(t: StoredTable<W>, arc_type: Seq<char>) -> bool {
    &&& is_writable_name(arc_type)
    &&& forall|i: int| 0 <= i < t.triples.len() ==> (#[trigger] t.triples[i]).weight.is_writable()
    &&& are_writable_names(tells_isymbols(t.flags), t.isymbols)
    &&& are_writable_names(tells_osymbols(t.flags), t.osymbols)
}

/// The next `n` triples, those of `triples` having labels already.
pub open spec fn parse_triples<W: Weight + AddOn>(
    bytes: Seq<u8>,
    n: int,
    triples: Seq<Triple<W>>,
) -> Parsed<Seq<Triple<W>>>
    decreases n,
{
    if n <= 0 {
        Some((triples, bytes))
    } else {
        match parse_triple::<W>(bytes) {
            Some((triple, rest)) => parse_triples(rest, n - 1, with_triple(triples, triple)),
            None => None,
        }
    }
}

/// A triple at the front of some bytes.
pub open spec fn parse_triple<W: Weight + AddOn>(bytes: Seq<u8>) -> Parsed<Triple<W>> {
    match parse_i32(bytes) {
        Some((ilabel, rest)) => match parse_i32(rest) {
            Some((olabel, rest)) => match W::parsed(rest) {
                Some((weight, rest)) => Some((Triple { ilabel, olabel, weight }, rest)),
                None => None,
            },
            None => None,
        },
        None => None,
    }
}

/// The names, where they are said to be there.
pub open spec fn parse_names(told: bool, bytes: Seq<u8>) -> Parsed<Option<SymbolsV>> {
    if told {
        match parse_symbols(bytes) {
            Some((v, rest)) => Some((Some(v), rest)),
            None => None,
        }
    } else {
        Some((None, bytes))
    }
}

/// What follows the triples of a table.
pub open spec fn parse_both_names<W>(flags: u8, triples: Seq<Triple<W>>, bytes: Seq<u8>) -> Parsed<
    StoredTable<W>,
> {
    match parse_names(tells_isymbols(flags), bytes) {
        Some((isymbols, rest)) => match parse_names(tells_osymbols(flags), rest) {
            Some((osymbols, rest)) => Some(
                (StoredTable { flags, triples, isymbols, osymbols }, rest),
            ),
            None => None,
        },
        None => None,
    }
}

/// A table at the front of some bytes.
pub open spec fn parse_table<W: Weight + AddOn>(bytes: Seq<u8>) -> Parsed<StoredTable<W>> {
    match parse_encode_header(bytes) {
        Some((h, rest)) => match parse_triples::<W>(rest, h.size as int, Seq::empty()) {
            Some((triples, rest)) => parse_both_names(h.flags, triples, rest),
            None => None,
        },
        None => None,
    }
}

/// Reads a triple.
fn read_triple<W: Weight + AddOn>(reader: &mut ByteReader<'_>) -> (result: Result<
    Triple<W>,
    OpenFstError,
>)
    requires
        old(reader).wf(),
    ensures
        final(reader).wf(),
        match parse_triple::<W>(old(reader).rest()) {
            Some((triple, rest)) => {
                &&& result == Ok::<Triple<W>, OpenFstError>(triple)
                &&& final(reader).rest() == rest
            },
            None => result is Err,
        },
{
    let ilabel: i32 = match reader.read_i32() {
        Ok(x) => x,
        Err(e) => {
            return Err(e);
        },
    };
    let olabel: i32 = match reader.read_i32() {
        Ok(x) => x,
        Err(e) => {
            return Err(e);
        },
    };
    match W::read(reader) {
        Ok(weight) => Ok(Triple { ilabel, olabel, weight }),
        Err(e) => Err(e),
    }
}

/// Reads the names, where they are said to be there.
fn read_names(told: bool, reader: &mut ByteReader<'_>) -> (result: Result<
    Option<SymbolTable>,
    OpenFstError,
>)
    requires
        old(reader).wf(),
    ensures
        final(reader).wf(),
        match parse_names(told, old(reader).rest()) {
            Some((names, rest)) => {
                &&& result matches Ok(read) && match (names, read) {
                    (Some(v), Some(table)) => table@ == v,
                    (None, None) => true,
                    _ => false,
                }
                &&& final(reader).rest() == rest
            },
            None => result is Err,
        },
{
    if told {
        match SymbolTable::read(reader) {
            Ok(table) => Ok(Some(table)),
            Err(e) => Err(e),
        }
    } else {
        Ok(None)
    }
}

/// Writes the names, where the bit of the flags says that they are there.
fn write_names(told: bool, symbols: Option<Rc<SymbolTable>>, writer: &mut Vec<u8>) -> (result:
    Result<(), OpenFstError>)
    ensures
        result is Ok <==> are_writable_names(told, seen(symbols)),
        result is Ok ==> final(writer)@ == old(writer)@ + names_bytes(told, seen(symbols)),
{
    match symbols {
        Some(table) => {
            if told {
                return table.write(writer);
            }
        },
        None => {},
    }
    assert(writer@ =~= writer@ + names_bytes(told, seen(symbols)));
    Ok(())
}

impl<W: Weight + AddOn> EncodeTable<W> {
    /// Reads a table, whichever of the two formats its header is in. A count larger than
    /// the triples that follow fails on the first that is missing.
    pub fn read(reader: &mut ByteReader<'_>) -> (result: Result<Self, OpenFstError>)
        requires
            old(reader).wf(),
        ensures
            final(reader).wf(),
            match parse_table::<W>(old(reader).rest()) {
                Some((t, rest)) => {
                    &&& result matches Ok(table) && table.wf() && stored(table@) == t
                    &&& final(reader).rest() == rest
                },
                None => result is Err,
            },
            is_something_else(old(reader).rest()) ==> (result matches Err(e)
                && e is InvalidFstHeader),
    {
        let header = match EncodeTableHeader::read(reader) {
            Ok(header) => header,
            Err(e) => {
                return Err(e);
            },
        };
        let flags: u8 = header.flags;
        let mut table = Self::new(flags);
        let mut left: u64 = header.size;
        let ghost wanted = parse_triples::<W>(reader.rest(), header.size as int, Seq::empty());
        while left > 0
            invariant
                reader.wf(),
                table.wf(),
                table@.flags == flags,
                table@.isymbols is None,
                table@.osymbols is None,
                wanted == parse_triples::<W>(reader.rest(), left as int, table@.triples),
                !is_something_else(old(reader).rest()),
                parse_table::<W>(old(reader).rest()) == (match wanted {
                    Some((triples, rest)) => parse_both_names(flags, triples, rest),
                    None => None::<(StoredTable<W>, Seq<u8>)>,
                }),
            decreases left,
        {
            let triple: Triple<W> = match read_triple(reader) {
                Ok(triple) => triple,
                Err(e) => {
                    return Err(e);
                },
            };
            table.encode_triple(triple);
            left = left - 1;
        }
        match read_names(flags & ENCODE_HAS_ISYMBOLS != 0, reader) {
            Ok(Some(symbols)) => {
                table.set_input_symbols(Some(Rc::new(symbols)));
                assert(flags | ENCODE_HAS_ISYMBOLS == flags) by (bit_vector)
                    requires
                        flags & ENCODE_HAS_ISYMBOLS != 0,
                ;
            },
            Ok(None) => {},
            Err(e) => {
                return Err(e);
            },
        }
        match read_names(flags & ENCODE_HAS_OSYMBOLS != 0, reader) {
            Ok(Some(symbols)) => {
                table.set_output_symbols(Some(Rc::new(symbols)));
                assert(flags | ENCODE_HAS_OSYMBOLS == flags) by (bit_vector)
                    requires
                        flags & ENCODE_HAS_OSYMBOLS != 0,
                ;
            },
            Ok(None) => {},
            Err(e) => {
                return Err(e);
            },
        }
        Ok(table)
    }

    /// Writes the triples from the first on.
    fn write_triples(&self, writer: &mut Vec<u8>) -> (result: Result<(), OpenFstError>)
        requires
            self.wf(),
        ensures
            result is Ok <==> forall|i: int|
                0 <= i < self@.triples.len() ==> (#[trigger] self@.triples[i]).weight.is_writable(),
            result is Ok ==> final(writer)@ == old(writer)@ + triples_bytes(self@.triples, 0),
    {
        let ghost before = writer@;
        let ghost triples = self@.triples;
        let n: usize = self.len();
        let mut i: usize = 0;
        while i < n
            invariant
                i <= n == triples.len(),
                triples == self@.triples,
                writer@ + triples_bytes(triples, i as int) == before + triples_bytes(triples, 0),
                forall|j: int| 0 <= j < i ==> (#[trigger] triples[j]).weight.is_writable(),
            decreases n - i,
        {
            let ghost so_far = writer@;
            let triple = self.triple_at(i);
            write_i32(writer, triple.ilabel);
            write_i32(writer, triple.olabel);
            match triple.weight.write(writer) {
                Ok(()) => {},
                Err(e) => {
                    assert(!self@.triples[i as int].weight.is_writable());
                    return Err(e);
                },
            }
            assert(writer@ + triples_bytes(triples, i + 1) =~= so_far + triples_bytes(
                triples,
                i as int,
            ));
            i = i + 1;
        }
        assert(writer@ =~= writer@ + triples_bytes(triples, i as int));
        Ok(())
    }

    /// Writes the table.
    pub fn write(&self, writer: &mut Vec<u8>, arc_type: &str) -> (result: Result<(), OpenFstError>)
        requires
            self.wf(),
        ensures
            result is Ok <==> can_be_written(stored(self@), arc_type@),
            result is Ok ==> final(writer)@ == old(writer)@ + table_bytes(
                stored(self@),
                arc_type@,
            ),
    {
        let ghost before = writer@;
        let ghost t = stored(self@);
        let flags: u8 = self.all_flags();
        let header = EncodeTableHeader {
            arc_type: arc_type.to_owned(),
            flags,
            size: self.len() as u64,
        };
        assert(header@ == header_of(t, arc_type@));
        match header.write(writer) {
            Ok(()) => {},
            Err(e) => {
                return Err(e);
            },
        }
        match self.write_triples(writer) {
            Ok(()) => {},
            Err(e) => {
                return Err(e);
            },
        }
        match write_names(flags & ENCODE_HAS_ISYMBOLS != 0, self.input_symbols(), writer) {
            Ok(()) => {},
            Err(e) => {
                return Err(e);
            },
        }
        match write_names(flags & ENCODE_HAS_OSYMBOLS != 0, self.output_symbols(), writer) {
            Ok(()) => {},
            Err(e) => {
                return Err(e);
            },
        }
        assert(writer@ =~= before + table_bytes(t, arc_type@));
        Ok(())
    }
}

/// The triples from the one at `from` on are read back.
proof fn lemma_triples_read_back<W: Weight + AddOn>(
    triples: Seq<Triple<W>>,
    from: int,
    rest: Seq<u8>,
)
    requires
        reads_back::<W>(),
        triples.no_duplicates(),
        0 <= from <= triples.len(),
        forall|i: int| 0 <= i < triples.len() ==> (#[trigger] triples[i]).weight.is_writable(),
    ensures
        parse_triples(
            triples_bytes(triples, from) + rest,
            triples.len() - from,
            triples.take(from),
        ) == Some((triples, rest)),
    decreases triples.len() - from,
{
    if from == triples.len() {
        assert(triples_bytes(triples, from) + rest =~= rest);
        assert(triples.take(from) =~= triples);
    } else {
        let t = triples[from];
        let after = triples_bytes(triples, from + 1) + rest;
        let w = t.weight.written() + after;
        let o = i32_bytes(t.olabel) + w;
        assert(triples_bytes(triples, from) + rest =~= i32_bytes(t.ilabel) + o);
        law_values_read_back(o);
        law_values_read_back(w);
        assert(W::parsed(t.weight.written() + after) == Some((t.weight, after)));
        assert(parse_triple::<W>(triples_bytes(triples, from) + rest) == Some((t, after)));
        assert(!triples.take(from).contains(t)) by {
            if triples.take(from).contains(t) {
                let j = choose|j: int| 0 <= j < from && triples.take(from)[j] == t;
                assert(triples[j] == triples[from]);
            }
        }
        assert(triples.take(from).push(t) =~= triples.take(from + 1));
        lemma_triples_read_back(triples, from + 1, rest);
    }
}

/// Names that are written are read back.
proof fn lemma_names_back(told: bool, symbols: Option<SymbolsV>, rest: Seq<u8>)
    requires
        told <==> symbols is Some,
        are_writable_names(told, symbols),
        symbols matches Some(v) ==> v.entries.no_duplicates(),
    ensures
        parse_names(told, names_bytes(told, symbols) + rest) == Some((symbols, rest)),
{
    match symbols {
        Some(v) => {
            law_symbols_read_back(v, rest);
        },
        None => {
            assert(names_bytes(told, symbols) + rest =~= rest);
        },
    }
}

/// A table that is written is read back, whatever comes after it: the labels stand for
/// what they stood for. That takes weights that are read back, flags that tell of the
/// symbol tables there are, and no symbol twice in one of those.
#[verifier::spinoff_prover]
#[verifier::rlimit(60)]
pub proof fn law_encode_tables_read_back<W: Weight + AddOn>(
    table: EncodeTable<W>,
    arc_type: Seq<char>,
    rest: Seq<u8>,
)
    requires
        table.wf(),
        reads_back::<W>(),
        table@.triples.len() <= u64::MAX,
        can_be_written(stored(table@), arc_type),
        tells_isymbols(table@.flags) <==> table@.isymbols is Some,
        tells_osymbols(table@.flags) <==> table@.osymbols is Some,
        table@.isymbols matches Some(s) ==> s.entries().no_duplicates(),
        table@.osymbols matches Some(s) ==> s.entries().no_duplicates(),
    ensures
        parse_table::<W>(table_bytes(stored(table@), arc_type) + rest) == Some(
            (stored(table@), rest),
        ),
{
    let t = stored(table@);
    table.lemma_distinct();
    let o = names_bytes(tells_osymbols(t.flags), t.osymbols) + rest;
    let i = names_bytes(tells_isymbols(t.flags), t.isymbols) + o;
    let triples = triples_bytes(t.triples, 0) + i;
    let h = header_of(t, arc_type);
    assert(table_bytes(t, arc_type) + rest =~= encode_header_bytes(h) + triples);
    law_encode_headers_read_back(h, triples);
    assert(t.triples.take(0) =~= Seq::empty());
    lemma_triples_read_back(t.triples, 0, i);
    lemma_names_back(tells_isymbols(t.flags), t.isymbols, o);
    lemma_names_back(tells_osymbols(t.flags), t.osymbols, rest);
}

/// Of a triple that ends before it should, nothing is read.
proof fn lemma_cut_triple<W: Weight + AddOn>(t: Triple<W>, k: int)
    requires
        refuses_cut_off::<W>(),
        t.weight.is_writable(),
        0 <= k < triple_bytes(t).len(),
    ensures
        parse_triple::<W>(triple_bytes(t).take(k)) is None,
{
    let o = i32_bytes(t.olabel) + t.weight.written();
    lemma_auto_spec_u32_to_from_le_bytes();
    assert(i32_bytes(t.ilabel).len() == 4 && i32_bytes(t.olabel).len() == 4);
    if k >= 4 {
        law_values_read_back(o.take(k - 4));
        assert(triple_bytes(t).take(k) =~= i32_bytes(t.ilabel) + o.take(k - 4));
        if k >= 8 {
            let w = t.weight.written().take(k - 8);
            law_values_read_back(w);
            assert(o.take(k - 4) =~= i32_bytes(t.olabel) + w);
        }
    }
}

/// Of triples that end before as many have been read as there should be, nothing is read.
proof fn lemma_missing_triples<W: Weight + AddOn>(
    triples: Seq<Triple<W>>,
    from: int,
    k: int,
    n: int,
    before: Seq<Triple<W>>,
)
    requires
        reads_back::<W>(),
        refuses_cut_off::<W>(),
        0 <= from <= triples.len(),
        forall|i: int| 0 <= i < triples.len() ==> (#[trigger] triples[i]).weight.is_writable(),
        0 <= k <= triples_bytes(triples, from).len(),
        n >= triples.len() - from,
        k < triples_bytes(triples, from).len() || n > triples.len() - from,
    ensures
        parse_triples::<W>(triples_bytes(triples, from).take(k), n, before) is None,
    decreases triples.len() - from,
{
    let bytes = triples_bytes(triples, from).take(k);
    if from < triples.len() {
        let t = triples[from];
        let more = triples_bytes(triples, from + 1);
        let here = triple_bytes(t);
        if k < here.len() {
            lemma_cut_triple(t, k);
            assert(bytes =~= here.take(k));
        } else {
            let after = more.take(k - here.len());
            let w = t.weight.written() + after;
            let o = i32_bytes(t.olabel) + w;
            assert(bytes =~= i32_bytes(t.ilabel) + o);
            law_values_read_back(o);
            law_values_read_back(w);
            assert(W::parsed(t.weight.written() + after) == Some((t.weight, after)));
            assert(parse_triple::<W>(bytes) == Some((t, after)));
            lemma_missing_triples(
                triples,
                from + 1,
                k - here.len(),
                n - 1,
                with_triple(before, t),
            );
        }
    }
}

/// Bytes that end before as many triples have been read as the header says are refused:
/// where they are cut off inside the triples, and where the size in the header is larger
/// than the number of triples, nothing following them. That takes weights that are read
/// back and of which nothing is read where their bytes are cut off.
pub proof fn law_missing_triples_are_refused<W: Weight + AddOn>(
    h: EncodeHeaderV,
    triples: Seq<Triple<W>>,
    k: int,
)
    requires
        reads_back::<W>(),
        refuses_cut_off::<W>(),
        is_writable_name(h.arc_type),
        forall|i: int| 0 <= i < triples.len() ==> (#[trigger] triples[i]).weight.is_writable(),
        0 <= k <= triples_bytes(triples, 0).len(),
        h.size >= triples.len(),
        k < triples_bytes(triples, 0).len() || h.size > triples.len(),
    ensures
        parse_table::<W>(encode_header_bytes(h) + triples_bytes(triples, 0).take(k)) is None,
{
    law_encode_headers_read_back(h, triples_bytes(triples, 0).take(k));
    lemma_missing_triples(triples, 0, k, h.size as int, Seq::empty());
}

/// The bytes of a table, cut off inside the triples, are refused.
pub proof fn law_cut_off_tables_are_refused<W: Weight + AddOn>(
    t: StoredTable<W>,
    arc_type: Seq<char>,
    k: int,
)
    requires
        reads_back::<W>(),
        refuses_cut_off::<W>(),
        t.triples.len() <= u64::MAX,
        can_be_written(t, arc_type),
        ({
            let header = encode_header_bytes(header_of(t, arc_type)).len();
            header <= k < header + triples_bytes(t.triples, 0).len()
        }),
    ensures
        parse_table::<W>(table_bytes(t, arc_type).take(k)) is None,
{
    let header = encode_header_bytes(header_of(t, arc_type));
    let left = k - header.len();
    assert(table_bytes(t, arc_type).take(k) =~= header + triples_bytes(t.triples, 0).take(left));
    law_missing_triples_are_refused(header_of(t, arc_type), t.triples, left);
}

} // verus!
