//! Attaching an arbitrary object that can be written to a machine.
//!
//! Some machines carry precomputed data alongside the states and arcs, such as the
//! tables a look-ahead matcher needs, and that data has to survive a round trip through
//! a file. An add-on is that data, plus how to read and write it.
use crate::error::OpenFstError;
use crate::wire::{
    bool_bytes, i32_bytes, i64_bytes, is_writable_name, law_names_read_back, law_values_read_back,
    name_bytes, parse_bool, parse_i32, parse_i64, parse_name, parse_u64, write_bool, write_i32,
    write_i64, write_name, write_u64, ByteReader, Bytes, Chars, Parsed,
};
use std::rc::Rc;
use vstd::bytes::spec_u64_to_le_bytes;
use vstd::prelude::*;

verus! {

/// Identifies bytes as belonging to a machine with an add-on.
pub const ADD_ON_MAGIC_NUMBER: i32 = 446_681_434;

/// Data that can travel with a machine through a file.
pub trait AddOn: Sized {
    /// Whether the object can be written.
    spec fn is_writable(&self) -> bool;

    /// The bytes of the object.
    spec fn written(&self) -> Bytes;

    /// The object at the front of some bytes.
    spec fn parsed(bytes: Bytes) -> Parsed<Self>;

    /// Reads the object, whatever precedes it having been read.
    fn read(reader: &mut ByteReader<'_>) -> (result: Result<Self, OpenFstError>)
        requires
            old(reader).wf(),
        ensures
            final(reader).wf(),
            match Self::parsed(old(reader).rest()) {
                Some((value, rest)) => {
                    &&& result == Ok::<Self, OpenFstError>(value)
                    &&& final(reader).rest() == rest
                },
                None => result is Err,
            },
    ;

    /// Writes the object.
    fn write(&self, writer: &mut Vec<u8>) -> (result: Result<(), OpenFstError>)
        ensures
            result is Ok <==> self.is_writable(),
            result is Ok ==> final(writer)@ == old(writer)@ + self.written(),
    ;
}

/// Whether what is written of such objects is read back, whatever comes after it.
pub open spec fn reads_back<T: AddOn>() -> bool {
    forall|value: T, rest: Seq<u8>|
        value.is_writable() ==> #[trigger] T::parsed(value.written() + rest) == Some((value, rest))
}

/// Whether nothing is read of such an object from bytes that end before it does.
pub open spec fn refuses_cut_off<T: AddOn>() -> bool {
    forall|value: T, k: int|
        value.is_writable() && 0 <= k < value.written().len() ==> (#[trigger] T::parsed(
            value.written().take(k),
        )) is None
}

/// An add-on with nothing to save.
#[derive(Debug, Clone, Copy, Default, PartialEq, Eq)]
pub struct NullAddOn;

impl AddOn for NullAddOn {
    open spec fn is_writable(&self) -> bool {
        true
    }

    open spec fn written(&self) -> Bytes {
        Seq::empty()
    }

    open spec fn parsed(bytes: Bytes) -> Parsed<Self> {
        Some((NullAddOn, bytes))
    }

    fn read(_reader: &mut ByteReader<'_>) -> (result: Result<Self, OpenFstError>) {
        Ok(NullAddOn)
    }

    fn write(&self, writer: &mut Vec<u8>) -> (result: Result<(), OpenFstError>) {
        assert(writer@ =~= writer@ + self.written());
        Ok(())
    }
}

/// Nothing is written of an add-on with nothing to save, and it is read back from
/// nothing.
pub proof fn law_null_reads_back()
    ensures
        reads_back::<NullAddOn>(),
{
    assert forall|value: NullAddOn, rest: Seq<u8>| value.is_writable() implies #[trigger] NullAddOn::parsed(
        value.written() + rest,
    ) == Some((value, rest)) by {
        assert(value.written() + rest =~= rest);
    }
}

/// The bytes of an object that may be absent: whether it follows, and then the object.
pub open spec fn maybe_written<T: AddOn>(value: Option<Rc<T>>) -> Seq<u8> {
    match value {
        Some(value) => bool_bytes(true) + value.written(),
        None => bool_bytes(false),
    }
}

/// Whether an object that may be absent can be written.
pub open spec fn is_maybe_writable<T: AddOn>(value: Option<Rc<T>>) -> bool {
    value matches Some(value) ==> value.is_writable()
}

/// An object that may be absent, at the front of some bytes.
pub open spec fn maybe_parsed<T: AddOn>(bytes: Seq<u8>) -> Parsed<Option<Rc<T>>> {
    match parse_bool(bytes) {
        Some((has, rest)) => if has {
            match T::parsed(rest) {
                Some((value, rest)) => Some((Some(Rc::new(value)), rest)),
                None => None,
            }
        } else {
            Some((None, rest))
        },
        None => None,
    }
}

/// What is written of an object that may be absent is read back.
proof fn lemma_maybe_reads_back<T: AddOn>(value: Option<Rc<T>>, rest: Seq<u8>)
    requires
        reads_back::<T>(),
        is_maybe_writable(value),
    ensures
        maybe_parsed::<T>(maybe_written(value) + rest) == Some((value, rest)),
{
    match value {
        Some(inner) => {
            let after = inner.written() + rest;
            assert(maybe_written(value) + rest =~= bool_bytes(true) + after);
            law_values_read_back(after);
            assert(T::parsed(inner.written() + rest) == Some((*inner, rest)));
        },
        None => {
            law_values_read_back(rest);
        },
    }
}

/// Reads an object that may be absent.
fn read_maybe<T: AddOn>(reader: &mut ByteReader<'_>) -> (result: Result<
    Option<Rc<T>>,
    OpenFstError,
>)
    requires
        old(reader).wf(),
    ensures
        final(reader).wf(),
        match maybe_parsed::<T>(old(reader).rest()) {
            Some((value, rest)) => {
                &&& result == Ok::<Option<Rc<T>>, OpenFstError>(value)
                &&& final(reader).rest() == rest
            },
            None => result is Err,
        },
{
    match reader.read_bool() {
        Ok(has) => {
            if has {
                match T::read(reader) {
                    Ok(value) => Ok(Some(Rc::new(value))),
                    Err(e) => Err(e),
                }
            } else {
                Ok(None)
            }
        },
        Err(e) => Err(e),
    }
}

/// Writes an object that may be absent.
fn write_maybe<T: AddOn>(value: &Option<Rc<T>>, writer: &mut Vec<u8>) -> (result: Result<
    (),
    OpenFstError,
>)
    ensures
        result is Ok <==> is_maybe_writable(*value),
        result is Ok ==> final(writer)@ == old(writer)@ + maybe_written(*value),
{
    let ghost before = writer@;
    match value {
        Some(value) => {
            write_bool(writer, true);
            match value.write(writer) {
                Ok(()) => {
                    assert(writer@ =~= before + (bool_bytes(true) + value.written()));
                    Ok(())
                },
                Err(e) => Err(e),
            }
        },
        None => {
            write_bool(writer, false);
            Ok(())
        },
    }
}

/// Another share of an object that may be absent.
fn share<T>(value: &Option<Rc<T>>) -> (shared: Option<Rc<T>>)
    ensures
        shared == *value,
{
    match value {
        Some(value) => Some(value.clone()),
        None => None,
    }
}

/// Two add-ons travelling together, either of which may be absent.
///
/// Each half is preceded by a truth value saying whether it follows, so an absent half
/// costs one byte.
#[derive(Debug, PartialEq, Eq)]
pub struct AddOnPair<A1, A2> {
    first: Option<Rc<A1>>,
    second: Option<Rc<A2>>,
}

impl<A1, A2> AddOnPair<A1, A2> {
    /// The two halves.
    pub closed spec fn halves(self) -> (Option<Rc<A1>>, Option<Rc<A2>>) {
        (self.first, self.second)
    }

    /// The pair of two halves.
    pub closed spec fn of(first: Option<Rc<A1>>, second: Option<Rc<A2>>) -> Self {
        AddOnPair { first, second }
    }

    /// A pair is its halves.
    pub proof fn lemma_halves(self, first: Option<Rc<A1>>, second: Option<Rc<A2>>)
        ensures
            Self::of(self.halves().0, self.halves().1) == self,
            Self::of(first, second).halves() == (first, second),
    {
    }

    /// Pairs two add-ons, either of which may be absent.
    pub fn new(first: Option<Rc<A1>>, second: Option<Rc<A2>>) -> (pair: Self)
        ensures
            pair == Self::of(first, second),
            pair.halves() == (first, second),
    {
        AddOnPair { first, second }
    }

    /// The first half, if present.
    pub fn first(&self) -> (first: Option<&A1>)
        ensures
            match first {
                Some(first) => self.halves().0 == Some(Rc::new(*first)),
                None => self.halves().0 is None,
            },
    {
        match &self.first {
            Some(first) => Some(&**first),
            None => None,
        }
    }

    /// The second half, if present.
    pub fn second(&self) -> (second: Option<&A2>)
        ensures
            match second {
                Some(second) => self.halves().1 == Some(Rc::new(*second)),
                None => self.halves().1 is None,
            },
    {
        match &self.second {
            Some(second) => Some(&**second),
            None => None,
        }
    }

    /// The first half, sharing ownership.
    pub fn shared_first(&self) -> (first: Option<Rc<A1>>)
        ensures
            first == self.halves().0,
    {
        share(&self.first)
    }

    /// The second half, sharing ownership.
    pub fn shared_second(&self) -> (second: Option<Rc<A2>>)
        ensures
            second == self.halves().1,
    {
        share(&self.second)
    }
}

impl<A1: AddOn, A2: AddOn> AddOn for AddOnPair<A1, A2> {
    open spec fn is_writable(&self) -> bool {
        is_maybe_writable(self.halves().0) && is_maybe_writable(self.halves().1)
    }

    open spec fn written(&self) -> Bytes {
        maybe_written(self.halves().0) + maybe_written(self.halves().1)
    }

    open spec fn parsed(bytes: Bytes) -> Parsed<Self> {
        match maybe_parsed::<A1>(bytes) {
            Some((first, rest)) => match maybe_parsed::<A2>(rest) {
                Some((second, rest)) => Some((AddOnPair::of(first, second), rest)),
                None => None,
            },
            None => None,
        }
    }

    fn read(reader: &mut ByteReader<'_>) -> (result: Result<Self, OpenFstError>) {
        let first = match read_maybe::<A1>(reader) {
            Ok(first) => first,
            Err(e) => {
                return Err(e);
            },
        };
        let second = match read_maybe::<A2>(reader) {
            Ok(second) => second,
            Err(e) => {
                return Err(e);
            },
        };
        Ok(AddOnPair::new(first, second))
    }

    fn write(&self, writer: &mut Vec<u8>) -> (result: Result<(), OpenFstError>) {
        let ghost before = writer@;
        match write_maybe(&self.first, writer) {
            Ok(()) => {},
            Err(e) => {
                return Err(e);
            },
        }
        match write_maybe(&self.second, writer) {
            Ok(()) => {},
            Err(e) => {
                return Err(e);
            },
        }
        assert(writer@ =~= before + self.written());
        Ok(())
    }
}

/// A pair that is written is read back, if its halves are. So pairs nest.
pub proof fn law_pairs_read_back<A1: AddOn, A2: AddOn>()
    requires
        reads_back::<A1>(),
        reads_back::<A2>(),
    ensures
        reads_back::<AddOnPair<A1, A2>>(),
{
    assert forall|value: AddOnPair<A1, A2>, rest: Seq<u8>|
        value.is_writable() implies #[trigger] AddOnPair::<A1, A2>::parsed(
        value.written() + rest,
    ) == Some((value, rest)) by {
        let (first, second) = value.halves();
        value.lemma_halves(first, second);
        assert(value.written() + rest =~= maybe_written(first) + (maybe_written(second) + rest));
        lemma_maybe_reads_back(first, maybe_written(second) + rest);
        lemma_maybe_reads_back(second, rest);
    }
}

/// Identifies bytes as a machine's header.
pub const FST_MAGIC_NUMBER: i32 = 2_125_659_606;

/// The version that is written.
pub const FILE_VERSION: i32 = 1;

/// The oldest version that is read.
pub const MIN_FILE_VERSION: i32 = 1;

/// What a file says of a machine before the machine itself.
#[derive(Debug)]
pub struct FstHeader {
    /// What kind of machine it is.
    pub fst_type: String,
    /// What kind of arcs it has.
    pub arc_type: String,
    /// The version of the format.
    pub version: i32,
    /// What else the file holds.
    pub flags: i32,
    /// What is known of the machine.
    pub properties: u64,
    /// Where paths begin, or less than nought.
    pub start: i64,
    /// How many states there are, or less than nought where that is not said.
    pub num_states: i64,
    /// How many arcs there are, or less than nought where that is not said.
    pub num_arcs: i64,
}

/// A header as mathematics sees it.
#[verifier::ext_equal]
pub struct HeaderV {
    /// What kind of machine it is.
    pub fst_type: Seq<char>,
    /// What kind of arcs it has.
    pub arc_type: Seq<char>,
    /// The version of the format.
    pub version: i32,
    /// What else the file holds.
    pub flags: i32,
    /// What is known of the machine.
    pub properties: u64,
    /// Where paths begin.
    pub start: i64,
    /// How many states there are.
    pub num_states: i64,
    /// How many arcs there are.
    pub num_arcs: i64,
}

impl View for FstHeader {
    type V = HeaderV;

    open spec fn view(&self) -> HeaderV {
        HeaderV {
            fst_type: self.fst_type@,
            arc_type: self.arc_type@,
            version: self.version,
            flags: self.flags,
            properties: self.properties,
            start: self.start,
            num_states: self.num_states,
            num_arcs: self.num_arcs,
        }
    }
}

/// The bytes of the numbers of a header.
pub open spec fn header_numbers(h: HeaderV) -> Seq<u8> {
    i32_bytes(h.version) + (i32_bytes(h.flags) + (spec_u64_to_le_bytes(h.properties) + (i64_bytes(
        h.start,
    ) + (i64_bytes(h.num_states) + i64_bytes(h.num_arcs)))))
}

/// The bytes of a header.
pub open spec fn header_bytes(h: HeaderV) -> Seq<u8> {
    i32_bytes(FST_MAGIC_NUMBER) + (name_bytes(h.fst_type) + (name_bytes(h.arc_type)
        + header_numbers(h)))
}

/// The numbers of a header, those of the names being known.
pub open spec fn parse_header_numbers(
    fst_type: Seq<char>,
    arc_type: Seq<char>,
    bytes: Seq<u8>,
) -> Parsed<HeaderV> {
    match parse_i32(bytes) {
        Some((version, rest)) => match parse_i32(rest) {
            Some((flags, rest)) => match parse_u64(rest) {
                Some((properties, rest)) => match parse_i64(rest) {
                    Some((start, rest)) => match parse_i64(rest) {
                        Some((num_states, rest)) => match parse_i64(rest) {
                            Some((num_arcs, rest)) => Some(
                                (
                                    HeaderV {
                                        fst_type,
                                        arc_type,
                                        version,
                                        flags,
                                        properties,
                                        start,
                                        num_states,
                                        num_arcs,
                                    },
                                    rest,
                                ),
                            ),
                            None => None,
                        },
                        None => None,
                    },
                    None => None,
                },
                None => None,
            },
            None => None,
        },
        None => None,
    }
}

/// A header at the front of some bytes.
pub open spec fn parse_header(bytes: Seq<u8>) -> Parsed<HeaderV> {
    match parse_i32(bytes) {
        Some((magic, rest)) => if magic != FST_MAGIC_NUMBER {
            None
        } else {
            match parse_name(rest) {
                Some((fst_type, rest)) => match parse_name(rest) {
                    Some((arc_type, rest)) => parse_header_numbers(fst_type, arc_type, rest),
                    None => None,
                },
                None => None,
            }
        },
        None => None,
    }
}

/// A header that is written is read back.
pub proof fn law_headers_read_back(h: HeaderV, rest: Seq<u8>)
    requires
        is_writable_name(h.fst_type),
        is_writable_name(h.arc_type),
    ensures
        parse_header(header_bytes(h) + rest) == Some((h, rest)),
{
    let r5 = i64_bytes(h.num_arcs) + rest;
    let r4 = i64_bytes(h.num_states) + r5;
    let r3 = i64_bytes(h.start) + r4;
    let r2 = spec_u64_to_le_bytes(h.properties) + r3;
    let r1 = i32_bytes(h.flags) + r2;
    let r0 = i32_bytes(h.version) + r1;
    let a = name_bytes(h.arc_type) + r0;
    let f = name_bytes(h.fst_type) + a;
    assert(header_bytes(h) + rest =~= i32_bytes(FST_MAGIC_NUMBER) + f);
    law_values_read_back(f);
    law_names_read_back(h.fst_type, a);
    law_names_read_back(h.arc_type, r0);
    law_values_read_back(r1);
    law_values_read_back(r2);
    law_values_read_back(r3);
    law_values_read_back(r4);
    law_values_read_back(r5);
    law_values_read_back(rest);
}

impl FstHeader {
    /// Reads the numbers of a header, the names of which are known.
    fn read_numbers(fst_type: String, arc_type: String, reader: &mut ByteReader<'_>) -> (result:
        Result<Self, OpenFstError>)
        requires
            old(reader).wf(),
        ensures
            final(reader).wf(),
            match parse_header_numbers(fst_type@, arc_type@, old(reader).rest()) {
                Some((h, rest)) => {
                    &&& result matches Ok(header) && header@ == h
                    &&& final(reader).rest() == rest
                },
                None => result matches Err(e) && e is Io,
            },
    {
        let version: i32 = match reader.read_i32() {
            Ok(x) => x,
            Err(e) => {
                return Err(e);
            },
        };
        let flags: i32 = match reader.read_i32() {
            Ok(x) => x,
            Err(e) => {
                return Err(e);
            },
        };
        let properties: u64 = match reader.read_u64() {
            Ok(x) => x,
            Err(e) => {
                return Err(e);
            },
        };
        let start: i64 = match reader.read_i64() {
            Ok(x) => x,
            Err(e) => {
                return Err(e);
            },
        };
        let num_states: i64 = match reader.read_i64() {
            Ok(x) => x,
            Err(e) => {
                return Err(e);
            },
        };
        match reader.read_i64() {
            Ok(num_arcs) => Ok(
                FstHeader {
                    fst_type,
                    arc_type,
                    version,
                    flags,
                    properties,
                    start,
                    num_states,
                    num_arcs,
                },
            ),
            Err(e) => Err(e),
        }
    }

    /// Reads a header.
    pub fn read(reader: &mut ByteReader<'_>) -> (result: Result<Self, OpenFstError>)
        requires
            old(reader).wf(),
        ensures
            final(reader).wf(),
            match parse_header(old(reader).rest()) {
                Some((h, rest)) => {
                    &&& result matches Ok(header) && header@ == h
                    &&& final(reader).rest() == rest
                },
                None => result is Err,
            },
            result matches Err(e) ==> (e is InvalidFstHeader <==> (parse_i32(old(reader).rest()) matches Some((magic, _)) && magic
                != FST_MAGIC_NUMBER)) && (e is InvalidFstHeader
                || e is Io),
    {
        let magic: i32 = match reader.read_i32() {
            Ok(x) => x,
            Err(e) => {
                return Err(e);
            },
        };
        if magic != FST_MAGIC_NUMBER {
            return Err(OpenFstError::InvalidFstHeader("not the header of a machine"));
        }
        let fst_type = match reader.read_name() {
            Ok(name) => name,
            Err(e) => {
                return Err(e);
            },
        };
        let arc_type = match reader.read_name() {
            Ok(name) => name,
            Err(e) => {
                return Err(e);
            },
        };
        Self::read_numbers(fst_type, arc_type, reader)
    }

    /// Writes a header.
    pub fn write(&self, writer: &mut Vec<u8>) -> (result: Result<(), OpenFstError>)
        ensures
            result is Ok <==> is_writable_name(self@.fst_type) && is_writable_name(self@.arc_type),
            result is Ok ==> final(writer)@ == old(writer)@ + header_bytes(self@),
            result matches Err(e) ==> e is Io,
    {
        let ghost before = writer@;
        write_i32(writer, FST_MAGIC_NUMBER);
        match write_name(writer, self.fst_type.as_str()) {
            Ok(()) => {},
            Err(e) => {
                return Err(e);
            },
        }
        match write_name(writer, self.arc_type.as_str()) {
            Ok(()) => {},
            Err(e) => {
                return Err(e);
            },
        }
        write_i32(writer, self.version);
        write_i32(writer, self.flags);
        write_u64(writer, self.properties);
        write_i64(writer, self.start);
        write_i64(writer, self.num_states);
        write_i64(writer, self.num_arcs);
        assert(writer@ =~= before + header_bytes(self@));
        Ok(())
    }
}

/// A machine that can be kept in a file with an add-on: it says of itself what a header
/// says of it.
pub trait HeldFst: AddOn {
    /// What kind of arcs it has.
    spec fn arc_kind() -> Chars;

    /// Where paths begin.
    spec fn begins(&self) -> Option<usize>;

    /// How many states there are.
    spec fn states(&self) -> usize;

    /// Which properties are known of the machine.
    spec fn known(&self) -> u64;

    /// What kind of arcs it has.
    fn arc_type() -> (name: String)
        ensures
            name@ == Self::arc_kind(),
    ;

    /// Where paths begin.
    fn start(&self) -> (start: Option<usize>)
        ensures
            start == self.begins(),
    ;

    /// How many states there are.
    fn num_states(&self) -> (n: usize)
        ensures
            n == self.states(),
    ;

    /// Which properties are known of the machine.
    fn known_properties(&self) -> (props: u64)
        ensures
            props == self.known(),
    ;
}

/// A machine with an add-on attached, and the file format that keeps the two together.
///
/// The bytes are: this machine's own header, the add-on magic number, the contained
/// machine *with its own header*, and then the add-on itself behind a truth value saying
/// whether it is there.
pub struct AddOnImpl<F, T> {
    fst: F,
    fst_type: String,
    add_on: Option<Rc<T>>,
}

/// The header of a machine with an add-on: it goes by `fst_type`, and what is said of the
/// machine is what the contained one says.
pub open spec fn outer_header<F: HeldFst>(fst_type: Seq<char>, fst: F) -> HeaderV {
    HeaderV {
        fst_type,
        arc_type: F::arc_kind(),
        version: FILE_VERSION,
        flags: 0,
        properties: fst.known(),
        start: match fst.begins() {
            Some(s) => s as i64,
            None => -1i64 as i64,
        },
        num_states: fst.states() as i64,
        num_arcs: -1i64 as i64,
    }
}

/// The bytes of a machine with an add-on.
pub open spec fn attached_bytes<F: HeldFst, T: AddOn>(
    fst_type: Seq<char>,
    fst: F,
    add_on: Option<Rc<T>>,
) -> Seq<u8> {
    header_bytes(outer_header(fst_type, fst)) + (i32_bytes(ADD_ON_MAGIC_NUMBER) + (fst.written() + maybe_written(add_on)))
}

/// Whether a header is that of such a machine.
pub open spec fn is_expected(h: HeaderV, fst_type: Seq<char>, arc_type: Seq<char>) -> bool {
    h.fst_type == fst_type && h.arc_type == arc_type && h.version >= MIN_FILE_VERSION
}

/// Whether bytes have a header, but that of something else, or a header that no add-on
/// follows.
pub open spec fn is_refused(bytes: Seq<u8>, fst_type: Seq<char>, arc_type: Seq<char>) -> bool {
    match parse_header(bytes) {
        Some((h, rest)) => !is_expected(h, fst_type, arc_type) || match parse_i32(rest) {
            Some((magic, _)) => magic != ADD_ON_MAGIC_NUMBER,
            None => false,
        },
        None => false,
    }
}

/// A machine with an add-on at the front of some bytes: the machine and the add-on.
pub open spec fn parse_attached<F: HeldFst, T: AddOn>(
    fst_type: Seq<char>,
    bytes: Seq<u8>,
) -> Parsed<(F, Option<Rc<T>>)> {
    match parse_header(bytes) {
        Some((h, rest)) => if !is_expected(h, fst_type, F::arc_kind()) {
            None
        } else {
            match parse_i32(rest) {
                Some((magic, rest)) => if magic != ADD_ON_MAGIC_NUMBER {
                    None
                } else {
                    match F::parsed(rest) {
                        Some((fst, rest)) => match maybe_parsed::<T>(rest) {
                            Some((add_on, rest)) => Some(((fst, add_on), rest)),
                            None => None,
                        },
                        None => None,
                    }
                },
                None => None,
            }
        },
        None => None,
    }
}

impl<F: HeldFst, T: AddOn> AddOnImpl<F, T> {
    /// The machine underneath.
    pub closed spec fn machine(&self) -> F {
        self.fst
    }

    /// The name this machine goes by in a header.
    pub closed spec fn kind(&self) -> Seq<char> {
        self.fst_type@
    }

    /// What is attached.
    pub closed spec fn attached(&self) -> Option<Rc<T>> {
        self.add_on
    }

    /// Attaches `add_on` to `fst`, which will go by `fst_type` in a header.
    pub fn new(fst: F, fst_type: String, add_on: Option<Rc<T>>) -> (with: Self)
        ensures
            with.machine() == fst,
            with.kind() == fst_type@,
            with.attached() == add_on,
    {
        AddOnImpl { fst, fst_type, add_on }
    }

    /// The machine underneath.
    pub fn fst(&self) -> (fst: &F)
        ensures
            *fst == self.machine(),
    {
        &self.fst
    }

    /// The name this machine goes by in a header.
    pub fn fst_type(&self) -> (name: &str)
        ensures
            name@ == self.kind(),
    {
        self.fst_type.as_str()
    }

    /// What is attached, if anything.
    pub fn add_on(&self) -> (add_on: Option<&T>)
        ensures
            match add_on {
                Some(add_on) => self.attached() == Some(Rc::new(*add_on)),
                None => self.attached() is None,
            },
    {
        match &self.add_on {
            Some(add_on) => Some(&**add_on),
            None => None,
        }
    }

    /// What is attached, sharing ownership.
    pub fn shared_add_on(&self) -> (add_on: Option<Rc<T>>)
        ensures
            add_on == self.attached(),
    {
        share(&self.add_on)
    }

    /// Attaches something else.
    pub fn set_add_on(&mut self, add_on: Option<Rc<T>>)
        ensures
            final(self).machine() == old(self).machine(),
            final(self).kind() == old(self).kind(),
            final(self).attached() == add_on,
    {
        self.add_on = add_on;
    }

    /// Writes the header, the contained machine and the add-on.
    pub fn write(&self, writer: &mut Vec<u8>) -> (result: Result<(), OpenFstError>)
        ensures
            result is Ok <==> is_writable_name(self.kind()) && is_writable_name(F::arc_kind())
                && self.machine().is_writable() && is_maybe_writable(self.attached()),
            result is Ok ==> final(writer)@ == old(writer)@ + attached_bytes(
                self.kind(),
                self.machine(),
                self.attached(),
            ),
    {
        let ghost before = writer@;
        let header = FstHeader {
            fst_type: self.fst_type.clone(),
            arc_type: F::arc_type(),
            version: FILE_VERSION,
            flags: 0,
            properties: self.fst.known_properties(),
            start: match self.fst.start() {
                Some(s) => s as i64,
                None => -1,
            },
            num_states: self.fst.num_states() as i64,
            num_arcs: -1,
        };
        assert(header@ == outer_header(self.kind(), self.machine()));
        match header.write(writer) {
            Ok(()) => {},
            Err(e) => {
                return Err(e);
            },
        }
        write_i32(writer, ADD_ON_MAGIC_NUMBER);
        match self.fst.write(writer) {
            Ok(()) => {},
            Err(e) => {
                return Err(e);
            },
        }
        match write_maybe(&self.add_on, writer) {
            Ok(()) => {},
            Err(e) => {
                return Err(e);
            },
        }
        assert(writer@ =~= before + attached_bytes(
            self.kind(),
            self.machine(),
            self.attached(),
        ));
        Ok(())
    }

    /// Reads what [`write`](Self::write) wrote, refusing anything whose header does not
    /// name `fst_type` and the arcs of the contained machine.
    pub fn read(reader: &mut ByteReader<'_>, fst_type: String) -> (result: Result<
        Self,
        OpenFstError,
    >)
        requires
            old(reader).wf(),
        ensures
            final(reader).wf(),
            match parse_attached::<F, T>(fst_type@, old(reader).rest()) {
                Some(((fst, add_on), rest)) => {
                    &&& result matches Ok(with) && with.machine() == fst && with.attached()
                        == add_on && with.kind() == fst_type@
                    &&& final(reader).rest() == rest
                },
                None => result is Err,
            },
            is_refused(old(reader).rest(), fst_type@, F::arc_kind()) ==> (result matches Err(e)
                && e is InvalidFstHeader),
    {
        let header = match FstHeader::read(reader) {
            Ok(header) => header,
            Err(e) => {
                return Err(e);
            },
        };
        let arc_type = F::arc_type();
        if header.fst_type != fst_type || header.arc_type != arc_type || header.version
            < MIN_FILE_VERSION {
            return Err(
                OpenFstError::InvalidFstHeader("the header is that of another kind of machine"),
            );
        }
        let magic: i32 = match reader.read_i32() {
            Ok(magic) => magic,
            Err(e) => {
                return Err(e);
            },
        };
        if magic != ADD_ON_MAGIC_NUMBER {
            return Err(OpenFstError::InvalidFstHeader("bad add-on header"));
        }
        let fst = match F::read(reader) {
            Ok(fst) => fst,
            Err(e) => {
                return Err(e);
            },
        };
        match read_maybe::<T>(reader) {
            Ok(add_on) => Ok(Self::new(fst, fst_type, add_on)),
            Err(e) => Err(e),
        }
    }
}

/// A machine with an add-on that is written is read back, if the machine and the add-on
/// are.
pub proof fn law_attached_reads_back<F: HeldFst, T: AddOn>(
    fst_type: Seq<char>,
    fst: F,
    add_on: Option<Rc<T>>,
    rest: Seq<u8>,
)
    requires
        reads_back::<F>(),
        reads_back::<T>(),
        is_writable_name(fst_type),
        is_writable_name(F::arc_kind()),
        fst.is_writable(),
        is_maybe_writable(add_on),
    ensures
        parse_attached::<F, T>(fst_type, attached_bytes(fst_type, fst, add_on) + rest) == Some(
            ((fst, add_on), rest),
        ),
{
    let h = outer_header(fst_type, fst);
    let r2 = maybe_written(add_on) + rest;
    let r1 = fst.written() + r2;
    let r0 = i32_bytes(ADD_ON_MAGIC_NUMBER) + r1;
    assert(attached_bytes(fst_type, fst, add_on) + rest =~= header_bytes(h) + r0);
    law_headers_read_back(h, r0);
    law_values_read_back(r1);
    assert(F::parsed(fst.written() + r2) == Some((fst, r2)));
    lemma_maybe_reads_back(add_on, rest);
}

} // verus!
