//! Numbers and names as bytes.
//!
//! A number is its bytes, the lowest first. A name is the number of its bytes, and then
//! those.
use crate::error::OpenFstError;
use vstd::bytes::{
    lemma_auto_spec_u32_to_from_le_bytes, lemma_auto_spec_u64_to_from_le_bytes,
    spec_u32_from_le_bytes, spec_u32_to_le_bytes, spec_u64_from_le_bytes, spec_u64_to_le_bytes,
    u32_from_le_bytes, u32_to_le_bytes, u64_from_le_bytes, u64_to_le_bytes,
};
use vstd::prelude::*;
use vstd::utf8::{
    decode_utf8, encode_utf8, encode_utf8_decode_utf8, encode_utf8_valid_utf8, valid_utf8,
};

verus! {

/// Bytes, and how far they have been read.
pub struct ByteReader<'a> {
    bytes: &'a Vec<u8>,
    at: usize,
}

/// A text, one character after the other.
pub type Chars = Seq<char>;

/// Bytes as mathematics sees them.
pub type Bytes = Seq<u8>;

/// A value read off the front of some bytes, and the bytes after it.
pub type Parsed<T> = Option<(T, Seq<u8>)>;

/// The first `n` bytes.
pub open spec fn parse_bytes(bytes: Seq<u8>, n: int) -> Parsed<Seq<u8>> {
    if 0 <= n <= bytes.len() {
        Some((bytes.take(n), bytes.skip(n)))
    } else {
        None
    }
}

/// One byte.
pub open spec fn parse_u8(bytes: Seq<u8>) -> Parsed<u8> {
    match parse_bytes(bytes, 1) {
        Some((b, rest)) => Some((b[0], rest)),
        None => None,
    }
}

/// Whether a byte is not zero.
pub open spec fn parse_bool(bytes: Seq<u8>) -> Parsed<bool> {
    match parse_u8(bytes) {
        Some((b, rest)) => Some((b != 0, rest)),
        None => None,
    }
}

/// A number of four bytes.
pub open spec fn parse_u32(bytes: Seq<u8>) -> Parsed<u32> {
    match parse_bytes(bytes, 4) {
        Some((b, rest)) => Some((spec_u32_from_le_bytes(b), rest)),
        None => None,
    }
}

/// A signed number of four bytes.
pub open spec fn parse_i32(bytes: Seq<u8>) -> Parsed<i32> {
    match parse_u32(bytes) {
        Some((x, rest)) => Some((x as i32, rest)),
        None => None,
    }
}

/// A number of eight bytes.
pub open spec fn parse_u64(bytes: Seq<u8>) -> Parsed<u64> {
    match parse_bytes(bytes, 8) {
        Some((b, rest)) => Some((spec_u64_from_le_bytes(b), rest)),
        None => None,
    }
}

/// A signed number of eight bytes.
pub open spec fn parse_i64(bytes: Seq<u8>) -> Parsed<i64> {
    match parse_u64(bytes) {
        Some((x, rest)) => Some((x as i64, rest)),
        None => None,
    }
}

/// A name.
pub open spec fn parse_name(bytes: Seq<u8>) -> Parsed<Seq<char>> {
    match parse_i32(bytes) {
        Some((n, rest)) => match parse_bytes(rest, n as int) {
            Some((name, rest)) => if valid_utf8(name) {
                Some((decode_utf8(name), rest))
            } else {
                None
            },
            None => None,
        },
        None => None,
    }
}

/// The bytes of a truth value.
pub open spec fn bool_bytes(b: bool) -> Seq<u8> {
    seq![
        if b {
            1u8
        } else {
            0u8
        },
    ]
}

/// The bytes of a signed number of four bytes.
pub open spec fn i32_bytes(x: i32) -> Seq<u8> {
    spec_u32_to_le_bytes(x as u32)
}

/// The bytes of a signed number of eight bytes.
pub open spec fn i64_bytes(x: i64) -> Seq<u8> {
    spec_u64_to_le_bytes(x as u64)
}

/// The bytes of a name.
pub open spec fn name_bytes(name: Seq<char>) -> Seq<u8> {
    i32_bytes(encode_utf8(name).len() as i32) + encode_utf8(name)
}

/// Whether a name is short enough to be written.
pub open spec fn is_writable_name(name: Seq<char>) -> bool {
    encode_utf8(name).len() <= i32::MAX
}

/// Text from its bytes, by [`String::from_utf8`]: the text that they encode, where they
/// encode any.
#[verifier::external_body]
fn text_from_utf8(bytes: Vec<u8>) -> (text: Option<String>)
    ensures
        text is Some <==> valid_utf8(bytes@),
        text matches Some(text) ==> text@ == decode_utf8(bytes@),
{
    String::from_utf8(bytes).ok()
}

impl<'a> ByteReader<'a> {
    /// The bytes that have not been read.
    pub closed spec fn rest(&self) -> Seq<u8> {
        self.bytes@.skip(self.at as int)
    }

    /// Whether no more has been read than there is.
    pub closed spec fn wf(&self) -> bool {
        self.at <= self.bytes@.len()
    }

    /// Bytes of which none have been read.
    pub fn new(bytes: &'a Vec<u8>) -> (reader: Self)
        ensures
            reader.wf(),
            reader.rest() == bytes@,
    {
        let reader = ByteReader { bytes, at: 0 };
        assert(reader.rest() =~= bytes@);
        reader
    }

    /// Reads `n` bytes.
    pub fn read_bytes(&mut self, n: usize) -> (result: Result<Vec<u8>, OpenFstError>)
        requires
            old(self).wf(),
        ensures
            final(self).wf(),
            match parse_bytes(old(self).rest(), n as int) {
                Some((b, rest)) => {
                    &&& result matches Ok(v) && v@ == b
                    &&& final(self).rest() == rest
                },
                None => {
                    &&& result matches Err(e) && e is Io
                    &&& final(self).rest() == old(self).rest()
                },
            },
    {
        let total: usize = self.bytes.len();
        if n > total - self.at {
            return Err(OpenFstError::Io("failed to fill whole buffer"));
        }
        let ghost all = self.rest();
        let mut out: Vec<u8> = Vec::new();
        let mut i: usize = 0;
        while i < n
            invariant
                i <= n,
                self.at + n <= total == self.bytes@.len(),
                all == self.bytes@.skip(self.at as int),
                out@ == all.take(i as int),
            decreases n - i,
        {
            out.push(self.bytes[self.at + i]);
            i += 1;
            assert(out@ =~= all.take(i as int));
        }
        self.at = self.at + n;
        assert(self.rest() =~= all.skip(n as int));
        Ok(out)
    }

    /// Reads one byte.
    pub fn read_u8(&mut self) -> (result: Result<u8, OpenFstError>)
        requires
            old(self).wf(),
        ensures
            final(self).wf(),
            match parse_u8(old(self).rest()) {
                Some((x, rest)) => {
                    &&& result == Ok::<u8, OpenFstError>(x)
                    &&& final(self).rest() == rest
                },
                None => result matches Err(e) && e is Io,
            },
    {
        match self.read_bytes(1) {
            Ok(b) => Ok(b[0]),
            Err(e) => Err(e),
        }
    }

    /// Reads a truth value.
    pub fn read_bool(&mut self) -> (result: Result<bool, OpenFstError>)
        requires
            old(self).wf(),
        ensures
            final(self).wf(),
            match parse_bool(old(self).rest()) {
                Some((x, rest)) => {
                    &&& result == Ok::<bool, OpenFstError>(x)
                    &&& final(self).rest() == rest
                },
                None => result matches Err(e) && e is Io,
            },
    {
        match self.read_u8() {
            Ok(b) => Ok(b != 0),
            Err(e) => Err(e),
        }
    }

    /// Reads a number of four bytes.
    pub fn read_u32(&mut self) -> (result: Result<u32, OpenFstError>)
        requires
            old(self).wf(),
        ensures
            final(self).wf(),
            match parse_u32(old(self).rest()) {
                Some((x, rest)) => {
                    &&& result == Ok::<u32, OpenFstError>(x)
                    &&& final(self).rest() == rest
                },
                None => result matches Err(e) && e is Io,
            },
    {
        match self.read_bytes(4) {
            Ok(b) => Ok(u32_from_le_bytes(b.as_slice())),
            Err(e) => Err(e),
        }
    }

    /// Reads a signed number of four bytes.
    pub fn read_i32(&mut self) -> (result: Result<i32, OpenFstError>)
        requires
            old(self).wf(),
        ensures
            final(self).wf(),
            match parse_i32(old(self).rest()) {
                Some((x, rest)) => {
                    &&& result == Ok::<i32, OpenFstError>(x)
                    &&& final(self).rest() == rest
                },
                None => result matches Err(e) && e is Io,
            },
    {
        match self.read_u32() {
            Ok(x) => {
                #[verifier::truncate]
                let x: i32 = x as i32;
                Ok(x)
            },
            Err(e) => Err(e),
        }
    }

    /// Reads a number of eight bytes.
    pub fn read_u64(&mut self) -> (result: Result<u64, OpenFstError>)
        requires
            old(self).wf(),
        ensures
            final(self).wf(),
            match parse_u64(old(self).rest()) {
                Some((x, rest)) => {
                    &&& result == Ok::<u64, OpenFstError>(x)
                    &&& final(self).rest() == rest
                },
                None => result matches Err(e) && e is Io,
            },
    {
        match self.read_bytes(8) {
            Ok(b) => Ok(u64_from_le_bytes(b.as_slice())),
            Err(e) => Err(e),
        }
    }

    /// Reads a signed number of eight bytes.
    pub fn read_i64(&mut self) -> (result: Result<i64, OpenFstError>)
        requires
            old(self).wf(),
        ensures
            final(self).wf(),
            match parse_i64(old(self).rest()) {
                Some((x, rest)) => {
                    &&& result == Ok::<i64, OpenFstError>(x)
                    &&& final(self).rest() == rest
                },
                None => result matches Err(e) && e is Io,
            },
    {
        match self.read_u64() {
            Ok(x) => {
                #[verifier::truncate]
                let x: i64 = x as i64;
                Ok(x)
            },
            Err(e) => Err(e),
        }
    }

    /// Reads a name.
    pub fn read_name(&mut self) -> (result: Result<String, OpenFstError>)
        requires
            old(self).wf(),
        ensures
            final(self).wf(),
            match parse_name(old(self).rest()) {
                Some((name, rest)) => {
                    &&& result matches Ok(s) && s@ == name
                    &&& final(self).rest() == rest
                },
                None => result matches Err(e) && e is Io,
            },
    {
        let n: i32 = match self.read_i32() {
            Ok(n) => n,
            Err(e) => {
                return Err(e);
            },
        };
        if n < 0 {
            return Err(OpenFstError::Io("a name of fewer bytes than none"));
        }
        let bytes = match self.read_bytes(n as usize) {
            Ok(bytes) => bytes,
            Err(e) => {
                return Err(e);
            },
        };
        match text_from_utf8(bytes) {
            Some(text) => Ok(text),
            None => Err(OpenFstError::Io("stream did not contain valid UTF-8")),
        }
    }
}

/// Writes some bytes.
pub fn write_bytes(writer: &mut Vec<u8>, bytes: &[u8])
    ensures
        final(writer)@ == old(writer)@ + bytes@,
{
    let ghost before = writer@;
    let n: usize = bytes.len();
    let mut i: usize = 0;
    assert(writer@ =~= before + bytes@.take(0));
    while i < n
        invariant
            i <= n == bytes@.len(),
            writer@ == before + bytes@.take(i as int),
        decreases n - i,
    {
        writer.push(bytes[i]);
        i += 1;
        assert(writer@ =~= before + bytes@.take(i as int));
    }
    assert(bytes@.take(n as int) =~= bytes@);
}

/// Writes a truth value.
pub fn write_bool(writer: &mut Vec<u8>, b: bool)
    ensures
        final(writer)@ == old(writer)@ + bool_bytes(b),
{
    let ghost before = writer@;
    writer.push(
        if b {
            1
        } else {
            0
        },
    );
    assert(writer@ =~= before + bool_bytes(b));
}

/// Writes a signed number of four bytes.
pub fn write_i32(writer: &mut Vec<u8>, x: i32)
    ensures
        final(writer)@ == old(writer)@ + i32_bytes(x),
{
    #[verifier::truncate]
    let word: u32 = x as u32;
    let bytes = u32_to_le_bytes(word);
    write_bytes(writer, bytes.as_slice());
}

/// Writes a number of eight bytes.
pub fn write_u64(writer: &mut Vec<u8>, x: u64)
    ensures
        final(writer)@ == old(writer)@ + spec_u64_to_le_bytes(x),
{
    let bytes = u64_to_le_bytes(x);
    write_bytes(writer, bytes.as_slice());
}

/// Writes a signed number of eight bytes.
pub fn write_i64(writer: &mut Vec<u8>, x: i64)
    ensures
        final(writer)@ == old(writer)@ + i64_bytes(x),
{
    #[verifier::truncate]
    let word: u64 = x as u64;
    let bytes = u64_to_le_bytes(word);
    write_bytes(writer, bytes.as_slice());
}

/// Writes a name, which may not be too long.
pub fn write_name(writer: &mut Vec<u8>, name: &str) -> (result: Result<(), OpenFstError>)
    ensures
        result is Ok <==> is_writable_name(name@),
        result is Ok ==> final(writer)@ == old(writer)@ + name_bytes(name@),
        result matches Err(e) ==> e is Io && final(writer)@ == old(writer)@,
{
    let bytes = name.as_bytes();
    if bytes.len() > i32::MAX as usize {
        return Err(OpenFstError::Io("a name is too long to be written"));
    }
    let ghost before = writer@;
    write_i32(writer, bytes.len() as i32);
    write_bytes(writer, bytes);
    assert(writer@ =~= before + name_bytes(name@));
    Ok(())
}

/// What is written is read back: each kind of value, whatever comes after it.
pub proof fn law_values_read_back(rest: Seq<u8>)
    ensures
        forall|b: bool| #[trigger] parse_bool(bool_bytes(b) + rest) == Some((b, rest)),
        forall|x: u8| #[trigger] parse_u8(seq![x] + rest) == Some((x, rest)),
        forall|x: i32| #[trigger] parse_i32(i32_bytes(x) + rest) == Some((x, rest)),
        forall|x: u64| #[trigger]
            parse_u64(spec_u64_to_le_bytes(x) + rest) == Some((x, rest)),
        forall|x: i64| #[trigger] parse_i64(i64_bytes(x) + rest) == Some((x, rest)),
{
    lemma_auto_spec_u32_to_from_le_bytes();
    lemma_auto_spec_u64_to_from_le_bytes();
    assert forall|b: bool| #[trigger] parse_bool(bool_bytes(b) + rest) == Some((b, rest)) by {
        lemma_front(bool_bytes(b), rest);
    }
    assert forall|x: u8| #[trigger] parse_u8(seq![x] + rest) == Some((x, rest)) by {
        lemma_front(seq![x], rest);
    }
    assert forall|x: i32| #[trigger] parse_i32(i32_bytes(x) + rest) == Some((x, rest)) by {
        lemma_front(i32_bytes(x), rest);
        assert(((x as u32) as i32) == x) by (bit_vector);
    }
    assert forall|x: u64| #[trigger]
        parse_u64(spec_u64_to_le_bytes(x) + rest) == Some((x, rest)) by {
        lemma_front(spec_u64_to_le_bytes(x), rest);
    }
    assert forall|x: i64| #[trigger] parse_i64(i64_bytes(x) + rest) == Some((x, rest)) by {
        lemma_front(i64_bytes(x), rest);
        assert(((x as u64) as i64) == x) by (bit_vector);
    }
}

/// A name that is written is read back, whatever comes after it.
pub proof fn law_names_read_back(name: Seq<char>, rest: Seq<u8>)
    requires
        is_writable_name(name),
    ensures
        parse_name(name_bytes(name) + rest) == Some((name, rest)),
{
    let bytes = encode_utf8(name);
    assert(name_bytes(name) + rest =~= i32_bytes(bytes.len() as i32) + (bytes + rest));
    law_values_read_back(bytes + rest);
    lemma_front(bytes, rest);
    encode_utf8_valid_utf8(name);
    encode_utf8_decode_utf8(name);
}

/// Bytes put in front are the first ones.
pub proof fn lemma_front(bytes: Seq<u8>, rest: Seq<u8>)
    ensures
        parse_bytes(bytes + rest, bytes.len() as int) == Some((bytes, rest)),
{
    assert((bytes + rest).take(bytes.len() as int) =~= bytes);
    assert((bytes + rest).skip(bytes.len() as int) =~= rest);
}

} // verus!
