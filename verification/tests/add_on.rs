use sicada::add_on::{ADD_ON_MAGIC_NUMBER, AddOn, AddOnImpl, AddOnPair, FST_MAGIC_NUMBER, FstHeader, HeldFst, NullAddOn};
use sicada::error::OpenFstError;
use sicada::wire::{ByteReader, Bytes, Chars, Parsed, write_i32};
use std::rc::Rc;

/// A stand-in for real add-on data, so the framing can be tested without a
/// matcher.
#[derive(Debug, Clone, PartialEq, Eq)]
struct Counter(i32);

impl AddOn for Counter {
    fn is_writable(&self) -> bool {
        unreachable!()
    }

    fn written(&self) -> Bytes {
        unreachable!()
    }

    fn parsed(_bytes: Bytes) -> Parsed<Self> {
        unreachable!()
    }

    fn read(reader: &mut ByteReader<'_>) -> Result<Self, OpenFstError> {
        Ok(Self(reader.read_i32()?))
    }

    fn write(&self, writer: &mut Vec<u8>) -> Result<(), OpenFstError> {
        write_i32(writer, self.0);
        Ok(())
    }
}

fn round_trip<T: AddOn>(value: &T) -> T {
    let mut bytes = Vec::new();
    value.write(&mut bytes).unwrap();
    T::read(&mut ByteReader::new(&bytes)).unwrap()
}

#[test]
fn the_magic_number_matches_openfst() {
    assert_eq!(ADD_ON_MAGIC_NUMBER, 446_681_434);
}

#[test]
fn the_null_add_on_writes_nothing() {
    let mut bytes = Vec::new();
    NullAddOn.write(&mut bytes).unwrap();
    assert!(bytes.is_empty());
    assert_eq!(round_trip(&NullAddOn), NullAddOn);
}

#[test]
fn a_pair_round_trips_with_both_halves() {
    let pair = AddOnPair::new(
        Some(Rc::new(Counter(7))),
        Some(Rc::new(Counter(-3))),
    );
    let read = round_trip(&pair);
    assert_eq!(read.first(), Some(&Counter(7)));
    assert_eq!(read.second(), Some(&Counter(-3)));
}

/// An absent half costs one byte and comes back absent, so an FST can carry
/// only the tables it actually has.
#[test]
fn an_absent_half_costs_one_byte() {
    let pair: AddOnPair<Counter, Counter> = AddOnPair::new(None, Some(Rc::new(Counter(1))));
    let mut bytes = Vec::new();
    pair.write(&mut bytes).unwrap();
    // false, then true, then the four bytes of the counter.
    assert_eq!(bytes.len(), 1 + 1 + 4);
    assert_eq!(bytes[0], 0);
    assert_eq!(bytes[1], 1);

    let read = round_trip(&pair);
    assert!(read.first().is_none());
    assert_eq!(read.second(), Some(&Counter(1)));
}

#[test]
fn a_pair_with_neither_half_is_two_bytes() {
    let pair: AddOnPair<Counter, Counter> = AddOnPair::new(None, None);
    let mut bytes = Vec::new();
    pair.write(&mut bytes).unwrap();
    assert_eq!(bytes, vec![0, 0]);
    let read = round_trip(&pair);
    assert!(read.first().is_none() && read.second().is_none());
}

#[test]
fn pairs_nest() {
    type Nested = AddOnPair<AddOnPair<Counter, Counter>, Counter>;
    let inner = AddOnPair::new(Some(Rc::new(Counter(1))), None);
    let outer: Nested = AddOnPair::new(Some(Rc::new(inner)), Some(Rc::new(Counter(2))));
    let read = round_trip(&outer);
    assert_eq!(read.first().unwrap().first(), Some(&Counter(1)));
    assert!(read.first().unwrap().second().is_none());
    assert_eq!(read.second(), Some(&Counter(2)));
}

impl HeldFst for Counter {
    fn arc_kind() -> Chars {
        unreachable!()
    }

    fn begins(&self) -> Option<usize> {
        unreachable!()
    }

    fn states(&self) -> usize {
        unreachable!()
    }

    fn known(&self) -> u64 {
        unreachable!()
    }

    fn arc_type() -> String {
        "standard".to_string()
    }

    fn start(&self) -> Option<usize> {
        if self.0 > 0 { Some(2) } else { None }
    }

    fn num_states(&self) -> usize {
        3
    }

    fn known_properties(&self) -> u64 {
        7
    }
}

/// The outer header says of the machine what the contained one says of itself.
#[test]
fn the_outer_header_tells_of_the_contained_machine() {
    for (machine, start) in [(Counter(5), 2), (Counter(-5), -1)] {
        let with: AddOnImpl<Counter, Counter> = AddOnImpl::new(machine, "x".to_string(), None);
        let mut bytes = Vec::new();
        with.write(&mut bytes).unwrap();
        let header = FstHeader::read(&mut ByteReader::new(&bytes)).unwrap();
        assert_eq!(header.fst_type, "x");
        assert_eq!(header.arc_type, "standard");
        assert_eq!(header.version, 1);
        assert_eq!(header.properties, 7);
        assert_eq!(header.start, start);
        assert_eq!(header.num_states, 3);
    }
}

/// The header, the magic number, the machine and the add-on, one after the other.
#[test]
fn a_machine_with_an_add_on_round_trips() {
    let with = AddOnImpl::new(Counter(5), "olabel_lookahead".to_string(), Some(Rc::new(Counter(9))));
    let mut bytes = Vec::new();
    with.write(&mut bytes).unwrap();
    // Magic number, two names, version, flags, properties, start, states, arcs; then
    // the add-on's magic number, the machine, a truth value and the add-on.
    assert_eq!(bytes.len(), 4 + (4 + 16) + (4 + 8) + 4 + 4 + 8 + 8 + 8 + 8 + 4 + 4 + 1 + 4);

    let read: AddOnImpl<Counter, Counter> =
        AddOnImpl::read(&mut ByteReader::new(&bytes), "olabel_lookahead".to_string())
            .unwrap();
    assert_eq!(read.fst(), &Counter(5));
    assert_eq!(read.fst_type(), "olabel_lookahead");
    assert_eq!(read.add_on(), Some(&Counter(9)));
    assert_eq!(read.shared_add_on(), Some(Rc::new(Counter(9))));
}

/// A machine may carry no add-on, and be given another.
#[test]
fn an_add_on_may_be_absent_and_may_be_replaced() {
    let mut with: AddOnImpl<Counter, Counter> = AddOnImpl::new(Counter(5), "x".to_string(), None);
    assert!(with.add_on().is_none());
    let mut bytes = Vec::new();
    with.write(&mut bytes).unwrap();
    let read: AddOnImpl<Counter, Counter> =
        AddOnImpl::read(&mut ByteReader::new(&bytes), "x".to_string()).unwrap();
    assert!(read.add_on().is_none());

    with.set_add_on(Some(Rc::new(Counter(1))));
    assert_eq!(with.add_on(), Some(&Counter(1)));
}

/// A header of another kind, and a header with no add-on behind it, are refused.
#[test]
fn a_header_of_another_kind_is_refused() {
    let with = AddOnImpl::new(Counter(5), "x".to_string(), Some(Rc::new(Counter(9))));
    let mut bytes = Vec::new();
    with.write(&mut bytes).unwrap();
    let wrong = |bytes: &Vec<u8>, kind: &str| {
        AddOnImpl::<Counter, Counter>::read(&mut ByteReader::new(bytes), kind.to_string())
            .err()
            .unwrap()
    };
    assert!(matches!(wrong(&bytes, "y"), OpenFstError::InvalidFstHeader(_)));
    // The name of the arcs comes after that of the machine.
    let mut other = bytes.clone();
    other[4 + (4 + 1) + 4] = b'S';
    assert!(matches!(wrong(&other, "x"), OpenFstError::InvalidFstHeader(_)));

    // The add-on's magic number comes after the header.
    let mut broken = bytes.clone();
    broken[4 + (4 + 1) + (4 + 8) + 4 + 4 + 8 + 8 + 8 + 8] ^= 1;
    let err = AddOnImpl::<Counter, Counter>::read(
        &mut ByteReader::new(&broken),
        "x".to_string(),
    )
    .err()
    .unwrap();
    assert_eq!(err, OpenFstError::InvalidFstHeader("bad add-on header"));

    // A stream that stops short.
    let short = bytes[..bytes.len() - 1].to_vec();
    assert!(matches!(
        AddOnImpl::<Counter, Counter>::read(
            &mut ByteReader::new(&short),
            "x".to_string(),
        )
        .err()
        .unwrap(),
        OpenFstError::Io(_)
    ));
}

/// The bytes of a header that is not one.
#[test]
fn what_is_not_a_header_is_refused() {
    let bytes = 1i32.to_le_bytes().to_vec();
    assert!(matches!(
        FstHeader::read(&mut ByteReader::new(&bytes)),
        Err(OpenFstError::InvalidFstHeader(_))
    ));
    let bytes = FST_MAGIC_NUMBER.to_le_bytes().to_vec();
    assert!(matches!(
        FstHeader::read(&mut ByteReader::new(&bytes)),
        Err(OpenFstError::Io(_))
    ));
}
