//! Names for labels.
use crate::error::OpenFstError;
use crate::wire::{
    i32_bytes, i64_bytes, is_writable_name, law_names_read_back, law_values_read_back, name_bytes,
    parse_i32, parse_i64, parse_name, write_i32, write_i64, write_name, ByteReader, Parsed,
};
use std::rc::Rc;
use vstd::prelude::*;

verus! {

/// Identifies bytes as a symbol table.
pub const SYMBOL_TABLE_MAGIC_NUMBER: i32 = 2_125_658_996;

/// A label and the name it goes by.
#[derive(Debug)]
pub struct Symbol {
    /// The label.
    pub key: i64,
    /// The name.
    pub name: String,
}

/// A set of labels with a name for each.
#[derive(Debug)]
pub struct SymbolTable {
    name: String,
    symbols: Vec<Symbol>,
}

impl SymbolTable {
    /// What the table is called.
    pub closed spec fn title(self) -> Seq<char> {
        self.name@
    }

    /// The pairs of label and name, in the order they were added.
    pub closed spec fn entries(self) -> Seq<(i64, Seq<char>)> {
        Seq::new(self.symbols@.len(), |i: int| (self.symbols@[i].key, self.symbols@[i].name@))
    }

    /// Whether the table gives `key` the name `name`.
    pub open spec fn names(self, key: i64, name: Seq<char>) -> bool {
        self.entries().contains((key, name))
    }

    /// What the table is called.
    pub fn name(&self) -> (name: &str)
        ensures
            name@ == self.title(),
    {
        self.name.as_str()
    }

    /// A table of no labels.
    pub fn new(name: &str) -> (table: Self)
        ensures
            table.title() == name@,
            table.entries() == Seq::<(i64, Seq<char>)>::empty(),
    {
        SymbolTable { name: name.to_owned(), symbols: Vec::new() }
    }

    /// Gives `key` the name `symbol`, unless the table holds that pair already.
    pub fn add_symbol(&mut self, symbol: &str, key: i64)
        ensures
            final(self).title() == old(self).title(),
            final(self).entries() == (if old(self).names(key, symbol@) {
                old(self).entries()
            } else {
                old(self).entries().push((key, symbol@))
            }),
    {
        let name = symbol.to_owned();
        if !self.holds(key, &name) {
            self.symbols.push(Symbol { key, name });
            assert(self.entries() =~= old(self).entries().push((key, symbol@)));
        }
    }

    /// Whether the table gives `key` the name `name`.
    fn holds(&self, key: i64, name: &String) -> (b: bool)
        ensures
            b == self.names(key, name@),
    {
        let mut i: usize = 0;
        while i < self.symbols.len()
            invariant
                i <= self.symbols@.len(),
                forall|j: int| 0 <= j < i ==> #[trigger] self.entries()[j] != (key, name@),
            decreases self.symbols@.len() - i,
        {
            assert(self.entries()[i as int] == (self.symbols@[i as int].key, self.symbols@[i as int].name@));
            if self.symbols[i].key == key && self.symbols[i].name == *name {
                return true;
            }
            i = i + 1;
        }
        false
    }

    /// The first name given to `key`, if any was.
    pub fn find_symbol(&self, key: i64) -> (found: Option<&str>)
        ensures
            match found {
                Some(name) => exists|i: int|
                    0 <= i < self.entries().len() && #[trigger] self.entries()[i] == (key, name@)
                        && forall|j: int| 0 <= j < i ==> (#[trigger] self.entries()[j]).0 != key,
                None => forall|i: int|
                    0 <= i < self.entries().len() ==> (#[trigger] self.entries()[i]).0 != key,
            },
    {
        let mut i: usize = 0;
        while i < self.symbols.len()
            invariant
                i <= self.symbols@.len(),
                forall|j: int| 0 <= j < i ==> (#[trigger] self.entries()[j]).0 != key,
            decreases self.symbols@.len() - i,
        {
            assert(self.entries()[i as int] == (self.symbols@[i as int].key, self.symbols@[i as int].name@));
            if self.symbols[i].key == key {
                return Some(self.symbols[i].name.as_str());
            }
            i = i + 1;
        }
        None
    }

    /// Whether every pair of this table is a pair of `other`.
    fn within(&self, other: &SymbolTable) -> (b: bool)
        ensures
            b == forall|i: int|
                0 <= i < self.entries().len() ==> other.entries().contains(#[trigger] self.entries()[i]),
    {
        let mut i: usize = 0;
        while i < self.symbols.len()
            invariant
                i <= self.symbols@.len(),
                forall|j: int| 0 <= j < i ==> other.entries().contains(#[trigger] self.entries()[j]),
            decreases self.symbols@.len() - i,
        {
            assert(self.entries()[i as int] == (self.symbols@[i as int].key, self.symbols@[i as int].name@));
            if !other.holds(self.symbols[i].key, &self.symbols[i].name) {
                return false;
            }
            i = i + 1;
        }
        true
    }
}

/// Whether two tables give the same names to the same labels. A table that is
/// not there agrees with any.
pub open spec fn spec_compat_symbols(a: Option<Rc<SymbolTable>>, b: Option<Rc<SymbolTable>>) -> bool {
    match (a, b) {
        (Some(x), Some(y)) => same_names(*x, *y),
        _ => true,
    }
}

/// Whether two tables hold the same pairs.
pub open spec fn same_names(a: SymbolTable, b: SymbolTable) -> bool {
    &&& forall|i: int| 0 <= i < a.entries().len() ==> b.entries().contains(#[trigger] a.entries()[i])
    &&& forall|i: int| 0 <= i < b.entries().len() ==> a.entries().contains(#[trigger] b.entries()[i])
}

/// Whether two tables give the same names to the same labels. A table that is
/// not there agrees with any.
pub fn compat_symbols_rc(a: &Option<Rc<SymbolTable>>, b: &Option<Rc<SymbolTable>>) -> (compat: bool)
    ensures
        compat == spec_compat_symbols(*a, *b),
{
    match (a, b) {
        (Some(x), Some(y)) => x.within(y) && y.within(x),
        _ => true,
    }
}

/// Another handle on the same table.
pub fn share_symbols(symbols: &Option<Rc<SymbolTable>>) -> (shared: Option<Rc<SymbolTable>>)
    ensures
        shared == *symbols,
{
    match symbols {
        Some(table) => Some(table.clone()),
        None => None,
    }
}

/// A table as mathematics sees it.
#[verifier::ext_equal]
pub struct SymbolsV {
    /// What the table is called.
    pub title: Seq<char>,
    /// The pairs of label and name, in the order they were added.
    pub entries: Seq<(i64, Seq<char>)>,
}

impl View for SymbolTable {
    type V = SymbolsV;

    open spec fn view(&self) -> SymbolsV {
        SymbolsV { title: self.title(), entries: self.entries() }
    }
}

/// The pairs once `key` has the name `name`.
pub open spec fn with_symbol(entries: Seq<(i64, Seq<char>)>, key: i64, name: Seq<char>) -> Seq<
    (i64, Seq<char>),
> {
    if entries.contains((key, name)) {
        entries
    } else {
        entries.push((key, name))
    }
}

/// The least label, not below nought, that is greater than each of the first `n`, as far
/// as there is one.
pub open spec fn available_key(entries: Seq<(i64, Seq<char>)>, n: int) -> i64
    decreases n,
{
    if n <= 0 {
        0
    } else {
        let least = available_key(entries, n - 1);
        let key = entries[n - 1].0;
        if key < least {
            least
        } else if key < i64::MAX {
            (key + 1) as i64
        } else {
            i64::MAX
        }
    }
}

/// The bytes of the pairs from the one at `from` on.
pub open spec fn entries_bytes(entries: Seq<(i64, Seq<char>)>, from: int) -> Seq<u8>
    decreases entries.len() - from,
{
    if from < 0 || from >= entries.len() {
        Seq::empty()
    } else {
        name_bytes(entries[from].1) + (i64_bytes(entries[from].0) + entries_bytes(
            entries,
            from + 1,
        ))
    }
}

/// The bytes of a table.
pub open spec fn symbols_bytes(v: SymbolsV) -> Seq<u8> {
    i32_bytes(SYMBOL_TABLE_MAGIC_NUMBER) + (name_bytes(v.title) + (i64_bytes(
        available_key(v.entries, v.entries.len() as int),
    ) + (i64_bytes(v.entries.len() as i64) + entries_bytes(v.entries, 0))))
}

/// Whether a table can be written.
pub open spec fn is_writable_table(v: SymbolsV) -> bool {
    &&& is_writable_name(v.title)
    &&& v.entries.len() <= i64::MAX
    &&& forall|i: int| 0 <= i < v.entries.len() ==> is_writable_name(#[trigger] v.entries[i].1)
}

/// The next `n` pairs, those of `entries` being there already.
pub open spec fn parse_entries(bytes: Seq<u8>, n: int, entries: Seq<(i64, Seq<char>)>) -> Parsed<
    Seq<(i64, Seq<char>)>,
>
    decreases n,
{
    if n <= 0 {
        Some((entries, bytes))
    } else {
        match parse_name(bytes) {
            Some((name, rest)) => match parse_i64(rest) {
                Some((key, rest)) => parse_entries(rest, n - 1, with_symbol(entries, key, name)),
                None => None,
            },
            None => None,
        }
    }
}

/// A table at the front of some bytes.
pub open spec fn parse_symbols(bytes: Seq<u8>) -> Parsed<SymbolsV> {
    match parse_i32(bytes) {
        Some((magic, rest)) => if magic != SYMBOL_TABLE_MAGIC_NUMBER {
            None
        } else {
            match parse_name(rest) {
                Some((title, rest)) => match parse_i64(rest) {
                    Some((_, rest)) => match parse_i64(rest) {
                        Some((n, rest)) => match parse_entries(rest, n as int, Seq::empty()) {
                            Some((entries, rest)) => Some((SymbolsV { title, entries }, rest)),
                            None => None,
                        },
                        None => None,
                    },
                    None => None,
                },
                None => None,
            }
        },
        None => None,
    }
}

/// The pairs from the one at `from` on are read back.
proof fn lemma_entries_read_back(entries: Seq<(i64, Seq<char>)>, from: int, rest: Seq<u8>)
    requires
        entries.no_duplicates(),
        0 <= from <= entries.len(),
        forall|i: int| 0 <= i < entries.len() ==> is_writable_name(#[trigger] entries[i].1),
    ensures
        parse_entries(
            entries_bytes(entries, from) + rest,
            entries.len() - from,
            entries.take(from),
        ) == Some((entries, rest)),
    decreases entries.len() - from,
{
    if from == entries.len() {
        assert(entries_bytes(entries, from) + rest =~= rest);
        assert(entries.take(from) =~= entries);
    } else {
        let (key, name) = entries[from];
        let after = entries_bytes(entries, from + 1) + rest;
        assert(entries_bytes(entries, from) + rest =~= name_bytes(name) + (i64_bytes(key) + after));
        law_names_read_back(name, i64_bytes(key) + after);
        law_values_read_back(after);
        assert(!entries.take(from).contains((key, name))) by {
            if entries.take(from).contains((key, name)) {
                let j = choose|j: int|
                    0 <= j < from && entries.take(from)[j] == (key, name);
                assert(entries[j] == entries[from]);
            }
        }
        assert(entries.take(from).push((key, name)) =~= entries.take(from + 1));
        lemma_entries_read_back(entries, from + 1, rest);
    }
}

/// A table that is written is read back, whatever comes after it, if no pair is in it
/// twice.
pub proof fn law_symbols_read_back(v: SymbolsV, rest: Seq<u8>)
    requires
        is_writable_table(v),
        v.entries.no_duplicates(),
    ensures
        parse_symbols(symbols_bytes(v) + rest) == Some((v, rest)),
{
    let e = entries_bytes(v.entries, 0) + rest;
    let n = i64_bytes(v.entries.len() as i64) + e;
    let a = i64_bytes(available_key(v.entries, v.entries.len() as int)) + n;
    let t = name_bytes(v.title) + a;
    assert(symbols_bytes(v) + rest =~= i32_bytes(SYMBOL_TABLE_MAGIC_NUMBER) + t);
    law_values_read_back(t);
    law_names_read_back(v.title, a);
    law_values_read_back(n);
    law_values_read_back(e);
    assert(v.entries.take(0) =~= Seq::empty());
    lemma_entries_read_back(v.entries, 0, rest);
}

impl SymbolTable {
    /// Reads a table.
    pub fn read(reader: &mut ByteReader<'_>) -> (result: Result<Self, OpenFstError>)
        requires
            old(reader).wf(),
        ensures
            final(reader).wf(),
            match parse_symbols(old(reader).rest()) {
                Some((v, rest)) => {
                    &&& result matches Ok(table) && table@ == v
                    &&& final(reader).rest() == rest
                },
                None => result is Err,
            },
            result matches Err(e) ==> e is Io || e is SymbolTable,
            result matches Err(e) ==> (e is SymbolTable <==> (parse_i32(old(reader).rest()) matches Some((magic, _)) && magic
                != SYMBOL_TABLE_MAGIC_NUMBER)),
    {
        let magic: i32 = match reader.read_i32() {
            Ok(x) => x,
            Err(e) => {
                return Err(e);
            },
        };
        if magic != SYMBOL_TABLE_MAGIC_NUMBER {
            return Err(OpenFstError::SymbolTable("not a symbol table"));
        }
        let name = match reader.read_name() {
            Ok(name) => name,
            Err(e) => {
                return Err(e);
            },
        };
        match reader.read_i64() {
            Ok(_) => {},
            Err(e) => {
                return Err(e);
            },
        }
        let size: i64 = match reader.read_i64() {
            Ok(x) => x,
            Err(e) => {
                return Err(e);
            },
        };
        let mut table = SymbolTable::new(name.as_str());
        let mut left: i64 = size;
        let ghost wanted = parse_entries(reader.rest(), size as int, Seq::empty());
        while left > 0
            invariant
                reader.wf(),
                left <= size,
                table.title() == name@,
                wanted == parse_entries(reader.rest(), left as int, table.entries()),
                parse_symbols(old(reader).rest()) == (match wanted {
                    Some((entries, rest)) => Some((SymbolsV { title: name@, entries }, rest)),
                    None => None::<(SymbolsV, Seq<u8>)>,
                }),
                parse_i32(old(reader).rest()) matches Some((magic, _)) && magic
                    == SYMBOL_TABLE_MAGIC_NUMBER,
            decreases left,
        {
            let symbol = match reader.read_name() {
                Ok(symbol) => symbol,
                Err(e) => {
                    return Err(e);
                },
            };
            let key: i64 = match reader.read_i64() {
                Ok(x) => x,
                Err(e) => {
                    return Err(e);
                },
            };
            table.add_symbol(symbol.as_str(), key);
            left = left - 1;
        }
        Ok(table)
    }

    /// The label that comes after all of the table.
    fn next_key(&self) -> (key: i64)
        ensures
            key == available_key(self.entries(), self.entries().len() as int),
    {
        let mut least: i64 = 0;
        let mut i: usize = 0;
        while i < self.symbols.len()
            invariant
                i <= self.symbols@.len() == self.entries().len(),
                least == available_key(self.entries(), i as int),
            decreases self.symbols@.len() - i,
        {
            let key: i64 = self.symbols[i].key;
            assert(self.entries()[i as int].0 == key);
            if key >= least {
                least = if key < i64::MAX {
                    key + 1
                } else {
                    i64::MAX
                };
            }
            i = i + 1;
        }
        least
    }

    /// Writes a table.
    pub fn write(&self, writer: &mut Vec<u8>) -> (result: Result<(), OpenFstError>)
        ensures
            result is Ok <==> is_writable_table(self@),
            result is Ok ==> final(writer)@ == old(writer)@ + symbols_bytes(self@),
            result matches Err(e) ==> e is Io,
    {
        let ghost before = writer@;
        let ghost entries = self.entries();
        if self.symbols.len() as u64 > i64::MAX as u64 {
            return Err(OpenFstError::Io("a symbol table is too large to be written"));
        }
        write_i32(writer, SYMBOL_TABLE_MAGIC_NUMBER);
        match write_name(writer, self.name.as_str()) {
            Ok(()) => {},
            Err(e) => {
                return Err(e);
            },
        }
        write_i64(writer, self.next_key());
        write_i64(writer, self.symbols.len() as i64);
        assert(writer@ + entries_bytes(entries, 0) =~= before + symbols_bytes(self@));
        let mut i: usize = 0;
        while i < self.symbols.len()
            invariant
                i <= self.symbols@.len() == entries.len(),
                entries == self.entries(),
                writer@ + entries_bytes(entries, i as int) == before + symbols_bytes(self@),
                forall|j: int| 0 <= j < i ==> is_writable_name(#[trigger] entries[j].1),
                is_writable_name(self.title()),
                before == old(writer)@,
                self@.entries == entries,
            decreases self.symbols@.len() - i,
        {
            let ghost so_far = writer@;
            assert(entries[i as int] == (self.symbols@[i as int].key, self.symbols@[i as int].name@));
            match write_name(writer, self.symbols[i].name.as_str()) {
                Ok(()) => {},
                Err(e) => {
                    assert(!is_writable_name(self@.entries[i as int].1));
                    return Err(e);
                },
            }
            write_i64(writer, self.symbols[i].key);
            assert(writer@ + entries_bytes(entries, i + 1) =~= so_far + entries_bytes(
                entries,
                i as int,
            ));
            i = i + 1;
        }
        assert(writer@ =~= writer@ + entries_bytes(entries, i as int));
        Ok(())
    }
}

} // verus!
