//! Reading a stream back: the contents of each stream number are read the
//! first time it occurs, numbered in the reader's own numbering, and found
//! through a map from stream numbers to the reader's numbers afterwards.
use crate::atom_codec::read_escaped_text;
use crate::error::FormatError;
use crate::numbering::{
    extends, lemma_extends_refl, lemma_extends_trans, lemma_packed_key, IrepKey, IrepNumbering, NumberedIrep,
    NumberedString,
};
use crate::reader_spec::{
    empty_state, intern, map_of, mapped, rd_atom, rd_file, rd_header, rd_magic, rd_node, rd_records,
    rd_five_atoms, rd_symbol, rd_tags, rd_three_nodes, ReadRecord, ReadState,
};
use crate::symbol::SymbolFlags;
use crate::tree::Irep;
use crate::serializer::{bumped, count_of, TAG_END, TAG_NAMED, TAG_SUB, VERSION};
use crate::varint::{read_usize_varenc, usize_decode};
use vstd::prelude::*;

verus! {

/// Reads symbol tables, and the atoms and nodes in them, from bytes.
pub struct GotoBinaryDeserializer {
    /// The input.
    bytes: Vec<u8>,
    /// Where reading goes on.
    pos: usize,
    /// The reader's own numbering.
    numbering: IrepNumbering,
    /// How many times each stream node number was read.
    irep_count: Vec<usize>,
    /// The reader's number for each stream node number read in full.
    irep_map: Vec<Option<usize>>,
    /// How many times each stream atom number was read.
    string_count: Vec<usize>,
    /// The reader's number for each stream atom number read in full.
    string_map: Vec<Option<usize>>,
}

impl GotoBinaryDeserializer {
    /// The input.
    pub closed spec fn input(&self) -> Seq<u8> {
        self.bytes@
    }

    /// Where reading goes on.
    pub closed spec fn position(&self) -> nat {
        self.pos as nat
    }

    /// The reader's own numbering.
    pub closed spec fn engine(&self) -> IrepNumbering {
        self.numbering
    }

    /// The reader's state.
    pub closed spec fn state(&self) -> ReadState {
        ReadState {
            atoms: self.numbering.atoms(),
            keys: self.numbering.keys(),
            scount: self.string_count@,
            smap: self.string_map@,
            icount: self.irep_count@,
            imap: self.irep_map@,
        }
    }

    /// The numbering is well formed, every map entry stands in it, and the
    /// position is within the input.
    pub closed spec fn wf(&self) -> bool {
        &&& self.numbering.wf()
        &&& self.pos <= self.bytes@.len()
        &&& forall|n: int|
            0 <= n < self.string_map@.len() && (#[trigger] self.string_map@[n]) is Some
                ==> self.string_map@[n]->0 < self.numbering.atoms().len()
        &&& forall|n: int|
            0 <= n < self.irep_map@.len() && (#[trigger] self.irep_map@[n]) is Some
                ==> self.irep_map@[n]->0 < self.numbering.keys().len()
    }

    /// A well-formed reader has a well-formed numbering, whose atoms and keys
    /// are those of its state, and its state has distinct atoms, distinct
    /// valid keys and maps that point into them.
    pub proof fn lemma_wf(&self)
        requires
            self.wf(),
        ensures
            self.engine().wf(),
            self.position() <= self.input().len(),
            crate::round_trip::rwf(self.state()),
            self.state().atoms == self.engine().atoms(),
            self.state().keys == self.engine().keys(),
    {
        self.numbering.lemma_wf();
        self.numbering.lemma_atoms_distinct();
        self.numbering.lemma_keys_distinct();
        let st = self.state();
        assert forall|sn: nat| #[trigger] map_of(st.smap, sn) is Some implies map_of(st.smap, sn)->0
            < st.atoms.len() by {
            assert(self.string_map@[sn as int] is Some);
        }
        assert forall|sn: nat| #[trigger] map_of(st.imap, sn) is Some implies map_of(st.imap, sn)->0
            < st.keys.len() by {
            assert(self.irep_map@[sn as int] is Some);
        }
        assert(crate::numbering::keys_valid(st.atoms, st.keys));
    }

    /// A reader at the start of `bytes`, with nothing read yet.
    pub fn new(bytes: Vec<u8>) -> (r: Self)
        ensures
            r.wf(),
            r.input() == bytes@,
            r.position() == 0,
            r.state() == (ReadState {
                atoms: Seq::empty(),
                keys: Seq::empty(),
                scount: Seq::empty(),
                smap: Seq::empty(),
                icount: Seq::empty(),
                imap: Seq::empty(),
            }),
    {
        GotoBinaryDeserializer {
            bytes,
            pos: 0,
            numbering: IrepNumbering::new(),
            string_count: Vec::new(),
            string_map: Vec::new(),
            irep_count: Vec::new(),
            irep_map: Vec::new(),
        }
    }

    /// `found`, if it is `expected`; otherwise the error `error`.
    pub fn expect(found: usize, expected: usize, error: FormatError) -> (r: Result<
        usize,
        FormatError,
    >)
        ensures
            found == expected ==> r == Ok::<usize, FormatError>(found),
            found != expected ==> r == Err::<usize, FormatError>(error),
    {
        if found != expected {
            return Err(error);
        }
        Ok(found)
    }

    /// Records one more read of stream atom number `u`; true iff it was never
    /// read before.
    pub fn is_first_read_string(&mut self, u: usize) -> (r: bool)
        requires
            old(self).wf(),
        ensures
            final(self).wf(),
            r == (count_of(old(self).state().scount, u as nat) == 0),
            final(self).state() == (ReadState {
                scount: bumped(old(self).state().scount, u as nat),
                ..old(self).state()
            }),
            final(self).input() == old(self).input(),
            final(self).position() == old(self).position(),
            final(self).engine() == old(self).engine(),
    {
        let r = crate::serializer::bump_count(&mut self.string_count, u);
        r
    }

    /// Records one more read of stream node number `u`; true iff it was never
    /// read before.
    pub fn is_first_read_irep(&mut self, u: usize) -> (r: bool)
        requires
            old(self).wf(),
        ensures
            final(self).wf(),
            r == (count_of(old(self).state().icount, u as nat) == 0),
            final(self).state() == (ReadState {
                icount: bumped(old(self).state().icount, u as nat),
                ..old(self).state()
            }),
            final(self).input() == old(self).input(),
            final(self).position() == old(self).position(),
            final(self).engine() == old(self).engine(),
    {
        let r = crate::serializer::bump_count(&mut self.irep_count, u);
        r
    }

    /// Maps stream atom number `num_binary` to the reader's number `num`; a
    /// second mapping of one stream number is a format error.
    pub fn add_string_mapping(&mut self, num_binary: usize, num: usize) -> (r: Result<
        (),
        FormatError,
    >)
        requires
            old(self).wf(),
            num < old(self).engine().atoms().len(),
        ensures
            final(self).input() == old(self).input(),
            map_of(old(self).state().smap, num_binary as nat) is Some ==> r == Err::<(), FormatError>(
                FormatError::DuplicateMapping,
            ),
            map_of(old(self).state().smap, num_binary as nat) is None ==> {
                &&& r is Ok
                &&& final(self).wf()
                &&& final(self).state() == (ReadState {
                    smap: mapped(old(self).state().smap, num_binary as nat, num),
                    ..old(self).state()
                })
                &&& final(self).input() == old(self).input()
                &&& final(self).position() == old(self).position()
                &&& final(self).engine() == old(self).engine()
            },
    {
        let r = add_mapping(&mut self.string_map, num_binary, num);
        proof {
            if r is Ok {
                assert forall|n: int|
                    0 <= n < self.string_map@.len() && (#[trigger] self.string_map@[n]) is Some
                        implies self.string_map@[n]->0 < self.numbering.atoms().len() by {
                    if n != num_binary {
                        assert(old(self).string_map@[n] == self.string_map@[n]);
                    }
                }
            }
        }
        r
    }

    /// Maps stream node number `num_binary` to the reader's number `num`; a
    /// second mapping of one stream number is a format error.
    pub fn add_irep_mapping(&mut self, num_binary: usize, num: usize) -> (r: Result<
        (),
        FormatError,
    >)
        requires
            old(self).wf(),
            num < old(self).engine().keys().len(),
        ensures
            final(self).input() == old(self).input(),
            map_of(old(self).state().imap, num_binary as nat) is Some ==> r == Err::<(), FormatError>(
                FormatError::DuplicateMapping,
            ),
            map_of(old(self).state().imap, num_binary as nat) is None ==> {
                &&& r is Ok
                &&& final(self).wf()
                &&& final(self).state() == (ReadState {
                    imap: mapped(old(self).state().imap, num_binary as nat, num),
                    ..old(self).state()
                })
                &&& final(self).input() == old(self).input()
                &&& final(self).position() == old(self).position()
                &&& final(self).engine() == old(self).engine()
            },
    {
        let r = add_mapping(&mut self.irep_map, num_binary, num);
        proof {
            if r is Ok {
                assert forall|n: int|
                    0 <= n < self.irep_map@.len() && (#[trigger] self.irep_map@[n]) is Some
                        implies self.irep_map@[n]->0 < self.numbering.keys().len() by {
                    if n != num_binary {
                        assert(old(self).irep_map@[n] == self.irep_map@[n]);
                    }
                }
            }
        }
        r
    }

    /// Reads one byte.
    pub fn read_u8(&mut self) -> (r: Result<u8, FormatError>)
        requires
            old(self).wf(),
        ensures
            final(self).wf(),
            final(self).input() == old(self).input(),
            final(self).state() == old(self).state(),
            final(self).engine() == old(self).engine(),
            old(self).position() < old(self).input().len() ==> r == Ok::<u8, FormatError>(
                old(self).input()[old(self).position() as int],
            ) && final(self).position() == old(self).position() + 1,
            old(self).position() >= old(self).input().len() ==> r == Err::<u8, FormatError>(
                FormatError::UnexpectedEnd,
            ),
    {
        if self.pos >= self.bytes.len() {
            return Err(FormatError::UnexpectedEnd);
        }
        let u = self.bytes[self.pos];
        self.pos = self.pos + 1;
        Ok(u)
    }

    /// Reads a varint.
    pub fn read_usize_varenc(&mut self) -> (r: Result<usize, FormatError>)
        requires
            old(self).wf(),
        ensures
            final(self).wf(),
            final(self).input() == old(self).input(),
            final(self).state() == old(self).state(),
            final(self).engine() == old(self).engine(),
            match crate::varint::usize_decode(old(self).input().skip(old(self).position() as int)) {
                Ok((v, n)) => {
                    &&& r == Ok::<usize, FormatError>(v)
                    &&& final(self).position() == old(self).position() + n
                    &&& old(self).position() < final(self).position()
                },
                Err(e) => r == Err::<usize, FormatError>(e),
            },
    {
        match read_usize_varenc(self.bytes.as_slice(), self.pos) {
            Ok((v, p)) => {
                self.pos = p;
                Ok(v)
            },
            Err(e) => Err(e),
        }
    }

    /// Reads a reference to an atom, and the atom's contents if its stream
    /// number occurs for the first time.
    pub fn read_numbered_string_ref(&mut self) -> (r: Result<NumberedString, FormatError>)
        requires
            old(self).wf(),
        ensures
            final(self).input() == old(self).input(),
            match rd_atom(old(self).state(), old(self).input(), old(self).position()) {
                Ok((st, p, num)) => {
                    &&& r is Ok
                    &&& r->Ok_0.number == num
                    &&& final(self).wf()
                    &&& final(self).state() == st
                    &&& final(self).position() == p
                    &&& extends_engine(old(self), final(self))
                    &&& num < st.atoms.len()
                    &&& r->Ok_0.string@ == st.atoms[num as int]
                    &&& old(self).position() < final(self).position() <= final(self).input().len()
                },
                Err(e) => r == Err::<NumberedString, FormatError>(e),
            },
    {
        reveal(rd_atom);
        let ghost st0 = self.state();
        let ghost s = self.bytes@;
        let ghost p0 = self.pos as nat;
        let string_number = match self.read_usize_varenc() {
            Ok(number) => number,
            Err(error) => return Err(error),
        };
        if self.is_first_read_string(string_number) {
            let (text, p) = match read_escaped_text(self.bytes.as_slice(), self.pos) {
                Ok(read) => read,
                Err(error) => return Err(error),
            };
            self.pos = p;
            let ghost before = self.numbering;
            let numbered = self.numbering.number_string(&text);
            proof {
                let (atoms, num) = intern(st0.atoms, text@);
                before.lemma_atoms_distinct();
                if st0.atoms.contains(text@) {
                    let i = choose|i: nat| i < st0.atoms.len() && st0.atoms[i as int] == text@;
                    assert(i == numbered.number);
                }
                self.lemma_maps_grow(before);
            }
            match self.add_string_mapping(string_number, numbered.number) {
                Ok(()) => {},
                Err(error) => return Err(error),
            }
            Ok(numbered)
        } else {
            proof {
                lemma_extends_refl(&self.numbering);
            }
            let mapped_number = if string_number < self.string_map.len() {
                self.string_map[string_number]
            } else {
                None
            };
            match mapped_number {
                Some(num) => {
                    match self.numbering.numbered_string_from_number(num) {
                        Some(numbered) => Ok(numbered),
                        None => Err(FormatError::UnknownReference),
                    }
                },
                None => Err(FormatError::UnknownReference),
            }
        }
    }

    /// Reads a reference to a node, and the node's contents if its stream
    /// number occurs for the first time: its id, then `'S'` and a positional
    /// child or `'N'`, a key and a value for each child, up to the end byte.
    #[verifier::rlimit(100)]
    pub fn read_numbered_irep_ref(&mut self) -> (r: Result<NumberedIrep, FormatError>)
        requires
            old(self).wf(),
        ensures
            final(self).input() == old(self).input(),
            match rd_node(old(self).state(), old(self).input(), old(self).position()) {
                Ok((st, p, num)) => {
                    &&& r is Ok
                    &&& r->Ok_0.number == num
                    &&& final(self).wf()
                    &&& final(self).state() == st
                    &&& final(self).position() == p
                    &&& extends_engine(old(self), final(self))
                    &&& final(self).engine().holds(r->Ok_0)
                    &&& old(self).position() < final(self).position() <= final(self).input().len()
                },
                Err(e) => r == Err::<NumberedIrep, FormatError>(e),
            },
        decreases old(self).input().len() - old(self).position(), 1int,
    {
        let ghost s = self.bytes@;
        let ghost p0 = self.pos as nat;
        let ghost st0 = self.state();
        let ghost e0 = self.numbering;
        let irep_number = match self.read_usize_varenc() {
            Ok(number) => number,
            Err(error) => return Err(error),
        };
        if !self.is_first_read_irep(irep_number) {
            let mapped_number = if irep_number < self.irep_map.len() {
                self.irep_map[irep_number]
            } else {
                None
            };
            return match mapped_number {
                Some(num) => {
                    proof {
                        self.numbering.lemma_wf();
                        lemma_extends_refl(&self.numbering);
                    }
                    match self.numbering.numbered_irep_from_number(num) {
                        Some(numbered) => Ok(numbered),
                        None => Err(FormatError::UnknownReference),
                    }
                },
                None => Err(FormatError::UnknownReference),
            };
        }
        let ghost st1 = self.state();
        let id = match self.read_numbered_string_ref() {
            Ok(numbered) => numbered.number,
            Err(error) => return Err(error),
        };
        let mut sub: Vec<usize> = Vec::new();
        let mut named_sub: Vec<(usize, usize)> = Vec::new();
        let ghost start = self.pos as nat;
        let ghost st2 = self.state();
        proof {
            assert(sub@ =~= Seq::<usize>::empty());
            assert(named_sub@ =~= Seq::<(usize, usize)>::empty());
            lemma_extends_refl(&self.numbering);
        }
        loop
            invariant
                self.wf(),
                self.bytes@ == s,
                s == old(self).bytes@,
                p0 == old(self).pos,
                st0 == old(self).state(),
                e0 == old(self).numbering,
                p0 < start <= self.pos <= s.len(),
                extends(&e0, &self.numbering),
                id < self.numbering.atoms().len(),
                forall|p: int| 0 <= p < sub@.len() ==> #[trigger] sub@[p] < self.numbering.keys().len(),
                forall|p: int|
                    0 <= p < named_sub@.len() ==> (#[trigger] named_sub@[p]).0
                        < self.numbering.atoms().len() && named_sub@[p].1
                        < self.numbering.keys().len(),
                rd_node(st0, s, p0) == rd_tags(
                    self.state(),
                    s,
                    self.pos as nat,
                    id as nat,
                    sub@,
                    named_sub@,
                    irep_number as nat,
                ),
            decreases s.len() - self.pos,
        {
            let ghost p = self.pos as nat;
            let ghost st = self.state();
            let ghost e = self.numbering;
            let c = match self.read_u8() {
                Ok(c) => c,
                Err(error) => return Err(error),
            };
            if c == TAG_SUB {
                if named_sub.len() > 0 {
                    return Err(FormatError::SubAfterNamed);
                }
                let decoded_sub = match self.read_numbered_irep_ref() {
                    Ok(numbered) => numbered,
                    Err(error) => return Err(error),
                };
                proof {
                    self.numbering.lemma_wf();
                    lemma_extends_trans(&e0, &e, &self.numbering);
                }
                sub.push(decoded_sub.number);
            } else if c == TAG_NAMED {
                let decoded_name = match self.read_numbered_string_ref() {
                    Ok(numbered) => numbered,
                    Err(error) => return Err(error),
                };
                let ghost e_mid = self.numbering;
                let decoded_sub = match self.read_numbered_irep_ref() {
                    Ok(numbered) => numbered,
                    Err(error) => return Err(error),
                };
                proof {
                    self.numbering.lemma_wf();
                    lemma_extends_trans(&e, &e_mid, &self.numbering);
                    lemma_extends_trans(&e0, &e, &self.numbering);
                }
                named_sub.push((decoded_name.number, decoded_sub.number));
            } else if c == TAG_END {
                let key = IrepKey::new(id, sub.as_slice(), named_sub.as_slice());
                proof {
                    lemma_packed_key(id, sub@, named_sub@);
                }
                let ghost before = self.numbering;
                let numbered = self.numbering.get_or_insert(&key);
                proof {
                    before.lemma_keys_distinct();
                    self.numbering.lemma_wf();
                    if st.keys.contains(key.numbers@) {
                        let i = choose|i: nat| i < st.keys.len() && st.keys[i as int] == key.numbers@;
                        assert(i == numbered.number);
                    }
                    self.lemma_maps_grow(before);
                    lemma_extends_trans(&e0, &before, &self.numbering);
                }
                match self.add_irep_mapping(irep_number, numbered.number) {
                    Ok(()) => {},
                    Err(error) => return Err(error),
                }
                return Ok(numbered);
            } else {
                return Err(FormatError::UnknownTag);
            }
        }
    }

    /// Reads a record: its three trees and five atoms by reference, the
    /// reserved zero byte, and its flags.
    #[verifier::rlimit(100)]
    pub fn read_symbol(&mut self) -> (r: Result<ReadSymbol, FormatError>)
        requires
            old(self).wf(),
        ensures
            final(self).input() == old(self).input(),
            match rd_symbol(old(self).state(), old(self).input(), old(self).position()) {
                Ok((st, p, rec)) => {
                    &&& r is Ok
                    &&& r->Ok_0.record() == rec
                    &&& final(self).wf()
                    &&& final(self).state() == st
                    &&& final(self).position() == p
                    &&& extends_engine(old(self), final(self))
                },
                Err(e) => r == Err::<ReadSymbol, FormatError>(e),
            },
    {
        reveal(rd_symbol);
        reveal(rd_three_nodes);
        reveal(rd_five_atoms);
        let ghost e0 = self.numbering;
        let typ = match self.read_numbered_irep_ref() {
            Ok(n) => n,
            Err(error) => return Err(error),
        };
        let ghost e1 = self.numbering;
        let value = match self.read_numbered_irep_ref() {
            Ok(n) => n,
            Err(error) => return Err(error),
        };
        let ghost e2 = self.numbering;
        let location = match self.read_numbered_irep_ref() {
            Ok(n) => n,
            Err(error) => return Err(error),
        };
        let ghost e3 = self.numbering;
        let name = match self.read_numbered_string_ref() {
            Ok(n) => n,
            Err(error) => return Err(error),
        };
        let ghost e4 = self.numbering;
        let module = match self.read_numbered_string_ref() {
            Ok(n) => n,
            Err(error) => return Err(error),
        };
        let ghost e5 = self.numbering;
        let base_name = match self.read_numbered_string_ref() {
            Ok(n) => n,
            Err(error) => return Err(error),
        };
        let ghost e6 = self.numbering;
        let mode = match self.read_numbered_string_ref() {
            Ok(n) => n,
            Err(error) => return Err(error),
        };
        let ghost e7 = self.numbering;
        let pretty_name = match self.read_numbered_string_ref() {
            Ok(n) => n,
            Err(error) => return Err(error),
        };
        let ghost e8 = self.numbering;
        proof {
            lemma_extends_trans(&e0, &e1, &e2);
            lemma_extends_trans(&e0, &e2, &e3);
            lemma_extends_trans(&e0, &e3, &e4);
            lemma_extends_trans(&e0, &e4, &e5);
            lemma_extends_trans(&e0, &e5, &e6);
            lemma_extends_trans(&e0, &e6, &e7);
            lemma_extends_trans(&e0, &e7, &e8);
        }
        let symordering = match self.read_u8() {
            Ok(u) => u,
            Err(error) => return Err(error),
        };
        if symordering != 0 {
            return Err(FormatError::ReservedNotZero);
        }
        let flags = match self.read_usize_varenc() {
            Ok(w) => w,
            Err(error) => return Err(error),
        };
        if flags >= 0x2_0000 {
            return Err(FormatError::UnknownFlags);
        }
        Ok(
            ReadSymbol {
                typ,
                value,
                location,
                name,
                module,
                base_name,
                mode,
                pretty_name,
                flags: SymbolFlags::from_word(flags),
            },
        )
    }

    /// Reads the record count, then that many records.
    pub fn read_symbol_table(&mut self) -> (r: Result<Vec<ReadSymbol>, FormatError>)
        requires
            old(self).wf(),
        ensures
            final(self).input() == old(self).input(),
            match usize_decode(old(self).input().skip(old(self).position() as int)) {
                Err(e) => r == Err::<Vec<ReadSymbol>, FormatError>(e),
                Ok((count, n)) => match rd_records(
                    old(self).state(),
                    old(self).input(),
                    old(self).position() + n,
                    count as nat,
                ) {
                    Ok((st, p, recs)) => {
                        &&& r is Ok
                        &&& r->Ok_0@.len() == recs.len()
                        &&& forall|i: int|
                            0 <= i < recs.len() ==> (#[trigger] r->Ok_0@[i]).record() == recs[i]
                        &&& final(self).wf()
                        &&& final(self).state() == st
                        &&& final(self).position() == p
                    },
                    Err(e) => r == Err::<Vec<ReadSymbol>, FormatError>(e),
                },
            },
    {
        let symbol_table_len = match self.read_usize_varenc() {
            Ok(count) => count,
            Err(error) => return Err(error),
        };
        let ghost s = self.bytes@;
        let ghost st0 = old(self).state();
        let ghost p0 = self.pos as nat;
        let ghost n0 = (p0 - old(self).pos) as nat;
        let mut symbols: Vec<ReadSymbol> = Vec::new();
        let mut i: usize = 0;
        while i < symbol_table_len
            invariant
                self.wf(),
                self.bytes@ == s,
                s == old(self).bytes@,
                st0 == old(self).state(),
                p0 == old(self).pos + n0,
                usize_decode(s.skip(old(self).pos as int)) == Ok::<(usize, nat), FormatError>(
                    (symbol_table_len, n0),
                ),
                i <= symbol_table_len,
                symbols@.len() == i,
                rd_records(st0, s, p0, i as nat) matches Ok((st, p, recs)) && st == self.state()
                    && p == self.pos && recs.len() == i && forall|j: int|
                    0 <= j < i ==> (#[trigger] symbols@[j]).record() == recs[j],
            decreases symbol_table_len - i,
        {
            let ghost st_i = self.state();
            let ghost p_i = self.pos as nat;
            let symbol = match self.read_symbol() {
                Ok(symbol) => symbol,
                Err(error) => {
                    proof {
                        assert(rd_symbol(st_i, s, p_i) == Err::<(ReadState, nat, ReadRecord), FormatError>(error));
                        assert(rd_records(st0, s, p0, (i + 1) as nat) == Err::<(ReadState, nat, Seq<ReadRecord>), FormatError>(error));
                        crate::reader_spec::lemma_records_err(
                            st0,
                            s,
                            p0,
                            (i + 1) as nat,
                            symbol_table_len as nat,
                        );
                    }
                    return Err(error);
                },
            };
            symbols.push(symbol);
            i = i + 1;
        }
        Ok(symbols)
    }

    /// Reads the secondary table, which must be empty.
    pub fn read_function_map(&mut self) -> (r: Result<(), FormatError>)
        requires
            old(self).wf(),
        ensures
            final(self).wf(),
            final(self).input() == old(self).input(),
            final(self).state() == old(self).state(),
            match usize_decode(old(self).input().skip(old(self).position() as int)) {
                Err(e) => r == Err::<(), FormatError>(e),
                Ok((k, n)) => if k != 0 {
                    r == Err::<(), FormatError>(FormatError::SecondaryTableNotEmpty)
                } else {
                    r is Ok
                },
            },
    {
        let goto_function_len = match self.read_usize_varenc() {
            Ok(count) => count,
            Err(error) => return Err(error),
        };
        match Self::expect(goto_function_len, 0, FormatError::SecondaryTableNotEmpty) {
            Ok(_) => Ok(()),
            Err(error) => Err(error),
        }
    }

    /// Reads the header: the magic bytes and the format version.
    pub fn read_header(&mut self) -> (r: Result<(), FormatError>)
        requires
            old(self).wf(),
            old(self).position() == 0,
        ensures
            final(self).wf(),
            final(self).input() == old(self).input(),
            final(self).state() == old(self).state(),
            match rd_header(old(self).input()) {
                Err(e) => r == Err::<(), FormatError>(e),
                Ok(p) => r is Ok && final(self).position() == p,
            },
    {
        let magic: [u8; 4] = [0x7f, 0x47, 0x42, 0x46];
        let mut i: usize = 0;
        while i < 4
            invariant
                self.wf(),
                self.bytes@ == old(self).bytes@,
                self.state() == old(self).state(),
                i <= 4,
                self.pos == i,
                magic@ == seq![0x7fu8, 0x47u8, 0x42u8, 0x46u8],
                rd_magic(self.bytes@, 0) == rd_magic(self.bytes@, i as nat),
            decreases 4 - i,
        {
            let u = match self.read_u8() {
                Ok(u) => u,
                Err(error) => return Err(error),
            };
            if u != magic[i] {
                return Err(FormatError::BadMagic);
            }
            i = i + 1;
        }
        let goto_binary_version = match self.read_usize_varenc() {
            Ok(version) => version,
            Err(error) => return Err(error),
        };
        if goto_binary_version != VERSION {
            return Err(FormatError::UnsupportedVersion);
        }
        Ok(())
    }

    /// Reads a whole stream: the header, the symbol table and the empty
    /// secondary table; returns the records read.
    pub fn read_file(&mut self) -> (r: Result<Vec<ReadSymbol>, FormatError>)
        requires
            old(self).wf(),
            old(self).position() == 0,
            old(self).state() == empty_state(),
        ensures
            match rd_file(old(self).input()) {
                Ok((st, recs)) => {
                    &&& r is Ok
                    &&& r->Ok_0@.len() == recs.len()
                    &&& forall|i: int|
                        0 <= i < recs.len() ==> (#[trigger] r->Ok_0@[i]).record() == recs[i]
                    &&& final(self).wf()
                    &&& final(self).state() == st
                },
                Err(e) => r == Err::<Vec<ReadSymbol>, FormatError>(e),
            },
    {
        match self.read_header() {
            Ok(()) => {},
            Err(error) => return Err(error),
        }
        let symbols = match self.read_symbol_table() {
            Ok(symbols) => symbols,
            Err(error) => return Err(error),
        };
        match self.read_function_map() {
            Ok(()) => {},
            Err(error) => return Err(error),
        }
        Ok(symbols)
    }

    /// Builds the node that the reader's number `ni` stands for.
    pub fn irep_of(&self, ni: &NumberedIrep) -> (r: Irep)
        requires
            self.wf(),
            self.engine().holds(*ni),
        ensures
            r@ == self.engine().tree(ni.number as nat),
    {
        self.numbering.irep_of(ni)
    }

    /// After the numbering grew, the maps still stand in it.
    proof fn lemma_maps_grow(&self, before: IrepNumbering)
        requires
            self.numbering.wf(),
            self.pos <= self.bytes@.len(),
            extends(&before, &self.numbering),
            forall|n: int|
                0 <= n < self.string_map@.len() && (#[trigger] self.string_map@[n]) is Some
                    ==> self.string_map@[n]->0 < before.atoms().len(),
            forall|n: int|
                0 <= n < self.irep_map@.len() && (#[trigger] self.irep_map@[n]) is Some
                    ==> self.irep_map@[n]->0 < before.keys().len(),
        ensures
            self.wf(),
    {
    }
}

/// A record as read: its numbered trees and atoms, and its flags.
pub struct ReadSymbol {
    pub typ: NumberedIrep,
    pub value: NumberedIrep,
    pub location: NumberedIrep,
    pub name: NumberedString,
    pub module: NumberedString,
    pub base_name: NumberedString,
    pub mode: NumberedString,
    pub pretty_name: NumberedString,
    pub flags: SymbolFlags,
}

impl ReadSymbol {
    /// The numbers and flags of this record.
    pub open spec fn record(&self) -> ReadRecord {
        ReadRecord {
            typ: self.typ.number as nat,
            value: self.value.number as nat,
            location: self.location.number as nat,
            name: self.name.number as nat,
            module: self.module.number as nat,
            base_name: self.base_name.number as nat,
            mode: self.mode.number as nat,
            pretty_name: self.pretty_name.number as nat,
            flags: self.flags,
        }
    }
}

/// The reader's numbering after a read extends the one before it.
pub open spec fn extends_engine(a: &GotoBinaryDeserializer, b: &GotoBinaryDeserializer) -> bool {
    extends(&a.engine(), &b.engine())
}

/// Maps `n` to `v` in `m`, growing `m` as needed, unless `n` is mapped.
fn add_mapping(m: &mut Vec<Option<usize>>, n: usize, v: usize) -> (r: Result<(), FormatError>)
    ensures
        map_of(old(m)@, n as nat) is Some ==> r == Err::<(), FormatError>(
            FormatError::DuplicateMapping,
        ),
        map_of(old(m)@, n as nat) is None ==> r is Ok && final(m)@ == mapped(old(m)@, n as nat, v),
{
    if n < m.len() {
        if m[n].is_some() {
            return Err(FormatError::DuplicateMapping);
        }
    }
    let ghost grown = if (n as nat) < old(m)@.len() {
        old(m)@
    } else {
        old(m)@ + Seq::new((n + 1 - old(m)@.len()) as nat, |i: int| None::<usize>)
    };
    if n >= m.len() {
        while m.len() <= n
            invariant
                old(m)@.len() <= n,
                old(m)@.len() <= m@.len() <= n + 1,
                m@ == old(m)@ + Seq::new((m@.len() - old(m)@.len()) as nat, |i: int| None::<usize>),
            decreases n + 1 - m@.len(),
        {
            m.push(None);
            proof {
                assert(m@ =~= old(m)@ + Seq::new(
                    (m@.len() - old(m)@.len()) as nat,
                    |i: int| None::<usize>,
                ));
            }
        }
    }
    assert(m@ =~= grown);
    m.set(n, Some(v));
    proof {
        assert(m@ =~= mapped(old(m)@, n as nat, v));
    }
    Ok(())
}

} // verus!
