//! Writing a symbol table as a stream of bytes, each distinct atom and node
//! in full once and by number everywhere else.
use crate::atom_codec::{atom_encoding, write_escaped_text};
use crate::numbering::{
    extends, key_name, key_nof_named, key_nof_sub, key_sub, key_valid, key_value, lemma_extends_trans,
    lemma_tree_preserved,
    IrepNumbering, NumberedIrep, NumberedString,
};
use crate::symbol::{flags_word, Symbol, SymbolTable};
use crate::tree::{Irep, Tree};
use crate::varint::{varint_encoding, write_usize_varenc};
use vstd::prelude::*;

verus! {

/// The format version that this library writes and reads.
pub const VERSION: usize = 5;

/// The tag byte before each positional child.
pub const TAG_SUB: u8 = 0x53;

/// The tag byte before each named child.
pub const TAG_NAMED: u8 = 0x4e;

/// The byte that ends a node's contents.
pub const TAG_END: u8 = 0;

/// How many times number `n` was written, as `counts` records it.
pub open spec fn count_of(counts: Seq<usize>, n: nat) -> nat {
    if n < counts.len() {
        counts[n as int] as nat
    } else {
        0
    }
}

/// `counts` after one more write of number `n`; a count that reached the
/// largest `usize` stays there.
pub open spec fn bumped(counts: Seq<usize>, n: nat) -> Seq<usize> {
    let grown = if n < counts.len() {
        counts
    } else {
        counts + Seq::new((n + 1 - counts.len()) as nat, |i: int| 0usize)
    };
    grown.update(n as int, if grown[n as int] < usize::MAX { (grown[n as int] + 1) as usize } else { grown[n as int] })
}

/// The occurrence counts of a stream being written: how many times each atom
/// number and each node number has been written.
pub struct Counts {
    pub atoms: Seq<usize>,
    pub nodes: Seq<usize>,
}

/// The bytes of a reference to atom `n`, and the counts after it: its number,
/// then its contents if it had not been written before.
pub open spec fn atom_ref_bytes(e: &IrepNumbering, c: Counts, n: nat) -> (Counts, Seq<u8>) {
    let c2 = Counts { atoms: bumped(c.atoms, n), nodes: c.nodes };
    if count_of(c.atoms, n) == 0 {
        (c2, varint_encoding(n) + atom_encoding(e.atoms()[n as int]))
    } else {
        (c2, varint_encoding(n))
    }
}

/// The bytes of a reference to node `n`, and the counts after it: its number,
/// then, if it had not been written before, a reference to its id, each
/// positional child's reference after `'S'`, each named child's key and value
/// references after `'N'`, and the end byte.
pub open spec fn node_ref_bytes(e: &IrepNumbering, c: Counts, n: nat) -> (Counts, Seq<u8>)
    decreases n, 2int, 0int,
{
    let c1 = Counts { atoms: c.atoms, nodes: bumped(c.nodes, n) };
    if count_of(c.nodes, n) != 0 || n >= e.keys().len() {
        (c1, varint_encoding(n))
    } else {
        let k = e.keys()[n as int];
        let (c2, b_id) = atom_ref_bytes(e, c1, k[0] as nat);
        let (c3, b_sub) = subs_bytes(e, c2, n, 0);
        let (c4, b_named) = named_bytes(e, c3, n, 0);
        (c4, varint_encoding(n) + b_id + b_sub + b_named + seq![TAG_END])
    }
}

/// The bytes of the positional children of node `n` from the `i`-th on.
pub open spec fn subs_bytes(e: &IrepNumbering, c: Counts, n: nat, i: int) -> (Counts, Seq<u8>)
    decreases n, 1int, key_nof_sub(e.keys()[n as int]) - i,
{
    let k = e.keys()[n as int];
    if i < 0 || i >= key_nof_sub(k) || key_sub(k, i) >= n {
        (c, Seq::empty())
    } else {
        let (c1, b) = node_ref_bytes(e, c, key_sub(k, i) as nat);
        let (c2, rest) = subs_bytes(e, c1, n, i + 1);
        (c2, seq![TAG_SUB] + b + rest)
    }
}

/// The bytes of the named children of node `n` from the `j`-th on.
pub open spec fn named_bytes(e: &IrepNumbering, c: Counts, n: nat, j: int) -> (Counts, Seq<u8>)
    decreases n, 1int, key_nof_named(e.keys()[n as int]) - j,
{
    let k = e.keys()[n as int];
    if j < 0 || j >= key_nof_named(k) || key_value(k, j) >= n {
        (c, Seq::empty())
    } else {
        let (c1, b_key) = atom_ref_bytes(e, c, key_name(k, j) as nat);
        let (c2, b_value) = node_ref_bytes(e, c1, key_value(k, j) as nat);
        let (c3, rest) = named_bytes(e, c2, n, j + 1);
        (c3, seq![TAG_NAMED] + b_key + b_value + rest)
    }
}

/// The numbers under which a record's trees and atoms were numbered.
pub struct NumberedRecord {
    pub typ: nat,
    pub value: nat,
    pub location: nat,
    pub name: nat,
    pub module: nat,
    pub base_name: nat,
    pub mode: nat,
    pub pretty_name: nat,
}

/// `r` holds the numbers of the trees and atoms of `s` in engine `e`.
pub open spec fn numbers_record(e: &IrepNumbering, s: &Symbol, r: NumberedRecord) -> bool {
    &&& r.typ < e.keys().len() && e.tree(r.typ) == s.typ@
    &&& r.value < e.keys().len() && e.tree(r.value) == s.value@
    &&& r.location < e.keys().len() && e.tree(r.location) == s.location@
    &&& r.name < e.atoms().len() && e.atoms()[r.name as int] == s.name@
    &&& r.module < e.atoms().len() && e.atoms()[r.module as int] == s.module@
    &&& r.base_name < e.atoms().len() && e.atoms()[r.base_name as int] == s.base_name@
    &&& r.mode < e.atoms().len() && e.atoms()[r.mode as int] == s.mode@
    &&& r.pretty_name < e.atoms().len() && e.atoms()[r.pretty_name as int] == s.pretty_name@
}

/// The bytes of a record: its three node references, its five atom
/// references, a zero byte and its flag word.
#[verifier::opaque]
pub open spec fn record_bytes(e: &IrepNumbering, c: Counts, r: NumberedRecord, flags: nat) -> (
    Counts,
    Seq<u8>,
) {
    let (c1, b1) = node_ref_bytes(e, c, r.typ);
    let (c2, b2) = node_ref_bytes(e, c1, r.value);
    let (c3, b3) = node_ref_bytes(e, c2, r.location);
    let (c4, b4) = atom_ref_bytes(e, c3, r.name);
    let (c5, b5) = atom_ref_bytes(e, c4, r.module);
    let (c6, b6) = atom_ref_bytes(e, c5, r.base_name);
    let (c7, b7) = atom_ref_bytes(e, c6, r.mode);
    let (c8, b8) = atom_ref_bytes(e, c7, r.pretty_name);
    (c8, b1 + b2 + b3 + b4 + b5 + b6 + b7 + b8 + seq![0u8] + varint_encoding(flags))
}

/// The header of a stream.
pub open spec fn header_bytes() -> Seq<u8> {
    seq![0x7fu8, 0x47u8, 0x42u8, 0x46u8] + varint_encoding(VERSION as nat)
}

/// The bytes of records `nums`, with flag words `flags`, one after the other.
pub open spec fn records_bytes(
    e: &IrepNumbering,
    c: Counts,
    nums: Seq<NumberedRecord>,
    flags: Seq<nat>,
) -> (Counts, Seq<u8>)
    decreases nums.len(),
{
    if nums.len() == 0 || flags.len() == 0 {
        (c, Seq::empty())
    } else {
        let (c1, b1) = records_bytes(e, c, nums.drop_last(), flags.drop_last());
        let (c2, b2) = record_bytes(e, c1, nums.last(), flags.last());
        (c2, b1 + b2)
    }
}

/// The flag words of the records of `t`.
pub open spec fn table_flags(t: &SymbolTable) -> Seq<nat> {
    t.symbol_table@.map_values(|s: Symbol| flags_word(s.spec_flags()))
}

/// The numbered trees and atoms of a record.
struct SymbolNumbers {
    typ: NumberedIrep,
    value: NumberedIrep,
    location: NumberedIrep,
    name: NumberedString,
    module: NumberedString,
    base_name: NumberedString,
    mode: NumberedString,
    pretty_name: NumberedString,
}

impl SymbolNumbers {
    spec fn spec_numbers(&self) -> NumberedRecord {
        NumberedRecord {
            typ: self.typ.number as nat,
            value: self.value.number as nat,
            location: self.location.number as nat,
            name: self.name.number as nat,
            module: self.module.number as nat,
            base_name: self.base_name.number as nat,
            mode: self.mode.number as nat,
            pretty_name: self.pretty_name.number as nat,
        }
    }

    spec fn held_by(&self, e: &IrepNumbering) -> bool {
        &&& e.holds(self.typ)
        &&& e.holds(self.value)
        &&& e.holds(self.location)
        &&& self.name.string@ == e.atoms()[self.name.number as int]
        &&& self.module.string@ == e.atoms()[self.module.number as int]
        &&& self.base_name.string@ == e.atoms()[self.base_name.number as int]
        &&& self.mode.string@ == e.atoms()[self.mode.number as int]
        &&& self.pretty_name.string@ == e.atoms()[self.pretty_name.number as int]
    }
}

/// A numbered node keeps its place and content as the engine grows.
proof fn lemma_keeps_node(e1: &IrepNumbering, e2: &IrepNumbering, ni: NumberedIrep, t: Tree)
    requires
        e1.wf(),
        extends(e1, e2),
        e1.holds(ni),
        e1.tree(ni.number as nat) == t,
    ensures
        e2.holds(ni),
        e2.tree(ni.number as nat) == t,
{
    e1.lemma_wf();
    lemma_tree_preserved(e1, e2, ni.number as nat);
    assert(e2.entries()[ni.number as int] == e1.entries()[ni.number as int]);
}

/// A numbered atom keeps its place as the engine grows.
proof fn lemma_keeps_atom(e1: &IrepNumbering, e2: &IrepNumbering, n: nat)
    requires
        extends(e1, e2),
        n < e1.atoms().len(),
    ensures
        n < e2.atoms().len(),
        e2.atoms()[n as int] == e1.atoms()[n as int],
{
    assert(e1.atoms() == e2.atoms().subrange(0, e1.atoms().len() as int));
    assert(e2.atoms().subrange(0, e1.atoms().len() as int)[n as int] == e2.atoms()[n as int]);
}

/// Writes symbol tables, and the atoms and nodes in them, as bytes.
pub struct GotoBinarySerializer {
    /// The bytes written so far, flushed.
    writer: Vec<u8>,
    /// The bytes written since the last flush.
    buf: Vec<u8>,
    /// The numbering used for structural sharing.
    numbering: IrepNumbering,
    /// How many times each node was written.
    irep_count: Vec<usize>,
    /// How many times each atom was written.
    string_count: Vec<usize>,
}

impl GotoBinarySerializer {
    /// Everything written so far, flushed or not.
    pub closed spec fn stream(&self) -> Seq<u8> {
        self.writer@ + self.buf@
    }

    /// The occurrence counts.
    pub closed spec fn counts(&self) -> Counts {
        Counts { atoms: self.string_count@, nodes: self.irep_count@ }
    }

    /// The numbering used for structural sharing.
    pub closed spec fn engine(&self) -> IrepNumbering {
        self.numbering
    }

    pub closed spec fn wf(&self) -> bool {
        self.numbering.wf()
    }

    /// A well-formed serializer has a well-formed numbering, whose tables
    /// fit `usize` numbers.
    pub proof fn lemma_wf(&self)
        requires
            self.wf(),
        ensures
            self.engine().wf(),
            self.engine().atoms().len() <= usize::MAX,
            self.engine().keys().len() <= usize::MAX,
    {
        self.numbering.lemma_wf();
    }

    /// A serializer that has written nothing.
    pub fn new() -> (r: Self)
        ensures
            r.wf(),
            r.stream() == Seq::<u8>::empty(),
            r.counts() == (Counts { atoms: Seq::empty(), nodes: Seq::empty() }),
            r.engine().atoms() == Seq::<Seq<char>>::empty(),
            r.engine().keys() == Seq::<Seq<usize>>::empty(),
    {
        let r = GotoBinarySerializer {
            writer: Vec::new(),
            buf: Vec::new(),
            numbering: IrepNumbering::new(),
            irep_count: Vec::new(),
            string_count: Vec::new(),
        };
        proof {
            assert(r.stream() =~= Seq::<u8>::empty());
        }
        r
    }

    /// The bytes written so far.
    pub fn into_bytes(self) -> (r: Vec<u8>)
        ensures
            r@ == self.stream(),
    {
        let mut out = self.writer;
        let mut buf = self.buf;
        out.append(&mut buf);
        out
    }

    /// Records one more write of atom `u`; true iff it was never written
    /// before.
    pub fn is_first_write_string(&mut self, u: usize) -> (r: bool)
        ensures
            r == (count_of(old(self).counts().atoms, u as nat) == 0),
            final(self).counts() == (Counts {
                atoms: bumped(old(self).counts().atoms, u as nat),
                nodes: old(self).counts().nodes,
            }),
            final(self).stream() == old(self).stream(),
            final(self).engine() == old(self).engine(),
    {
        let r = bump_count(&mut self.string_count, u);
        r
    }

    /// Records one more write of node `u`; true iff it was never written
    /// before.
    pub fn is_first_write_irep(&mut self, u: usize) -> (r: bool)
        ensures
            r == (count_of(old(self).counts().nodes, u as nat) == 0),
            final(self).counts() == (Counts {
                atoms: old(self).counts().atoms,
                nodes: bumped(old(self).counts().nodes, u as nat),
            }),
            final(self).stream() == old(self).stream(),
            final(self).engine() == old(self).engine(),
    {
        let r = bump_count(&mut self.irep_count, u);
        r
    }

    /// Moves the bytes written since the last flush to the output.
    pub fn flush(&mut self)
        ensures
            final(self).stream() == old(self).stream(),
            final(self).counts() == old(self).counts(),
            final(self).engine() == old(self).engine(),
    {
        self.writer.append(&mut self.buf);
        proof {
            assert(self.stream() =~= old(self).stream());
        }
    }

    /// Writes one byte.
    pub fn write_u8(&mut self, u: u8)
        ensures
            final(self).stream() == old(self).stream().push(u),
            final(self).counts() == old(self).counts(),
            final(self).engine() == old(self).engine(),
    {
        self.buf.push(u);
        proof {
            assert(self.stream() =~= old(self).stream().push(u));
        }
    }

    /// Writes `u` as a varint.
    pub fn write_usize_varenc(&mut self, u: usize)
        ensures
            final(self).stream() == old(self).stream() + varint_encoding(u as nat),
            final(self).counts() == old(self).counts(),
            final(self).engine() == old(self).engine(),
    {
        write_usize_varenc(&mut self.buf, u);
        proof {
            assert(self.stream() =~= old(self).stream() + varint_encoding(u as nat));
        }
    }

    /// Writes a reference to a numbered atom: its number, then its contents
    /// if it was never written before.
    pub fn write_numbered_string_ref(&mut self, numbered_string: &NumberedString)
        requires
            old(self).wf(),
            numbered_string.number < old(self).engine().atoms().len(),
            numbered_string.string@ == old(self).engine().atoms()[numbered_string.number as int],
        ensures
            final(self).wf(),
            final(self).engine() == old(self).engine(),
            (final(self).counts(), final(self).stream()) == ({
                let (c, b) = atom_ref_bytes(
                    &old(self).engine(),
                    old(self).counts(),
                    numbered_string.number as nat,
                );
                (c, old(self).stream() + b)
            }),
    {
        let num = numbered_string.number;
        self.write_usize_varenc(num);
        let ghost mid = self.stream();
        if self.is_first_write_string(num) {
            write_escaped_text(&mut self.buf, numbered_string.string.as_str());
            proof {
                assert(self.stream() =~= mid + atom_encoding(numbered_string.string@));
            }
        }
        self.flush();
        proof {
            let (c, b) = atom_ref_bytes(&old(self).engine(), old(self).counts(), num as nat);
            assert(self.stream() =~= old(self).stream() + b);
        }
    }

    /// Writes a reference to a numbered node: its number, then, if it was
    /// never written before, its id and children, each by reference.
    pub fn write_numbered_irep_ref(&mut self, irep: &NumberedIrep)
        requires
            old(self).wf(),
            old(self).engine().holds(*irep),
        ensures
            final(self).wf(),
            final(self).engine() == old(self).engine(),
            (final(self).counts(), final(self).stream()) == ({
                let (c, b) = node_ref_bytes(
                    &old(self).engine(),
                    old(self).counts(),
                    irep.number as nat,
                );
                (c, old(self).stream() + b)
            }),
        decreases irep.number, 2int, 0int,
    {
        let num = irep.number;
        let ghost e = self.numbering;
        proof {
            e.lemma_wf();
        }
        self.write_usize_varenc(num);
        if self.is_first_write_irep(num) {
            let id = self.numbering.id(irep);
            self.write_numbered_string_ref(&id);
            self.write_subs(irep, 0);
            self.write_named_subs(irep, 0);
            self.write_u8(TAG_END);
            proof {
                let c0 = old(self).counts();
                let c1 = Counts { atoms: c0.atoms, nodes: bumped(c0.nodes, num as nat) };
                let k = e.keys()[num as int];
                let (c2, b_id) = atom_ref_bytes(&e, c1, k[0] as nat);
                let (c3, b_sub) = subs_bytes(&e, c2, num as nat, 0);
                let (c4, b_named) = named_bytes(&e, c3, num as nat, 0);
                assert(self.stream() =~= old(self).stream() + (varint_encoding(num as nat) + b_id
                    + b_sub + b_named + seq![TAG_END]));
            }
        }
        self.flush();
    }

    /// Numbers the node `irep` in this serializer's numbering.
    pub fn number_irep(&mut self, irep: &Irep) -> (r: NumberedIrep)
        requires
            old(self).wf(),
        ensures
            final(self).wf(),
            extends(&old(self).engine(), &final(self).engine()),
            final(self).engine().holds(r),
            final(self).engine().tree(r.number as nat) == irep@,
            (exists|m: nat| m < old(self).engine().keys().len() && old(self).engine().tree(m)
                == irep@) ==> final(self).engine() == old(self).engine(),
            final(self).counts() == old(self).counts(),
            final(self).stream() == old(self).stream(),
    {
        self.numbering.number_irep(irep)
    }

    /// How many times node number `n` has been written.
    pub fn irep_count(&self, n: usize) -> (r: usize)
        ensures
            r == count_of(self.counts().nodes, n as nat),
    {
        if n < self.irep_count.len() {
            self.irep_count[n]
        } else {
            0
        }
    }

    /// Numbers the atom `string`, then writes a reference to it.
    pub fn write_string_ref(&mut self, string: &String)
        requires
            old(self).wf(),
        ensures
            final(self).wf(),
            extends(&old(self).engine(), &final(self).engine()),
            exists|n: usize|
                n < final(self).engine().atoms().len() && final(self).engine().atoms()[n as int]
                    == string@ && (final(self).counts(), final(self).stream()) == ({
                    let (c, b) = atom_ref_bytes(&final(self).engine(), old(self).counts(), n as nat);
                    (c, old(self).stream() + b)
                }),
    {
        let numbered_string = self.numbering.number_string(string);
        let ghost e = self.numbering;
        self.write_numbered_string_ref(&numbered_string);
        assert(self.engine() == e);
        let ghost n = numbered_string.number;
        assert(n < self.engine().atoms().len() && self.engine().atoms()[n as int] == string@);
    }

    /// Numbers the node `irep`, then writes a reference to it.
    pub fn write_irep_ref(&mut self, irep: &Irep)
        requires
            old(self).wf(),
        ensures
            final(self).wf(),
            extends(&old(self).engine(), &final(self).engine()),
            exists|n: usize|
                n < final(self).engine().keys().len() && final(self).engine().tree(n as nat) == irep@
                    && (final(self).counts(), final(self).stream()) == ({
                    let (c, b) = node_ref_bytes(&final(self).engine(), old(self).counts(), n as nat);
                    (c, old(self).stream() + b)
                }),
    {
        let numbered_irep = self.numbering.number_irep(irep);
        let ghost e = self.numbering;
        proof {
            e.lemma_wf();
        }
        self.write_numbered_irep_ref(&numbered_irep);
        assert(self.engine() == e);
    }

    /// Numbers the trees and atoms of a record, in the order type, value,
    /// location, name, module, base name, mode, pretty name.
    fn number_symbol(&mut self, symbol: &Symbol) -> (r: SymbolNumbers)
        requires
            old(self).wf(),
        ensures
            final(self).wf(),
            extends(&old(self).engine(), &final(self).engine()),
            r.held_by(&final(self).engine()),
            numbers_record(&final(self).engine(), symbol, r.spec_numbers()),
            final(self).counts() == old(self).counts(),
            final(self).stream() == old(self).stream(),
    {
        let ghost e0 = self.numbering;
        let typ = self.numbering.number_irep(&symbol.typ);
        let ghost e1 = self.numbering;
        let value = self.numbering.number_irep(&symbol.value);
        let ghost e2 = self.numbering;
        let location = self.numbering.number_irep(&symbol.location);
        let ghost e3 = self.numbering;
        let name = self.numbering.number_string(&symbol.name);
        let ghost e4 = self.numbering;
        let module = self.numbering.number_string(&symbol.module);
        let ghost e5 = self.numbering;
        let base_name = self.numbering.number_string(&symbol.base_name);
        let ghost e6 = self.numbering;
        let mode = self.numbering.number_string(&symbol.mode);
        let ghost e7 = self.numbering;
        let pretty_name = self.numbering.number_string(&symbol.pretty_name);
        let ghost e8 = self.numbering;
        proof {
            lemma_extends_trans(&e6, &e7, &e8);
            lemma_extends_trans(&e5, &e6, &e8);
            lemma_extends_trans(&e4, &e5, &e8);
            lemma_extends_trans(&e3, &e4, &e8);
            lemma_extends_trans(&e2, &e3, &e8);
            lemma_extends_trans(&e1, &e2, &e8);
            lemma_extends_trans(&e0, &e1, &e8);
            lemma_keeps_node(&e1, &e8, typ, symbol.typ@);
            lemma_keeps_node(&e2, &e8, value, symbol.value@);
            lemma_keeps_node(&e3, &e8, location, symbol.location@);
            lemma_keeps_atom(&e4, &e8, name.number as nat);
            lemma_keeps_atom(&e5, &e8, module.number as nat);
            lemma_keeps_atom(&e6, &e8, base_name.number as nat);
            lemma_keeps_atom(&e7, &e8, mode.number as nat);
            e8.lemma_wf();
        }
        SymbolNumbers { typ, value, location, name, module, base_name, mode, pretty_name }
    }

    /// Writes a record: its trees and atoms by reference, numbered in the
    /// order type, value, location, name, module, base name, mode, pretty
    /// name; then a zero byte and its flag word.
    pub fn write_symbol(&mut self, symbol: &Symbol)
        requires
            old(self).wf(),
        ensures
            final(self).wf(),
            extends(&old(self).engine(), &final(self).engine()),
            exists|r: NumberedRecord|
                numbers_record(&final(self).engine(), symbol, r) && (
                final(self).counts(),
                final(self).stream(),
                ) == ({
                    let (c, b) = record_bytes(
                        &final(self).engine(),
                        old(self).counts(),
                        r,
                        flags_word(symbol.spec_flags()),
                    );
                    (c, old(self).stream() + b)
                }),
    {
        let nums = self.number_symbol(symbol);
        let ghost e = self.numbering;
        let ghost start = self.stream();
        let ghost c0 = self.counts();
        self.write_numbered_irep_ref(&nums.typ);
        self.write_numbered_irep_ref(&nums.value);
        self.write_numbered_irep_ref(&nums.location);
        self.write_numbered_string_ref(&nums.name);
        self.write_numbered_string_ref(&nums.module);
        self.write_numbered_string_ref(&nums.base_name);
        self.write_numbered_string_ref(&nums.mode);
        self.write_numbered_string_ref(&nums.pretty_name);
        self.write_u8(0);
        let flags = symbol.flags().to_word();
        self.write_usize_varenc(flags);
        self.flush();
        proof {
            reveal(record_bytes);
            let r = nums.spec_numbers();
            let (c1, b1) = node_ref_bytes(&e, c0, r.typ);
            let (c2, b2) = node_ref_bytes(&e, c1, r.value);
            let (c3, b3) = node_ref_bytes(&e, c2, r.location);
            let (c4, b4) = atom_ref_bytes(&e, c3, r.name);
            let (c5, b5) = atom_ref_bytes(&e, c4, r.module);
            let (c6, b6) = atom_ref_bytes(&e, c5, r.base_name);
            let (c7, b7) = atom_ref_bytes(&e, c6, r.mode);
            let (c8, b8) = atom_ref_bytes(&e, c7, r.pretty_name);
            assert(self.stream() =~= start + (b1 + b2 + b3 + b4 + b5 + b6 + b7 + b8 + seq![0u8]
                + varint_encoding(flags as nat)));
            assert(numbers_record(&self.engine(), symbol, r));
        }
    }

    /// Writes the record count, then each record in order.
    pub fn write_symbol_table(&mut self, symbol_table: &SymbolTable)
        requires
            old(self).wf(),
        ensures
            final(self).wf(),
            extends(&old(self).engine(), &final(self).engine()),
            exists|nums: Seq<NumberedRecord>|
                nums.len() == symbol_table.symbol_table@.len() && (forall|p: int|
                    0 <= p < nums.len() ==> numbers_record(
                        &final(self).engine(),
                        &symbol_table.symbol_table@[p],
                        #[trigger] nums[p],
                    )) && (final(self).counts(), final(self).stream()) == ({
                    let (c, b) = #[trigger] records_bytes(
                        &final(self).engine(),
                        old(self).counts(),
                        nums,
                        table_flags(symbol_table),
                    );
                    (c, old(self).stream() + varint_encoding(
                        symbol_table.symbol_table@.len() as nat,
                    ) + b)
                }),
    {
        let len = symbol_table.symbol_table.len();
        self.write_usize_varenc(len);
        let ghost start = self.stream();
        let ghost c0 = self.counts();
        let ghost mut nums: Seq<NumberedRecord> = Seq::empty();
        let ghost flags = table_flags(symbol_table);
        proof {
            assert(flags.take(0) =~= Seq::<nat>::empty());
            assert(start =~= start + Seq::<u8>::empty());
        }
        let mut i: usize = 0;
        while i < len
            invariant
                len == symbol_table.symbol_table@.len(),
                flags == table_flags(symbol_table),
                flags.len() == len,
                self.wf(),
                extends(&old(self).engine(), &self.engine()),
                start == old(self).stream() + varint_encoding(len as nat),
                c0 == old(self).counts(),
                i <= len,
                nums.len() == i,
                forall|p: int|
                    0 <= p < i ==> numbers_record(
                        &self.engine(),
                        &symbol_table.symbol_table@[p],
                        #[trigger] nums[p],
                    ),
                (self.counts(), self.stream()) == ({
                    let (c, b) = records_bytes(&self.engine(), c0, nums, flags.take(i as int));
                    (c, start + b)
                }),
            decreases len - i,
        {
            let ghost e1 = self.engine();
            let ghost c1 = self.counts();
            let ghost s1 = self.stream();
            let symbol = &symbol_table.symbol_table[i];
            self.write_symbol(symbol);
            proof {
                let e2 = self.engine();
                let r = choose|r: NumberedRecord|
                    numbers_record(&e2, symbol, r) && (self.counts(), self.stream()) == ({
                        let (c, b) = record_bytes(&e2, c1, r, flags_word(symbol.spec_flags()));
                        (c, s1 + b)
                    });
                assert forall|p: int| 0 <= p < i implies record_in(&e1, #[trigger] nums[p]) by {
                    assert(numbers_record(&e1, &symbol_table.symbol_table@[p], nums[p]));
                }
                assert(flags[i as int] == flags_word(symbol.spec_flags()));
                lemma_table_step(&e1, &e2, c0, start, nums, flags, i as int, r);
                assert forall|p: int| 0 <= p < i implies numbers_record(
                    &e2,
                    &symbol_table.symbol_table@[p],
                    #[trigger] nums[p],
                ) by {
                    lemma_record_preserved(&e1, &e2, &symbol_table.symbol_table@[p], nums[p]);
                }
                nums = nums.push(r);
            }
            i = i + 1;
        }
        self.flush();
        proof {
            assert(flags.take(len as int) =~= flags);
            assert(self.stream() =~= {
                let (c, b) = records_bytes(&self.engine(), c0, nums, flags);
                old(self).stream() + varint_encoding(len as nat) + b
            });
        }
    }

    /// Writes an empty function map: a count of zero.
    pub fn write_function_map(&mut self)
        ensures
            final(self).stream() == old(self).stream() + varint_encoding(0),
            final(self).counts() == old(self).counts(),
            final(self).engine() == old(self).engine(),
    {
        self.write_usize_varenc(0);
        self.flush();
    }

    /// Writes the magic bytes and the format version.
    pub fn write_header(&mut self)
        ensures
            final(self).stream() == old(self).stream() + header_bytes(),
            final(self).counts() == old(self).counts(),
            final(self).engine() == old(self).engine(),
    {
        self.write_u8(0x7f);
        self.write_u8(0x47);
        self.write_u8(0x42);
        self.write_u8(0x46);
        self.write_usize_varenc(VERSION);
        self.flush();
        proof {
            assert(self.stream() =~= old(self).stream() + header_bytes());
        }
    }

    /// Writes a whole stream: the header, the symbol table, and an empty
    /// function map.
    pub fn write_file(&mut self, symbol_table: &SymbolTable)
        requires
            old(self).wf(),
        ensures
            final(self).wf(),
            extends(&old(self).engine(), &final(self).engine()),
            exists|nums: Seq<NumberedRecord>|
                nums.len() == symbol_table.symbol_table@.len() && (forall|p: int|
                    0 <= p < nums.len() ==> numbers_record(
                        &final(self).engine(),
                        &symbol_table.symbol_table@[p],
                        #[trigger] nums[p],
                    )) && (final(self).counts(), final(self).stream()) == ({
                    let (c, b) = #[trigger] records_bytes(
                        &final(self).engine(),
                        old(self).counts(),
                        nums,
                        table_flags(symbol_table),
                    );
                    (c, old(self).stream() + header_bytes() + varint_encoding(
                        symbol_table.symbol_table@.len() as nat,
                    ) + b + varint_encoding(0))
                }),
    {
        self.write_header();
        let ghost mid = self.stream();
        self.write_symbol_table(symbol_table);
        let ghost after = self.stream();
        self.write_function_map();
        self.flush();
        proof {
            let e = self.engine();
            let nums = choose|nums: Seq<NumberedRecord>|
                nums.len() == symbol_table.symbol_table@.len() && (forall|p: int|
                    0 <= p < nums.len() ==> numbers_record(
                        &e,
                        &symbol_table.symbol_table@[p],
                        #[trigger] nums[p],
                    )) && (self.counts(), after) == ({
                    let (c, b) = #[trigger] records_bytes(
                        &e,
                        old(self).counts(),
                        nums,
                        table_flags(symbol_table),
                    );
                    (c, mid + varint_encoding(symbol_table.symbol_table@.len() as nat) + b)
                });
            let (c, b) = records_bytes(&e, old(self).counts(), nums, table_flags(symbol_table));
            assert(self.stream() =~= old(self).stream() + header_bytes() + varint_encoding(
                symbol_table.symbol_table@.len() as nat,
            ) + b + varint_encoding(0));
        }
    }

    /// Writes the positional children of `irep` from the `i`-th on, each
    /// after its tag.
    fn write_subs(&mut self, irep: &NumberedIrep, i: usize)
        requires
            old(self).wf(),
            old(self).engine().holds(*irep),
            i <= key_nof_sub(old(self).engine().keys()[irep.number as int]),
        ensures
            final(self).wf(),
            final(self).engine() == old(self).engine(),
            (final(self).counts(), final(self).stream()) == ({
                let (c, b) = subs_bytes(
                    &old(self).engine(),
                    old(self).counts(),
                    irep.number as nat,
                    i as int,
                );
                (c, old(self).stream() + b)
            }),
        decreases irep.number, 1int, key_nof_sub(old(self).engine().keys()[irep.number as int]) - i,
    {
        let n = self.numbering.nof_sub(irep);
        if i >= n {
            proof {
                assert(self.stream() =~= old(self).stream() + Seq::<u8>::empty());
            }
            return;
        }
        let child = self.numbering.sub(irep, i);
        self.write_u8(TAG_SUB);
        self.write_numbered_irep_ref(&child);
        self.write_subs(irep, i + 1);
        proof {
            let e = old(self).engine();
            let (c1, b) = node_ref_bytes(&e, old(self).counts(), child.number as nat);
            let (c2, rest) = subs_bytes(&e, c1, irep.number as nat, i + 1);
            assert(self.stream() =~= old(self).stream() + (seq![TAG_SUB] + b + rest));
        }
    }

    /// Writes the named children of `irep` from the `j`-th on, each as its
    /// tag, then its key and value references.
    fn write_named_subs(&mut self, irep: &NumberedIrep, j: usize)
        requires
            old(self).wf(),
            old(self).engine().holds(*irep),
            j <= key_nof_named(old(self).engine().keys()[irep.number as int]),
        ensures
            final(self).wf(),
            final(self).engine() == old(self).engine(),
            (final(self).counts(), final(self).stream()) == ({
                let (c, b) = named_bytes(
                    &old(self).engine(),
                    old(self).counts(),
                    irep.number as nat,
                    j as int,
                );
                (c, old(self).stream() + b)
            }),
        decreases irep.number, 1int, key_nof_named(old(self).engine().keys()[irep.number as int])
            - j,
    {
        let n = self.numbering.nof_named_sub(irep);
        if j >= n {
            proof {
                assert(self.stream() =~= old(self).stream() + Seq::<u8>::empty());
            }
            return;
        }
        let (k, v) = self.numbering.named_sub(irep, j);
        self.write_u8(TAG_NAMED);
        self.write_numbered_string_ref(&k);
        self.write_numbered_irep_ref(&v);
        self.write_named_subs(irep, j + 1);
        proof {
            let e = old(self).engine();
            let (c1, b_key) = atom_ref_bytes(&e, old(self).counts(), k.number as nat);
            let (c2, b_value) = node_ref_bytes(&e, c1, v.number as nat);
            let (c3, rest) = named_bytes(&e, c2, irep.number as nat, j + 1);
            assert(self.stream() =~= old(self).stream() + (seq![TAG_NAMED] + b_key + b_value
                + rest));
        }
    }
}

/// Adds one to the count of `u`, growing `counts` as needed; true iff the
/// count was zero.
pub(crate) fn bump_count(counts: &mut Vec<usize>, u: usize) -> (r: bool)
    ensures
        r == (count_of(old(counts)@, u as nat) == 0),
        final(counts)@ == bumped(old(counts)@, u as nat),
{
    let ghost grown = if (u as nat) < old(counts)@.len() {
        old(counts)@
    } else {
        old(counts)@ + Seq::new((u + 1 - old(counts)@.len()) as nat, |i: int| 0usize)
    };
    if u >= counts.len() {
        while counts.len() <= u
            invariant
                old(counts)@.len() <= u,
                old(counts)@.len() <= counts@.len() <= u + 1,
                counts@ == old(counts)@ + Seq::new(
                    (counts@.len() - old(counts)@.len()) as nat,
                    |i: int| 0usize,
                ),
            decreases u + 1 - counts@.len(),
        {
            counts.push(0);
            proof {
                assert(counts@ =~= old(counts)@ + Seq::new(
                    (counts@.len() - old(counts)@.len()) as nat,
                    |i: int| 0usize,
                ));
            }
        }
    }
    assert(counts@ =~= grown);
    let count = counts[u];
    if count < usize::MAX {
        counts.set(u, count + 1);
    }
    proof {
        assert(counts@ =~= bumped(old(counts)@, u as nat));
    }
    count == 0
}

/// The bytes of a reference to an atom of `e1` are the same in any engine
/// that extends it.
pub proof fn lemma_atom_bytes_preserved(e1: &IrepNumbering, e2: &IrepNumbering, c: Counts, n: nat)
    requires
        extends(e1, e2),
        n < e1.atoms().len(),
    ensures
        atom_ref_bytes(e2, c, n) == atom_ref_bytes(e1, c, n),
{
    lemma_keeps_atom(e1, e2, n);
}

/// The bytes of a reference to a node of `e1` are the same in any engine
/// that extends it.
pub proof fn lemma_node_bytes_preserved(e1: &IrepNumbering, e2: &IrepNumbering, c: Counts, n: nat)
    requires
        e1.wf(),
        extends(e1, e2),
        n < e1.keys().len(),
    ensures
        node_ref_bytes(e2, c, n) == node_ref_bytes(e1, c, n),
    decreases n, 2int, 0int,
{
    e1.lemma_wf();
    let k = e1.keys()[n as int];
    assert(e2.keys()[n as int] == k);
    assert(e2.keys().len() >= e1.keys().len());
    if count_of(c.nodes, n) == 0 {
        let c1 = Counts { atoms: c.atoms, nodes: bumped(c.nodes, n) };
        assert(key_valid(k, e1.atoms().len() as int, n as int));
        lemma_atom_bytes_preserved(e1, e2, c1, k[0] as nat);
        let (c2, b_id) = atom_ref_bytes(e1, c1, k[0] as nat);
        lemma_subs_bytes_preserved(e1, e2, c2, n, 0);
        let (c3, b_sub) = subs_bytes(e1, c2, n, 0);
        lemma_named_bytes_preserved(e1, e2, c3, n, 0);
    }
}

proof fn lemma_subs_bytes_preserved(
    e1: &IrepNumbering,
    e2: &IrepNumbering,
    c: Counts,
    n: nat,
    i: int,
)
    requires
        e1.wf(),
        extends(e1, e2),
        n < e1.keys().len(),
        0 <= i,
    ensures
        subs_bytes(e2, c, n, i) == subs_bytes(e1, c, n, i),
    decreases n, 1int, key_nof_sub(e1.keys()[n as int]) - i,
{
    e1.lemma_wf();
    let k = e1.keys()[n as int];
    assert(e2.keys()[n as int] == k);
    assert(key_valid(k, e1.atoms().len() as int, n as int));
    if i < key_nof_sub(k) {
        let child = key_sub(k, i);
        lemma_node_bytes_preserved(e1, e2, c, child as nat);
        let (c1, b) = node_ref_bytes(e1, c, child as nat);
        lemma_subs_bytes_preserved(e1, e2, c1, n, i + 1);
    }
}

proof fn lemma_named_bytes_preserved(
    e1: &IrepNumbering,
    e2: &IrepNumbering,
    c: Counts,
    n: nat,
    j: int,
)
    requires
        e1.wf(),
        extends(e1, e2),
        n < e1.keys().len(),
        0 <= j,
    ensures
        named_bytes(e2, c, n, j) == named_bytes(e1, c, n, j),
    decreases n, 1int, key_nof_named(e1.keys()[n as int]) - j,
{
    e1.lemma_wf();
    let k = e1.keys()[n as int];
    assert(e2.keys()[n as int] == k);
    assert(key_valid(k, e1.atoms().len() as int, n as int));
    if j < key_nof_named(k) {
        lemma_atom_bytes_preserved(e1, e2, c, key_name(k, j) as nat);
        let (c1, b_key) = atom_ref_bytes(e1, c, key_name(k, j) as nat);
        lemma_node_bytes_preserved(e1, e2, c1, key_value(k, j) as nat);
        let (c2, b_value) = node_ref_bytes(e1, c1, key_value(k, j) as nat);
        lemma_named_bytes_preserved(e1, e2, c2, n, j + 1);
    }
}

/// `r`'s numbers all stand in engine `e`.
pub open spec fn record_in(e: &IrepNumbering, r: NumberedRecord) -> bool {
    &&& r.typ < e.keys().len()
    &&& r.value < e.keys().len()
    &&& r.location < e.keys().len()
    &&& r.name < e.atoms().len()
    &&& r.module < e.atoms().len()
    &&& r.base_name < e.atoms().len()
    &&& r.mode < e.atoms().len()
    &&& r.pretty_name < e.atoms().len()
}

proof fn lemma_records_bytes_preserved(
    e1: &IrepNumbering,
    e2: &IrepNumbering,
    c: Counts,
    nums: Seq<NumberedRecord>,
    flags: Seq<nat>,
)
    requires
        e1.wf(),
        extends(e1, e2),
        forall|p: int| 0 <= p < nums.len() ==> record_in(e1, #[trigger] nums[p]),
    ensures
        records_bytes(e2, c, nums, flags) == records_bytes(e1, c, nums, flags),
    decreases nums.len(),
{
    reveal(record_bytes);
    if nums.len() != 0 && flags.len() != 0 {
        lemma_records_bytes_preserved(e1, e2, c, nums.drop_last(), flags.drop_last());
        let (c1, b1) = records_bytes(e1, c, nums.drop_last(), flags.drop_last());
        let r = nums.last();
        assert(record_in(e1, r));
        lemma_node_bytes_preserved(e1, e2, c1, r.typ);
        let (d1, x1) = node_ref_bytes(e1, c1, r.typ);
        lemma_node_bytes_preserved(e1, e2, d1, r.value);
        let (d2, x2) = node_ref_bytes(e1, d1, r.value);
        lemma_node_bytes_preserved(e1, e2, d2, r.location);
        let (d3, x3) = node_ref_bytes(e1, d2, r.location);
        lemma_atom_bytes_preserved(e1, e2, d3, r.name);
        let (d4, x4) = atom_ref_bytes(e1, d3, r.name);
        lemma_atom_bytes_preserved(e1, e2, d4, r.module);
        let (d5, x5) = atom_ref_bytes(e1, d4, r.module);
        lemma_atom_bytes_preserved(e1, e2, d5, r.base_name);
        let (d6, x6) = atom_ref_bytes(e1, d5, r.base_name);
        lemma_atom_bytes_preserved(e1, e2, d6, r.mode);
        let (d7, x7) = atom_ref_bytes(e1, d6, r.mode);
        lemma_atom_bytes_preserved(e1, e2, d7, r.pretty_name);
    }
}

/// What a record's numbers stand for stays so as the engine grows.
proof fn lemma_record_preserved(e1: &IrepNumbering, e2: &IrepNumbering, s: &Symbol, r: NumberedRecord)
    requires
        e1.wf(),
        extends(e1, e2),
        numbers_record(e1, s, r),
    ensures
        numbers_record(e2, s, r),
{
    e1.lemma_wf();
    assert(e2.keys().len() >= e1.keys().len());
    lemma_tree_preserved(e1, e2, r.typ);
    lemma_tree_preserved(e1, e2, r.value);
    lemma_tree_preserved(e1, e2, r.location);
    lemma_keeps_atom(e1, e2, r.name);
    lemma_keeps_atom(e1, e2, r.module);
    lemma_keeps_atom(e1, e2, r.base_name);
    lemma_keeps_atom(e1, e2, r.mode);
    lemma_keeps_atom(e1, e2, r.pretty_name);
}

/// Writing one more record extends the bytes of the records written before
/// it, whose bytes are the same in the grown engine.
proof fn lemma_table_step(
    e1: &IrepNumbering,
    e2: &IrepNumbering,
    c0: Counts,
    start: Seq<u8>,
    nums: Seq<NumberedRecord>,
    flags: Seq<nat>,
    i: int,
    r: NumberedRecord,
)
    requires
        e1.wf(),
        extends(e1, e2),
        nums.len() == i,
        0 <= i < flags.len(),
        forall|p: int| 0 <= p < i ==> record_in(e1, #[trigger] nums[p]),
    ensures
        ({
            let (c1, b1) = records_bytes(e1, c0, nums, flags.take(i));
            let (c2, b2) = record_bytes(e2, c1, r, flags[i]);
            let (c3, b3) = records_bytes(e2, c0, nums.push(r), flags.take(i + 1));
            c3 == c2 && start + b3 == start + b1 + b2
        }),
{
    lemma_records_bytes_preserved(e1, e2, c0, nums, flags.take(i));
    assert(nums.push(r).drop_last() =~= nums);
    assert(flags.take(i + 1).drop_last() =~= flags.take(i));
    let (c1, b1) = records_bytes(e1, c0, nums, flags.take(i));
    let (c2, b2) = record_bytes(e2, c1, r, flags[i]);
    assert(start + (b1 + b2) =~= start + b1 + b2);
}

/// No occurrence count is lower in `c2` than in `c1`.
pub open spec fn counts_grow(c1: Counts, c2: Counts) -> bool {
    &&& forall|m: nat| #[trigger] count_of(c2.atoms, m) >= count_of(c1.atoms, m)
    &&& forall|m: nat| #[trigger] count_of(c2.nodes, m) >= count_of(c1.nodes, m)
}

proof fn lemma_bumped(c: Seq<usize>, n: nat)
    ensures
        count_of(bumped(c, n), n) >= 1,
        count_of(bumped(c, n), n) >= count_of(c, n),
        forall|m: nat| #[trigger] count_of(bumped(c, n), m) >= count_of(c, m),
{
}

proof fn lemma_atom_counts_grow(e: &IrepNumbering, c: Counts, n: nat)
    ensures
        counts_grow(c, atom_ref_bytes(e, c, n).0),
        count_of(atom_ref_bytes(e, c, n).0.atoms, n) >= 1,
{
    lemma_bumped(c.atoms, n);
}

proof fn lemma_node_counts_grow(e: &IrepNumbering, c: Counts, n: nat)
    requires
        e.wf(),
    ensures
        counts_grow(c, node_ref_bytes(e, c, n).0),
        count_of(node_ref_bytes(e, c, n).0.nodes, n) >= 1,
    decreases n, 2int, 0int,
{
    lemma_bumped(c.nodes, n);
    let c1 = Counts { atoms: c.atoms, nodes: bumped(c.nodes, n) };
    if count_of(c.nodes, n) == 0 && n < e.keys().len() {
        let k = e.keys()[n as int];
        lemma_atom_counts_grow(e, c1, k[0] as nat);
        let (c2, b_id) = atom_ref_bytes(e, c1, k[0] as nat);
        lemma_subs_counts_grow(e, c2, n, 0);
        let (c3, b_sub) = subs_bytes(e, c2, n, 0);
        lemma_named_counts_grow(e, c3, n, 0);
        let (c4, b_named) = named_bytes(e, c3, n, 0);
        assert(count_of(c4.nodes, n) >= count_of(c3.nodes, n));
        assert(count_of(c3.nodes, n) >= count_of(c2.nodes, n));
    }
}

pub(crate) proof fn lemma_subs_counts_grow(e: &IrepNumbering, c: Counts, n: nat, i: int)
    requires
        e.wf(),
    ensures
        counts_grow(c, subs_bytes(e, c, n, i).0),
    decreases n, 1int, key_nof_sub(e.keys()[n as int]) - i,
{
    let k = e.keys()[n as int];
    if !(i < 0 || i >= key_nof_sub(k) || key_sub(k, i) >= n) {
        lemma_node_counts_grow(e, c, key_sub(k, i) as nat);
        let (c1, b) = node_ref_bytes(e, c, key_sub(k, i) as nat);
        lemma_subs_counts_grow(e, c1, n, i + 1);
    }
}

pub(crate) proof fn lemma_named_counts_grow(e: &IrepNumbering, c: Counts, n: nat, j: int)
    requires
        e.wf(),
    ensures
        counts_grow(c, named_bytes(e, c, n, j).0),
    decreases n, 1int, key_nof_named(e.keys()[n as int]) - j,
{
    let k = e.keys()[n as int];
    if !(j < 0 || j >= key_nof_named(k) || key_value(k, j) >= n) {
        lemma_atom_counts_grow(e, c, key_name(k, j) as nat);
        let (c1, b_key) = atom_ref_bytes(e, c, key_name(k, j) as nat);
        lemma_node_counts_grow(e, c1, key_value(k, j) as nat);
        let (c2, b_value) = node_ref_bytes(e, c1, key_value(k, j) as nat);
        lemma_named_counts_grow(e, c2, n, j + 1);
    }
}

/// First-write semantics: a reference to node `n` carries the node's
/// contents only if `n` was not written before in the stream; after it, `n`
/// counts as written, so every later reference to `n` is its number alone,
/// and no occurrence count has gone down.
pub proof fn lemma_first_write(e: &IrepNumbering, c: Counts, n: nat)
    requires
        e.wf(),
    ensures
        ({
            let (c2, b) = node_ref_bytes(e, c, n);
            &&& count_of(c2.nodes, n) >= 1
            &&& count_of(c.nodes, n) >= 1 ==> b == varint_encoding(n)
            &&& counts_grow(c, c2)
            &&& node_ref_bytes(e, c2, n).1 == varint_encoding(n)
        }),
{
    lemma_node_counts_grow(e, c, n);
}

} // verus!
