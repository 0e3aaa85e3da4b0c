//! What reading a stream yields, stated over the reader's state: the atoms
//! and keys of its numbering, its occurrence counts, and its maps from stream
//! numbers to its own numbers.
use crate::atom_codec::atom_decode;
use crate::error::FormatError;
use crate::numbering::packed_key;
use crate::serializer::{bumped, count_of, TAG_END, TAG_NAMED, TAG_SUB, VERSION};
use crate::symbol::{flags_of_word, SymbolFlags};
use crate::varint::usize_decode;
use vstd::prelude::*;

verus! {

/// The state of a reader.
pub struct ReadState {
    /// The text of each atom, by the reader's own number.
    pub atoms: Seq<Seq<char>>,
    /// The key of each node, by the reader's own number.
    pub keys: Seq<Seq<usize>>,
    /// How many times each stream atom number has been read.
    pub scount: Seq<usize>,
    /// The reader's number for each stream atom number read in full.
    pub smap: Seq<Option<usize>>,
    /// How many times each stream node number has been read.
    pub icount: Seq<usize>,
    /// The reader's number for each stream node number read in full.
    pub imap: Seq<Option<usize>>,
}

/// The entry of `m` for stream number `n`.
pub open spec fn map_of(m: Seq<Option<usize>>, n: nat) -> Option<usize> {
    if n < m.len() {
        m[n as int]
    } else {
        None
    }
}

/// `m` with stream number `n` mapped to `v`.
pub open spec fn mapped(m: Seq<Option<usize>>, n: nat, v: usize) -> Seq<Option<usize>> {
    let grown = if n < m.len() {
        m
    } else {
        m + Seq::new((n + 1 - m.len()) as nat, |i: int| None::<usize>)
    };
    grown.update(n as int, Some(v))
}

/// Numbering a value in a table of distinct values: the table unchanged and
/// the value's place, or the table with the value added at the end.
pub open spec fn intern<T>(table: Seq<T>, v: T) -> (Seq<T>, nat) {
    if table.contains(v) {
        (table, choose|i: nat| i < table.len() && table[i as int] == v)
    } else {
        (table.push(v), table.len())
    }
}

/// Reading a reference to an atom at `pos`: the new state, the position
/// after it, and the reader's number for the atom. A new atom whose number
/// would not fit a `usize` is refused like a second mapping; no table in
/// memory gets that large.
#[verifier::opaque]
pub open spec fn rd_atom(st: ReadState, s: Seq<u8>, pos: nat) -> Result<
    (ReadState, nat, nat),
    FormatError,
> {
    match usize_decode(s.skip(pos as int)) {
        Err(e) => Err(e),
        Ok((sn, len)) => {
            let p1 = pos + len;
            let st1 = ReadState { scount: bumped(st.scount, sn as nat), ..st };
            if count_of(st.scount, sn as nat) == 0 {
                match atom_decode(s.skip(p1 as int)) {
                    Err(e) => Err(e),
                    Ok((text, n)) => {
                        let (atoms, num) = intern(st.atoms, text);
                        if map_of(st.smap, sn as nat) is Some || num > usize::MAX {
                            Err(FormatError::DuplicateMapping)
                        } else {
                            Ok(
                                (
                                    ReadState {
                                        atoms,
                                        smap: mapped(st.smap, sn as nat, num as usize),
                                        ..st1
                                    },
                                    p1 + n,
                                    num,
                                ),
                            )
                        }
                    },
                }
            } else {
                match map_of(st.smap, sn as nat) {
                    Some(num) => Ok((st1, p1, num as nat)),
                    None => Err(FormatError::UnknownReference),
                }
            }
        },
    }
}

/// Reading a reference to a node at `pos`: the new state, the position after
/// it, and the reader's number for the node. Every read moves forward within
/// the input; the tests on the positions that reads return state that, so
/// that the recursion visibly ends, and never fail.
pub open spec fn rd_node(st: ReadState, s: Seq<u8>, pos: nat) -> Result<
    (ReadState, nat, nat),
    FormatError,
>
    decreases s.len() - pos, 1int,
{
    if pos > s.len() {
        Err(FormatError::UnexpectedEnd)
    } else {
        match usize_decode(s.skip(pos as int)) {
            Err(e) => Err(e),
            Ok((sn, len)) => {
                let p1 = pos + len;
                let st1 = ReadState { icount: bumped(st.icount, sn as nat), ..st };
                if count_of(st.icount, sn as nat) == 0 {
                    match rd_atom(st1, s, p1) {
                        Err(e) => Err(e),
                        Ok((st2, p2, id)) => if p2 <= pos || p2 > s.len() {
                            Err(FormatError::UnexpectedEnd)
                        } else {
                            rd_tags(st2, s, p2, id, Seq::empty(), Seq::empty(), sn as nat)
                        },
                    }
                } else {
                    match map_of(st.imap, sn as nat) {
                        Some(num) => Ok((st1, p1, num as nat)),
                        None => Err(FormatError::UnknownReference),
                    }
                }
            },
        }
    }
}

/// Reading the children of a node whose stream number is `sn` and whose id
/// and children read so far are `id`, `sub` and `named`, from `pos` up to
/// and including its end byte.
pub open spec fn rd_tags(
    st: ReadState,
    s: Seq<u8>,
    pos: nat,
    id: nat,
    sub: Seq<usize>,
    named: Seq<(usize, usize)>,
    sn: nat,
) -> Result<(ReadState, nat, nat), FormatError>
    decreases s.len() - pos, 0int,
{
    if pos >= s.len() {
        Err(FormatError::UnexpectedEnd)
    } else if s[pos as int] == TAG_SUB {
        if named.len() > 0 {
            Err(FormatError::SubAfterNamed)
        } else {
            match rd_node(st, s, pos + 1) {
                Err(e) => Err(e),
                Ok((st1, p1, child)) => if p1 <= pos || p1 > s.len() || child > usize::MAX {
                    Err(FormatError::UnexpectedEnd)
                } else {
                    rd_tags(st1, s, p1, id, sub.push(child as usize), named, sn)
                },
            }
        }
    } else if s[pos as int] == TAG_NAMED {
        match rd_atom(st, s, pos + 1) {
            Err(e) => Err(e),
            Ok((st1, p1, k)) => if p1 <= pos || p1 > s.len() {
                Err(FormatError::UnexpectedEnd)
            } else {
                match rd_node(st1, s, p1) {
                    Err(e) => Err(e),
                    Ok((st2, p2, v)) => if p2 <= pos || p2 > s.len() || k > usize::MAX || v > usize::MAX {
                        Err(FormatError::UnexpectedEnd)
                    } else {
                        rd_tags(st2, s, p2, id, sub, named.push((k as usize, v as usize)), sn)
                    },
                }
            }
        }
    } else if s[pos as int] == TAG_END {
        let (keys, num) = intern(st.keys, packed_key(id as usize, sub, named));
        if map_of(st.imap, sn) is Some || num > usize::MAX {
            Err(FormatError::DuplicateMapping)
        } else {
            Ok((ReadState { keys, imap: mapped(st.imap, sn, num as usize), ..st }, pos + 1, num))
        }
    } else {
        Err(FormatError::UnknownTag)
    }
}

/// The numbers and flags of a record as read.
pub struct ReadRecord {
    pub typ: nat,
    pub value: nat,
    pub location: nat,
    pub name: nat,
    pub module: nat,
    pub base_name: nat,
    pub mode: nat,
    pub pretty_name: nat,
    pub flags: SymbolFlags,
}

/// Reading the three node references of a record at `pos`: type, value and
/// location.
#[verifier::opaque]
pub open spec fn rd_three_nodes(st: ReadState, s: Seq<u8>, pos: nat) -> Result<
    (ReadState, nat, (nat, nat, nat)),
    FormatError,
> {
    match rd_node(st, s, pos) {
        Err(e) => Err(e),
        Ok((st1, p1, typ)) => match rd_node(st1, s, p1) {
            Err(e) => Err(e),
            Ok((st2, p2, value)) => match rd_node(st2, s, p2) {
                Err(e) => Err(e),
                Ok((st3, p3, location)) => Ok((st3, p3, (typ, value, location))),
            },
        },
    }
}

/// Reading the five atom references of a record at `pos`: name, module, base
/// name, mode and pretty name.
#[verifier::opaque]
pub open spec fn rd_five_atoms(st: ReadState, s: Seq<u8>, pos: nat) -> Result<
    (ReadState, nat, (nat, nat, nat, nat, nat)),
    FormatError,
> {
    match rd_atom(st, s, pos) {
        Err(e) => Err(e),
        Ok((st1, p1, a1)) => match rd_atom(st1, s, p1) {
            Err(e) => Err(e),
            Ok((st2, p2, a2)) => match rd_atom(st2, s, p2) {
                Err(e) => Err(e),
                Ok((st3, p3, a3)) => match rd_atom(st3, s, p3) {
                    Err(e) => Err(e),
                    Ok((st4, p4, a4)) => match rd_atom(st4, s, p4) {
                        Err(e) => Err(e),
                        Ok((st5, p5, a5)) => Ok((st5, p5, (a1, a2, a3, a4, a5))),
                    },
                },
            },
        },
    }
}

/// Reading a record at `pos`: three node references, five atom references,
/// a zero byte and a flag word with no bit set above the defined ones.
#[verifier::opaque]
pub open spec fn rd_symbol(st: ReadState, s: Seq<u8>, pos: nat) -> Result<
    (ReadState, nat, ReadRecord),
    FormatError,
> {
    match rd_three_nodes(st, s, pos) {
        Err(e) => Err(e),
        Ok((st3, p3, (typ, value, location))) => match rd_five_atoms(st3, s, p3) {
            Err(e) => Err(e),
            Ok((st8, p8, (name, module, base_name, mode, pretty_name))) => rd_record_tail(
                st8,
                s,
                p8,
                ReadRecord {
                    typ,
                    value,
                    location,
                    name,
                    module,
                    base_name,
                    mode,
                    pretty_name,
                    flags: flags_of_word(0),
                },
            ),
        },
    }
}

/// Reading the end of a record at `pos`: the zero byte and the flag word.
pub open spec fn rd_record_tail(st: ReadState, s: Seq<u8>, pos: nat, r: ReadRecord) -> Result<
    (ReadState, nat, ReadRecord),
    FormatError,
> {
    if pos >= s.len() {
        Err(FormatError::UnexpectedEnd)
    } else if s[pos as int] != 0 {
        Err(FormatError::ReservedNotZero)
    } else {
        match usize_decode(s.skip(pos + 1int)) {
            Err(e) => Err(e),
            Ok((w, n)) => if w >= 0x2_0000 {
                Err(FormatError::UnknownFlags)
            } else {
                Ok((st, pos + 1 + n, ReadRecord { flags: flags_of_word(w as nat), ..r }))
            },
        }
    }
}

/// Reading `k` records one after the other from `pos`.
pub open spec fn rd_records(st: ReadState, s: Seq<u8>, pos: nat, k: nat) -> Result<
    (ReadState, nat, Seq<ReadRecord>),
    FormatError,
>
    decreases k,
{
    if k == 0 {
        Ok((st, pos, Seq::empty()))
    } else {
        match rd_records(st, s, pos, (k - 1) as nat) {
            Err(e) => Err(e),
            Ok((st1, p1, recs)) => match rd_symbol(st1, s, p1) {
                Err(e) => Err(e),
                Ok((st2, p2, r)) => Ok((st2, p2, recs.push(r))),
            },
        }
    }
}

/// The state of a reader that has read nothing.
pub open spec fn empty_state() -> ReadState {
    ReadState {
        atoms: Seq::empty(),
        keys: Seq::empty(),
        scount: Seq::empty(),
        smap: Seq::empty(),
        icount: Seq::empty(),
        imap: Seq::empty(),
    }
}

/// The magic bytes from the `i`-th on.
pub open spec fn rd_magic(s: Seq<u8>, i: nat) -> Result<(), FormatError>
    decreases 4 - i,
{
    if i >= 4 {
        Ok(())
    } else if i >= s.len() {
        Err(FormatError::UnexpectedEnd)
    } else if s[i as int] != seq![0x7fu8, 0x47u8, 0x42u8, 0x46u8][i as int] {
        Err(FormatError::BadMagic)
    } else {
        rd_magic(s, i + 1)
    }
}

/// Reading the header: the magic bytes and a supported version; the position
/// after it.
pub open spec fn rd_header(s: Seq<u8>) -> Result<nat, FormatError> {
    match rd_magic(s, 0) {
        Err(e) => Err(e),
        Ok(()) => match usize_decode(s.skip(4)) {
            Err(e) => Err(e),
            Ok((v, n)) => if v != VERSION {
                Err(FormatError::UnsupportedVersion)
            } else {
                Ok(4 + n)
            },
        },
    }
}

/// Reading a whole stream: the header, the record count and the records, and
/// an empty secondary table; the state of the reader and the records read.
pub open spec fn rd_file(s: Seq<u8>) -> Result<(ReadState, Seq<ReadRecord>), FormatError> {
    match rd_header(s) {
        Err(e) => Err(e),
        Ok(p) => match usize_decode(s.skip(p as int)) {
            Err(e) => Err(e),
            Ok((count, n)) => match rd_records(empty_state(), s, p + n, count as nat) {
                Err(e) => Err(e),
                Ok((st, q, recs)) => match usize_decode(s.skip(q as int)) {
                    Err(e) => Err(e),
                    Ok((k, m)) => if k != 0 {
                        Err(FormatError::SecondaryTableNotEmpty)
                    } else {
                        Ok((st, recs))
                    },
                },
            },
        },
    }
}

/// Once reading some of the records fails, reading more of them fails in the
/// same way.
pub proof fn lemma_records_err(st: ReadState, s: Seq<u8>, pos: nat, i: nat, k: nat)
    requires
        i <= k,
        rd_records(st, s, pos, i) is Err,
    ensures
        rd_records(st, s, pos, k) == rd_records(st, s, pos, i),
    decreases k,
{
    if i < k {
        lemma_records_err(st, s, pos, i, (k - 1) as nat);
    }
}

} // verus!
