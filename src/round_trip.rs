//! Reading what a writer wrote yields the same contents.
//!
//! A writer and a reader correspond when they have seen the same stream
//! numbers equally often, and every stream number that the reader has read in
//! full stands, in its numbering, for what the number stands for in the
//! writer's numbering.
//!
//! `lemma_corr_start` lets a fresh writer and a fresh reader correspond;
//! `lemma_read_node`, `lemma_read_atom` and `lemma_read_record` read back one
//! reference or record and keep them corresponding; `lemma_corr_extends`
//! carries the correspondence over what the writer numbers next. Chained,
//! they read back any sequence of writes. `lemma_round_trip`,
//! `lemma_tree_round_trip` and `lemma_file_round_trip` state the whole
//! round trip for one node and for a whole stream.
use crate::atom_codec::{atom_decode, atom_encoding, lemma_atom_round_trip};
use crate::numbering::{
    key_name, key_nof_named, key_nof_sub, key_sub, key_valid, key_value, keys_valid,
    lemma_node_tree_grows,
    lemma_packed_key, node_tree, packed_key, IrepNumbering,
};
use crate::reader_spec::{
    rd_file, rd_magic, rd_records, empty_state, intern, map_of, mapped, rd_atom, rd_five_atoms, rd_node, rd_symbol, rd_tags,
    rd_three_nodes, ReadRecord, ReadState,
};
use crate::symbol::flags_of_word;
use crate::serializer::{
    atom_ref_bytes, bumped, count_of, header_bytes, named_bytes, node_ref_bytes, record_bytes,
    record_in, records_bytes, VERSION,
    subs_bytes, Counts, NumberedRecord, TAG_END, TAG_NAMED, TAG_SUB,
};
use crate::tree::{Irep, Tree};
use crate::varint::{lemma_varint_round_trip, usize_decode, varint_encoding};
use vstd::prelude::*;

verus! {

/// How many entries of `c` are not zero.
pub open spec fn nonzero(c: Seq<usize>) -> nat
    decreases c.len(),
{
    if c.len() == 0 {
        0
    } else {
        nonzero(c.drop_last()) + if c.last() != 0 {
            1nat
        } else {
            0nat
        }
    }
}

/// The content of the reader's node `v`.
pub open spec fn rtree(st: ReadState, v: nat) -> Tree {
    node_tree(st.atoms, st.keys, v)
}

/// The reader's tables hold distinct atoms and distinct valid keys, and its
/// maps point into them.
pub open spec fn rwf(st: ReadState) -> bool {
    &&& forall|a: int, b: int|
        0 <= a < st.atoms.len() && 0 <= b < st.atoms.len() && a != b ==> #[trigger] st.atoms[a]
            != #[trigger] st.atoms[b]
    &&& keys_valid(st.atoms, st.keys)
    &&& forall|a: int, b: int|
        0 <= a < st.keys.len() && 0 <= b < st.keys.len() && a != b ==> #[trigger] st.keys[a]
            != #[trigger] st.keys[b]
    &&& forall|sn: nat| #[trigger] map_of(st.smap, sn) is Some ==> map_of(st.smap, sn)->0 < st.atoms.len()
    &&& forall|sn: nat| #[trigger] map_of(st.imap, sn) is Some ==> map_of(st.imap, sn)->0 < st.keys.len()
}

/// The reader's tables only grew from `st1` to `st2`.
pub open spec fn grows(st1: ReadState, st2: ReadState) -> bool {
    &&& st1.atoms.is_prefix_of(st2.atoms)
    &&& st1.keys.is_prefix_of(st2.keys)
}

/// The writer with numbering `e` and counts `c` corresponds to the reader in
/// state `st`, for the nodes numbered below `lim`; `slack` nodes are being
/// read and still need a place in the reader's table. The reader has no more
/// atoms or nodes than the writer has written distinct numbers.
pub open spec fn corr(e: &IrepNumbering, c: Counts, st: ReadState, lim: nat, slack: nat) -> bool {
    &&& st.scount == c.atoms
    &&& st.icount == c.nodes
    &&& e.atoms().len() <= usize::MAX
    &&& e.keys().len() <= usize::MAX
    &&& c.atoms.len() <= e.atoms().len()
    &&& c.nodes.len() <= e.keys().len()
    &&& st.atoms.len() <= nonzero(c.atoms)
    &&& st.keys.len() + slack <= nonzero(c.nodes)
    &&& forall|sn: nat| count_of(c.atoms, sn) == 0 ==> #[trigger] map_of(st.smap, sn) is None
    &&& forall|sn: nat| count_of(c.nodes, sn) == 0 ==> #[trigger] map_of(st.imap, sn) is None
    &&& forall|sn: nat|
        #[trigger] count_of(c.atoms, sn) > 0 ==> map_of(st.smap, sn) is Some && st.atoms[map_of(
            st.smap,
            sn,
        )->0 as int] == e.atoms()[sn as int]
    &&& forall|sn: nat|
        #[trigger] count_of(c.nodes, sn) > 0 && sn < lim ==> map_of(st.imap, sn) is Some && rtree(
            st,
            map_of(st.imap, sn)->0 as nat,
        ) == e.tree(sn)
}

proof fn lemma_nonzero_bound(c: Seq<usize>)
    ensures
        nonzero(c) <= c.len(),
    decreases c.len(),
{
    if c.len() > 0 {
        lemma_nonzero_bound(c.drop_last());
    }
}

proof fn lemma_nonzero_update(c: Seq<usize>, i: int, v: usize)
    requires
        0 <= i < c.len(),
    ensures
        nonzero(c.update(i, v)) + (if c[i] != 0 {
            1nat
        } else {
            0nat
        }) == nonzero(c) + (if v != 0 {
            1nat
        } else {
            0nat
        }),
    decreases c.len(),
{
    let d = c.update(i, v);
    if i == c.len() - 1 {
        assert(d.drop_last() =~= c.drop_last());
    } else {
        assert(d.drop_last() =~= c.drop_last().update(i, v));
        lemma_nonzero_update(c.drop_last(), i, v);
    }
}

proof fn lemma_nonzero_zeros(c: Seq<usize>, k: nat)
    ensures
        nonzero(c + Seq::new(k, |i: int| 0usize)) == nonzero(c),
    decreases k,
{
    if k > 0 {
        let z = c + Seq::new(k, |i: int| 0usize);
        assert(z.drop_last() =~= c + Seq::new((k - 1) as nat, |i: int| 0usize));
        lemma_nonzero_zeros(c, (k - 1) as nat);
    } else {
        assert(c + Seq::new(k, |i: int| 0usize) =~= c);
    }
}

proof fn lemma_nonzero_zero_at(c: Seq<usize>, n: nat)
    requires
        n < c.len(),
        c[n as int] == 0,
    ensures
        nonzero(c) < c.len(),
    decreases c.len(),
{
    lemma_nonzero_bound(c.drop_last());
    if n < c.len() - 1 {
        lemma_nonzero_zero_at(c.drop_last(), n);
    }
}

/// Bumping a count: the number of written numbers grows by one exactly when
/// the count was zero, and the counts stay within `bound` numbers.
proof fn lemma_bump(c: Seq<usize>, n: nat, bound: nat)
    requires
        n < bound,
        c.len() <= bound,
    ensures
        nonzero(bumped(c, n)) == nonzero(c) + if count_of(c, n) == 0 {
            1nat
        } else {
            0nat
        },
        bumped(c, n).len() <= bound,
        count_of(c, n) == 0 ==> nonzero(c) < bound,
        count_of(bumped(c, n), n) > 0,
        forall|m: nat| m != n ==> #[trigger] count_of(bumped(c, n), m) == count_of(c, m),
{
    let grown = if n < c.len() {
        c
    } else {
        c + Seq::new((n + 1 - c.len()) as nat, |i: int| 0usize)
    };
    if n >= c.len() {
        lemma_nonzero_zeros(c, (n + 1 - c.len()) as nat);
    }
    assert(nonzero(grown) == nonzero(c));
    let v = if grown[n as int] < usize::MAX {
        (grown[n as int] + 1) as usize
    } else {
        grown[n as int]
    };
    lemma_nonzero_update(grown, n as int, v);
    lemma_nonzero_bound(c);
    if count_of(c, n) == 0 && n < c.len() {
        lemma_nonzero_zero_at(c, n);
    }
    assert forall|m: nat| m != n implies #[trigger] count_of(bumped(c, n), m) == count_of(c, m) by {
        if m < c.len() {
            assert(grown[m as int] == c[m as int]);
        } else if m < grown.len() {
            assert(grown[m as int] == 0);
        }
    }
}

/// Facts about numbering a value in a table.
proof fn lemma_intern<T>(table: Seq<T>, v: T)
    ensures
        intern(table, v).1 < intern(table, v).0.len(),
        intern(table, v).0[intern(table, v).1 as int] == v,
        table.is_prefix_of(intern(table, v).0),
        table.contains(v) ==> intern(table, v).0 == table,
        !table.contains(v) ==> intern(table, v).0 == table.push(v) && intern(table, v).1
            == table.len(),
{
    if table.contains(v) {
        let j = choose|j: int| 0 <= j < table.len() && table[j] == v;
        assert((j as nat) < table.len() && table[(j as nat) as int] == v);
        assert(table.is_prefix_of(table)) by {
            assert(table =~= table.subrange(0, table.len() as int));
        }
    } else {
        assert(table =~= table.push(v).subrange(0, table.len() as int));
    }
}

/// The varint of `x` at `pos` of `s` is read back.
proof fn lemma_varint_at(s: Seq<u8>, pos: nat, x: usize)
    requires
        pos + varint_encoding(x as nat).len() <= s.len(),
        s.subrange(pos as int, (pos + varint_encoding(x as nat).len()) as int) == varint_encoding(x as nat),
    ensures
        usize_decode(s.skip(pos as int)) == Ok::<(usize, nat), crate::error::FormatError>(
            (x, varint_encoding(x as nat).len()),
        ),
        varint_encoding(x as nat).len() >= 1,
{
    let v = varint_encoding(x as nat);
    let rest = s.skip((pos + v.len()) as int);
    assert(s.skip(pos as int) =~= v + rest);
    lemma_varint_round_trip(x, rest);
    reveal_with_fuel(varint_encoding, 2);
}

/// The contents of atom `text` at `pos` of `s` are read back.
proof fn lemma_atom_at(s: Seq<u8>, pos: nat, text: Seq<char>)
    requires
        pos + atom_encoding(text).len() <= s.len(),
        s.subrange(pos as int, (pos + atom_encoding(text).len()) as int) == atom_encoding(text),
    ensures
        atom_decode(s.skip(pos as int)) == Ok::<(Seq<char>, nat), crate::error::FormatError>(
            (text, atom_encoding(text).len()),
        ),
        atom_encoding(text).len() >= 1,
{
    let a = atom_encoding(text);
    let rest = s.skip((pos + a.len()) as int);
    assert(s.skip(pos as int) =~= a + rest);
    lemma_atom_round_trip(text, rest);
}

/// The bytes `x + y` at `pos` of `s` are `x` at `pos` and `y` after it.
proof fn lemma_split(s: Seq<u8>, pos: int, x: Seq<u8>, y: Seq<u8>)
    requires
        0 <= pos,
        pos + x.len() + y.len() <= s.len(),
        s.subrange(pos as int, pos + x.len() + y.len()) == x + y,
    ensures
        s.subrange(pos as int, pos + x.len()) == x,
        s.subrange(pos + x.len(), pos + x.len() + y.len()) == y,
{
    let p = pos as int;
    assert(s.subrange(p, p + x.len()) =~= (x + y).subrange(0, x.len() as int));
    assert(s.subrange(p + x.len(), p + x.len() + y.len()) =~= (x + y).subrange(
        x.len() as int,
        (x.len() + y.len()) as int,
    ));
}

/// The reader's trees stay the same as its tables grow.
proof fn lemma_rtree_grows(st1: ReadState, st2: ReadState, v: nat)
    requires
        rwf(st1),
        grows(st1, st2),
        v < st1.keys.len(),
    ensures
        rtree(st2, v) == rtree(st1, v),
{
    lemma_node_tree_grows(st1.atoms, st1.keys, st2.atoms, st2.keys, v);
}

/// Reading a reference to atom `a` where the writer wrote one: the reader's
/// number for it holds the same text, and writer and reader still
/// correspond.
pub proof fn lemma_read_atom(
    e: &IrepNumbering,
    c: Counts,
    st: ReadState,
    lim: nat,
    slack: nat,
    s: Seq<u8>,
    pos: nat,
    a: nat,
)
    requires
        e.wf(),
        rwf(st),
        corr(e, c, st, lim, slack),
        a < e.atoms().len(),
        pos + atom_ref_bytes(e, c, a).1.len() <= s.len(),
        s.subrange(pos as int, (pos + atom_ref_bytes(e, c, a).1.len()) as int) == atom_ref_bytes(
            e,
            c,
            a,
        ).1,
    ensures
        rd_atom(st, s, pos) matches Ok((st2, p2, v)) && p2 == pos + atom_ref_bytes(e, c, a).1.len()
            && rwf(st2) && corr(e, atom_ref_bytes(e, c, a).0, st2, lim, slack) && grows(st, st2)
            && st2.keys == st.keys && st2.imap == st.imap && st2.icount == st.icount && v
            < st2.atoms.len() && st2.atoms[v as int] == e.atoms()[a as int],
{
    reveal(rd_atom);
    let (c2, b) = atom_ref_bytes(e, c, a);
    let v = varint_encoding(a);
    lemma_bump(c.atoms, a, e.atoms().len());
    lemma_nonzero_bound(c.nodes);
    lemma_nonzero_bound(c.atoms);
    if count_of(c.atoms, a) == 0 {
        let text = e.atoms()[a as int];
        lemma_split(s, pos as int, v, atom_encoding(text));
        lemma_varint_at(s, pos, a as usize);
        lemma_atom_at(s, pos + v.len(), text);
        lemma_intern(st.atoms, text);
        let (atoms, num) = intern(st.atoms, text);
        assert(map_of(st.smap, a) is None);
        let st2 = ReadState {
            atoms,
            smap: mapped(st.smap, a, num as usize),
            scount: bumped(st.scount, a),
            ..st
        };
        assert(num <= usize::MAX);
        assert(rd_atom(st, s, pos) == Ok::<(ReadState, nat, nat), crate::error::FormatError>(
            (st2, pos + b.len(), num),
        ));
        assert(grows(st, st2)) by {
            assert(st.keys =~= st2.keys.subrange(0, st.keys.len() as int));
        }
        assert(rwf(st2)) by {
            assert forall|i: int| 0 <= i < st2.keys.len() implies key_valid(
                #[trigger] st2.keys[i],
                st2.atoms.len() as int,
                i,
            ) by {
                assert(key_valid(st.keys[i], st.atoms.len() as int, i));
            }
            assert forall|sn: nat| #[trigger] map_of(st2.smap, sn) is Some implies map_of(
                st2.smap,
                sn,
            )->0 < st2.atoms.len() by {
                if sn != a {
                    assert(map_of(st2.smap, sn) == map_of(st.smap, sn));
                }
            }
            assert forall|x: int, y: int|
                0 <= x < st2.atoms.len() && 0 <= y < st2.atoms.len() && x
                    != y implies #[trigger] st2.atoms[x] != #[trigger] st2.atoms[y] by {
                if x < st.atoms.len() && y < st.atoms.len() {
                    assert(st2.atoms[x] == st.atoms[x] && st2.atoms[y] == st.atoms[y]);
                } else if x == st.atoms.len() {
                    assert(!st.atoms.contains(text));
                    assert(st2.atoms[y] == st.atoms[y]);
                } else {
                    assert(!st.atoms.contains(text));
                    assert(st2.atoms[x] == st.atoms[x]);
                }
            }
        }
        assert forall|sn: nat| #[trigger] count_of(c2.atoms, sn) > 0 implies map_of(
            st2.smap,
            sn,
        ) is Some && st2.atoms[map_of(st2.smap, sn)->0 as int] == e.atoms()[sn as int] by {
            if sn != a {
                assert(map_of(st2.smap, sn) == map_of(st.smap, sn));
                assert(st2.atoms[map_of(st.smap, sn)->0 as int] == st.atoms[map_of(
                    st.smap,
                    sn,
                )->0 as int]);
            }
        }
        assert forall|sn: nat| count_of(c2.atoms, sn) == 0 implies #[trigger] map_of(
            st2.smap,
            sn,
        ) is None by {
            if sn != a {
                assert(map_of(st2.smap, sn) == map_of(st.smap, sn));
            }
        }
        assert forall|sn: nat| #[trigger] count_of(c2.nodes, sn) > 0 && sn < lim implies map_of(
            st2.imap,
            sn,
        ) is Some && rtree(st2, map_of(st2.imap, sn)->0 as nat) == e.tree(sn) by {
            lemma_rtree_grows(st, st2, map_of(st.imap, sn)->0 as nat);
        }
    } else {
        lemma_split(s, pos as int, v, Seq::empty());
        assert(b =~= v);
        lemma_varint_at(s, pos, a as usize);
        let num = map_of(st.smap, a)->0;
        let st2 = ReadState { scount: bumped(st.scount, a), ..st };
        assert(rd_atom(st, s, pos) == Ok::<(ReadState, nat, nat), crate::error::FormatError>(
            (st2, pos + b.len(), num as nat),
        ));
        assert(grows(st, st2)) by {
            assert(st.keys =~= st2.keys.subrange(0, st.keys.len() as int));
            assert(st.atoms =~= st2.atoms.subrange(0, st.atoms.len() as int));
        }
        assert forall|sn: nat| #[trigger] count_of(c2.atoms, sn) > 0 implies map_of(
            st2.smap,
            sn,
        ) is Some && st2.atoms[map_of(st2.smap, sn)->0 as int] == e.atoms()[sn as int] by {
            if sn != a {
                assert(count_of(c.atoms, sn) > 0);
            }
        }
    }
}

/// What mapping one stream number changes.
proof fn lemma_mapped(m: Seq<Option<usize>>, n: nat, v: usize, sn: nat)
    ensures
        map_of(mapped(m, n, v), sn) == if sn == n {
            Some(v)
        } else {
            map_of(m, sn)
        },
{
    let grown = if n < m.len() {
        m
    } else {
        m + Seq::new((n + 1 - m.len()) as nat, |i: int| None::<usize>)
    };
    if sn != n && sn < grown.len() && sn >= m.len() {
        assert(grown[sn as int] == None::<usize>);
    }
}

proof fn lemma_grows_trans(a: ReadState, b: ReadState, c: ReadState)
    requires
        grows(a, b),
        grows(b, c),
    ensures
        grows(a, c),
{
    assert(a.atoms =~= c.atoms.subrange(0, a.atoms.len() as int)) by {
        assert(a.atoms =~= b.atoms.subrange(0, a.atoms.len() as int));
    }
    assert(a.keys =~= c.keys.subrange(0, a.keys.len() as int)) by {
        assert(a.keys =~= b.keys.subrange(0, a.keys.len() as int));
    }
}

proof fn lemma_grows_refl(a: ReadState)
    ensures
        grows(a, a),
{
    assert(a.atoms =~= a.atoms.subrange(0, a.atoms.len() as int));
    assert(a.keys =~= a.keys.subrange(0, a.keys.len() as int));
}

/// Reading a reference to node `n` where the writer wrote one: the reader's
/// number for it stands for the same content, and writer and reader still
/// correspond.
#[verifier::rlimit(100)]
pub proof fn lemma_read_node(
    e: &IrepNumbering,
    c: Counts,
    st: ReadState,
    lim: nat,
    slack: nat,
    s: Seq<u8>,
    pos: nat,
    n: nat,
) -> (r: (ReadState, nat))
    requires
        e.wf(),
        rwf(st),
        corr(e, c, st, lim, slack),
        n < e.keys().len(),
        n < lim,
        pos + node_ref_bytes(e, c, n).1.len() <= s.len(),
        s.subrange(pos as int, (pos + node_ref_bytes(e, c, n).1.len()) as int) == node_ref_bytes(
            e,
            c,
            n,
        ).1,
    ensures
        rd_node(st, s, pos) == Ok::<(ReadState, nat, nat), crate::error::FormatError>(
            (r.0, pos + node_ref_bytes(e, c, n).1.len(), r.1),
        ),
        rwf(r.0),
        corr(e, node_ref_bytes(e, c, n).0, r.0, lim, slack),
        grows(st, r.0),
        r.1 < r.0.keys.len(),
        rtree(r.0, r.1) == e.tree(n),
        forall|sn: nat|
            count_of(c.nodes, sn) > 0 ==> #[trigger] map_of(r.0.imap, sn) == map_of(st.imap, sn),
        forall|sn: nat|
            sn > n ==> #[trigger] count_of(node_ref_bytes(e, c, n).0.nodes, sn) == count_of(
                c.nodes,
                sn,
            ),
    decreases n, 2int, 0int,
{
    e.lemma_wf();
    lemma_nonzero_bound(c.nodes);
    lemma_bump(c.nodes, n, e.keys().len());
    let k = e.keys()[n as int];
    assert(key_valid(k, e.atoms().len() as int, n as int));
    let v = varint_encoding(n);
    let c1 = Counts { atoms: c.atoms, nodes: bumped(c.nodes, n) };
    let st1 = ReadState { icount: bumped(st.icount, n), ..st };
    if count_of(c.nodes, n) != 0 {
        let b = node_ref_bytes(e, c, n).1;
        assert(b == v);
        lemma_split(s, pos as int, v, Seq::empty());
        assert(v + Seq::<u8>::empty() =~= v);
        lemma_varint_at(s, pos, n as usize);
        let m = map_of(st.imap, n)->0;
        assert(rd_node(st, s, pos) == Ok::<(ReadState, nat, nat), crate::error::FormatError>(
            (st1, pos + v.len(), m as nat),
        ));
        lemma_grows_refl(st);
        assert forall|sn: nat| #[trigger] count_of(c1.nodes, sn) > 0 && sn < lim implies map_of(
            st1.imap,
            sn,
        ) is Some && rtree(st1, map_of(st1.imap, sn)->0 as nat) == e.tree(sn) by {
            if sn != n {
                assert(count_of(c.nodes, sn) > 0);
            }
        }
        assert forall|sn: nat| count_of(c1.nodes, sn) == 0 implies #[trigger] map_of(
            st1.imap,
            sn,
        ) is None by {
            if sn != n {
                assert(count_of(c.nodes, sn) == 0);
            }
        }
        (st1, m as nat)
    } else {
        let (c2, b_id) = atom_ref_bytes(e, c1, k[0] as nat);
        let (c3, b_sub) = subs_bytes(e, c2, n, 0);
        let (c4, b_named) = named_bytes(e, c3, n, 0);
        let b = node_ref_bytes(e, c, n).1;
        assert(b == v + b_id + b_sub + b_named + seq![TAG_END]);
        assert(v + b_id + b_sub + b_named + seq![TAG_END] =~= v + (b_id + b_sub + b_named
            + seq![TAG_END]));
        lemma_split(s, pos as int, v, b_id + b_sub + b_named + seq![TAG_END]);
        lemma_varint_at(s, pos, n as usize);
        let p1 = pos + v.len();
        // The reader now reads the node's contents.
        assert(corr(e, c1, st1, n, slack + 1)) by {
            assert forall|sn: nat| count_of(c1.nodes, sn) == 0 implies #[trigger] map_of(
                st1.imap,
                sn,
            ) is None by {
                if sn != n {
                    assert(count_of(c.nodes, sn) == 0);
                }
            }
            assert forall|sn: nat| #[trigger] count_of(c1.nodes, sn) > 0 && sn < n implies map_of(
                st1.imap,
                sn,
            ) is Some && rtree(st1, map_of(st1.imap, sn)->0 as nat) == e.tree(sn) by {
                assert(count_of(c.nodes, sn) > 0);
            }
        }
        assert(b_id + b_sub + b_named + seq![TAG_END] =~= b_id + (b_sub + b_named
            + seq![TAG_END]));
        lemma_split(s, p1 as int, b_id, b_sub + b_named + seq![TAG_END]);
        lemma_read_atom(e, c1, st1, n, slack + 1, s, p1, k[0] as nat);
        let (st2, p2, id_r) = rd_atom(st1, s, p1)->Ok_0;
        assert(p2 == p1 + b_id.len());
        assert(rd_node(st, s, pos) == rd_tags(
            st2,
            s,
            p2,
            id_r,
            Seq::empty(),
            Seq::empty(),
            n,
        ));
        assert(b_sub + b_named + seq![TAG_END] =~= b_sub + (b_named + seq![TAG_END]));
        lemma_split(s, p2 as int, b_sub, b_named + seq![TAG_END]);
        let (st3, sub_all) = lemma_read_subs(e, c2, st2, slack + 1, s, p2, n, 0, id_r, Seq::empty());
        let p3 = p2 + b_sub.len();
        lemma_split(s, p3 as int, b_named, seq![TAG_END]);
        let (st4, named_all) = lemma_read_named(
            e,
            c3,
            st3,
            slack + 1,
            s,
            p3,
            n,
            0,
            id_r,
            sub_all,
            Seq::empty(),
        );
        let p4 = p3 + b_named.len();
        assert(s[p4 as int] == TAG_END) by {
            assert(s.subrange(p4 as int, p4 + 1int)[0] == TAG_END);
        }
        lemma_grows_trans(st1, st2, st3);
        lemma_grows_trans(st1, st3, st4);
        crate::serializer::lemma_subs_counts_grow(e, c2, n, 0);
        crate::serializer::lemma_named_counts_grow(e, c3, n, 0);
        assert forall|sn: nat| count_of(c.nodes, sn) > 0 implies #[trigger] map_of(st4.imap, sn)
            == map_of(st.imap, sn) by {
            assert(sn != n);
            assert(count_of(c2.nodes, sn) > 0);
            assert(count_of(c3.nodes, sn) >= count_of(c2.nodes, sn));
            assert(map_of(st3.imap, sn) == map_of(st2.imap, sn));
            assert(map_of(st4.imap, sn) == map_of(st3.imap, sn));
        }
        assert forall|sn: nat| sn > n implies #[trigger] count_of(c4.nodes, sn) == count_of(
            c.nodes,
            sn,
        ) by {
            assert(count_of(c3.nodes, sn) == count_of(c2.nodes, sn));
        }
        assert(count_of(c4.nodes, n) > 0) by {
            assert(count_of(c3.nodes, n) >= count_of(c2.nodes, n));
        }
        assert(grows(st, st1)) by {
            lemma_grows_refl(st);
        }
        lemma_grows_trans(st, st1, st4);
        lemma_grows_trans(st2, st3, st4);
        assert(id_r < st4.atoms.len() && st4.atoms[id_r as int] == e.atoms()[k[0] as int]) by {
            assert(st4.atoms[id_r as int] == st4.atoms.subrange(0, st2.atoms.len() as int)[id_r as int]);
        }
        lemma_read_end(e, c, c4, st, st4, lim, slack, s, p4, n, id_r, sub_all, named_all)
    }
}

/// Reading the end byte of node `n`, whose id and children the reader has
/// read: the key they make is numbered and the node's stream number mapped to
/// it.
#[verifier::rlimit(100)]
proof fn lemma_read_end(
    e: &IrepNumbering,
    c: Counts,
    c4: Counts,
    st: ReadState,
    st4: ReadState,
    lim: nat,
    slack: nat,
    s: Seq<u8>,
    p4: nat,
    n: nat,
    id_r: nat,
    sub_all: Seq<usize>,
    named_all: Seq<(usize, usize)>,
) -> (r: (ReadState, nat))
    requires
        e.wf(),
        rwf(st),
        rwf(st4),
        corr(e, c, st, lim, slack),
        corr(e, c4, st4, n, slack + 1),
        grows(st, st4),
        n < e.keys().len(),
        n < lim,
        p4 < s.len(),
        s[p4 as int] == TAG_END,
        count_of(c.nodes, n) == 0,
        count_of(c4.nodes, n) > 0,
        map_of(st4.imap, n) is None,
        id_r < st4.atoms.len(),
        st4.atoms[id_r as int] == e.atoms()[e.keys()[n as int][0] as int],
        sub_all.len() == key_nof_sub(e.keys()[n as int]),
        forall|q: int|
            0 <= q < sub_all.len() ==> #[trigger] sub_all[q] < st4.keys.len() && rtree(
                st4,
                sub_all[q] as nat,
            ) == e.tree(key_sub(e.keys()[n as int], q) as nat),
        named_all.len() == key_nof_named(e.keys()[n as int]),
        forall|q: int|
            0 <= q < named_all.len() ==> #[trigger] named_all[q].0 < st4.atoms.len()
                && st4.atoms[named_all[q].0 as int] == e.atoms()[key_name(e.keys()[n as int], q) as int]
                && named_all[q].1 < st4.keys.len() && rtree(st4, named_all[q].1 as nat) == e.tree(
                key_value(e.keys()[n as int], q) as nat,
            ),
        forall|sn: nat|
            count_of(c.nodes, sn) > 0 ==> #[trigger] map_of(st4.imap, sn) == map_of(st.imap, sn),
        forall|sn: nat| sn > n ==> #[trigger] count_of(c4.nodes, sn) == count_of(c.nodes, sn),
    ensures
        rd_tags(st4, s, p4, id_r, sub_all, named_all, n) == Ok::<
            (ReadState, nat, nat),
            crate::error::FormatError,
        >((r.0, p4 + 1, r.1)),
        rwf(r.0),
        corr(e, c4, r.0, lim, slack),
        grows(st, r.0),
        r.1 < r.0.keys.len(),
        rtree(r.0, r.1) == e.tree(n),
        forall|sn: nat|
            count_of(c.nodes, sn) > 0 ==> #[trigger] map_of(r.0.imap, sn) == map_of(st.imap, sn),
{
    e.lemma_wf();
    let k = e.keys()[n as int];
    assert(key_valid(k, e.atoms().len() as int, n as int));
    lemma_nonzero_bound(c4.nodes);
    let key = packed_key(id_r as usize, sub_all, named_all);
    lemma_packed_key(id_r as usize, sub_all, named_all);
    lemma_intern(st4.keys, key);
    let (keys5, m) = intern(st4.keys, key);
    assert(m <= usize::MAX);
    let st5 = ReadState { keys: keys5, imap: mapped(st4.imap, n, m as usize), ..st4 };
    assert(rd_tags(st4, s, p4, id_r, sub_all, named_all, n) == Ok::<
        (ReadState, nat, nat),
        crate::error::FormatError,
    >((st5, p4 + 1, m)));
    assert(grows(st4, st5)) by {
        assert(st4.atoms =~= st5.atoms.subrange(0, st4.atoms.len() as int));
    }
    lemma_grows_trans(st, st4, st5);
    // The reader's tables stay well formed.
    assert(key_valid(key, st5.atoms.len() as int, m as int)) by {
        if !st4.keys.contains(key) {
            assert forall|q: int| 0 <= q < key_nof_sub(key) implies #[trigger] key_sub(key, q)
                < m by {
                assert(sub_all[q] < st4.keys.len());
            }
            assert forall|q: int| 0 <= q < key_nof_named(key) implies #[trigger] key_name(key, q)
                < st5.atoms.len() && key_value(key, q) < m by {
                assert(named_all[q].0 < st4.atoms.len() && named_all[q].1 < st4.keys.len());
            }
        } else {
            assert(key_valid(st4.keys[m as int], st4.atoms.len() as int, m as int));
        }
    }
    assert(rwf(st5)) by {
        assert forall|x: int| 0 <= x < st5.keys.len() implies key_valid(
            #[trigger] st5.keys[x],
            st5.atoms.len() as int,
            x,
        ) by {
            if x < st4.keys.len() {
                assert(st5.keys[x] == st5.keys.subrange(0, st4.keys.len() as int)[x]);
                assert(key_valid(st4.keys[x], st4.atoms.len() as int, x));
            }
        }
        assert forall|x: int, y: int|
            0 <= x < st5.keys.len() && 0 <= y < st5.keys.len() && x
                != y implies #[trigger] st5.keys[x] != #[trigger] st5.keys[y] by {
            if x < st4.keys.len() {
                assert(st5.keys[x] == st5.keys.subrange(0, st4.keys.len() as int)[x]);
            }
            if y < st4.keys.len() {
                assert(st5.keys[y] == st5.keys.subrange(0, st4.keys.len() as int)[y]);
            }
        }
        assert forall|sn: nat| #[trigger] map_of(st5.imap, sn) is Some implies map_of(
            st5.imap,
            sn,
        )->0 < st5.keys.len() by {
            lemma_mapped(st4.imap, n, m as usize, sn);
        }
    }
    // The new number stands for the node's content.
    let t5 = rtree(st5, m);
    let te = e.tree(n);
    assert(st5.keys[m as int] == key);
    assert forall|q: int| 0 <= q < te.sub.len() implies t5.sub[q] == te.sub[q] by {
        assert(key_sub(key, q) == sub_all[q]);
        lemma_rtree_grows(st4, st5, sub_all[q] as nat);
        assert(key_sub(k, q) < n);
    }
    assert forall|q: int| 0 <= q < te.named.len() implies t5.named[q] == te.named[q] by {
        assert(key_name(key, q) == named_all[q].0);
        assert(key_value(key, q) == named_all[q].1);
        lemma_rtree_grows(st4, st5, named_all[q].1 as nat);
        assert(key_value(k, q) < n);
    }
    assert(t5.sub =~= te.sub);
    assert(t5.named =~= te.named);
    lemma_nonzero_bound(c4.atoms);
    assert(id_r <= usize::MAX);
    assert(key[0] as int == id_r);
    assert(t5.id == st4.atoms[id_r as int]);
    assert(t5.id == te.id);
    assert(t5 == te);
    assert forall|sn: nat| count_of(c.nodes, sn) > 0 implies #[trigger] map_of(st5.imap, sn)
        == map_of(st.imap, sn) by {
        assert(sn != n);
        lemma_mapped(st4.imap, n, m as usize, sn);
    }
    assert(corr(e, c4, st5, lim, slack)) by {
        assert forall|sn: nat| count_of(c4.nodes, sn) == 0 implies #[trigger] map_of(
            st5.imap,
            sn,
        ) is None by {
            lemma_mapped(st4.imap, n, m as usize, sn);
        }
        assert forall|sn: nat| #[trigger] count_of(c4.nodes, sn) > 0 && sn < lim implies map_of(
            st5.imap,
            sn,
        ) is Some && rtree(st5, map_of(st5.imap, sn)->0 as nat) == e.tree(sn) by {
            lemma_mapped(st4.imap, n, m as usize, sn);
            if sn < n {
                lemma_rtree_grows(st4, st5, map_of(st4.imap, sn)->0 as nat);
            } else if sn > n {
                assert(count_of(c.nodes, sn) > 0);
                assert(map_of(st5.imap, sn) == map_of(st.imap, sn));
                assert(map_of(st.imap, sn)->0 < st.keys.len());
                lemma_rtree_grows(st, st5, map_of(st.imap, sn)->0 as nat);
            }
        }
    }
    (st5, m)
}

/// Reading the positional children of node `n` from the `i`-th on, where
/// the writer wrote them.
proof fn lemma_read_subs(
    e: &IrepNumbering,
    c: Counts,
    st: ReadState,
    slack: nat,
    s: Seq<u8>,
    p: nat,
    n: nat,
    i: int,
    id_r: nat,
    acc: Seq<usize>,
) -> (r: (ReadState, Seq<usize>))
    requires
        e.wf(),
        rwf(st),
        corr(e, c, st, n, slack),
        n < e.keys().len(),
        0 <= i <= key_nof_sub(e.keys()[n as int]),
        acc.len() == i,
        forall|q: int|
            0 <= q < i ==> #[trigger] acc[q] < st.keys.len() && rtree(st, acc[q] as nat) == e.tree(
                key_sub(e.keys()[n as int], q) as nat,
            ),
        p + subs_bytes(e, c, n, i).1.len() < s.len(),
        s.subrange(p as int, (p + subs_bytes(e, c, n, i).1.len()) as int) == subs_bytes(
            e,
            c,
            n,
            i,
        ).1,
    ensures
        rd_tags(st, s, p, id_r, acc, Seq::empty(), n) == rd_tags(
            r.0,
            s,
            p + subs_bytes(e, c, n, i).1.len(),
            id_r,
            r.1,
            Seq::empty(),
            n,
        ),
        rwf(r.0),
        corr(e, subs_bytes(e, c, n, i).0, r.0, n, slack),
        grows(st, r.0),
        r.1.len() == key_nof_sub(e.keys()[n as int]),
        forall|q: int|
            0 <= q < r.1.len() ==> #[trigger] r.1[q] < r.0.keys.len() && rtree(r.0, r.1[q] as nat)
                == e.tree(key_sub(e.keys()[n as int], q) as nat),
        forall|sn: nat|
            count_of(c.nodes, sn) > 0 ==> #[trigger] map_of(r.0.imap, sn) == map_of(st.imap, sn),
        forall|sn: nat|
            sn >= n ==> #[trigger] count_of(subs_bytes(e, c, n, i).0.nodes, sn) == count_of(
                c.nodes,
                sn,
            ),
    decreases n, 1int, key_nof_sub(e.keys()[n as int]) - i,
{
    e.lemma_wf();
    let k = e.keys()[n as int];
    assert(key_valid(k, e.atoms().len() as int, n as int));
    if i >= key_nof_sub(k) {
        lemma_grows_refl(st);
        (st, acc)
    } else {
        let child = key_sub(k, i);
        assert(child < n);
        let (c1, b) = node_ref_bytes(e, c, child as nat);
        let (c2, rest) = subs_bytes(e, c1, n, i + 1);
        assert(subs_bytes(e, c, n, i).1 == seq![TAG_SUB] + b + rest);
        assert(seq![TAG_SUB] + b + rest =~= seq![TAG_SUB] + (b + rest));
        lemma_split(s, p as int, seq![TAG_SUB], b + rest);
        assert(s[p as int] == TAG_SUB) by {
            assert(s.subrange(p as int, p + 1int)[0] == TAG_SUB);
        }
        lemma_split(s, p + 1int, b, rest);
        let (st1, m) = lemma_read_node(e, c, st, n, slack, s, p + 1, child as nat);
        let p1 = p + 1 + b.len();
        lemma_nonzero_bound(node_ref_bytes(e, c, child as nat).0.nodes);
        assert(m <= usize::MAX);
        assert(rd_tags(st, s, p, id_r, acc, Seq::empty(), n) == rd_tags(
            st1,
            s,
            p1,
            id_r,
            acc.push(m as usize),
            Seq::empty(),
            n,
        ));
        let acc1 = acc.push(m as usize);
        assert forall|q: int|
            0 <= q < i + 1 implies #[trigger] acc1[q] < st1.keys.len() && rtree(
            st1,
            acc1[q] as nat,
        ) == e.tree(key_sub(k, q) as nat) by {
            if q < i {
                lemma_rtree_grows(st, st1, acc[q] as nat);
            }
        }
        let (st2, all) = lemma_read_subs(e, c1, st1, slack, s, p1, n, i + 1, id_r, acc1);
        lemma_grows_trans(st, st1, st2);
        assert forall|sn: nat| count_of(c.nodes, sn) > 0 implies #[trigger] map_of(st2.imap, sn)
            == map_of(st.imap, sn) by {
            assert(count_of(c1.nodes, sn) >= count_of(c.nodes, sn)) by {
                crate::serializer::lemma_first_write(e, c, child as nat);
            }
        }
        (st2, all)
    }
}

/// Reading the named children of node `n` from the `j`-th on, where the
/// writer wrote them.
#[verifier::rlimit(100)]
proof fn lemma_read_named(
    e: &IrepNumbering,
    c: Counts,
    st: ReadState,
    slack: nat,
    s: Seq<u8>,
    p: nat,
    n: nat,
    j: int,
    id_r: nat,
    sub_all: Seq<usize>,
    acc: Seq<(usize, usize)>,
) -> (r: (ReadState, Seq<(usize, usize)>))
    requires
        e.wf(),
        rwf(st),
        corr(e, c, st, n, slack),
        n < e.keys().len(),
        0 <= j <= key_nof_named(e.keys()[n as int]),
        acc.len() == j,
        forall|q: int|
            0 <= q < j ==> #[trigger] acc[q].0 < st.atoms.len() && st.atoms[acc[q].0 as int]
                == e.atoms()[key_name(e.keys()[n as int], q) as int] && acc[q].1 < st.keys.len()
                && rtree(st, acc[q].1 as nat) == e.tree(key_value(e.keys()[n as int], q) as nat),
        forall|q: int|
            0 <= q < sub_all.len() ==> #[trigger] sub_all[q] < st.keys.len() && rtree(
                st,
                sub_all[q] as nat,
            ) == e.tree(key_sub(e.keys()[n as int], q) as nat),
        p + named_bytes(e, c, n, j).1.len() < s.len(),
        s.subrange(p as int, (p + named_bytes(e, c, n, j).1.len()) as int) == named_bytes(
            e,
            c,
            n,
            j,
        ).1,
    ensures
        rd_tags(st, s, p, id_r, sub_all, acc, n) == rd_tags(
            r.0,
            s,
            p + named_bytes(e, c, n, j).1.len(),
            id_r,
            sub_all,
            r.1,
            n,
        ),
        rwf(r.0),
        corr(e, named_bytes(e, c, n, j).0, r.0, n, slack),
        grows(st, r.0),
        r.1.len() == key_nof_named(e.keys()[n as int]),
        forall|q: int|
            0 <= q < r.1.len() ==> #[trigger] r.1[q].0 < r.0.atoms.len() && r.0.atoms[r.1[q].0 as int]
                == e.atoms()[key_name(e.keys()[n as int], q) as int] && r.1[q].1 < r.0.keys.len()
                && rtree(r.0, r.1[q].1 as nat) == e.tree(key_value(e.keys()[n as int], q) as nat),
        forall|q: int|
            0 <= q < sub_all.len() ==> #[trigger] sub_all[q] < r.0.keys.len() && rtree(
                r.0,
                sub_all[q] as nat,
            ) == e.tree(key_sub(e.keys()[n as int], q) as nat),
        forall|sn: nat|
            count_of(c.nodes, sn) > 0 ==> #[trigger] map_of(r.0.imap, sn) == map_of(st.imap, sn),
        forall|sn: nat|
            sn >= n ==> #[trigger] count_of(named_bytes(e, c, n, j).0.nodes, sn) == count_of(
                c.nodes,
                sn,
            ),
    decreases n, 1int, key_nof_named(e.keys()[n as int]) - j,
{
    e.lemma_wf();
    let k = e.keys()[n as int];
    assert(key_valid(k, e.atoms().len() as int, n as int));
    if j >= key_nof_named(k) {
        lemma_grows_refl(st);
        (st, acc)
    } else {
        let name = key_name(k, j);
        let value = key_value(k, j);
        assert(value < n && name < e.atoms().len());
        let (c1, b_key) = atom_ref_bytes(e, c, name as nat);
        let (c2, b_value) = node_ref_bytes(e, c1, value as nat);
        let (c3, rest) = named_bytes(e, c2, n, j + 1);
        assert(named_bytes(e, c, n, j).1 == seq![TAG_NAMED] + b_key + b_value + rest);
        assert(seq![TAG_NAMED] + b_key + b_value + rest =~= seq![TAG_NAMED] + (b_key + b_value
            + rest));
        lemma_split(s, p as int, seq![TAG_NAMED], b_key + b_value + rest);
        assert(s[p as int] == TAG_NAMED) by {
            assert(s.subrange(p as int, p + 1int)[0] == TAG_NAMED);
        }
        assert(b_key + b_value + rest =~= b_key + (b_value + rest));
        lemma_split(s, p + 1int, b_key, b_value + rest);
        lemma_read_atom(e, c, st, n, slack, s, p + 1, name as nat);
        let (st1, p1, kr) = rd_atom(st, s, p + 1)->Ok_0;
        lemma_split(s, p1 as int, b_value, rest);
        let (st2, vr) = lemma_read_node(e, c1, st1, n, slack, s, p1, value as nat);
        let p2 = p1 + b_value.len();
        lemma_nonzero_bound(c2.nodes);
        lemma_nonzero_bound(c2.atoms);
        assert(kr <= usize::MAX && vr <= usize::MAX);
        assert(rd_tags(st, s, p, id_r, sub_all, acc, n) == rd_tags(
            st2,
            s,
            p2,
            id_r,
            sub_all,
            acc.push((kr as usize, vr as usize)),
            n,
        ));
        lemma_grows_trans(st, st1, st2);
        let acc1 = acc.push((kr as usize, vr as usize));
        assert forall|q: int|
            0 <= q < j + 1 implies #[trigger] acc1[q].0 < st2.atoms.len() && st2.atoms[acc1[q].0 as int]
            == e.atoms()[key_name(k, q) as int] && acc1[q].1 < st2.keys.len() && rtree(
            st2,
            acc1[q].1 as nat,
        ) == e.tree(key_value(k, q) as nat) by {
            if q < j {
                assert(acc[q].0 < st.atoms.len());
                lemma_rtree_grows(st, st2, acc[q].1 as nat);
                assert(st2.atoms[acc[q].0 as int] == st2.atoms.subrange(0, st.atoms.len() as int)[acc[q].0 as int]);
            } else {
                assert(st2.atoms[kr as int] == st2.atoms.subrange(0, st1.atoms.len() as int)[kr as int]);
            }
        }
        assert forall|q: int|
            0 <= q < sub_all.len() implies #[trigger] sub_all[q] < st2.keys.len() && rtree(
            st2,
            sub_all[q] as nat,
        ) == e.tree(key_sub(k, q) as nat) by {
            lemma_rtree_grows(st, st2, sub_all[q] as nat);
        }
        let (st3, all) = lemma_read_named(e, c2, st2, slack, s, p2, n, j + 1, id_r, sub_all, acc1);
        lemma_grows_trans(st, st2, st3);
        assert forall|sn: nat| count_of(c.nodes, sn) > 0 implies #[trigger] map_of(st3.imap, sn)
            == map_of(st.imap, sn) by {
            assert(count_of(c2.nodes, sn) >= count_of(c1.nodes, sn)) by {
                crate::serializer::lemma_first_write(e, c1, value as nat);
            }
        }
        (st3, all)
    }
}

/// Round trip: when a writer that has written nothing yet writes a reference
/// to its node `n`, a reader that has read nothing yet reads those bytes back,
/// whatever follows them, exactly to their end, and the reader's number for
/// the node stands for the same content as `n` in the writer's numbering.
/// Numbers may differ between the two; contents do not.
pub proof fn lemma_round_trip(e: &IrepNumbering, n: nat, rest: Seq<u8>)
    requires
        e.wf(),
        n < e.keys().len(),
        e.keys().len() <= usize::MAX,
        e.atoms().len() <= usize::MAX,
    ensures
        ({
            let b = node_ref_bytes(e, Counts { atoms: Seq::empty(), nodes: Seq::empty() }, n).1;
            rd_node(empty_state(), b + rest, 0) matches Ok((st, p, m)) && p == b.len()
                && node_tree(st.atoms, st.keys, m) == e.tree(n)
        }),
{
    let c = Counts { atoms: Seq::empty(), nodes: Seq::empty() };
    let st = empty_state();
    let b = node_ref_bytes(e, c, n).1;
    let s = b + rest;
    assert(s.subrange(0, b.len() as int) =~= b);
    assert(corr(e, c, st, e.keys().len(), 0));
    lemma_read_node(e, c, st, e.keys().len(), 0, s, 0, n);
}

/// Round trip of a tree: where node `n` of the writer's numbering was
/// numbered from the tree `t`, the node that a fresh reader reads back from
/// the writer's bytes has the content of `t`.
pub proof fn lemma_tree_round_trip(e: &IrepNumbering, t: &Irep, n: nat, rest: Seq<u8>)
    requires
        e.wf(),
        n < e.keys().len(),
        e.tree(n) == t@,
        e.keys().len() <= usize::MAX,
        e.atoms().len() <= usize::MAX,
    ensures
        ({
            let b = node_ref_bytes(e, Counts { atoms: Seq::empty(), nodes: Seq::empty() }, n).1;
            rd_node(empty_state(), b + rest, 0) matches Ok((st, p, m)) && node_tree(
                st.atoms,
                st.keys,
                m,
            ) == t@
        }),
{
    lemma_round_trip(e, n, rest);
}

/// A writer and a reader that have not started correspond.
pub proof fn lemma_corr_start(e: &IrepNumbering, lim: nat)
    requires
        e.wf(),
    ensures
        corr(e, Counts { atoms: Seq::empty(), nodes: Seq::empty() }, empty_state(), lim, 0),
        rwf(empty_state()),
{
    e.lemma_wf();
    let st = empty_state();
    assert(keys_valid(st.atoms, st.keys));
}

/// Correspondence survives the writer numbering more content, and does not
/// depend on the bound `lim` beyond the numbers written.
pub proof fn lemma_corr_extends(
    e1: &IrepNumbering,
    e2: &IrepNumbering,
    c: Counts,
    st: ReadState,
    lim: nat,
    lim2: nat,
    slack: nat,
)
    requires
        e1.wf(),
        e2.wf(),
        crate::numbering::extends(e1, e2),
        corr(e1, c, st, lim, slack),
        c.nodes.len() <= lim,
    ensures
        corr(e2, c, st, lim2, slack),
{
    e1.lemma_wf();
    e2.lemma_wf();
    assert forall|sn: nat| #[trigger] count_of(c.atoms, sn) > 0 implies map_of(st.smap, sn) is Some
        && st.atoms[map_of(st.smap, sn)->0 as int] == e2.atoms()[sn as int] by {
        assert(e2.atoms()[sn as int] == e2.atoms().subrange(0, e1.atoms().len() as int)[sn as int]);
    }
    assert forall|sn: nat| #[trigger] count_of(c.nodes, sn) > 0 && sn < lim2 implies map_of(
        st.imap,
        sn,
    ) is Some && rtree(st, map_of(st.imap, sn)->0 as nat) == e2.tree(sn) by {
        crate::numbering::lemma_tree_preserved(e1, e2, sn);
    }
}

/// The record `rec` that the reader read stands, in its state `st`, for the
/// record with numbers `r` and flag word `f` of the writer's numbering `e`.
pub open spec fn read_matches(
    e: &IrepNumbering,
    st: ReadState,
    rec: ReadRecord,
    r: NumberedRecord,
    f: nat,
) -> bool {
    &&& rec.typ < st.keys.len() && rtree(st, rec.typ) == e.tree(r.typ)
    &&& rec.value < st.keys.len() && rtree(st, rec.value) == e.tree(r.value)
    &&& rec.location < st.keys.len() && rtree(st, rec.location) == e.tree(r.location)
    &&& rec.name < st.atoms.len() && st.atoms[rec.name as int] == e.atoms()[r.name as int]
    &&& rec.module < st.atoms.len() && st.atoms[rec.module as int] == e.atoms()[r.module as int]
    &&& rec.base_name < st.atoms.len() && st.atoms[rec.base_name as int] == e.atoms()[r.base_name as int]
    &&& rec.mode < st.atoms.len() && st.atoms[rec.mode as int] == e.atoms()[r.mode as int]
    &&& rec.pretty_name < st.atoms.len() && st.atoms[rec.pretty_name as int]
        == e.atoms()[r.pretty_name as int]
    &&& rec.flags == flags_of_word(f)
}

proof fn lemma_matches_grow(
    e: &IrepNumbering,
    st1: ReadState,
    st2: ReadState,
    rec: ReadRecord,
    r: NumberedRecord,
    f: nat,
)
    requires
        rwf(st1),
        grows(st1, st2),
        read_matches(e, st1, rec, r, f),
    ensures
        read_matches(e, st2, rec, r, f),
{
    lemma_rtree_grows(st1, st2, rec.typ);
    lemma_rtree_grows(st1, st2, rec.value);
    lemma_rtree_grows(st1, st2, rec.location);
    let a = st1.atoms.len() as int;
    assert(st2.atoms[rec.name as int] == st2.atoms.subrange(0, a)[rec.name as int]);
    assert(st2.atoms[rec.module as int] == st2.atoms.subrange(0, a)[rec.module as int]);
    assert(st2.atoms[rec.base_name as int] == st2.atoms.subrange(0, a)[rec.base_name as int]);
    assert(st2.atoms[rec.mode as int] == st2.atoms.subrange(0, a)[rec.mode as int]);
    assert(st2.atoms[rec.pretty_name as int] == st2.atoms.subrange(0, a)[rec.pretty_name as int]);
}

/// Reading the three node references of a record where the writer wrote
/// them.
proof fn lemma_read_three(
    e: &IrepNumbering,
    c: Counts,
    st: ReadState,
    s: Seq<u8>,
    pos: nat,
    r: NumberedRecord,
) -> (res: (ReadState, (nat, nat, nat)))
    requires
        e.wf(),
        rwf(st),
        corr(e, c, st, e.keys().len(), 0),
        record_in(e, r),
        ({
            let (c1, b1) = node_ref_bytes(e, c, r.typ);
            let (c2, b2) = node_ref_bytes(e, c1, r.value);
            let (c3, b3) = node_ref_bytes(e, c2, r.location);
            &&& pos + b1.len() + b2.len() + b3.len() <= s.len()
            &&& s.subrange(pos as int, (pos + b1.len() + b2.len() + b3.len()) as int) == b1 + b2 + b3
        }),
    ensures
        ({
            let (c1, b1) = node_ref_bytes(e, c, r.typ);
            let (c2, b2) = node_ref_bytes(e, c1, r.value);
            let (c3, b3) = node_ref_bytes(e, c2, r.location);
            &&& rd_three_nodes(st, s, pos) == Ok::<
                (ReadState, nat, (nat, nat, nat)),
                crate::error::FormatError,
            >((res.0, pos + b1.len() + b2.len() + b3.len(), res.1))
            &&& corr(e, c3, res.0, e.keys().len(), 0)
        }),
        rwf(res.0),
        grows(st, res.0),
        res.1.0 < res.0.keys.len() && rtree(res.0, res.1.0) == e.tree(r.typ),
        res.1.1 < res.0.keys.len() && rtree(res.0, res.1.1) == e.tree(r.value),
        res.1.2 < res.0.keys.len() && rtree(res.0, res.1.2) == e.tree(r.location),
{
    reveal(rd_three_nodes);
    let k = e.keys().len();
    let (c1, b1) = node_ref_bytes(e, c, r.typ);
    let (c2, b2) = node_ref_bytes(e, c1, r.value);
    let (c3, b3) = node_ref_bytes(e, c2, r.location);
    let p0 = pos as int;
    assert(b1 + b2 + b3 =~= b1 + (b2 + b3));
    lemma_split(s, p0, b1, b2 + b3);
    let (st1, v1) = lemma_read_node(e, c, st, k, 0, s, pos, r.typ);
    let p1 = p0 + b1.len();
    lemma_split(s, p1, b2, b3);
    let (st2, v2) = lemma_read_node(e, c1, st1, k, 0, s, p1 as nat, r.value);
    let p2 = p1 + b2.len();
    assert(s.subrange(p2, p2 + b3.len()) =~= b3);
    let (st3, v3) = lemma_read_node(e, c2, st2, k, 0, s, p2 as nat, r.location);
    lemma_grows_trans(st1, st2, st3);
    lemma_grows_trans(st, st1, st3);
    lemma_rtree_grows(st1, st3, v1);
    lemma_rtree_grows(st2, st3, v2);
    (st3, (v1, v2, v3))
}

/// Reading the five atom references of a record where the writer wrote them.
proof fn lemma_read_five(
    e: &IrepNumbering,
    c: Counts,
    st: ReadState,
    s: Seq<u8>,
    pos: nat,
    r: NumberedRecord,
) -> (res: (ReadState, (nat, nat, nat, nat, nat)))
    requires
        e.wf(),
        rwf(st),
        corr(e, c, st, e.keys().len(), 0),
        record_in(e, r),
        ({
            let (c4, b4) = atom_ref_bytes(e, c, r.name);
            let (c5, b5) = atom_ref_bytes(e, c4, r.module);
            let (c6, b6) = atom_ref_bytes(e, c5, r.base_name);
            let (c7, b7) = atom_ref_bytes(e, c6, r.mode);
            let (c8, b8) = atom_ref_bytes(e, c7, r.pretty_name);
            let b = b4 + b5 + b6 + b7 + b8;
            &&& pos + b.len() <= s.len()
            &&& s.subrange(pos as int, (pos + b.len()) as int) == b
        }),
    ensures
        ({
            let (c4, b4) = atom_ref_bytes(e, c, r.name);
            let (c5, b5) = atom_ref_bytes(e, c4, r.module);
            let (c6, b6) = atom_ref_bytes(e, c5, r.base_name);
            let (c7, b7) = atom_ref_bytes(e, c6, r.mode);
            let (c8, b8) = atom_ref_bytes(e, c7, r.pretty_name);
            let b = b4 + b5 + b6 + b7 + b8;
            &&& rd_five_atoms(st, s, pos) == Ok::<
                (ReadState, nat, (nat, nat, nat, nat, nat)),
                crate::error::FormatError,
            >((res.0, pos + b.len(), res.1))
            &&& corr(e, c8, res.0, e.keys().len(), 0)
        }),
        rwf(res.0),
        grows(st, res.0),
        st.keys == res.0.keys,
        res.1.0 < res.0.atoms.len() && res.0.atoms[res.1.0 as int] == e.atoms()[r.name as int],
        res.1.1 < res.0.atoms.len() && res.0.atoms[res.1.1 as int] == e.atoms()[r.module as int],
        res.1.2 < res.0.atoms.len() && res.0.atoms[res.1.2 as int] == e.atoms()[r.base_name as int],
        res.1.3 < res.0.atoms.len() && res.0.atoms[res.1.3 as int] == e.atoms()[r.mode as int],
        res.1.4 < res.0.atoms.len() && res.0.atoms[res.1.4 as int] == e.atoms()[
            r.pretty_name as int],
{
    reveal(rd_five_atoms);
    let k = e.keys().len();
    let (c4, b4) = atom_ref_bytes(e, c, r.name);
    let (c5, b5) = atom_ref_bytes(e, c4, r.module);
    let (c6, b6) = atom_ref_bytes(e, c5, r.base_name);
    let (c7, b7) = atom_ref_bytes(e, c6, r.mode);
    let (c8, b8) = atom_ref_bytes(e, c7, r.pretty_name);
    let p3 = pos as int;
    assert(b4 + b5 + b6 + b7 + b8 =~= b4 + (b5 + (b6 + (b7 + b8))));
    lemma_split(s, p3, b4, b5 + (b6 + (b7 + b8)));
    lemma_read_atom(e, c, st, k, 0, s, p3 as nat, r.name);
    let (st4, q4, a4) = rd_atom(st, s, p3 as nat)->Ok_0;
    let p4 = p3 + b4.len();
    lemma_split(s, p4, b5, b6 + (b7 + b8));
    lemma_read_atom(e, c4, st4, k, 0, s, p4 as nat, r.module);
    let (st5, q5, a5) = rd_atom(st4, s, p4 as nat)->Ok_0;
    let p5 = p4 + b5.len();
    lemma_split(s, p5, b6, b7 + b8);
    lemma_read_atom(e, c5, st5, k, 0, s, p5 as nat, r.base_name);
    let (st6, q6, a6) = rd_atom(st5, s, p5 as nat)->Ok_0;
    let p6 = p5 + b6.len();
    lemma_split(s, p6, b7, b8);
    lemma_read_atom(e, c6, st6, k, 0, s, p6 as nat, r.mode);
    let (st7, q7, a7) = rd_atom(st6, s, p6 as nat)->Ok_0;
    let p7 = p6 + b7.len();
    assert(s.subrange(p7, p7 + b8.len()) =~= b8);
    lemma_read_atom(e, c7, st7, k, 0, s, p7 as nat, r.pretty_name);
    let (st8, q8, a8) = rd_atom(st7, s, p7 as nat)->Ok_0;
    lemma_grows_trans(st6, st7, st8);
    lemma_grows_trans(st5, st6, st8);
    lemma_grows_trans(st4, st5, st8);
    lemma_grows_trans(st, st4, st8);
    assert(st8.atoms[a4 as int] == st8.atoms.subrange(0, st4.atoms.len() as int)[a4 as int]);
    assert(st8.atoms[a5 as int] == st8.atoms.subrange(0, st5.atoms.len() as int)[a5 as int]);
    assert(st8.atoms[a6 as int] == st8.atoms.subrange(0, st6.atoms.len() as int)[a6 as int]);
    assert(st8.atoms[a7 as int] == st8.atoms.subrange(0, st7.atoms.len() as int)[a7 as int]);
    (st8, (a4, a5, a6, a7, a8))
}

/// Reading a record where the writer wrote one: the reader's record stands
/// for the writer's, flags included.
pub proof fn lemma_read_record(
    e: &IrepNumbering,
    c: Counts,
    st: ReadState,
    s: Seq<u8>,
    pos: nat,
    r: NumberedRecord,
    f: nat,
) -> (res: (ReadState, ReadRecord))
    requires
        e.wf(),
        rwf(st),
        corr(e, c, st, e.keys().len(), 0),
        record_in(e, r),
        f < 0x2_0000,
        pos + record_bytes(e, c, r, f).1.len() <= s.len(),
        s.subrange(pos as int, (pos + record_bytes(e, c, r, f).1.len()) as int) == record_bytes(
            e,
            c,
            r,
            f,
        ).1,
    ensures
        rd_symbol(st, s, pos) == Ok::<(ReadState, nat, ReadRecord), crate::error::FormatError>(
            (res.0, pos + record_bytes(e, c, r, f).1.len(), res.1),
        ),
        rwf(res.0),
        corr(e, record_bytes(e, c, r, f).0, res.0, e.keys().len(), 0),
        grows(st, res.0),
        read_matches(e, res.0, res.1, r, f),
{
    reveal(record_bytes);
    reveal(rd_symbol);
    let (c1, b1) = node_ref_bytes(e, c, r.typ);
    let (c2, b2) = node_ref_bytes(e, c1, r.value);
    let (c3, b3) = node_ref_bytes(e, c2, r.location);
    let (c4, b4) = atom_ref_bytes(e, c3, r.name);
    let (c5, b5) = atom_ref_bytes(e, c4, r.module);
    let (c6, b6) = atom_ref_bytes(e, c5, r.base_name);
    let (c7, b7) = atom_ref_bytes(e, c6, r.mode);
    let (c8, b8) = atom_ref_bytes(e, c7, r.pretty_name);
    let nodes = b1 + b2 + b3;
    let atoms = b4 + b5 + b6 + b7 + b8;
    let tail = seq![0u8] + varint_encoding(f);
    let b = record_bytes(e, c, r, f).1;
    assert(b =~= nodes + (atoms + tail));
    lemma_split(s, pos as int, nodes, atoms + tail);
    let (st3, (v1, v2, v3)) = lemma_read_three(e, c, st, s, pos, r);
    let p3 = pos + nodes.len();
    lemma_split(s, p3 as int, atoms, tail);
    let (st8, (a4, a5, a6, a7, a8)) = lemma_read_five(e, c3, st3, s, p3, r);
    let p8 = p3 + atoms.len();
    lemma_split(s, p8 as int, seq![0u8], varint_encoding(f));
    assert(s[p8 as int] == 0) by {
        assert(s.subrange(p8 as int, p8 + 1int)[0] == 0);
    }
    lemma_varint_at(s, p8 + 1, f as usize);
    let rec = ReadRecord {
        typ: v1,
        value: v2,
        location: v3,
        name: a4,
        module: a5,
        base_name: a6,
        mode: a7,
        pretty_name: a8,
        flags: flags_of_word(f),
    };
    lemma_grows_trans(st, st3, st8);
    lemma_rtree_grows(st3, st8, v1);
    lemma_rtree_grows(st3, st8, v2);
    lemma_rtree_grows(st3, st8, v3);
    assert(rd_symbol(st, s, pos) == Ok::<(ReadState, nat, ReadRecord), crate::error::FormatError>(
        (st8, pos + b.len(), rec),
    ));
    (st8, rec)
}

/// Reading the first `k` records where the writer wrote them, a writer and
/// a reader both starting afresh.
proof fn lemma_read_records(
    e: &IrepNumbering,
    nums: Seq<NumberedRecord>,
    flags: Seq<nat>,
    s: Seq<u8>,
    p0: nat,
    k: nat,
) -> (res: (ReadState, Seq<ReadRecord>))
    requires
        e.wf(),
        k <= nums.len(),
        nums.len() == flags.len(),
        forall|i: int| 0 <= i < nums.len() ==> record_in(e, #[trigger] nums[i]),
        forall|i: int| 0 <= i < flags.len() ==> #[trigger] flags[i] < 0x2_0000,
        p0 + records_bytes(e, Counts { atoms: Seq::empty(), nodes: Seq::empty() }, nums.take(k as int), flags.take(k as int)).1.len() <= s.len(),
        s.subrange(
            p0 as int,
            (p0 + records_bytes(e, Counts { atoms: Seq::empty(), nodes: Seq::empty() }, nums.take(k as int), flags.take(k as int)).1.len()) as int,
        ) == records_bytes(e, Counts { atoms: Seq::empty(), nodes: Seq::empty() }, nums.take(k as int), flags.take(k as int)).1,
    ensures
        ({
            let (c, b) = records_bytes(
                e,
                Counts { atoms: Seq::empty(), nodes: Seq::empty() },
                nums.take(k as int),
                flags.take(k as int),
            );
            &&& rd_records(empty_state(), s, p0, k) == Ok::<
                (ReadState, nat, Seq<ReadRecord>),
                crate::error::FormatError,
            >((res.0, p0 + b.len(), res.1))
            &&& corr(e, c, res.0, e.keys().len(), 0)
        }),
        rwf(res.0),
        res.1.len() == k,
        forall|i: int|
            0 <= i < k ==> read_matches(e, res.0, #[trigger] res.1[i], nums[i], flags[i]),
    decreases k,
{
    let c0 = Counts { atoms: Seq::empty(), nodes: Seq::empty() };
    if k == 0 {
        lemma_corr_start(e, e.keys().len());
        assert(nums.take(0) =~= Seq::<NumberedRecord>::empty());
        (empty_state(), Seq::empty())
    } else {
        let nk = nums.take(k as int);
        let fk = flags.take(k as int);
        let n1 = nums.take(k - 1);
        let f1 = flags.take(k - 1);
        assert(nk.drop_last() =~= n1);
        assert(fk.drop_last() =~= f1);
        assert(nk.last() == nums[k - 1]);
        assert(fk.last() == flags[k - 1]);
        let (c1, b1) = records_bytes(e, c0, n1, f1);
        let (c2, b2) = record_bytes(e, c1, nums[k - 1], flags[k - 1]);
        assert(records_bytes(e, c0, nk, fk).1 == b1 + b2);
        lemma_split(s, p0 as int, b1, b2);
        let (st1, recs) = lemma_read_records(e, nums, flags, s, p0, (k - 1) as nat);
        assert(record_in(e, nums[k - 1]) && flags[k - 1] < 0x2_0000);
        let (st2, rec) = lemma_read_record(e, c1, st1, s, p0 + b1.len(), nums[k - 1], flags[k - 1]);
        let all = recs.push(rec);
        assert forall|i: int| 0 <= i < k implies read_matches(e, st2, #[trigger] all[i], nums[i], flags[i]) by {
            if i < k - 1 {
                assert(all[i] == recs[i]);
                lemma_matches_grow(e, st1, st2, recs[i], nums[i], flags[i]);
            }
        }
        (st2, all)
    }
}

/// Reading a whole stream that a fresh writer wrote for records with
/// numbers `nums` and flag words `flags`, with a fresh reader: it succeeds,
/// and yields one record for each, standing for the same trees, atoms and
/// flags.
pub proof fn lemma_file_round_trip(e: &IrepNumbering, nums: Seq<NumberedRecord>, flags: Seq<nat>)
    requires
        e.wf(),
        nums.len() == flags.len(),
        nums.len() <= usize::MAX,
        forall|i: int| 0 <= i < nums.len() ==> record_in(e, #[trigger] nums[i]),
        forall|i: int| 0 <= i < flags.len() ==> #[trigger] flags[i] < 0x2_0000,
    ensures
        ({
            let b = records_bytes(e, Counts { atoms: Seq::empty(), nodes: Seq::empty() }, nums, flags).1;
            let s = header_bytes() + varint_encoding(nums.len()) + b + varint_encoding(0);
            rd_file(s) matches Ok((st, recs)) && recs.len() == nums.len() && forall|i: int|
                0 <= i < nums.len() ==> read_matches(e, st, #[trigger] recs[i], nums[i], flags[i])
        }),
{
    let b = records_bytes(e, Counts { atoms: Seq::empty(), nodes: Seq::empty() }, nums, flags).1;
    let h = header_bytes();
    let v = varint_encoding(nums.len());
    let z = varint_encoding(0);
    let s = h + v + b + z;
    let five = varint_encoding(VERSION as nat);
    assert(h =~= seq![0x7fu8, 0x47u8, 0x42u8, 0x46u8] + five);
    reveal_with_fuel(rd_magic, 5);
    assert(s[0] == 0x7f && s[1] == 0x47 && s[2] == 0x42 && s[3] == 0x46);
    assert(s.subrange(4, (4 + five.len()) as int) =~= five);
    lemma_varint_at(s, 4, VERSION);
    let p = (4 + five.len()) as nat;
    assert(s.subrange(p as int, (p + v.len()) as int) =~= v);
    lemma_varint_at(s, p, nums.len() as usize);
    let q = p + v.len();
    assert(nums.take(nums.len() as int) =~= nums);
    assert(flags.take(flags.len() as int) =~= flags);
    assert(s.subrange(q as int, (q + b.len()) as int) =~= b);
    let c0 = Counts { atoms: Seq::empty(), nodes: Seq::empty() };
    let k = nums.len();
    assert(records_bytes(e, c0, nums.take(k as int), flags.take(k as int)).1 == b);
    assert(q + b.len() <= s.len());
    let (st, recs) = lemma_read_records(e, nums, flags, s, q, k);
    let end = q + b.len();
    assert(s.subrange(end as int, (end + z.len()) as int) =~= z);
    lemma_varint_at(s, end, 0);
}

} // verus!
