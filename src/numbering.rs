//! Content-addressed numbering of atoms and tree nodes (hash-consing).
//!
//! Atoms are numbered by their text. A node is numbered by its key: the
//! number of its id, then the count and numbers of its positional children,
//! then the count and number pairs of its named children. All keys are
//! packed, in the order they were first seen, into one flat array. Atoms and
//! keys seen before are found through tables that file each number under the
//! hash of what it stands for.
use crate::content_hash::{bucket, file_number, filed, hash_numbers, hash_text, numbers_hash, text_hash};
use crate::tree::{leaf_tree, tree_of, Irep, Tree};
use std::collections::HashMap;
use vstd::prelude::*;

verus! {

/// An atom with the number that its engine gave it.
#[derive(Debug, Clone)]
pub struct NumberedString {
    pub number: usize,
    pub string: String,
}

/// A numbered node: its number and where its key starts in the engine's
/// flat key array.
#[derive(Debug, Clone, Copy, PartialEq, Eq, Structural)]
pub struct NumberedIrep {
    pub number: usize,
    pub start_index: usize,
}

/// The packed structural key of a node.
pub struct IrepKey {
    pub numbers: Vec<usize>,
}

/// The pairs of `named` laid out one component after the other.
pub open spec fn flat_pairs(named: Seq<(usize, usize)>) -> Seq<usize> {
    Seq::new(2 * named.len(), |i: int| if i % 2 == 0 { named[i / 2].0 } else { named[i / 2].1 })
}

/// The key of a node whose id, positional children and named children have
/// the given numbers.
pub open spec fn packed_key(id: usize, sub: Seq<usize>, named: Seq<(usize, usize)>) -> Seq<usize> {
    seq![id, sub.len() as usize] + sub + seq![named.len() as usize] + flat_pairs(named)
}

/// The number of positional children that key `k` holds.
pub open spec fn key_nof_sub(k: Seq<usize>) -> int {
    k[1] as int
}

/// The number of named children that key `k` holds.
pub open spec fn key_nof_named(k: Seq<usize>) -> int {
    k[2 + key_nof_sub(k)] as int
}

/// The number of the `i`-th positional child in key `k`.
pub open spec fn key_sub(k: Seq<usize>, i: int) -> usize {
    k[2 + i]
}

/// The atom number of the `j`-th name in key `k`.
pub open spec fn key_name(k: Seq<usize>, j: int) -> usize {
    k[3 + key_nof_sub(k) + 2 * j]
}

/// The node number of the `j`-th named child in key `k`.
pub open spec fn key_value(k: Seq<usize>, j: int) -> usize {
    k[4 + key_nof_sub(k) + 2 * j]
}

/// `k` is laid out as a key: its counts agree with its length.
pub open spec fn key_shaped(k: Seq<usize>) -> bool {
    &&& k.len() >= 3
    &&& 2 + key_nof_sub(k) < k.len()
    &&& k.len() == 3 + key_nof_sub(k) + 2 * key_nof_named(k)
}

/// `k` is a key whose atoms are below `n_atoms` and whose children are
/// below `n`: every node is keyed by nodes numbered before it.
pub open spec fn key_valid(k: Seq<usize>, n_atoms: int, n: int) -> bool {
    &&& key_shaped(k)
    &&& k[0] < n_atoms
    &&& forall|i: int| 0 <= i < key_nof_sub(k) ==> #[trigger] key_sub(k, i) < n
    &&& forall|j: int|
        0 <= j < key_nof_named(k) ==> #[trigger] key_name(k, j) < n_atoms && key_value(k, j) < n
}

/// The content of node `n`, read from the atoms and keys of an engine.
pub open spec fn node_tree(atoms: Seq<Seq<char>>, keys: Seq<Seq<usize>>, n: nat) -> Tree
    decreases n,
{
    if n >= keys.len() {
        leaf_tree()
    } else {
        let k = keys[n as int];
        Tree {
            id: atoms[k[0] as int],
            sub: Seq::new(
                key_nof_sub(k) as nat,
                |i: int|
                    if key_sub(k, i) < n {
                        node_tree(atoms, keys, key_sub(k, i) as nat)
                    } else {
                        leaf_tree()
                    },
            ),
            named: Seq::new(
                key_nof_named(k) as nat,
                |j: int|
                    (
                        atoms[key_name(k, j) as int],
                        if key_value(k, j) < n {
                            node_tree(atoms, keys, key_value(k, j) as nat)
                        } else {
                            leaf_tree()
                        },
                    ),
            ),
        }
    }
}

impl IrepKey {
    /// Packs the numbers of a node's id, positional children and named
    /// children into a key.
    pub fn new(id: usize, sub: &[usize], named_sub: &[(usize, usize)]) -> (r: Self)
        ensures
            r.numbers@ == packed_key(id, sub@, named_sub@),
            sub@.len() <= usize::MAX,
            named_sub@.len() <= usize::MAX,
    {
        let mut vec: Vec<usize> = Vec::new();
        vec.push(id);
        vec.push(sub.len());
        let mut i: usize = 0;
        while i < sub.len()
            invariant
                i <= sub@.len(),
                vec@ == seq![id, sub@.len() as usize] + sub@.take(i as int),
            decreases sub@.len() - i,
        {
            vec.push(sub[i]);
            proof {
                assert(sub@.take(i + 1) =~= sub@.take(i as int).push(sub@[i as int]));
            }
            i = i + 1;
        }
        vec.push(named_sub.len());
        let ghost head = seq![id, sub@.len() as usize] + sub@ + seq![named_sub@.len() as usize];
        proof {
            assert(sub@.take(i as int) =~= sub@);
            assert(vec@ =~= head);
        }
        let mut j: usize = 0;
        while j < named_sub.len()
            invariant
                j <= named_sub@.len(),
                vec@ == head + flat_pairs(named_sub@.take(j as int)),
            decreases named_sub@.len() - j,
        {
            let (k, v) = named_sub[j];
            vec.push(k);
            vec.push(v);
            proof {
                assert(flat_pairs(named_sub@.take(j + 1)) =~= flat_pairs(named_sub@.take(j as int)).push(
                    k,
                ).push(v));
            }
            j = j + 1;
        }
        proof {
            assert(named_sub@.take(j as int) =~= named_sub@);
        }
        IrepKey { numbers: vec }
    }
}

/// The inverse of a node numbering: from a number to the node's key.
pub struct IrepNumberingInv {
    /// The numbered nodes, each stored under its own number.
    index: Vec<NumberedIrep>,
    /// The concatenation of all keys, in the order they were numbered.
    keys: Vec<usize>,
    /// The key of each node, by number.
    key_seqs: Ghost<Seq<Seq<usize>>>,
}

impl IrepNumberingInv {
    /// The key of each numbered node.
    pub closed spec fn key_list(&self) -> Seq<Seq<usize>> {
        self.key_seqs@
    }

    /// The numbered nodes, by number.
    pub closed spec fn entries(&self) -> Seq<NumberedIrep> {
        self.index@
    }

    /// The flat key array.
    pub closed spec fn flat_keys(&self) -> Seq<usize> {
        self.keys@
    }

    /// Every key is stored at its node's start index, and no key occurs twice.
    pub closed spec fn wf(&self) -> bool {
        &&& self.index@.len() == self.key_seqs@.len()
        &&& self.index@.len() <= usize::MAX
        &&& self.keys@.len() <= usize::MAX
        &&& forall|n: int|
            0 <= n < self.index@.len() ==> {
                let e = #[trigger] self.index@[n];
                let k = self.key_seqs@[n];
                &&& e.number == n
                &&& key_shaped(k)
                &&& e.start_index + k.len() <= self.keys@.len()
                &&& self.keys@.subrange(e.start_index as int, e.start_index + k.len()) == k
            }
        &&& forall|a: int, b: int|
            0 <= a < self.key_seqs@.len() && 0 <= b < self.key_seqs@.len() && a != b
                ==> #[trigger] self.key_seqs@[a] != #[trigger] self.key_seqs@[b]
    }

    pub fn new() -> (r: Self)
        ensures
            r.wf(),
            r.key_list() == Seq::<Seq<usize>>::empty(),
    {
        IrepNumberingInv { index: Vec::new(), keys: Vec::new(), key_seqs: Ghost(Seq::empty()) }
    }

    /// Adds a key that is not numbered yet, under the next number.
    pub fn add_key(&mut self, key: &IrepKey) -> (r: usize)
        requires
            old(self).wf(),
            key_shaped(key.numbers@),
            forall|n: int| 0 <= n < old(self).key_list().len() ==> old(self).key_list()[n] != key.numbers@,
        ensures
            final(self).wf(),
            r == old(self).key_list().len(),
            final(self).key_list() == old(self).key_list().push(key.numbers@),
            final(self).entries() == old(self).entries().push(
                NumberedIrep { number: r, start_index: old(self).flat_keys().len() as usize },
            ),
            final(self).flat_keys() == old(self).flat_keys() + key.numbers@,
    {
        let number = self.index.len();
        let start = self.keys.len();
        let ghost old_keys = self.keys@;
        self.index.push(NumberedIrep { number, start_index: start });
        let mut i: usize = 0;
        while i < key.numbers.len()
            invariant
                i <= key.numbers@.len(),
                self.keys@ == old_keys + key.numbers@.take(i as int),
                start == old_keys.len(),
                old_keys == old(self).keys@,
                number == old(self).index@.len(),
                self.index@ == old(self).index@.push(NumberedIrep { number, start_index: start }),
                self.key_seqs == old(self).key_seqs,
            decreases key.numbers@.len() - i,
        {
            self.keys.push(key.numbers[i]);
            proof {
                assert(key.numbers@.take(i + 1) =~= key.numbers@.take(i as int).push(
                    key.numbers@[i as int],
                ));
            }
            i = i + 1;
        }
        // The arrays' lengths are `usize`s: every number and position fits one.
        let end: usize = self.keys.len();
        let count: usize = self.index.len();
        proof {
            assert(end == self.keys@.len());
            assert(count == self.index@.len());
            assert(key.numbers@.take(i as int) =~= key.numbers@);
            self.key_seqs@ = self.key_seqs@.push(key.numbers@);
            assert forall|n: int| 0 <= n < self.index@.len() implies {
                let e = #[trigger] self.index@[n];
                let k = self.key_seqs@[n];
                &&& e.number == n
                &&& key_shaped(k)
                &&& e.start_index + k.len() <= self.keys@.len()
                &&& self.keys@.subrange(e.start_index as int, e.start_index + k.len()) == k
            } by {
                let e = self.index@[n];
                let k = self.key_seqs@[n];
                if n < number {
                    assert(old(self).index@[n] == e);
                    assert(old_keys.subrange(e.start_index as int, e.start_index + k.len()) == k);
                    assert(self.keys@.subrange(e.start_index as int, e.start_index + k.len())
                        =~= old_keys.subrange(e.start_index as int, e.start_index + k.len()));
                } else {
                    assert(self.keys@.subrange(e.start_index as int, e.start_index + k.len())
                        =~= k);
                }
            }
            assert forall|a: int, b: int|
                0 <= a < self.key_seqs@.len() && 0 <= b < self.key_seqs@.len() && a
                    != b implies #[trigger] self.key_seqs@[a] != #[trigger] self.key_seqs@[b] by {
                if a < number && b < number {
                    assert(old(self).key_seqs@[a] != old(self).key_seqs@[b]);
                } else if a == number {
                    assert(old(self).key_list()[b] != key.numbers@);
                } else {
                    assert(old(self).key_list()[a] != key.numbers@);
                }
            }
        }
        number
    }

    /// Where the key of node `n` lies in the flat key array.
    pub proof fn lemma_key_at(&self, n: int)
        requires
            self.wf(),
            0 <= n < self.key_list().len(),
        ensures
            self.entries().len() == self.key_list().len(),
            self.entries()[n].number == n,
            key_shaped(self.key_list()[n]),
            self.entries()[n].start_index + self.key_list()[n].len() <= self.flat_keys().len(),
            self.flat_keys().len() <= usize::MAX,
            forall|x: int|
                0 <= x < self.key_list()[n].len() ==> self.flat_keys()[self.entries()[n].start_index
                    + x] == #[trigger] self.key_list()[n][x],
    {
        let e = self.index@[n];
        let k = self.key_seqs@[n];
        assert forall|x: int| 0 <= x < k.len() implies self.keys@[e.start_index + x] == #[trigger] k[x] by {
            assert(self.keys@.subrange(e.start_index as int, e.start_index + k.len())[x] == k[x]);
        }
    }

    /// Whether the flat key array holds `key` from position `start` on.
    fn key_matches(&self, start: usize, key: &IrepKey) -> (r: bool)
        ensures
            r == (start + key.numbers@.len() <= self.keys@.len() && self.keys@.subrange(
                start as int,
                start + key.numbers@.len(),
            ) == key.numbers@),
    {
        if start > self.keys.len() || key.numbers.len() > self.keys.len() - start {
            return false;
        }
        let mut j: usize = 0;
        while j < key.numbers.len()
            invariant
                start + key.numbers@.len() <= self.keys@.len(),
                self.keys@.len() <= usize::MAX,
                j <= key.numbers@.len(),
                forall|x: int| 0 <= x < j ==> self.keys@[start + x] == key.numbers@[x],
            decreases key.numbers@.len() - j,
        {
            if self.keys[start + j] != key.numbers[j] {
                proof {
                    assert(self.keys@.subrange(start as int, start + key.numbers@.len())[j as int]
                        != key.numbers@[j as int]);
                }
                return false;
            }
            j = j + 1;
        }
        proof {
            assert(self.keys@.subrange(start as int, start + key.numbers@.len()) =~= key.numbers@);
        }
        true
    }

    /// Whether the key of node `n` is `key`.
    fn key_at_is(&self, n: usize, key: &IrepKey) -> (r: bool)
        requires
            self.wf(),
            key_shaped(key.numbers@),
            n < self.key_list().len(),
        ensures
            r == (self.key_list()[n as int] == key.numbers@),
    {
        let start = self.index[n].start_index;
        proof {
            self.lemma_key_at(n as int);
        }
        let r = self.key_matches(start, key);
        proof {
            let k = self.key_seqs@[n as int];
            let kk = key.numbers@;
            if r {
                let sub = self.keys@.subrange(start as int, start + kk.len());
                assert(k[1] == self.keys@[start + 1]);
                assert(kk[1] == sub[1]);
                assert(k[2 + k[1]] == self.keys@[start + 2 + k[1]]);
                assert(kk[2 + kk[1]] == sub[2 + kk[1]]);
                assert(k.len() == kk.len());
                assert forall|x: int| 0 <= x < k.len() implies k[x] == kk[x] by {
                    assert(sub[x] == self.keys@[start + x]);
                }
                assert(k =~= kk);
            } else if k == kk {
                assert(self.keys@.subrange(start as int, start + k.len()) =~= k);
            }
        }
        r
    }

    /// The numbered node with number `irep_number`, if there is one.
    pub fn numbered_irep_from_number(&self, irep_number: usize) -> (r: Option<NumberedIrep>)
        ensures
            irep_number < self.entries().len() ==> r == Some(self.entries()[irep_number as int]),
            irep_number >= self.entries().len() ==> r is None,
    {
        if irep_number < self.index.len() {
            Some(self.index[irep_number])
        } else {
            None
        }
    }
}

/// A numbering of atoms and nodes by their contents. Numbers are dense and
/// given in order of first appearance; they never change.
pub struct IrepNumbering {
    /// The numbers of the atoms, filed under the hash of their text.
    string_cache: HashMap<u64, Vec<usize>>,
    /// The atoms, each stored under its own number.
    inv_string_cache: Vec<String>,
    /// The numbers of the nodes, filed under the hash of their key.
    cache: HashMap<u64, Vec<usize>>,
    /// The inverse node numbering.
    inv_cache: IrepNumberingInv,
}

/// Every number below `hashes.len()` is filed in `table` under its hash,
/// and every number filed is below `hashes.len()`.
pub open spec fn all_filed(table: Map<u64, Vec<usize>>, hashes: Seq<u64>) -> bool {
    &&& hashes.len() <= usize::MAX + 1
    &&& forall|i: int| 0 <= i < hashes.len() ==> bucket(table, #[trigger] hashes[i]).contains(i as usize)
    &&& forall|h: u64, j: int|
        0 <= j < bucket(table, h).len() ==> #[trigger] bucket(table, h)[j] < hashes.len()
}

/// Filing the next number under its hash keeps every number filed.
proof fn lemma_file_push(t1: Map<u64, Vec<usize>>, t2: Map<u64, Vec<usize>>, hashes: Seq<u64>, h: u64)
    requires
        all_filed(t1, hashes),
        hashes.len() <= usize::MAX,
        bucket(t2, h) == bucket(t1, h).push(hashes.len() as usize),
        forall|g: u64| g != h ==> #[trigger] bucket(t2, g) == bucket(t1, g),
    ensures
        all_filed(t2, hashes.push(h)),
{
    let hs = hashes.push(h);
    assert forall|i: int| 0 <= i < hs.len() implies bucket(t2, #[trigger] hs[i]).contains(i as usize) by {
        let g = hs[i];
        if i < hashes.len() {
            assert(hs[i] == hashes[i]);
            assert(bucket(t1, hashes[i]).contains(i as usize));
            let q = choose|q: int|
                0 <= q < bucket(t1, g).len() && bucket(t1, g)[q] == i as usize;
            if g == h {
                assert(bucket(t2, g)[q] == bucket(t1, g)[q]);
            } else {
                assert(bucket(t2, g) == bucket(t1, g));
            }
            assert(0 <= q < bucket(t2, g).len() && bucket(t2, g)[q] == i as usize);
        } else {
            let q = bucket(t1, h).len() as int;
            assert(bucket(t2, h)[q] == hashes.len() as usize);
            assert(0 <= q < bucket(t2, g).len() && bucket(t2, g)[q] == i as usize);
        }
    }
    assert forall|g: u64, j: int| 0 <= j < bucket(t2, g).len() implies #[trigger] bucket(t2, g)[j]
        < hs.len() by {
        if g == h && j < bucket(t1, g).len() {
            assert(bucket(t2, g)[j] == bucket(t1, g)[j]);
        } else if g != h {
            assert(bucket(t2, g) == bucket(t1, g));
            assert(bucket(t1, g)[j] < hashes.len());
        }
    }
}

/// `later` holds everything `earlier` holds, under the same numbers.
pub open spec fn extends(earlier: &IrepNumbering, later: &IrepNumbering) -> bool {
    &&& earlier.atoms().is_prefix_of(later.atoms())
    &&& earlier.keys().is_prefix_of(later.keys())
    &&& earlier.entries().is_prefix_of(later.entries())
    &&& earlier.flat_keys().is_prefix_of(later.flat_keys())
}

impl IrepNumbering {
    /// The text of each atom, by number.
    pub closed spec fn atoms(&self) -> Seq<Seq<char>> {
        self.inv_string_cache@.map_values(|s: String| s@)
    }

    /// The key of each node, by number.
    pub closed spec fn keys(&self) -> Seq<Seq<usize>> {
        self.inv_cache.key_list()
    }

    /// The numbered nodes, by number.
    pub closed spec fn entries(&self) -> Seq<NumberedIrep> {
        self.inv_cache.entries()
    }

    /// The flat key array.
    pub closed spec fn flat_keys(&self) -> Seq<usize> {
        self.inv_cache.flat_keys()
    }

    /// The content of node `n`.
    pub open spec fn tree(&self, n: nat) -> Tree {
        node_tree(self.atoms(), self.keys(), n)
    }

    /// Atoms are distinct, keys are valid and distinct, and the flat key
    /// array has room for its positions to be `usize`.
    pub closed spec fn wf(&self) -> bool {
        &&& self.inv_cache.wf()
        &&& self.inv_string_cache@.len() <= usize::MAX
        &&& forall|a: int, b: int|
            0 <= a < self.inv_string_cache@.len() && 0 <= b < self.inv_string_cache@.len() && a
                != b ==> #[trigger] self.inv_string_cache@[a]@ != #[trigger] self.inv_string_cache@[b]@
        &&& forall|n: int|
            0 <= n < self.keys().len() ==> key_valid(
                #[trigger] self.keys()[n],
                self.inv_string_cache@.len() as int,
                n,
            )
        &&& all_filed(self.string_cache@, self.inv_string_cache@.map_values(|t: String| text_hash(t@)))
        &&& all_filed(self.cache@, self.keys().map_values(|k: Seq<usize>| numbers_hash(k)))
    }

    /// The well-formedness facts that callers outside this module rely on.
    pub proof fn lemma_wf(&self)
        requires
            self.wf(),
        ensures
            self.entries().len() == self.keys().len(),
            self.atoms().len() <= usize::MAX,
            self.keys().len() <= usize::MAX,
            forall|n: int|
                0 <= n < self.keys().len() ==> key_valid(
                    #[trigger] self.keys()[n],
                    self.atoms().len() as int,
                    n,
                ),
            forall|n: int|
                0 <= n < self.entries().len() ==> (#[trigger] self.entries()[n]).number == n,
    {
        assert forall|n: int| 0 <= n < self.entries().len() implies (
        #[trigger] self.entries()[n]).number == n by {
            let e = self.inv_cache.index@[n];
        }
    }

    pub fn new() -> (r: Self)
        ensures
            r.wf(),
            r.atoms() == Seq::<Seq<char>>::empty(),
            r.keys() == Seq::<Seq<usize>>::empty(),
            r.entries() == Seq::<NumberedIrep>::empty(),
    {
        let r = IrepNumbering {
            string_cache: HashMap::new(),
            inv_string_cache: Vec::new(),
            cache: HashMap::new(),
            inv_cache: IrepNumberingInv::new(),
        };
        proof {
            assert(r.atoms() =~= Seq::<Seq<char>>::empty());
        }
        r
    }

    /// The atom numbered `string_number`, if there is one.
    pub fn numbered_string_from_number(&self, string_number: usize) -> (r: Option<NumberedString>)
        ensures
            string_number < self.atoms().len() ==> r is Some && r->0.number == string_number
                && r->0.string@ == self.atoms()[string_number as int],
            string_number >= self.atoms().len() ==> r is None,
    {
        if string_number < self.inv_string_cache.len() {
            Some(
                NumberedString {
                    number: string_number,
                    string: self.inv_string_cache[string_number].clone(),
                },
            )
        } else {
            None
        }
    }

    /// The numbered node with number `irep_number`, if there is one.
    pub fn numbered_irep_from_number(&self, irep_number: usize) -> (r: Option<NumberedIrep>)
        ensures
            irep_number < self.entries().len() ==> r == Some(self.entries()[irep_number as int]),
            irep_number >= self.entries().len() ==> r is None,
    {
        self.inv_cache.numbered_irep_from_number(irep_number)
    }

    /// Numbers the atom `string`: the number it already has, or the next one.
    pub fn number_string(&mut self, string: &String) -> (r: NumberedString)
        requires
            old(self).wf(),
        ensures
            final(self).wf(),
            extends(old(self), final(self)),
            final(self).keys() == old(self).keys(),
            final(self).entries() == old(self).entries(),
            final(self).flat_keys() == old(self).flat_keys(),
            old(self).atoms().contains(string@) ==> *final(self) == *old(self),
            old(self).atoms().contains(string@) ==> final(self).atoms() == old(self).atoms(),
            !old(self).atoms().contains(string@) ==> final(self).atoms() == old(self).atoms().push(
                string@,
            ),
            r.number < final(self).atoms().len(),
            final(self).atoms()[r.number as int] == string@,
            r.string@ == string@,
    {
        let len = self.inv_string_cache.len();
        let h = hash_text(string.as_str());
        let candidates = filed(&self.string_cache, h);
        let mut j: usize = 0;
        while j < candidates.len()
            invariant
                len == self.inv_string_cache@.len(),
                self.wf(),
                *self == *old(self),
                h == text_hash(string@),
                candidates@ == bucket(self.string_cache@, h),
                j <= candidates@.len(),
                forall|q: int| 0 <= q < j ==> self.inv_string_cache@[candidates@[q] as int]@ != string@,
            decreases candidates@.len() - j,
        {
            let i = candidates[j];
            assert(i < len) by {
                assert(bucket(self.string_cache@, h)[j as int] < len);
            }
            if self.inv_string_cache[i].eq(string) {
                proof {
                    assert(self.atoms()[i as int] == string@);
                    assert(self.atoms().contains(string@));
                }
                return NumberedString { number: i, string: string.clone() };
            }
            j = j + 1;
        }
        proof {
            assert(!self.atoms().contains(string@)) by {
                if self.atoms().contains(string@) {
                    let i = choose|i: int| 0 <= i < self.atoms().len() && self.atoms()[i] == string@;
                    assert(self.inv_string_cache@[i]@ == string@);
                    let hashes = self.inv_string_cache@.map_values(|t: String| text_hash(t@));
                    assert(hashes[i] == h);
                    assert(bucket(self.string_cache@, hashes[i]).contains(i as usize));
                    let q = choose|q: int|
                        0 <= q < bucket(self.string_cache@, hashes[i]).len()
                            && bucket(self.string_cache@, hashes[i])[q] == i as usize;
                    assert(self.inv_string_cache@[candidates@[q] as int]@ == string@);
                }
            }
        }
        self.inv_string_cache.push(string.clone());
        // The table's length is a `usize`: every atom number fits one.
        let total: usize = self.inv_string_cache.len();
        assert(total == len + 1);
        file_number(&mut self.string_cache, h, len);
        proof {
            assert forall|n: int| 0 <= n < self.keys().len() implies key_valid(
                #[trigger] self.keys()[n],
                self.inv_string_cache@.len() as int,
                n,
            ) by {
                assert(key_valid(old(self).keys()[n], len as int, n));
            }
            assert(self.inv_string_cache@.map_values(|t: String| text_hash(t@)) =~= old(
                self,
            ).inv_string_cache@.map_values(|t: String| text_hash(t@)).push(h));
            lemma_file_push(
                old(self).string_cache@,
                self.string_cache@,
                old(self).inv_string_cache@.map_values(|t: String| text_hash(t@)),
                h,
            );
            assert(self.keys() == old(self).keys());
            assert(self.inv_cache.wf());
            assert(all_filed(self.cache@, self.keys().map_values(|k: Seq<usize>| numbers_hash(k))));
            assert(all_filed(
                self.string_cache@,
                self.inv_string_cache@.map_values(|t: String| text_hash(t@)),
            ));
            assert forall|a: int, b: int|
                0 <= a < self.inv_string_cache@.len() && 0 <= b < self.inv_string_cache@.len() && a
                    != b implies #[trigger] self.inv_string_cache@[a]@ != #[trigger] self.inv_string_cache@[b]@ by {
                if a < len && b < len {
                    assert(self.inv_string_cache@[a] == old(self).inv_string_cache@[a]);
                    assert(self.inv_string_cache@[b] == old(self).inv_string_cache@[b]);
                } else if a < len {
                    assert(old(self).atoms()[a] == self.inv_string_cache@[a]@);
                } else {
                    assert(old(self).atoms()[b] == self.inv_string_cache@[b]@);
                }
            }
            assert(self.atoms() =~= old(self).atoms().push(string@));
            assert(old(self).atoms().is_prefix_of(self.atoms()));
        }
        NumberedString { number: len, string: string.clone() }
    }

    /// Numbers the node `irep` and, first, everything in it: the id, then
    /// each positional child, then each named child's key and value, all left
    /// to right. Structurally identical nodes get the same number.
    pub fn number_irep(&mut self, irep: &Irep) -> (r: NumberedIrep)
        requires
            old(self).wf(),
        ensures
            final(self).wf(),
            extends(old(self), final(self)),
            final(self).holds(r),
            final(self).tree(r.number as nat) == irep@,
            (exists|m: nat| m < old(self).keys().len() && old(self).tree(m) == irep@)
                ==> *final(self) == *old(self),
        decreases irep,
    {
        let ghost present = exists|m: nat| m < self.keys().len() && self.tree(m) == irep@;
        let ghost m0: nat = if present {
            choose|m: nat| m < self.keys().len() && self.tree(m) == irep@
        } else {
            0
        };
        let ghost k0 = self.keys()[m0 as int];
        proof {
            if present {
                lemma_present_parts(self, m0, irep);
                self.lemma_atoms_distinct();
                assert(self.atoms().contains(irep.id@));
            }
        }
        let id = self.number_string(&irep.id).number;
        proof {
            if present {
                assert(self.atoms()[k0[0] as int] == irep.id@);
            }
        }
        let mut sub: Vec<usize> = Vec::new();
        let mut i: usize = 0;
        while i < irep.sub.len()
            invariant
                present ==> *self == *old(self),
                present ==> m0 < old(self).keys().len() && old(self).tree(m0) == irep@ && k0
                    == old(self).keys()[m0 as int],
                present ==> id == k0[0],
                present ==> forall|p: int| 0 <= p < i ==> sub@[p] == key_sub(k0, p),
                self.wf(),
                extends(old(self), self),
                id < self.atoms().len(),
                self.atoms()[id as int] == irep.id@,
                i <= irep.sub@.len(),
                sub@.len() == i,
                forall|p: int|
                    0 <= p < i ==> #[trigger] sub@[p] < self.keys().len() && self.tree(
                        sub@[p] as nat,
                    ) == tree_of(irep.sub@[p]),
            decreases irep.sub@.len() - i,
        {
            let ghost before = *self;
            proof {
                if present {
                    lemma_present_parts(old(self), m0, irep);
                    assert(before.tree(key_sub(k0, i as int) as nat) == tree_of(irep.sub@[i as int]));
                }
            }
            let n = self.number_irep(&irep.sub[i]).number;
            proof {
                lemma_extends_trans(old(self), &before, self);
                self.lemma_wf();
                if present {
                    lemma_tree_injective(self, n as nat, key_sub(k0, i as int) as nat);
                }
                assert forall|p: int| 0 <= p < i implies #[trigger] sub@[p] < self.keys().len()
                    && self.tree(sub@[p] as nat) == tree_of(irep.sub@[p]) by {
                    lemma_tree_preserved(&before, self, sub@[p] as nat);
                }
            }
            sub.push(n);
            i = i + 1;
        }
        let mut named_sub: Vec<(usize, usize)> = Vec::new();
        let mut j: usize = 0;
        while j < irep.named_sub.len()
            invariant
                present ==> *self == *old(self),
                present ==> m0 < old(self).keys().len() && old(self).tree(m0) == irep@ && k0
                    == old(self).keys()[m0 as int],
                present ==> id == k0[0],
                present ==> forall|p: int| 0 <= p < sub@.len() ==> sub@[p] == key_sub(k0, p),
                present ==> forall|p: int|
                    0 <= p < j ==> named_sub@[p].0 == key_name(k0, p) && named_sub@[p].1 == key_value(
                        k0,
                        p,
                    ),
                self.wf(),
                extends(old(self), self),
                id < self.atoms().len(),
                self.atoms()[id as int] == irep.id@,
                sub@.len() == irep.sub@.len(),
                forall|p: int|
                    0 <= p < sub@.len() ==> #[trigger] sub@[p] < self.keys().len() && self.tree(
                        sub@[p] as nat,
                    ) == tree_of(irep.sub@[p]),
                j <= irep.named_sub@.len(),
                named_sub@.len() == j,
                forall|p: int|
                    0 <= p < j ==> {
                        let (k, v) = #[trigger] named_sub@[p];
                        &&& k < self.atoms().len()
                        &&& self.atoms()[k as int] == irep.named_sub@[p].0@
                        &&& v < self.keys().len()
                        &&& self.tree(v as nat) == tree_of(irep.named_sub@[p].1)
                    },
            decreases irep.named_sub@.len() - j,
        {
            let ghost before = *self;
            proof {
                if present {
                    lemma_present_parts(old(self), m0, irep);
                    self.lemma_atoms_distinct();
                    assert(self.atoms()[key_name(k0, j as int) as int] == irep.named_sub@[j as int].0@);
                    assert(self.atoms().contains(irep.named_sub@[j as int].0@));
                }
            }
            let k = self.number_string(&irep.named_sub[j].0).number;
            let ghost middle = *self;
            proof {
                if present {
                    assert(before.tree(key_value(k0, j as int) as nat) == tree_of(
                        irep.named_sub@[j as int].1,
                    ));
                }
            }
            let v = self.number_irep(&irep.named_sub[j].1).number;
            proof {
                if present {
                    self.lemma_wf();
                    lemma_tree_injective(self, v as nat, key_value(k0, j as int) as nat);
                }
                lemma_extends_trans(&before, &middle, self);
                lemma_extends_trans(old(self), &before, self);
                self.lemma_wf();
                assert forall|p: int| 0 <= p < sub@.len() implies #[trigger] sub@[p]
                    < self.keys().len() && self.tree(sub@[p] as nat) == tree_of(irep.sub@[p]) by {
                    lemma_tree_preserved(&before, self, sub@[p] as nat);
                }
                assert forall|p: int| 0 <= p < j implies {
                    let (k, v) = #[trigger] named_sub@[p];
                    &&& k < self.atoms().len()
                    &&& self.atoms()[k as int] == irep.named_sub@[p].0@
                    &&& v < self.keys().len()
                    &&& self.tree(v as nat) == tree_of(irep.named_sub@[p].1)
                } by {
                    lemma_tree_preserved(&before, self, named_sub@[p].1 as nat);
                }
            }
            named_sub.push((k, v));
            j = j + 1;
        }
        let key = IrepKey::new(id, sub.as_slice(), named_sub.as_slice());
        let ghost before = *self;
        proof {
            lemma_packed_key(id, sub@, named_sub@);
            self.lemma_wf();
            if present {
                lemma_present_parts(old(self), m0, irep);
                lemma_key_eq_packed(k0, id, sub@, named_sub@);
                assert(self.keys()[m0 as int] == key.numbers@);
                assert(self.keys().contains(key.numbers@));
            }
        }
        let r = self.get_or_insert(&key);
        proof {
            lemma_extends_trans(old(self), &before, self);
            self.lemma_wf();
            let n = r.number as int;
            let k = key.numbers@;
            assert(self.keys()[n] == k);
            assert(key_valid(k, self.atoms().len() as int, n));
            let t = self.tree(n as nat);
            let want = irep@;
            assert(t.id == want.id);
            assert forall|p: int| 0 <= p < want.sub.len() implies t.sub[p] == want.sub[p] by {
                assert(key_sub(k, p) == sub@[p]);
                assert(key_sub(k, p) < n);
                lemma_tree_preserved(&before, self, sub@[p] as nat);
            }
            assert(t.sub =~= want.sub);
            assert forall|p: int| 0 <= p < want.named.len() implies t.named[p] == want.named[p] by {
                assert(key_name(k, p) == named_sub@[p].0);
                assert(key_value(k, p) == named_sub@[p].1);
                assert(key_value(k, p) < n);
                lemma_tree_preserved(&before, self, named_sub@[p].1 as nat);
            }
            assert(t.named =~= want.named);
        }
        r
    }

    /// Builds the node that number `ni` stands for.
    pub fn irep_of(&self, ni: &NumberedIrep) -> (r: Irep)
        requires
            self.wf(),
            self.holds(*ni),
        ensures
            r@ == self.tree(ni.number as nat),
        decreases ni.number,
    {
        proof {
            self.lemma_wf();
        }
        let ghost n = ni.number as int;
        let ghost k = self.keys()[n];
        let ghost t = self.tree(n as nat);
        let id = self.id(ni);
        let nof_sub = self.nof_sub(ni);
        let mut sub: Vec<Irep> = Vec::new();
        let mut i: usize = 0;
        while i < nof_sub
            invariant
                self.wf(),
                self.holds(*ni),
                n == ni.number,
                k == self.keys()[n],
                t == self.tree(n as nat),
                nof_sub == key_nof_sub(k),
                i <= nof_sub,
                sub@.len() == i,
                forall|p: int| 0 <= p < i ==> tree_of(#[trigger] sub@[p]) == t.sub[p],
            decreases nof_sub - i,
        {
            let child = self.sub(ni, i);
            let c = self.irep_of(&child);
            sub.push(c);
            i = i + 1;
        }
        let nof_named = self.nof_named_sub(ni);
        let mut named_sub: Vec<(String, Irep)> = Vec::new();
        let mut j: usize = 0;
        while j < nof_named
            invariant
                self.wf(),
                self.holds(*ni),
                n == ni.number,
                k == self.keys()[n],
                t == self.tree(n as nat),
                nof_named == key_nof_named(k),
                j <= nof_named,
                named_sub@.len() == j,
                forall|p: int|
                    0 <= p < j ==> (#[trigger] named_sub@[p]).0@ == t.named[p].0 && tree_of(
                        named_sub@[p].1,
                    ) == t.named[p].1,
            decreases nof_named - j,
        {
            let (name, value) = self.named_sub(ni, j);
            let v = self.irep_of(&value);
            named_sub.push((name.string, v));
            j = j + 1;
        }
        let r = Irep { id: id.string, sub, named_sub };
        proof {
            assert(r@.sub =~= t.sub);
            assert(r@.named =~= t.named);
        }
        r
    }

    /// Distinct numbers hold distinct atoms.
    pub proof fn lemma_atoms_distinct(&self)
        requires
            self.wf(),
        ensures
            forall|a: int, b: int|
                0 <= a < self.atoms().len() && 0 <= b < self.atoms().len() && a != b
                    ==> #[trigger] self.atoms()[a] != #[trigger] self.atoms()[b],
    {
    }

    /// Distinct numbers hold distinct keys.
    pub proof fn lemma_keys_distinct(&self)
        requires
            self.wf(),
        ensures
            forall|a: int, b: int|
                0 <= a < self.keys().len() && 0 <= b < self.keys().len() && a != b
                    ==> #[trigger] self.keys()[a] != #[trigger] self.keys()[b],
    {
    }

    /// `ni` is the numbered node that this engine holds under its number.
    pub open spec fn holds(&self, ni: NumberedIrep) -> bool {
        &&& ni.number < self.entries().len()
        &&& self.entries()[ni.number as int] == ni
    }

    /// The numbered node for `key`: the one already numbered with that key,
    /// or a new one under the next number.
    pub fn get_or_insert(&mut self, key: &IrepKey) -> (r: NumberedIrep)
        requires
            old(self).wf(),
            key_valid(key.numbers@, old(self).atoms().len() as int, old(self).keys().len() as int),
        ensures
            final(self).wf(),
            extends(old(self), final(self)),
            final(self).atoms() == old(self).atoms(),
            final(self).holds(r),
            final(self).keys()[r.number as int] == key.numbers@,
            old(self).keys().contains(key.numbers@) ==> *final(self) == *old(self),
            !old(self).keys().contains(key.numbers@) ==> final(self).keys() == old(self).keys().push(
                key.numbers@,
            ) && r.number == old(self).keys().len(),
    {
        let h = hash_numbers(key.numbers.as_slice());
        let candidates = filed(&self.cache, h);
        let mut j: usize = 0;
        while j < candidates.len()
            invariant
                self.wf(),
                *self == *old(self),
                key_shaped(key.numbers@),
                h == numbers_hash(key.numbers@),
                candidates@ == bucket(self.cache@, h),
                j <= candidates@.len(),
                forall|q: int| 0 <= q < j ==> self.keys()[candidates@[q] as int] != key.numbers@,
            decreases candidates@.len() - j,
        {
            let n = candidates[j];
            assert(n < self.keys().len()) by {
                assert(bucket(self.cache@, h)[j as int] < self.keys().len());
            }
            if self.inv_cache.key_at_is(n, key) {
                proof {
                    self.inv_cache.lemma_key_at(n as int);
                }
                return self.inv_cache.index[n];
            }
            j = j + 1;
        }
        proof {
            if self.keys().contains(key.numbers@) {
                let m = choose|m: int| 0 <= m < self.keys().len() && self.keys()[m] == key.numbers@;
                let hashes = self.keys().map_values(|k: Seq<usize>| numbers_hash(k));
                assert(hashes[m] == h);
                assert(bucket(self.cache@, hashes[m]).contains(m as usize));
                let q = choose|q: int|
                    0 <= q < bucket(self.cache@, hashes[m]).len() && bucket(self.cache@, hashes[m])[q]
                        == m as usize;
                assert(self.keys()[candidates@[q] as int] == key.numbers@);
            }
        }
        let number = self.inv_cache.add_key(key);
        file_number(&mut self.cache, h, number);
        proof {
            assert forall|n: int| 0 <= n < self.keys().len() implies key_valid(
                #[trigger] self.keys()[n],
                self.inv_string_cache@.len() as int,
                n,
            ) by {
                if n < number {
                    assert(key_valid(old(self).keys()[n], self.inv_string_cache@.len() as int, n));
                }
            }
            assert(self.keys().map_values(|k: Seq<usize>| numbers_hash(k)) =~= old(
                self,
            ).keys().map_values(|k: Seq<usize>| numbers_hash(k)).push(h));
            lemma_file_push(
                old(self).cache@,
                self.cache@,
                old(self).keys().map_values(|k: Seq<usize>| numbers_hash(k)),
                h,
            );
            assert(old(self).keys().is_prefix_of(self.keys()));
            assert(old(self).entries().is_prefix_of(self.entries()));
            assert(old(self).flat_keys().is_prefix_of(self.flat_keys()));
            assert(old(self).atoms() =~= self.atoms());
        }
        self.inv_cache.index[number]
    }

    /// The atom that node `ni` has as its id.
    pub fn id(&self, ni: &NumberedIrep) -> (r: NumberedString)
        requires
            self.wf(),
            self.holds(*ni),
        ensures
            r.number == self.keys()[ni.number as int][0],
            r.number < self.atoms().len(),
            r.string@ == self.atoms()[r.number as int],
    {
        proof {
            self.inv_cache.lemma_key_at(ni.number as int);
            assert(self.inv_cache.keys@[ni.start_index + 0] == self.keys()[ni.number as int][0]);
        }
        let number = self.inv_cache.keys[ni.start_index];
        NumberedString { number, string: self.inv_string_cache[number].clone() }
    }

    /// The number of positional children of node `ni`.
    pub fn nof_sub(&self, ni: &NumberedIrep) -> (r: usize)
        requires
            self.wf(),
            self.holds(*ni),
        ensures
            r == key_nof_sub(self.keys()[ni.number as int]),
    {
        proof {
            self.inv_cache.lemma_key_at(ni.number as int);
            assert(self.inv_cache.keys@[ni.start_index + 1] == self.keys()[ni.number as int][1]);
        }
        self.inv_cache.keys[ni.start_index + 1]
    }

    /// The `sub_idx`-th positional child of node `ni`.
    pub fn sub(&self, ni: &NumberedIrep, sub_idx: usize) -> (r: NumberedIrep)
        requires
            self.wf(),
            self.holds(*ni),
            sub_idx < key_nof_sub(self.keys()[ni.number as int]),
        ensures
            r.number == key_sub(self.keys()[ni.number as int], sub_idx as int),
            r.number < ni.number,
            self.holds(r),
    {
        proof {
            let n = ni.number as int;
            self.inv_cache.lemma_key_at(n);
            self.lemma_wf();
            let k = self.keys()[n];
            assert(key_valid(k, self.atoms().len() as int, n));
            assert(self.inv_cache.keys@[ni.start_index + (2 + sub_idx)] == k[2 + sub_idx]);
            assert(key_sub(k, sub_idx as int) < n);
        }
        let sub_number = self.inv_cache.keys[ni.start_index + sub_idx + 2];
        self.inv_cache.index[sub_number]
    }

    /// The number of named children of node `ni`.
    pub fn nof_named_sub(&self, ni: &NumberedIrep) -> (r: usize)
        requires
            self.wf(),
            self.holds(*ni),
        ensures
            r == key_nof_named(self.keys()[ni.number as int]),
    {
        proof {
            self.inv_cache.lemma_key_at(ni.number as int);
            let k = self.keys()[ni.number as int];
            assert(self.inv_cache.keys@[ni.start_index + 1] == k[1]);
            assert(self.inv_cache.keys@[ni.start_index + (2 + k[1])] == k[2 + k[1]]);
        }
        self.inv_cache.keys[ni.start_index + self.nof_sub(ni) + 2]
    }

    /// The name and the value of the `named_sub_idx`-th named child of node
    /// `ni`.
    pub fn named_sub(&self, ni: &NumberedIrep, named_sub_idx: usize) -> (r: (
        NumberedString,
        NumberedIrep,
    ))
        requires
            self.wf(),
            self.holds(*ni),
            named_sub_idx < key_nof_named(self.keys()[ni.number as int]),
        ensures
            r.0.number == key_name(self.keys()[ni.number as int], named_sub_idx as int),
            r.0.number < self.atoms().len(),
            r.0.string@ == self.atoms()[r.0.number as int],
            r.1.number == key_value(self.keys()[ni.number as int], named_sub_idx as int),
            r.1.number < ni.number,
            self.holds(r.1),
    {
        let ghost n = ni.number as int;
        let ghost k = self.keys()[n];
        let ghost j = named_sub_idx as int;
        proof {
            self.inv_cache.lemma_key_at(n);
            self.lemma_wf();
            assert(key_valid(k, self.atoms().len() as int, n));
            assert(self.inv_cache.keys@[ni.start_index + (3 + k[1] + 2 * j)] == k[3 + k[1] + 2
                * j]);
            assert(self.inv_cache.keys@[ni.start_index + (4 + k[1] + 2 * j)] == k[4 + k[1] + 2
                * j]);
            assert(key_name(k, j) < self.atoms().len() && key_value(k, j) < n);
        }
        let start_index = ni.start_index + self.nof_sub(ni) + 2 * named_sub_idx + 3;
        let name = self.inv_cache.keys[start_index];
        let value = self.inv_cache.keys[start_index + 1];
        (
            NumberedString { number: name, string: self.inv_string_cache[name].clone() },
            self.inv_cache.index[value],
        )
    }
}

/// The fields of a packed key, read back.
pub proof fn lemma_packed_key(id: usize, sub: Seq<usize>, named: Seq<(usize, usize)>)
    requires
        sub.len() <= usize::MAX,
        named.len() <= usize::MAX,
    ensures
        ({
            let k = packed_key(id, sub, named);
            &&& key_shaped(k)
            &&& k[0] == id
            &&& key_nof_sub(k) == sub.len()
            &&& key_nof_named(k) == named.len()
            &&& forall|i: int| 0 <= i < sub.len() ==> #[trigger] key_sub(k, i) == sub[i]
            &&& forall|j: int|
                0 <= j < named.len() ==> #[trigger] key_name(k, j) == named[j].0 && key_value(k, j)
                    == named[j].1
        }),
{
    let k = packed_key(id, sub, named);
    let c = sub.len() as int;
    assert(k[1] == sub.len() as usize);
    assert(k[2 + c] == named.len() as usize);
    assert forall|i: int| 0 <= i < sub.len() implies #[trigger] key_sub(k, i) == sub[i] by {}
    assert forall|j: int| 0 <= j < named.len() implies #[trigger] key_name(k, j) == named[j].0
        && key_value(k, j) == named[j].1 by {
        assert(k[3 + c + 2 * j] == flat_pairs(named)[2 * j]);
        assert(k[4 + c + 2 * j] == flat_pairs(named)[2 * j + 1]);
        assert((2 * j) % 2 == 0 && (2 * j) / 2 == j);
        assert((2 * j + 1) % 2 == 1 && (2 * j + 1) / 2 == j);
    }
}

/// What the key of node `m` says when its content is that of `irep`.
proof fn lemma_present_parts(e: &IrepNumbering, m: nat, irep: &Irep)
    requires
        e.wf(),
        m < e.keys().len(),
        e.tree(m) == irep@,
    ensures
        ({
            let k = e.keys()[m as int];
            &&& key_valid(k, e.atoms().len() as int, m as int)
            &&& k[0] < e.atoms().len()
            &&& e.atoms()[k[0] as int] == irep.id@
            &&& key_nof_sub(k) == irep.sub@.len()
            &&& forall|p: int|
                0 <= p < irep.sub@.len() ==> #[trigger] key_sub(k, p) < m && e.tree(
                    key_sub(k, p) as nat,
                ) == tree_of(irep.sub@[p])
            &&& key_nof_named(k) == irep.named_sub@.len()
            &&& forall|p: int|
                0 <= p < irep.named_sub@.len() ==> #[trigger] key_name(k, p) < e.atoms().len()
                    && e.atoms()[key_name(k, p) as int] == irep.named_sub@[p].0@ && key_value(k, p)
                    < m && e.tree(key_value(k, p) as nat) == tree_of(irep.named_sub@[p].1)
        }),
{
    e.lemma_wf();
    let k = e.keys()[m as int];
    assert(key_valid(k, e.atoms().len() as int, m as int));
    let t = e.tree(m);
    let w = irep@;
    assert(t.sub.len() == w.sub.len());
    assert(t.named.len() == w.named.len());
    assert forall|p: int| 0 <= p < irep.sub@.len() implies #[trigger] key_sub(k, p) < m && e.tree(
        key_sub(k, p) as nat,
    ) == tree_of(irep.sub@[p]) by {
        assert(t.sub[p] == w.sub[p]);
    }
    assert forall|p: int| 0 <= p < irep.named_sub@.len() implies #[trigger] key_name(k, p)
        < e.atoms().len() && e.atoms()[key_name(k, p) as int] == irep.named_sub@[p].0@
        && key_value(k, p) < m && e.tree(key_value(k, p) as nat) == tree_of(
        irep.named_sub@[p].1,
    ) by {
        assert(t.named[p] == w.named[p]);
    }
}

/// A key is the packing of its own fields.
proof fn lemma_key_eq_packed(k: Seq<usize>, id: usize, sub: Seq<usize>, named: Seq<(usize, usize)>)
    requires
        key_shaped(k),
        k[0] == id,
        key_nof_sub(k) == sub.len(),
        forall|p: int| 0 <= p < sub.len() ==> key_sub(k, p) == sub[p],
        key_nof_named(k) == named.len(),
        forall|p: int|
            0 <= p < named.len() ==> key_name(k, p) == named[p].0 && key_value(k, p) == named[p].1,
    ensures
        k == packed_key(id, sub, named),
{
    lemma_packed_key(id, sub, named);
    let q = packed_key(id, sub, named);
    let c = sub.len() as int;
    assert(q.len() == k.len());
    assert forall|x: int| 0 <= x < k.len() implies k[x] == q[x] by {
        if 2 <= x < 2 + c {
            assert(key_sub(k, x - 2) == key_sub(q, x - 2));
        } else if x > 2 + c {
            let j = (x - 3 - c) / 2;
            assert(key_name(k, j) == key_name(q, j) && key_value(k, j) == key_value(q, j));
            if (x - 3 - c) % 2 == 0 {
                assert(x == 3 + c + 2 * j);
            } else {
                assert(x == 4 + c + 2 * j);
            }
        }
    }
    assert(k =~= q);
}

/// Extension is reflexive.
pub proof fn lemma_extends_refl(e: &IrepNumbering)
    ensures
        extends(e, e),
{
    assert(e.atoms() =~= e.atoms().subrange(0, e.atoms().len() as int));
    assert(e.keys() =~= e.keys().subrange(0, e.keys().len() as int));
    assert(e.entries() =~= e.entries().subrange(0, e.entries().len() as int));
    assert(e.flat_keys() =~= e.flat_keys().subrange(0, e.flat_keys().len() as int));
}

/// Extension is transitive.
pub proof fn lemma_extends_trans(a: &IrepNumbering, b: &IrepNumbering, c: &IrepNumbering)
    requires
        extends(a, b),
        extends(b, c),
    ensures
        extends(a, c),
{
    assert(a.atoms() =~= c.atoms().subrange(0, a.atoms().len() as int)) by {
        assert(a.atoms() =~= b.atoms().subrange(0, a.atoms().len() as int));
    }
    assert(a.keys() =~= c.keys().subrange(0, a.keys().len() as int)) by {
        assert(a.keys() =~= b.keys().subrange(0, a.keys().len() as int));
    }
    assert(a.entries() =~= c.entries().subrange(0, a.entries().len() as int)) by {
        assert(a.entries() =~= b.entries().subrange(0, a.entries().len() as int));
    }
    assert(a.flat_keys() =~= c.flat_keys().subrange(0, a.flat_keys().len() as int)) by {
        assert(a.flat_keys() =~= b.flat_keys().subrange(0, a.flat_keys().len() as int));
    }
}

/// Every key of `keys` is valid for the atoms `atoms` and for its own number.
pub open spec fn keys_valid(atoms: Seq<Seq<char>>, keys: Seq<Seq<usize>>) -> bool {
    forall|i: int| 0 <= i < keys.len() ==> key_valid(#[trigger] keys[i], atoms.len() as int, i)
}

/// The content of a node stays the same when atoms and keys are only added.
pub proof fn lemma_node_tree_grows(
    a1: Seq<Seq<char>>,
    k1: Seq<Seq<usize>>,
    a2: Seq<Seq<char>>,
    k2: Seq<Seq<usize>>,
    n: nat,
)
    requires
        keys_valid(a1, k1),
        a1.is_prefix_of(a2),
        k1.is_prefix_of(k2),
        n < k1.len(),
    ensures
        node_tree(a2, k2, n) == node_tree(a1, k1, n),
    decreases n,
{
    let k = k1[n as int];
    assert(k2[n as int] == k2.subrange(0, k1.len() as int)[n as int]);
    assert(k2[n as int] == k);
    assert(key_valid(k, a1.len() as int, n as int));
    let t1 = node_tree(a1, k1, n);
    let t2 = node_tree(a2, k2, n);
    assert(a2[k[0] as int] == a2.subrange(0, a1.len() as int)[k[0] as int]);
    assert forall|i: int| 0 <= i < t1.sub.len() implies t1.sub[i] == t2.sub[i] by {
        assert(key_sub(k, i) < n);
        lemma_node_tree_grows(a1, k1, a2, k2, key_sub(k, i) as nat);
    }
    assert forall|j: int| 0 <= j < t1.named.len() implies t1.named[j] == t2.named[j] by {
        assert(0 <= j < key_nof_named(k));
        assert(key_name(k, j) < a1.len());
        assert(key_value(k, j) < n);
        assert(a2[key_name(k, j) as int] == a2.subrange(0, a1.len() as int)[key_name(
            k,
            j,
        ) as int]);
        lemma_node_tree_grows(a1, k1, a2, k2, key_value(k, j) as nat);
    }
    assert(t1.sub =~= t2.sub);
    assert(t1.named =~= t2.named);
}

/// What an engine numbered keeps its content as the engine grows.
pub proof fn lemma_tree_preserved(e1: &IrepNumbering, e2: &IrepNumbering, n: nat)
    requires
        e1.wf(),
        extends(e1, e2),
        n < e1.keys().len(),
    ensures
        e2.tree(n) == e1.tree(n),
{
    e1.lemma_wf();
    lemma_node_tree_grows(e1.atoms(), e1.keys(), e2.atoms(), e2.keys(), n);
}

/// Content addressing: within one engine, two numbered nodes have the same
/// content only if they have the same number.
pub proof fn lemma_tree_injective(e: &IrepNumbering, a: nat, b: nat)
    requires
        e.wf(),
        a < e.keys().len(),
        b < e.keys().len(),
        e.tree(a) == e.tree(b),
    ensures
        a == b,
    decreases a + b,
{
    e.lemma_wf();
    e.lemma_atoms_distinct();
    e.lemma_keys_distinct();
    let ka = e.keys()[a as int];
    let kb = e.keys()[b as int];
    assert(key_valid(ka, e.atoms().len() as int, a as int));
    assert(key_valid(kb, e.atoms().len() as int, b as int));
    let ta = e.tree(a);
    let tb = e.tree(b);
    let c = key_nof_sub(ka);
    assert(ta.sub.len() == c);
    assert(key_nof_sub(kb) == c);
    assert(ta.named.len() == key_nof_named(ka));
    assert(key_nof_named(kb) == key_nof_named(ka));
    assert(ka.len() == kb.len());
    assert(ka[0] == kb[0]);
    assert forall|x: int| 0 <= x < ka.len() implies ka[x] == kb[x] by {
        if 2 <= x < 2 + c {
            let i = x - 2;
            assert(key_sub(ka, i) < a && key_sub(kb, i) < b);
            assert(ta.sub[i] == tb.sub[i]);
            lemma_tree_injective(e, key_sub(ka, i) as nat, key_sub(kb, i) as nat);
        } else if x > 2 + c {
            let j = (x - 3 - c) / 2;
            assert(0 <= j < key_nof_named(ka));
            assert(ta.named[j] == tb.named[j]);
            assert(key_name(ka, j) < e.atoms().len() && key_value(ka, j) < a);
            assert(key_name(kb, j) < e.atoms().len() && key_value(kb, j) < b);
            if (x - 3 - c) % 2 == 0 {
                assert(x == 3 + c + 2 * j);
            } else {
                assert(x == 4 + c + 2 * j);
                lemma_tree_injective(e, key_value(ka, j) as nat, key_value(kb, j) as nat);
            }
        }
    }
    assert(ka =~= kb);
}

/// Content addressing: numbering two nodes one after the other in the same
/// engine gives them the same number exactly when their contents are equal.
pub proof fn lemma_numbering_content_addressed(
    e0: &IrepNumbering,
    e1: &IrepNumbering,
    e2: &IrepNumbering,
    t1: &Irep,
    t2: &Irep,
    r1: NumberedIrep,
    r2: NumberedIrep,
)
    requires
        e0.wf(),
        e1.wf(),
        e2.wf(),
        extends(e0, e1),
        e1.holds(r1),
        e1.tree(r1.number as nat) == t1@,
        extends(e1, e2),
        e2.holds(r2),
        e2.tree(r2.number as nat) == t2@,
    ensures
        (r1.number == r2.number) <==> (t1@ == t2@),
{
    lemma_tree_preserved(e1, e2, r1.number as nat);
    e2.lemma_wf();
    if t1@ == t2@ {
        lemma_tree_injective(e2, r1.number as nat, r2.number as nat);
    }
}

} // verus!
