//! Labelled trees: an identifying atom, ordered positional children and
//! ordered named children.
use vstd::prelude::*;

verus! {

/// A tree node as values are built and handed around.
#[derive(Debug)]
pub struct Irep {
    /// The identifying atom.
    pub id: String,
    /// The positional children, in order.
    pub sub: Vec<Irep>,
    /// The named children, in order; a key may occur more than once.
    pub named_sub: Vec<(String, Irep)>,
}

/// The content of a tree node: what two nodes must share to be equal.
pub struct Tree {
    pub id: Seq<char>,
    pub sub: Seq<Tree>,
    pub named: Seq<(Seq<char>, Tree)>,
}

/// A node with an empty id and no children.
pub open spec fn leaf_tree() -> Tree {
    Tree { id: Seq::empty(), sub: Seq::empty(), named: Seq::empty() }
}

/// The content of `t`.
pub open spec fn tree_of(t: Irep) -> Tree
    decreases t,
{
    Tree {
        id: t.id@,
        sub: Seq::new(
            t.sub@.len(),
            |i: int|
                if 0 <= i < t.sub@.len() {
                    tree_of(t.sub@[i])
                } else {
                    leaf_tree()
                },
        ),
        named: Seq::new(
            t.named_sub@.len(),
            |j: int|
                if 0 <= j < t.named_sub@.len() {
                    (t.named_sub@[j].0@, tree_of(t.named_sub@[j].1))
                } else {
                    (Seq::empty(), leaf_tree())
                },
        ),
    }
}

impl View for Irep {
    type V = Tree;

    open spec fn view(&self) -> Tree {
        tree_of(*self)
    }
}

impl Irep {
    /// A node with id `id` and no children.
    pub fn leaf(id: &str) -> (r: Irep)
        ensures
            r@ == (Tree { id: id@, sub: Seq::empty(), named: Seq::empty() }),
    {
        let r = Irep { id: id.to_string(), sub: Vec::new(), named_sub: Vec::new() };
        proof {
            assert(r@.sub =~= Seq::<Tree>::empty());
            assert(r@.named =~= Seq::<(Seq<char>, Tree)>::empty());
        }
        r
    }
}

/// Whether `a` and `b` have the same content.
pub fn same_content(a: &Irep, b: &Irep) -> (r: bool)
    ensures
        r == (a@ == b@),
    decreases a,
{
    if !a.id.eq(&b.id) {
        return false;
    }
    if a.sub.len() != b.sub.len() {
        proof {
            assert(a@.sub.len() != b@.sub.len());
        }
        return false;
    }
    let mut i: usize = 0;
    while i < a.sub.len()
        invariant
            a.sub@.len() == b.sub@.len(),
            i <= a.sub@.len(),
            forall|p: int| 0 <= p < i ==> tree_of(a.sub@[p]) == tree_of(b.sub@[p]),
        decreases a.sub@.len() - i,
    {
        if !same_content(&a.sub[i], &b.sub[i]) {
            proof {
                assert(a@.sub[i as int] != b@.sub[i as int]);
            }
            return false;
        }
        i = i + 1;
    }
    if a.named_sub.len() != b.named_sub.len() {
        proof {
            assert(a@.named.len() != b@.named.len());
        }
        return false;
    }
    let mut j: usize = 0;
    while j < a.named_sub.len()
        invariant
            a.named_sub@.len() == b.named_sub@.len(),
            j <= a.named_sub@.len(),
            forall|p: int|
                0 <= p < j ==> a.named_sub@[p].0@ == b.named_sub@[p].0@ && tree_of(
                    a.named_sub@[p].1,
                ) == tree_of(b.named_sub@[p].1),
        decreases a.named_sub@.len() - j,
    {
        if !a.named_sub[j].0.eq(&b.named_sub[j].0) || !same_content(
            &a.named_sub[j].1,
            &b.named_sub[j].1,
        ) {
            proof {
                assert(a@.named[j as int] != b@.named[j as int]);
            }
            return false;
        }
        j = j + 1;
    }
    proof {
        assert(a@.sub =~= b@.sub);
        assert(a@.named =~= b@.named);
    }
    true
}

} // verus!
