//! Mutable B+tree keyed by byte strings.
//!
//! Values live in the leaves; a branch holds separators and children. The keys
//! of one node sit end to end in a single buffer with their offsets beside it,
//! so moving keys between nodes copies runs of bytes rather than one allocation
//! per key. A leaf keeps the common prefix of its keys once and the remainders
//! in that buffer, so a descent matches the prefix and then binary-searches
//! remainders that no longer repeat it.
//!
//! A walk holds nothing of the tree between leaves: it takes one leaf's worth
//! of entries as owned values and seeks again from the root for the next leaf.
//! Nodes carry no sibling pointers, so a split has nothing to keep straight but
//! the parent's separators, and a key that moved to the new sibling is found by
//! the seek that follows.
//!
//! The depth is `log` of the entry count, so every walk down and back up is a
//! recursion the keys' owner cannot make deep.

use vstd::prelude::*;

use crate::bytes;
use crate::bytes::{after, compare, owned, Side};
use crate::entries;
use crate::entries::Entries;
use crate::keys::Keys;
use crate::leaf::Leaf;
use crate::shape;
use crate::shape::{Bound, Shape, MIN, ORDER};

verus! {

/// `separators[i]` is at or before the first key of `children[i + 1]` and after
/// every key of `children[i]`.
struct Branch<V> {
    separators: Keys,
    children: Vec<Node<V>>,
}

enum Node<V> {
    Leaf(Leaf<V>),
    Branch(Branch<V>),
}

/// A node that came out of a split: its first key, and the node.
type Split<V> = Option<(Vec<u8>, Node<V>)>;

/// The shapes of a run of nodes.
spec fn shapes<V>(nodes: Seq<Node<V>>) -> Seq<Shape<V>>
    decreases nodes,
{
    if nodes.len() == 0 {
        Seq::empty()
    } else {
        shapes(nodes.drop_last()).push(nodes.last().shape())
    }
}

/// Every node of a run is sound.
spec fn oks<V>(nodes: Seq<Node<V>>) -> bool
    decreases nodes,
{
    forall|i: int| 0 <= i < nodes.len() ==> (#[trigger] nodes[i]).ok()
}

proof fn lemma_shapes<V>(nodes: Seq<Node<V>>)
    ensures
        shapes(nodes).len() == nodes.len(),
        forall|i: int| 0 <= i < nodes.len() ==> #[trigger] shapes(nodes)[i] == nodes[i].shape(),
    decreases nodes.len(),
{
    if nodes.len() > 0 {
        lemma_shapes(nodes.drop_last());
        assert forall|i: int| 0 <= i < nodes.len() implies #[trigger] shapes(nodes)[i]
            == nodes[i].shape() by {
            if i < nodes.len() - 1 {
                assert(shapes(nodes.drop_last())[i] == nodes.drop_last()[i].shape());
            }
        }
    }
}

impl<V> Branch<V> {
    spec fn seps(&self) -> Seq<Seq<u8>> {
        self.separators@
    }

    spec fn kids(&self) -> Seq<Shape<V>> {
        shapes(self.children@)
    }

    spec fn ok(&self) -> bool
        decreases self,
    {
        self.separators.wf() && oks(self.children@)
    }
}

impl<V> Node<V> {
    spec fn shape(self) -> Shape<V>
        decreases self,
    {
        match self {
            Node::Leaf(leaf) => Shape::Leaf(leaf.entries()),
            Node::Branch(branch) => Shape::Branch {
                seps: branch.separators@,
                kids: shapes(branch.children@),
            },
        }
    }

    /// The arrays of every node describe what it holds.
    spec fn ok(self) -> bool
        decreases self,
    {
        match self {
            Node::Leaf(leaf) => leaf.wf(),
            Node::Branch(branch) => branch.ok(),
        }
    }

    /// Entries for a leaf, children for a branch.
    fn len(&self) -> (n: usize)
        ensures
            n == self.shape().len(),
    {
        match self {
            Node::Leaf(leaf) => leaf.len(),
            Node::Branch(branch) => {
                proof {
                    lemma_shapes(branch.children@);
                }
                branch.children.len()
            },
        }
    }
}

impl<V> Branch<V> {
    /// The child `key` belongs to.
    fn child_of(&self, key: &[u8], Ghost(lo): Ghost<Bound>, Ghost(hi): Ghost<Bound>) -> (at: usize)
        requires
            self.ok(),
            shape::fenced(self.seps(), self.kids(), lo, hi, -1),
            shape::within(key@, lo, hi),
        ensures
            at < self.children@.len(),
            self.children@[at as int].ok(),
            self.kids()[at as int] == self.children@[at as int].shape(),
            shape::within(key@, shape::lower(self.seps(), lo, at as int), shape::upper(self.seps(), hi, at as int)),
            ({
                let a = shape::all(self.kids().subrange(0, at as int));
                let c = self.kids()[at as int].entries();
                let b = shape::all(self.kids().subrange(at + 1, self.kids().len() as int));
                &&& entries::sorted(c)
                &&& forall|i: int| 0 <= i < a.len() ==> bytes::lt((#[trigger] a[i]).0, key@)
                &&& forall|i: int| 0 <= i < b.len() ==> bytes::lt(key@, (#[trigger] b[i]).0)
                &&& shape::all(self.kids()) == a + c + b
            }),
    {
        let at = self.separators.upper_bound(key);
        proof {
            lemma_shapes(self.children@);
            shape::lemma_route(self.seps(), self.kids(), lo, hi, -1, key@, at as int);
        }
        at
    }
}

proof fn lemma_shapes_subrange<V>(nodes: Seq<Node<V>>, a: int, b: int)
    requires
        0 <= a <= b <= nodes.len(),
    ensures
        shapes(nodes.subrange(a, b)) == shapes(nodes).subrange(a, b),
{
    lemma_shapes(nodes);
    lemma_shapes(nodes.subrange(a, b));
    assert(shapes(nodes.subrange(a, b)) =~= shapes(nodes).subrange(a, b));
}

proof fn lemma_shapes_update<V>(nodes: Seq<Node<V>>, at: int, node: Node<V>)
    requires
        0 <= at < nodes.len(),
    ensures
        shapes(nodes.update(at, node)) == shapes(nodes).update(at, node.shape()),
{
    lemma_shapes(nodes);
    lemma_shapes(nodes.update(at, node));
    assert(shapes(nodes.update(at, node)) =~= shapes(nodes).update(at, node.shape()));
}

proof fn lemma_shapes_insert<V>(nodes: Seq<Node<V>>, at: int, node: Node<V>)
    requires
        0 <= at <= nodes.len(),
    ensures
        shapes(nodes.insert(at, node)) == shapes(nodes).insert(at, node.shape()),
{
    lemma_shapes(nodes);
    lemma_shapes(nodes.insert(at, node));
    assert(shapes(nodes.insert(at, node)) =~= shapes(nodes).insert(at, node.shape()));
}

proof fn lemma_shapes_remove<V>(nodes: Seq<Node<V>>, at: int)
    requires
        0 <= at < nodes.len(),
    ensures
        shapes(nodes.remove(at)) == shapes(nodes).remove(at),
{
    lemma_shapes(nodes);
    lemma_shapes(nodes.remove(at));
    assert(shapes(nodes.remove(at)) =~= shapes(nodes).remove(at));
}

proof fn lemma_oks_insert<V>(nodes: Seq<Node<V>>, at: int, node: Node<V>)
    requires
        0 <= at <= nodes.len(),
        oks(nodes),
        node.ok(),
    ensures
        oks(nodes.insert(at, node)),
{
    let more = nodes.insert(at, node);
    assert forall|i: int| 0 <= i < more.len() implies (#[trigger] more[i]).ok() by {
        if i < at {
            assert(more[i] == nodes[i]);
        } else if i > at {
            assert(more[i] == nodes[i - 1]);
        }
    }
}

proof fn lemma_oks_remove<V>(nodes: Seq<Node<V>>, at: int)
    requires
        0 <= at < nodes.len(),
        oks(nodes),
    ensures
        oks(nodes.remove(at)),
{
    let fewer = nodes.remove(at);
    assert forall|i: int| 0 <= i < fewer.len() implies (#[trigger] fewer[i]).ok() by {
        assert(fewer[i] == nodes[if i < at { i } else { i + 1 }]);
    }
}

proof fn lemma_shapes_concat<V>(a: Seq<Node<V>>, b: Seq<Node<V>>)
    ensures
        shapes(a + b) == shapes(a) + shapes(b),
{
    lemma_shapes(a);
    lemma_shapes(b);
    lemma_shapes(a + b);
    assert(shapes(a + b) =~= shapes(a) + shapes(b));
}

impl<V> Branch<V> {
    /// Takes the upper half of a branch that is over full, with the separator
    /// the parent files it under.
    fn split(&mut self, Ghost(lo): Ghost<Bound>, Ghost(hi): Ghost<Bound>) -> (split: Split<V>)
        requires
            old(self).ok(),
            shape::fenced(old(self).seps(), old(self).kids(), lo, hi, -1),
            old(self).kids().len() <= ORDER + 1,
        ensures
            final(self).ok(),
            split is None <==> old(self).kids().len() <= ORDER,
            match split {
                None => *final(self) == *old(self),
                Some((first, right)) => {
                    &&& right.ok()
                    &&& shape::halves(
                        shape::all(old(self).kids()),
                        Node::Branch(*final(self)).shape(),
                        first@,
                        right.shape(),
                        lo,
                        hi,
                    )
                    &&& shape::even(Node::Branch(*final(self)).shape(), right.shape())
                    &&& final(self).kids()[0].height() == old(self).kids()[0].height()
                },
            },
    {
        let ghost was = *self;
        proof {
            lemma_shapes(self.children@);
        }
        if self.children.len() <= ORDER {
            return None;
        }
        let at = self.children.len() / 2;
        let children = self.children.split_off(at);
        let mut separators = self.separators.split_off(at - 1);
        // The separator between the halves is at or before the first key of the
        // right one, which is what the parent files it under.
        let first = separators.owned(0);
        separators.remove(0);
        let right = Node::Branch(Branch { separators, children });
        proof {
            let ghost n = was.children@.len() as int;
            shape::lemma_split(was.seps(), was.kids(), lo, hi, at as int);
            lemma_shapes_subrange(was.children@, 0, at as int);
            lemma_shapes_subrange(was.children@, at as int, n);
            assert(self.seps() =~= was.seps().subrange(0, at - 1));
            assert(separators@ =~= was.seps().subrange(at as int, was.seps().len() as int));
            assert(first@ == was.seps()[at - 1]);
            assert forall|i: int| 0 <= i < children@.len() implies (#[trigger] children@[i]).ok() by {
                assert(children@[i] == was.children@[at + i]);
            }
            assert(was.kids()[at as int].height() == was.kids()[0].height());
        }
        Some((first, right))
    }
}

impl<V> Branch<V> {
    /// Files what child `at` split off, after a write below that child, and
    /// splits in turn if that overfills this branch.
    fn settle(
        &mut self,
        at: usize,
        split: Split<V>,
        Ghost(was): Ghost<Self>,
        Ghost(lo): Ghost<Bound>,
        Ghost(hi): Ghost<Bound>,
        Ghost(whole): Ghost<Entries<V>>,
    ) -> (r: Split<V>)
        requires
            was.ok(),
            shape::fenced(was.seps(), was.kids(), lo, hi, -1),
            was.kids().len() <= ORDER,
            at < was.children@.len(),
            old(self).separators == was.separators,
            old(self).children@ == was.children@.update(at as int, old(self).children@[at as int]),
            old(self).children@[at as int].ok(),
            old(self).children@[at as int].shape().height() == was.kids()[at as int].height(),
            match split {
                None => {
                    &&& old(self).children@[at as int].shape().wf(
                        shape::lower(was.seps(), lo, at as int),
                        shape::upper(was.seps(), hi, at as int),
                        MIN as nat,
                        ORDER as nat,
                    )
                    &&& old(self).children@[at as int].shape().entries() == whole
                },
                Some((sep, right)) => {
                    &&& right.ok()
                    &&& shape::halves(
                        whole,
                        old(self).children@[at as int].shape(),
                        sep@,
                        right.shape(),
                        shape::lower(was.seps(), lo, at as int),
                        shape::upper(was.seps(), hi, at as int),
                    )
                },
            },
        ensures
            final(self).ok(),
            final(self).kids()[0].height() == was.kids()[0].height(),
            r is Some <==> split is Some && was.kids().len() == ORDER,
            ({
                let e = shape::all(was.kids().subrange(0, at as int)) + whole + shape::all(
                    was.kids().subrange(at + 1, was.kids().len() as int),
                );
                match r {
                    None => {
                        &&& final(self).kids().len() == was.kids().len() + (if split is Some {
                            1int
                        } else {
                            0
                        })
                        &&& final(self).kids().len() <= ORDER
                        &&& shape::fenced(final(self).seps(), final(self).kids(), lo, hi, -1)
                        &&& shape::all(final(self).kids()) == e
                    },
                    Some((sep, right)) => {
                        &&& right.ok()
                        &&& shape::halves(
                            e,
                            Node::Branch(*final(self)).shape(),
                            sep@,
                            right.shape(),
                            lo,
                            hi,
                        )
                        &&& shape::even(Node::Branch(*final(self)).shape(), right.shape())
                    },
                }
            }),
    {
        let ghost child = self.children@[at as int];
        proof {
            lemma_shapes(was.children@);
            lemma_shapes_update(was.children@, at as int, child);
        }
        match split {
            None => {
                proof {
                    let kids = self.kids();
                    shape::lemma_replace(
                        was.seps(),
                        was.kids(),
                        lo,
                        hi,
                        at as int,
                        child.shape(),
                        -1,
                    );
                    shape::lemma_all_around(kids, at as int);
                    assert(kids.subrange(0, at as int) =~= was.kids().subrange(0, at as int));
                    assert(kids.subrange(at + 1, kids.len() as int) =~= was.kids().subrange(
                        at + 1,
                        was.kids().len() as int,
                    ));
                    assert(was.kids()[at as int].height() == was.kids()[0].height());
                }
                None
            },
            Some((separator, right)) => {
                let ghost mid = self.children@;
                self.separators.insert(at, separator.as_slice());
                self.children.insert(at + 1, right);
                proof {
                    lemma_shapes_insert(mid, at + 1, right);
                    let kids = self.kids();
                    shape::lemma_insert_kid(
                        was.seps(),
                        was.kids(),
                        lo,
                        hi,
                        at as int,
                        child.shape(),
                        separator@,
                        right.shape(),
                    );
                    shape::lemma_all_around_two(kids, at as int);
                    assert(kids.subrange(0, at as int) =~= was.kids().subrange(0, at as int));
                    assert(kids.subrange(at + 2, kids.len() as int) =~= was.kids().subrange(
                        at + 1,
                        was.kids().len() as int,
                    ));
                    assert(was.kids()[at as int].height() == was.kids()[0].height());
                    assert forall|i: int| 0 <= i < self.children@.len() implies (
                    #[trigger] self.children@[i]).ok() by {
                        if i <= at {
                            assert(self.children@[i] == mid[i]);
                        } else if i > at + 1 {
                            assert(self.children@[i] == mid[i - 1]);
                        }
                    }
                }
                self.split(Ghost(lo), Ghost(hi))
            },
        }
    }
}

/// Writes `value` at `key` below `node` and returns what it replaced and what
/// `node` split off, if anything.
fn insert_at<V>(
    node: &mut Node<V>,
    key: &[u8],
    value: V,
    Ghost(lo): Ghost<Bound>,
    Ghost(hi): Ghost<Bound>,
    Ghost(min): Ghost<nat>,
) -> (r: (Option<V>, Split<V>))
    requires
        old(node).ok(),
        old(node).shape().wf(lo, hi, min, ORDER as nat),
        shape::within(key@, lo, hi),
    ensures
        final(node).ok(),
        final(node).shape().height() == old(node).shape().height(),
        r.0 == entries::get(old(node).shape().entries(), key@),
        old(node).shape() is Leaf ==> (r.1 is None <==> entries::put(
            old(node).shape().entries(),
            key@,
            value,
        ).len() <= ORDER),
        match r.1 {
            None => {
                &&& old(node).shape().len() <= final(node).shape().len() <= old(node).shape().len()
                    + 1
                &&& final(node).shape().wf(lo, hi, min, ORDER as nat)
                &&& final(node).shape() is Leaf <==> old(node).shape() is Leaf
                &&& final(node).shape().entries() == entries::put(
                    old(node).shape().entries(),
                    key@,
                    value,
                )
            },
            Some((sep, right)) => {
                &&& right.ok()
                &&& shape::halves(
                    entries::put(old(node).shape().entries(), key@, value),
                    final(node).shape(),
                    sep@,
                    right.shape(),
                    lo,
                    hi,
                )
                &&& old(node).shape().len() == ORDER
                &&& shape::even(final(node).shape(), right.shape())
            },
        },
    decreases *old(node),
{
    let ghost e = node.shape().entries();
    proof {
        shape::lemma_entries(node.shape(), lo, hi, min, ORDER as nat);
        entries::lemma_put(e, key@, value);
    }
    match node {
        Node::Leaf(leaf) => {
            let (old, split) = leaf.insert(key, value, Ghost(lo), Ghost(hi));
            match split {
                None => (old, None),
                Some((first, right)) => (old, Some((first, Node::Leaf(right)))),
            }
        },
        Node::Branch(branch) => {
            let ghost was = *branch;
            let at = branch.child_of(key, Ghost(lo), Ghost(hi));
            let ghost c = was.kids()[at as int].entries();
            proof {
                lemma_shapes(was.children@);
                entries::lemma_middle(
                    shape::all(was.kids().subrange(0, at as int)),
                    c,
                    shape::all(was.kids().subrange(at + 1, was.kids().len() as int)),
                    key@,
                );
            }
            let (old, split) = insert_at(
                &mut branch.children[at],
                key,
                value,
                Ghost(shape::lower(was.seps(), lo, at as int)),
                Ghost(shape::upper(was.seps(), hi, at as int)),
                Ghost(MIN as nat),
            );
            let split = branch.settle(
                at,
                split,
                Ghost(was),
                Ghost(lo),
                Ghost(hi),
                Ghost(entries::put(c, key@, value)),
            );
            (old, split)
        },
    }
}

/// Folds `b`, which sorts after `a` from `separator` on, into `a`.
fn fuse<V>(
    a: &mut Node<V>,
    separator: &[u8],
    b: Node<V>,
    Ghost(lo): Ghost<Bound>,
    Ghost(hi): Ghost<Bound>,
    Ghost(min): Ghost<(nat, nat)>,
)
    requires
        old(a).ok(),
        b.ok(),
        old(a).shape().wf(lo, Some(separator@), min.0, ORDER as nat),
        b.shape().wf(Some(separator@), hi, min.1, ORDER as nat),
        shape::between(separator@, lo, hi),
        old(a).shape().height() == b.shape().height(),
        min.0 >= 1,
        min.1 >= 1,
        MIN <= old(a).shape().len() + b.shape().len() <= ORDER,
    ensures
        final(a).ok(),
        final(a).shape().wf(lo, hi, MIN as nat, ORDER as nat),
        final(a).shape().height() == b.shape().height(),
        final(a).shape().len() == old(a).shape().len() + b.shape().len(),
        final(a).shape().entries() == old(a).shape().entries() + b.shape().entries(),
{
    match a {
        Node::Leaf(x) => match b {
            Node::Leaf(y) => {
                proof {
                    shape::lemma_join_leaves(x.entries(), y.entries(), lo, separator@, hi);
                }
                x.absorb(y);
            },
            Node::Branch(y) => {
                proof {
                    lemma_shapes(y.children@);
                    assert(false);
                }
            },
        },
        Node::Branch(x) => match b {
            Node::Leaf(y) => {
                proof {
                    lemma_shapes(x.children@);
                    assert(false);
                }
            },
            Node::Branch(y) => {
                let ghost was = *x;
                proof {
                    lemma_shapes(was.children@);
                    lemma_shapes(y.children@);
                    lemma_shapes_concat(was.children@, y.children@);
                    shape::lemma_join(
                        was.seps(),
                        was.kids(),
                        separator@,
                        y.seps(),
                        y.kids(),
                        lo,
                        hi,
                    );
                    assert(separator@ + Seq::<u8>::empty() =~= separator@);
                }
                x.separators.push(separator, &[]);
                x.separators.append(&y.separators);
                let mut children = y.children;
                x.children.append(&mut children);
                proof {
                    assert(x.children@ =~= was.children@ + y.children@);
                    assert forall|i: int| 0 <= i < x.children@.len() implies (
                    #[trigger] x.children@[i]).ok() by {
                        if i < was.children@.len() {
                            assert(x.children@[i] == was.children@[i]);
                        } else {
                            assert(x.children@[i] == y.children@[i - was.children@.len()]);
                        }
                    }
                }
            },
        },
    }
}

/// Moves one entry or child between `a` and `b`, which sorts after `a` from
/// `separator` on, towards `a` when `to_left`. Returns what separates them
/// now.
fn trade<V>(
    a: &mut Node<V>,
    separator: &[u8],
    b: &mut Node<V>,
    to_left: bool,
    Ghost(lo): Ghost<Bound>,
    Ghost(hi): Ghost<Bound>,
    Ghost(min): Ghost<(nat, nat)>,
) -> (raised: Vec<u8>)
    requires
        old(a).ok(),
        old(b).ok(),
        old(a).shape().wf(lo, Some(separator@), min.0, ORDER as nat),
        old(b).shape().wf(Some(separator@), hi, min.1, ORDER as nat),
        shape::between(separator@, lo, hi),
        old(a).shape().height() == old(b).shape().height(),
        to_left ==> MIN - 1 <= old(a).shape().len() < ORDER && old(b).shape().len() > MIN,
        !to_left ==> MIN - 1 <= old(b).shape().len() < ORDER && old(a).shape().len() > MIN,
    ensures
        final(a).ok(),
        final(b).ok(),
        shape::halves(
            old(a).shape().entries() + old(b).shape().entries(),
            final(a).shape(),
            raised@,
            final(b).shape(),
            lo,
            hi,
        ),
        final(a).shape().height() == old(a).shape().height(),
        final(a).shape().len() == shape::moved(old(a).shape().len(), to_left),
        final(b).shape().len() == shape::moved(old(b).shape().len(), !to_left),
        final(b).shape() is Leaf ==> raised@ == final(b).shape().entries()[0].0,
{
    match a {
        Node::Leaf(x) => match b {
            Node::Leaf(y) => {
                let ghost (p, q) = (x.entries(), y.entries());
                let ghost e = p + q;
                proof {
                    shape::lemma_join_leaves(p, q, lo, separator@, hi);
                    let at: int = if to_left { p.len() as int + 1 } else { p.len() as int - 1 };
                    shape::lemma_split_leaf(e, lo, hi, at);
                }
                if to_left {
                    x.take_first(y);
                    assert(x.entries() =~= e.subrange(0, p.len() as int + 1));
                    assert(y.entries() =~= e.subrange(p.len() as int + 1, e.len() as int));
                } else {
                    y.take_last(x);
                    assert(x.entries() =~= e.subrange(0, p.len() - 1));
                    assert(y.entries() =~= e.subrange(p.len() - 1, e.len() as int));
                }
                y.full_key(0)
            },
            Node::Branch(y) => {
                proof {
                    lemma_shapes(y.children@);
                    assert(false);
                }
                Vec::new()
            },
        },
        Node::Branch(x) => match b {
            Node::Leaf(y) => {
                proof {
                    lemma_shapes(x.children@);
                    assert(false);
                }
                Vec::new()
            },
            Node::Branch(y) => trade_children(x, separator, y, to_left, Ghost(lo), Ghost(hi)),
        },
    }
}

impl<V> Branch<V> {
    /// Moves the first child of `other`, which sorts after this branch from
    /// `separator` on, onto the end of this one. Returns the separator behind
    /// that child.
    fn take_first(&mut self, separator: &[u8], other: &mut Self) -> (raised: Vec<u8>)
        requires
            old(self).ok(),
            old(other).ok(),
            old(other).kids().len() == old(other).seps().len() + 1,
            old(other).seps().len() > 0,
        ensures
            final(self).ok(),
            final(other).ok(),
            raised@ == old(other).seps()[0],
            final(self).seps() == old(self).seps().push(separator@),
            final(self).kids() == old(self).kids().push(old(other).kids()[0]),
            final(other).seps() == old(other).seps().remove(0),
            final(other).kids() == old(other).kids().remove(0),
    {
        let ghost (x, y) = (*self, *other);
        proof {
            lemma_shapes(x.children@);
            lemma_shapes(y.children@);
            lemma_shapes_insert(x.children@, x.children@.len() as int, y.children@[0]);
            lemma_shapes_remove(y.children@, 0);
            assert(separator@ + Seq::<u8>::empty() =~= separator@);
        }
        self.separators.push(separator, &[]);
        self.children.push(other.children.remove(0));
        let raised = other.separators.owned(0);
        other.separators.remove(0);
        proof {
            assert(self.children@ =~= x.children@.insert(
                x.children@.len() as int,
                y.children@[0],
            ));
            assert(self.kids() =~= x.kids().push(y.kids()[0]));
            lemma_oks_insert(x.children@, x.children@.len() as int, y.children@[0]);
            lemma_oks_remove(y.children@, 0);
        }
        raised
    }

    /// Moves the last child of `other`, which this branch sorts after from
    /// `separator` on, to the front of this one. Returns the separator before
    /// that child.
    fn take_last(&mut self, separator: &[u8], other: &mut Self) -> (raised: Vec<u8>)
        requires
            old(self).ok(),
            old(other).ok(),
            old(other).kids().len() == old(other).seps().len() + 1,
            old(other).seps().len() > 0,
        ensures
            final(self).ok(),
            final(other).ok(),
            raised@ == old(other).seps().last(),
            final(self).seps() == old(self).seps().insert(0, separator@),
            final(self).kids() == old(self).kids().insert(0, old(other).kids().last()),
            final(other).seps() == old(other).seps().drop_last(),
            final(other).kids() == old(other).kids().drop_last(),
    {
        let ghost (x, y) = (*self, *other);
        proof {
            lemma_shapes(x.children@);
            lemma_shapes(y.children@);
            lemma_shapes_insert(x.children@, 0, y.children@.last());
            lemma_shapes_remove(y.children@, y.children@.len() - 1);
        }
        let last = other.children.len() - 1;
        self.children.insert(0, other.children.remove(last));
        self.separators.insert(0, separator);
        let end = other.separators.len() - 1;
        let raised = other.separators.owned(end);
        other.separators.remove(end);
        proof {
            assert(other.kids() =~= y.kids().drop_last());
            assert(other.seps() =~= y.seps().drop_last());
            lemma_oks_insert(x.children@, 0, y.children@.last());
            lemma_oks_remove(y.children@, y.children@.len() - 1);
        }
        raised
    }
}

/// The same between two branches: one child moves, and the separators turn
/// around it.
fn trade_children<V>(
    x: &mut Branch<V>,
    separator: &[u8],
    y: &mut Branch<V>,
    to_left: bool,
    Ghost(lo): Ghost<Bound>,
    Ghost(hi): Ghost<Bound>,
) -> (raised: Vec<u8>)
    requires
        old(x).ok(),
        old(y).ok(),
        shape::fenced(old(x).seps(), old(x).kids(), lo, Some(separator@), -1),
        shape::fenced(old(y).seps(), old(y).kids(), Some(separator@), hi, -1),
        shape::between(separator@, lo, hi),
        old(x).kids()[0].height() == old(y).kids()[0].height(),
        to_left ==> MIN - 1 <= old(x).kids().len() < ORDER && MIN < old(y).kids().len() <= ORDER,
        !to_left ==> MIN - 1 <= old(y).kids().len() < ORDER && MIN < old(x).kids().len() <= ORDER,
    ensures
        final(x).ok(),
        final(y).ok(),
        shape::halves(
            shape::all(old(x).kids()) + shape::all(old(y).kids()),
            Node::Branch(*final(x)).shape(),
            raised@,
            Node::Branch(*final(y)).shape(),
            lo,
            hi,
        ),
        final(x).kids()[0].height() == old(x).kids()[0].height(),
        final(x).kids().len() == shape::moved(old(x).kids().len(), to_left),
        final(y).kids().len() == shape::moved(old(y).kids().len(), !to_left),
{
    let ghost (p, q) = (*x, *y);
    let ghost at: int = if to_left { p.kids().len() as int + 1 } else { p.kids().len() as int - 1 };
    let ghost seps = p.seps().push(separator@) + q.seps();
    let ghost kids = p.kids() + q.kids();
    let raised = if to_left {
        x.take_first(separator, y)
    } else {
        y.take_last(separator, x)
    };
    proof {
        shape::lemma_trade(
            p.seps(),
            p.kids(),
            separator@,
            q.seps(),
            q.kids(),
            lo,
            hi,
            at,
        );
        assert(x.seps() =~= seps.subrange(0, at - 1));
        assert(x.kids() =~= kids.subrange(0, at));
        assert(y.seps() =~= seps.subrange(at, seps.len() as int));
        assert(y.kids() =~= kids.subrange(at, kids.len() as int));
    }
    raised
}

impl<V> Branch<V> {
    /// Replaces the separator at `at`, which the two children beside it moved.
    fn refile(&mut self, at: usize, key: &[u8])
        requires
            old(self).separators.wf(),
            at < old(self).seps().len(),
        ensures
            final(self).separators.wf(),
            final(self).seps() == old(self).seps().update(at as int, key@),
            final(self).children == old(self).children,
    {
        let ghost s = self.seps();
        self.separators.remove(at);
        self.separators.insert(at, key);
        assert(self.seps() =~= s.update(at as int, key@));
    }

    /// Restores the entry count of child `at` after a delete took it below
    /// `MIN`, by merging it with a neighbour or moving one entry across.
    fn rebalance(&mut self, at: usize, Ghost(lo): Ghost<Bound>, Ghost(hi): Ghost<Bound>)
        requires
            old(self).ok(),
            shape::fenced(old(self).seps(), old(self).kids(), lo, hi, at as int),
            at < old(self).kids().len(),
            2 <= old(self).kids().len(),
        ensures
            final(self).ok(),
            shape::fenced(final(self).seps(), final(self).kids(), lo, hi, -1),
            shape::all(final(self).kids()) == shape::all(old(self).kids()),
            final(self).kids().len() == old(self).kids().len() - (if shape::folds(
                old(self).kids(),
                at as int,
            ) {
                1int
            } else {
                0
            }),
            old(self).kids()[at as int].len() >= MIN ==> *final(self) == *old(self),
            final(self).kids()[0].height() == old(self).kids()[0].height(),
    {
        proof {
            lemma_shapes(self.children@);
        }
        assert(self.children@[at as int].shape() == self.kids()[at as int]);
        if self.children[at].len() >= MIN {
            proof {
                shape::lemma_full_enough(self.seps(), self.kids(), lo, hi, at as int);
            }
            return;
        }
        let count = self.children.len();
        let left = if at < count - 1 {
            at
        } else {
            at - 1
        };
        assert(self.children@[left as int].shape() == self.kids()[left as int]);
        assert(self.children@[left + 1].shape() == self.kids()[left + 1]);
        if self.children[left].len() + self.children[left + 1].len() <= ORDER {
            self.merge(left, Ghost(lo), Ghost(hi), Ghost(at as int));
        } else {
            self.shift(left, at == left, Ghost(lo), Ghost(hi));
        }
    }

    /// Folds `left + 1` into `left`.
    fn merge(
        &mut self,
        left: usize,
        Ghost(lo): Ghost<Bound>,
        Ghost(hi): Ghost<Bound>,
        Ghost(low): Ghost<int>,
    )
        requires
            old(self).ok(),
            shape::fenced(old(self).seps(), old(self).kids(), lo, hi, low),
            left + 1 < old(self).kids().len(),
            low == left || low == left + 1,
            old(self).kids()[left as int].len() + old(self).kids()[left + 1].len() <= ORDER,
        ensures
            final(self).ok(),
            shape::fenced(final(self).seps(), final(self).kids(), lo, hi, -1),
            shape::all(final(self).kids()) == shape::all(old(self).kids()),
            final(self).kids().len() == old(self).kids().len() - 1,
            final(self).kids()[left as int].len() == old(self).kids()[left as int].len() + old(
                self,
            ).kids()[left + 1].len(),
            forall|i: int|
                0 <= i < left ==> #[trigger] final(self).kids()[i] == old(self).kids()[i],
            forall|i: int|
                left < i < final(self).kids().len() ==> #[trigger] final(self).kids()[i]
                    == old(self).kids()[i + 1],
            final(self).seps() == old(self).seps().remove(left as int),
            final(self).kids()[0].height() == old(self).kids()[0].height(),
    {
        let ghost was = *self;
        proof {
            lemma_shapes(was.children@);
            assert(was.kids()[left as int].height() == was.kids()[0].height());
            assert(was.kids()[left + 1].height() == was.kids()[0].height());
            assert(shape::between(was.seps()[left as int], lo, hi));
            if left > 0 {
                assert(bytes::lt(was.seps()[left - 1], was.seps()[left as int]));
            }
            if left + 1 < was.seps().len() {
                assert(bytes::lt(was.seps()[left as int], was.seps()[left + 1]));
            }
        }
        let count = self.children.len();
        assert(left + 1 < count);
        let separator = self.separators.owned(left);
        self.separators.remove(left);
        let right = self.children.remove(left + 1);
        assert(right.ok() && right.shape() == was.kids()[left + 1]);
        assert(self.children@[left as int] == was.children@[left as int]);
        fuse(
            &mut self.children[left],
            separator.as_slice(),
            right,
            Ghost(shape::lower(was.seps(), lo, left as int)),
            Ghost(shape::upper(was.seps(), hi, left + 1)),
            Ghost((shape::least(left as int, low), shape::least(left + 1, low))),
        );
        proof {
            let kid = self.children@[left as int];
            lemma_shapes_remove(was.children@, left + 1);
            lemma_shapes_update(was.children@.remove(left + 1), left as int, kid);
            assert(self.children@ =~= was.children@.remove(left + 1).update(left as int, kid));
            shape::lemma_merge_kids(
                was.seps(),
                was.kids(),
                lo,
                hi,
                low,
                left as int,
                kid.shape(),
            );
            assert(oks(self.children@)) by {
                let rest = was.children@.remove(left + 1);
                lemma_oks_remove(was.children@, left + 1);
                assert forall|i: int| 0 <= i < self.children@.len() implies (
                #[trigger] self.children@[i]).ok() by {
                    if i != left {
                        assert(self.children@[i] == rest[i]);
                    }
                }
            }
        }
    }

    /// Moves one entry between `left` and `left + 1`, towards `left` when
    /// `to_left`, and files the right neighbour under its new first key.
    fn shift(
        &mut self,
        left: usize,
        to_left: bool,
        Ghost(lo): Ghost<Bound>,
        Ghost(hi): Ghost<Bound>,
    )
        requires
            old(self).ok(),
            shape::fenced(
                old(self).seps(),
                old(self).kids(),
                lo,
                hi,
                if to_left { left as int } else { left + 1 },
            ),
            left + 1 < old(self).kids().len(),
            old(self).kids()[left as int].len() + old(self).kids()[left + 1].len() > ORDER,
            to_left ==> old(self).kids()[left as int].len() == MIN - 1,
            !to_left ==> old(self).kids()[left + 1].len() == MIN - 1,
        ensures
            final(self).ok(),
            shape::fenced(final(self).seps(), final(self).kids(), lo, hi, -1),
            shape::all(final(self).kids()) == shape::all(old(self).kids()),
            final(self).kids().len() == old(self).kids().len(),
            final(self).kids()[left as int].entries() + final(self).kids()[left + 1].entries()
                == old(self).kids()[left as int].entries() + old(self).kids()[left + 1].entries(),
            final(self).kids()[left as int].len() == shape::moved(
                old(self).kids()[left as int].len(),
                to_left,
            ),
            final(self).kids()[left + 1].len() == shape::moved(
                old(self).kids()[left + 1].len(),
                !to_left,
            ),
            forall|i: int|
                0 <= i < old(self).kids().len() && i != left && i != left + 1
                    ==> #[trigger] final(self).kids()[i] == old(self).kids()[i],
            forall|i: int|
                0 <= i < old(self).seps().len() && i != left ==> #[trigger] final(self).seps()[i]
                    == old(self).seps()[i],
            final(self).kids()[left + 1] is Leaf ==> final(self).seps()[left as int]
                == final(self).kids()[left + 1].entries()[0].0,
            final(self).kids()[0].height() == old(self).kids()[0].height(),
    {
        let ghost was = *self;
        let ghost low: int = if to_left { left as int } else { left + 1 };
        proof {
            lemma_shapes(was.children@);
            assert(was.kids()[left as int].height() == was.kids()[0].height());
            assert(was.kids()[left + 1].height() == was.kids()[0].height());
            assert(shape::between(was.seps()[left as int], lo, hi));
            if left > 0 {
                assert(bytes::lt(was.seps()[left - 1], was.seps()[left as int]));
            }
            if left + 1 < was.seps().len() {
                assert(bytes::lt(was.seps()[left as int], was.seps()[left + 1]));
            }
        }
        let count = self.children.len();
        assert(left + 1 < count);
        let separator = self.separators.owned(left);
        let mut above = self.children.remove(left + 1);
        assert(above.ok() && above.shape() == was.kids()[left + 1]);
        assert(self.children@[left as int] == was.children@[left as int]);
        let raised = trade(
            &mut self.children[left],
            separator.as_slice(),
            &mut above,
            to_left,
            Ghost(shape::lower(was.seps(), lo, left as int)),
            Ghost(shape::upper(was.seps(), hi, left + 1)),
            Ghost((shape::least(left as int, low), shape::least(left + 1, low))),
        );
        let ghost below = self.children@[left as int];
        let ghost moved = above;
        self.children.insert(left + 1, above);
        self.refile(left, raised.as_slice());
        proof {
            let mid = was.children@.update(left as int, below);
            lemma_shapes_update(was.children@, left as int, below);
            lemma_shapes_update(mid, left + 1, moved);
            assert(self.children@ =~= mid.update(left + 1, moved));
            shape::lemma_refile(
                was.seps(),
                was.kids(),
                lo,
                hi,
                low,
                left as int,
                below.shape(),
                moved.shape(),
                raised@,
            );
            assert forall|i: int| 0 <= i < self.children@.len() implies (
            #[trigger] self.children@[i]).ok() by {
                if i != left && i != left + 1 {
                    assert(self.children@[i] == was.children@[i]);
                }
            }
        }
    }
}

/// Removes `key`, which must be present, below `node`.
fn remove_at<V>(
    node: &mut Node<V>,
    key: &[u8],
    Ghost(lo): Ghost<Bound>,
    Ghost(hi): Ghost<Bound>,
    Ghost(min): Ghost<nat>,
) -> (gone: V)
    requires
        old(node).ok(),
        old(node).shape().wf(lo, hi, min, ORDER as nat),
        old(node).shape() is Branch ==> min >= 2,
        shape::within(key@, lo, hi),
        entries::get(old(node).shape().entries(), key@) is Some,
    ensures
        final(node).ok(),
        final(node).shape().height() == old(node).shape().height(),
        final(node).shape() is Leaf <==> old(node).shape() is Leaf,
        final(node).shape().wf(lo, hi, one_less(min), ORDER as nat),
        entries::get(old(node).shape().entries(), key@) == Some(gone),
        final(node).shape().entries() == entries::del(old(node).shape().entries(), key@),
    decreases *old(node),
{
    let ghost e = node.shape().entries();
    proof {
        shape::lemma_entries(node.shape(), lo, hi, min, ORDER as nat);
        entries::lemma_del(e, key@);
    }
    match node {
        Node::Leaf(leaf) => {
            let at = match leaf.locate(key) {
                Ok(at) => at,
                Err(at) => {
                    proof {
                        entries::lemma_missing(e, key@);
                        assert(false);
                    }
                    at
                },
            };
            proof {
                entries::lemma_slot(e, key@, at as int);
            }
            let old = leaf.take(at);
            proof {
                let n = leaf.entries();
                assert forall|i: int| 0 <= i < n.len() implies shape::within(
                    (#[trigger] n[i]).0,
                    lo,
                    hi,
                ) by {
                    assert(n[i] == e[if i < at { i } else { i + 1 }]);
                }
            }
            old
        },
        Node::Branch(branch) => {
            let ghost was = *branch;
            let at = branch.child_of(key, Ghost(lo), Ghost(hi));
            let ghost a = shape::all(was.kids().subrange(0, at as int));
            let ghost c = was.kids()[at as int].entries();
            let ghost b = shape::all(was.kids().subrange(at + 1, was.kids().len() as int));
            proof {
                lemma_shapes(was.children@);
                entries::lemma_middle(a, c, b, key@);
            }
            let old = remove_at(
                &mut branch.children[at],
                key,
                Ghost(shape::lower(was.seps(), lo, at as int)),
                Ghost(shape::upper(was.seps(), hi, at as int)),
                Ghost(MIN as nat),
            );
            proof {
                let child = branch.children@[at as int];
                lemma_shapes_update(was.children@, at as int, child);
                assert(branch.children@ =~= was.children@.update(at as int, child));
                let kids = branch.kids();
                shape::lemma_replace(
                    was.seps(),
                    was.kids(),
                    lo,
                    hi,
                    at as int,
                    child.shape(),
                    at as int,
                );
                shape::lemma_all_around(kids, at as int);
                assert(kids.subrange(0, at as int) =~= was.kids().subrange(0, at as int));
                assert(kids.subrange(at + 1, kids.len() as int) =~= was.kids().subrange(
                    at + 1,
                    was.kids().len() as int,
                ));
                assert(was.kids()[at as int].height() == was.kids()[0].height());
            }
            branch.rebalance(at, Ghost(lo), Ghost(hi));
            old
        },
    }
}

/// What a node may hold once one entry or child has gone.
spec fn one_less(min: nat) -> nat {
    if min > 0 {
        (min - 1) as nat
    } else {
        0
    }
}

/// The value at `key` below `node`.
fn find<'a, V>(
    node: &'a Node<V>,
    key: &[u8],
    Ghost(lo): Ghost<Bound>,
    Ghost(hi): Ghost<Bound>,
    Ghost(min): Ghost<nat>,
) -> (value: Option<&'a V>)
    requires
        node.ok(),
        node.shape().wf(lo, hi, min, ORDER as nat),
        shape::within(key@, lo, hi),
    ensures
        match value {
            Some(v) => entries::get(node.shape().entries(), key@) == Some(*v),
            None => entries::get(node.shape().entries(), key@) is None,
        },
    decreases node,
{
    let ghost e = node.shape().entries();
    match node {
        Node::Leaf(leaf) => match leaf.locate(key) {
            Ok(at) => {
                proof {
                    entries::lemma_slot(e, key@, at as int);
                }
                Some(leaf.value(at))
            },
            Err(_) => {
                proof {
                    entries::lemma_missing(e, key@);
                }
                None
            },
        },
        Node::Branch(branch) => {
            let at = branch.child_of(key, Ghost(lo), Ghost(hi));
            proof {
                lemma_shapes(branch.children@);
                entries::lemma_middle(
                    shape::all(branch.kids().subrange(0, at as int)),
                    branch.kids()[at as int].entries(),
                    shape::all(branch.kids().subrange(at + 1, branch.kids().len() as int)),
                    key@,
                );
            }
            find(
                &branch.children[at],
                key,
                Ghost(shape::lower(branch.seps(), lo, at as int)),
                Ghost(shape::upper(branch.seps(), hi, at as int)),
                Ghost(MIN as nat),
            )
        },
    }
}

/// Hands the value at `key` below `node` to `f`. Does nothing if the key is not
/// there.
fn update_at<V, F: FnOnce(&mut V)>(
    node: &mut Node<V>,
    key: &[u8],
    f: F,
    Ghost(lo): Ghost<Bound>,
    Ghost(hi): Ghost<Bound>,
    Ghost(min): Ghost<nat>,
)
    requires
        old(node).ok(),
        old(node).shape().wf(lo, hi, min, ORDER as nat),
        shape::within(key@, lo, hi),
        forall|v: &mut V|
            entries::get(old(node).shape().entries(), key@) == Some(*v) ==> call_requires(f, (v,)),
    ensures
        final(node).ok(),
        final(node).shape().wf(lo, hi, min, ORDER as nat),
        final(node).shape().height() == old(node).shape().height(),
        final(node).shape() is Leaf <==> old(node).shape() is Leaf,
        match entries::get(old(node).shape().entries(), key@) {
            Some(was) => exists|v: &mut V|
                {
                    &&& *v == was
                    &&& #[trigger] call_ensures(f, (v,), ())
                    &&& final(node).shape().entries() == entries::put(
                        old(node).shape().entries(),
                        key@,
                        *final(v),
                    )
                },
            None => final(node).shape().entries() == old(node).shape().entries(),
        },
    decreases *old(node),
{
    let ghost e = node.shape().entries();
    proof {
        shape::lemma_entries(node.shape(), lo, hi, min, ORDER as nat);
    }
    match node {
        Node::Leaf(leaf) => match leaf.locate(key) {
            Ok(at) => {
                proof {
                    entries::lemma_slot(e, key@, at as int);
                }
                leaf.update(at, f);
                proof {
                    let n = leaf.entries();
                    assert forall|i: int| 0 <= i < n.len() implies (#[trigger] n[i]).0 == e[i].0 by {}
                    assert(entries::sorted(n)) by {
                        assert forall|i: int, j: int| 0 <= i < j < n.len() implies bytes::lt(
                            (#[trigger] n[i]).0,
                            (#[trigger] n[j]).0,
                        ) by {
                            assert(bytes::lt(e[i].0, e[j].0));
                        }
                    }
                    let v = choose|v: &mut V|
                        {
                            &&& *v == e[at as int].1
                            &&& #[trigger] call_ensures(f, (v,), ())
                            &&& n == e.update(at as int, (e[at as int].0, *final(v)))
                        };
                    assert(n == entries::put(e, key@, *final(v)));
                }
            },
            Err(_) => {
                proof {
                    entries::lemma_missing(e, key@);
                }
            },
        },
        Node::Branch(branch) => {
            let ghost was = *branch;
            let at = branch.child_of(key, Ghost(lo), Ghost(hi));
            let ghost a = shape::all(was.kids().subrange(0, at as int));
            let ghost c = was.kids()[at as int].entries();
            let ghost b = shape::all(was.kids().subrange(at + 1, was.kids().len() as int));
            proof {
                lemma_shapes(was.children@);
                entries::lemma_middle(a, c, b, key@);
            }
            update_at(
                &mut branch.children[at],
                key,
                f,
                Ghost(shape::lower(was.seps(), lo, at as int)),
                Ghost(shape::upper(was.seps(), hi, at as int)),
                Ghost(MIN as nat),
            );
            proof {
                let child = branch.children@[at as int];
                lemma_shapes_update(was.children@, at as int, child);
                assert(branch.children@ =~= was.children@.update(at as int, child));
                let kids = branch.kids();
                shape::lemma_replace(
                    was.seps(),
                    was.kids(),
                    lo,
                    hi,
                    at as int,
                    child.shape(),
                    -1,
                );
                shape::lemma_all_around(kids, at as int);
                assert(kids.subrange(0, at as int) =~= was.kids().subrange(0, at as int));
                assert(kids.subrange(at + 1, kids.len() as int) =~= was.kids().subrange(
                    at + 1,
                    was.kids().len() as int,
                ));
                assert(was.kids()[at as int].height() == was.kids()[0].height());
                let d = child.shape().entries();
                if entries::get(c, key@) is Some {
                    let v = choose|v: &mut V|
                        {
                            &&& *v == entries::get(c, key@)->0
                            &&& #[trigger] call_ensures(f, (v,), ())
                            &&& d == entries::put(c, key@, *final(v))
                        };
                    assert(shape::all(kids) == entries::put(e, key@, *final(v)));
                }
            }
        },
    }
}

/// The entries at or after `from` in the leaf it belongs to, the last one
/// first, and the fence the leaf is bounded by on the right, where the walk goes
/// on. `fence` is what bounds `node` itself.
fn batch<V: Clone>(
    node: &Node<V>,
    from: &[u8],
    fence: Option<&[u8]>,
    Ghost(lo): Ghost<Bound>,
    Ghost(min): Ghost<nat>,
) -> (r: (Vec<(Vec<u8>, V)>, Option<Vec<u8>>))
    requires
        node.ok(),
        node.shape().wf(lo, bound(fence), min, ORDER as nat),
        shape::within(from@, lo, bound(fence)),
    ensures
        ({
            let run = entries::run_from(node.shape().entries(), from@);
            let n = r.0@.len() as int;
            &&& n <= run.len()
            &&& entries::copied(run.subrange(0, n), entries::listed(r.0@.reverse()))
            &&& r.1 is None ==> bound(fence) is None && n == run.len()
            &&& n == 0 && r.1 is Some ==> {
                ||| fence is Some && run.len() == 0 && r.1->0@ == fence->0@
                ||| {
                    &&& entries::run_from(node.shape().entries(), r.1->0@) == run
                    &&& shape::catches(node.shape(), r.1->0@)
                    &&& shape::within(r.1->0@, lo, bound(fence))
                }
            }
            &&& shape::catches(node.shape(), from@) ==> n > 0
        }),
    decreases node,
{
    broadcast use crate::bytes::group_order;

    let ghost e = node.shape().entries();
    let ghost hi = bound(fence);
    let ghost run = entries::run_from(e, from@);
    match node {
        Node::Leaf(leaf) => {
            let at = match leaf.locate(from) {
                Ok(at) => at,
                Err(at) => at,
            };
            proof {
                entries::lemma_slot(e, from@, at as int);
            }
            let taken = leaf.run_back(at);
            proof {
                assert(run.subrange(0, taken@.len() as int) =~= run);
            }
            let right = match fence {
                Some(fence) => Some(owned(fence)),
                None => None,
            };
            (taken, right)
        },
        Node::Branch(branch) => {
            let at = branch.child_of(from, Ghost(lo), Ghost(hi));
            let ghost kids = branch.kids();
            let ghost seps = branch.seps();
            let ghost a = shape::all(kids.subrange(0, at as int));
            let ghost c = kids[at as int].entries();
            let ghost b = shape::all(kids.subrange(at + 1, kids.len() as int));
            proof {
                lemma_shapes(branch.children@);
                entries::lemma_middle_run(a, c, b, from@);
                shape::lemma_entries(node.shape(), lo, hi, min, ORDER as nat);
                entries::lemma_run(c, from@);
            }
            let above = if at < branch.separators.len() {
                Some(branch.separators.get(at))
            } else {
                fence
            };
            let r = batch(
                &branch.children[at],
                from,
                above,
                Ghost(shape::lower(seps, lo, at as int)),
                Ghost(MIN as nat),
            );
            proof {
                let n = r.0@.len() as int;
                let part = entries::run_from(c, from@);
                assert(run.subrange(0, n) =~= part.subrange(0, n));
                if at == kids.len() - 1 {
                    assert(kids.subrange(at + 1, kids.len() as int) =~= Seq::empty());
                    assert(run =~= part);
                }
                if n == 0 && r.1 is Some {
                    let f = r.1->0@;
                    if part.len() == 0 && above is Some && f == above->0@ {
                        if at < seps.len() {
                            shape::lemma_past_child(seps, kids, lo, hi, from@, at as int);
                        }
                    } else {
                        shape::lemma_catches_child(seps, kids, lo, hi, f, at as int);
                        shape::lemma_child_range(seps, kids, lo, hi, f, at as int);
                        shape::lemma_route(seps, kids, lo, hi, -1, f, at as int);
                        entries::lemma_middle_run(a, c, b, f);
                    }
                }
                shape::lemma_catches_child(seps, kids, lo, hi, from@, at as int);
            }
            r
        },
    }
}

/// A right fence as a bound.
spec fn bound(fence: Option<&[u8]>) -> Bound {
    match fence {
        Some(f) => Some(f@),
        None => None,
    }
}

/// The first child, where there is one.
fn first_child<'a, V>(node: &'a Node<V>) -> (child: Option<&'a Node<V>>)
    ensures
        child is None ==> node.shape().height() == 0,
        child is Some ==> {
            &&& node is Branch
            &&& node->Branch_0.children@.len() > 0
            &&& *child->0 == node->Branch_0.children@[0]
            &&& node.shape().height() == 1 + child->0.shape().height()
        },
{
    match node {
        Node::Leaf(_) => None,
        Node::Branch(branch) => {
            proof {
                lemma_shapes(branch.children@);
            }
            if branch.children.len() == 0 {
                None
            } else {
                Some(&branch.children[0])
            }
        },
    }
}

/// The leaves below two nodes are equally deep.
fn level<V>(a: &Node<V>, b: &Node<V>) -> (same: bool)
    ensures
        same == (a.shape().height() == b.shape().height()),
    decreases a,
{
    match (first_child(a), first_child(b)) {
        (Some(a), Some(b)) => level(a, b),
        (None, None) => true,
        _ => false,
    }
}

/// The key is at or after `lo` and before `hi`.
fn fits(key: &[u8], lo: Option<&[u8]>, hi: Option<&[u8]>) -> (yes: bool)
    ensures
        yes == shape::within(key@, bound(lo), bound(hi)),
{
    broadcast use crate::bytes::group_order;

    let low = match lo {
        Some(lo) => match compare(key, lo) {
            Side::Before => false,
            _ => true,
        },
        None => true,
    };
    let high = match hi {
        Some(hi) => match compare(key, hi) {
            Side::Before => true,
            _ => false,
        },
        None => true,
    };
    low && high
}

/// Checks one leaf: its keys are in order and between the bounds.
fn check_leaf<V>(leaf: &Leaf<V>, lo: Option<&[u8]>, hi: Option<&[u8]>) -> (holds: bool)
    requires
        leaf.wf(),
    ensures
        holds == (entries::sorted(leaf.entries()) && shape::all_within(
            leaf.entries(),
            bound(lo),
            bound(hi),
        )),
{
    let ghost e = leaf.entries();
    let mut last: Option<Vec<u8>> = None;
    let n = leaf.len();
    for at in 0..n
        invariant
            leaf.wf(),
            e == leaf.entries(),
            n == e.len(),
            shape::all_within(e.subrange(0, at as int), bound(lo), bound(hi)),
            entries::sorted(e.subrange(0, at as int)),
            at == 0 <==> last is None,
            at > 0 ==> last->0@ == e[at - 1].0,
    {
        broadcast use crate::bytes::group_order;

        let key = leaf.full_key(at);
        let fit = fits(key.as_slice(), lo, hi);
        let rising = match &last {
            Some(last) => match compare(last.as_slice(), key.as_slice()) {
                Side::Before => true,
                _ => false,
            },
            None => true,
        };
        if !fit || !rising {
            proof {
                if !rising {
                    assert(!bytes::lt(e[at - 1].0, e[at as int].0));
                    assert(!entries::sorted(e));
                }
            }
            return false;
        }
        proof {
            let p = e.subrange(0, at as int);
            let q = e.subrange(0, at + 1);
            assert forall|i: int, j: int| 0 <= i < j < q.len() implies bytes::lt(
                (#[trigger] q[i]).0,
                (#[trigger] q[j]).0,
            ) by {
                if j < at {
                    assert(p[i] == q[i] && p[j] == q[j]);
                } else if i < at - 1 {
                    assert(p[i] == q[i] && p[at - 1] == e[at - 1]);
                }
            }
            assert forall|i: int| 0 <= i < q.len() implies shape::within(
                (#[trigger] q[i]).0,
                bound(lo),
                bound(hi),
            ) by {
                if i < at {
                    assert(p[i] == q[i]);
                }
            }
        }
        last = Some(key);
    }
    assert(e.subrange(0, e.len() as int) =~= e);
    true
}

/// Checks the separators of one branch: they are in order and strictly between
/// the bounds.
fn check_separators(separators: &Keys, lo: Option<&[u8]>, hi: Option<&[u8]>) -> (holds: bool)
    requires
        separators.wf(),
    ensures
        holds == (bytes::ascending(separators@) && forall|i: int|
            0 <= i < separators@.len() ==> shape::between(
                #[trigger] separators@[i],
                bound(lo),
                bound(hi),
            )),
{
    let ghost e = separators@;
    let n = separators.len();
    for at in 0..n
        invariant
            separators.wf(),
            e == separators@,
            n == e.len(),
            forall|i: int|
                0 <= i < at ==> shape::between(#[trigger] e[i], bound(lo), bound(hi)),
            forall|i: int, j: int| 0 <= i < j < at ==> bytes::lt(#[trigger] e[i], #[trigger] e[j]),
    {
        broadcast use crate::bytes::group_order;

        let key = separators.get(at);
        let above = if at == 0 {
            lo
        } else {
            Some(separators.get(at - 1))
        };
        let rising = match above {
            Some(above) => match compare(above, key) {
                Side::Before => true,
                _ => false,
            },
            None => true,
        };
        if !rising || !fits(key, None, hi) {
            proof {
                if shape::between(e[at as int], bound(lo), bound(hi)) {
                    assert(at > 0 && !bytes::lt(e[at - 1], e[at as int]));
                }
            }
            return false;
        }
        proof {
            assert forall|i: int| 0 <= i < at implies bytes::lt(#[trigger] e[i], e[at as int]) by {
                if i < at - 1 {
                    assert(bytes::lt(e[i], e[at - 1]));
                }
            }
            if at > 0 {
                assert(shape::between(e[at - 1], bound(lo), bound(hi)));
            }
        }
    }
    true
}

/// Walks the subtree checking every invariant: `lo` and `hi` are the bounds the
/// parent's separators put on it, and `least` what the node itself must hold.
fn check<V>(node: &Node<V>, least: usize, lo: Option<&[u8]>, hi: Option<&[u8]>) -> (holds: bool)
    requires
        node.ok(),
    ensures
        holds == node.shape().wf(bound(lo), bound(hi), least as nat, ORDER as nat),
    decreases node,
{
    if node.len() < least || node.len() > ORDER {
        return false;
    }
    match node {
        Node::Leaf(leaf) => check_leaf(leaf, lo, hi),
        Node::Branch(branch) => {
            let ghost kids = branch.kids();
            let ghost seps = branch.seps();
            proof {
                lemma_shapes(branch.children@);
            }
            let n = branch.children.len();
            if branch.separators.len() >= n || branch.separators.len() + 1 != n {
                return false;
            }
            if !check_separators(&branch.separators, lo, hi) {
                return false;
            }
            for at in 0..n
                invariant
                    *node == Node::Branch(*branch),
                    branch.ok(),
                    kids == branch.kids(),
                    seps == branch.seps(),
                    n == branch.children@.len(),
                    kids.len() == n,
                    seps.len() + 1 == n,
                    forall|i: int| 0 <= i < n ==> #[trigger] kids[i] == branch.children@[i].shape(),
                    forall|i: int|
                        0 <= i < at ==> (#[trigger] kids[i]).height() == kids[0].height(),
                    forall|i: int|
                        0 <= i < at ==> (#[trigger] kids[i]).wf(
                            shape::lower(seps, bound(lo), i),
                            shape::upper(seps, bound(hi), i),
                            MIN as nat,
                            ORDER as nat,
                        ),
            {
                let below = if at == 0 {
                    lo
                } else {
                    Some(branch.separators.get(at - 1))
                };
                let above = if at < branch.separators.len() {
                    Some(branch.separators.get(at))
                } else {
                    hi
                };
                assert(kids[at as int] == branch.children@[at as int].shape());
                assert(kids[0] == branch.children@[0].shape());
                if !level(&branch.children[at], &branch.children[0]) {
                    proof {
                        assert(kids[at as int].height() != kids[0].height());
                    }
                    return false;
                }
                if !check(&branch.children[at], MIN, below, above) {
                    proof {
                        assert(!kids[at as int].wf(
                            shape::lower(seps, bound(lo), at as int),
                            shape::upper(seps, bound(hi), at as int),
                            shape::least(at as int, -1),
                            ORDER as nat,
                        ));
                    }
                    return false;
                }
            }
            true
        },
    }
}

// --------------------------------------------------------------------- tree

/// A map from byte-string keys to values, kept in ascending byte-lexicographic
/// key order.
pub struct Tree<V> {
    root: Node<V>,
}

impl<V> View for Tree<V> {
    type V = Map<Seq<u8>, V>;

    open spec fn view(&self) -> Map<Seq<u8>, V> {
        entries::to_map(self.entries())
    }
}

impl<V> Tree<V> {
    /// What the tree holds, in key order.
    pub closed spec fn entries(&self) -> Entries<V> {
        self.root.shape().entries()
    }

    /// The nodes of the tree, as the invariants see them.
    pub closed spec fn shape(&self) -> Shape<V> {
        self.root.shape()
    }

    /// The arrays of every node describe what it holds.
    pub closed spec fn sound(&self) -> bool {
        self.root.ok()
    }

    /// The keys are in order, every separator fences the children it sits
    /// between, the leaves are at one depth and no node is over- or
    /// under-filled.
    pub open spec fn wf(&self) -> bool {
        self.sound() && self.shape().wf_root()
    }

    /// A sound tree holds its entries in ascending key order, one per key.
    pub proof fn lemma_sorted(&self)
        requires
            self.wf(),
        ensures
            self.shape().entries() == self.entries(),
            entries::sorted(self.entries()),
            self@.dom().finite(),
            self@.dom().len() == self.entries().len(),
    {
        let s = self.root.shape();
        shape::lemma_entries(s, None, None, shape::least_root(s), ORDER as nat);
        entries::lemma_map_len(self.entries());
    }

    /// The depth is the logarithm of the entry count: a tree with `h` levels
    /// below its root holds twice `MIN` to the power of `h` entries at least.
    pub proof fn lemma_depth(&self)
        requires
            self.wf(),
            self.shape().height() > 0,
        ensures
            self.entries().len() >= 2 * vstd::arithmetic::power::pow(
                MIN as int,
                self.shape().height(),
            ),
    {
        shape::lemma_depth(self.shape(), None, None, 2);
    }

    /// Checks the shape invariants.
    pub fn assert_invariants(&self) -> (holds: bool)
        requires
            self.sound(),
        ensures
            holds == self.wf(),
    {
        let least: usize = match &self.root {
            Node::Leaf(_) => 0,
            Node::Branch(_) => 2,
        };
        check(&self.root, least, None, None)
    }

    pub fn new() -> (tree: Self)
        ensures
            tree.wf(),
            tree.entries() == Seq::<(Seq<u8>, V)>::empty(),
            tree@ == Map::<Seq<u8>, V>::empty(),
    {
        let tree = Self { root: Node::Leaf(Leaf::empty()) };
        assert(tree@ =~= Map::<Seq<u8>, V>::empty());
        tree
    }

    /// Writes `value` at `key` and returns what it replaced.
    pub fn insert(&mut self, key: &[u8], value: V) -> (was: Option<V>)
        requires
            old(self).wf(),
        ensures
            final(self).wf(),
            was == entries::get(old(self).entries(), key@),
            final(self).entries() == entries::put(old(self).entries(), key@, value),
            final(self)@ == old(self)@.insert(key@, value),
    {
        let ghost s = self.root.shape();
        proof {
            self.lemma_sorted();
            entries::lemma_put(self.entries(), key@, value);
        }
        let (was, split) = insert_at(
            &mut self.root,
            key,
            value,
            Ghost(None),
            Ghost(None),
            Ghost(shape::least_root(s)),
        );
        if let Some((separator, right)) = split {
            self.grow(separator, right);
        }
        was
    }

    /// Puts a branch over the two halves of a root that split.
    fn grow(&mut self, separator: Vec<u8>, right: Node<V>)
        requires
            old(self).root.ok(),
            right.ok(),
            exists|whole: Entries<V>|
                shape::halves(
                    whole,
                    old(self).root.shape(),
                    separator@,
                    right.shape(),
                    None,
                    None,
                ),
        ensures
            final(self).wf(),
            final(self).entries() == old(self).root.shape().entries() + right.shape().entries(),
    {
        let mut separators = Keys::new();
        separators.push(separator.as_slice(), &[]);
        let mut left = Node::Branch(Branch { separators, children: Vec::new() });
        let ghost l = self.root;
        core::mem::swap(&mut self.root, &mut left);
        if let Node::Branch(branch) = &mut self.root {
            branch.children.push(left);
            branch.children.push(right);
        }
        proof {
            let nodes = seq![l, right];
            let kids = seq![l.shape(), right.shape()];
            let seps = seq![separator@];
            lemma_shapes(nodes);
            assert(shapes(nodes) =~= kids);
            assert(seps =~= self.root->Branch_0.separators@);
            assert(self.root->Branch_0.children@ =~= nodes);
            shape::lemma_all_around_two(kids, 0);
            assert(kids.subrange(0, 0) =~= Seq::empty());
            assert(kids.subrange(2, 2) =~= Seq::empty());
            assert(shape::all(kids) =~= l.shape().entries() + right.shape().entries());
        }
    }

    /// Removes `key` and returns what was there.
    pub fn remove(&mut self, key: &[u8]) -> (was: Option<V>)
        requires
            old(self).wf(),
        ensures
            final(self).wf(),
            was == entries::get(old(self).entries(), key@),
            final(self).entries() == entries::del(old(self).entries(), key@),
            final(self)@ == old(self)@.remove(key@),
    {
        let ghost s = self.root.shape();
        proof {
            self.lemma_sorted();
            entries::lemma_del(self.entries(), key@);
        }
        if !self.contains(key) {
            return None;
        }
        let was = remove_at(
            &mut self.root,
            key,
            Ghost(None),
            Ghost(None),
            Ghost(shape::least_root(s)),
        );
        self.settle();
        Some(was)
    }

    /// A root branch left with a single child is a level that fences nothing:
    /// the child's contents come up into the root.
    fn settle(&mut self)
        requires
            old(self).root.ok(),
            old(self).root.shape().wf(
                None,
                None,
                if old(self).root.shape() is Leaf {
                    0
                } else {
                    1
                },
                ORDER as nat,
            ),
        ensures
            final(self).wf(),
            final(self).entries() == old(self).entries(),
    {
        let ghost was = self.root;
        proof {
            if was is Branch {
                lemma_shapes(was->Branch_0.children@);
            }
        }
        let only = match &mut self.root {
            Node::Branch(branch) => if branch.children.len() == 1 {
                branch.children.pop()
            } else {
                None
            },
            Node::Leaf(_) => None,
        };
        if let Some(only) = only {
            proof {
                let kids = was->Branch_0.kids();
                assert(only.shape() == kids[0]);
                assert(kids[0].wf(None, None, MIN as nat, ORDER as nat));
                shape::lemma_all_one(kids[0]);
                assert(kids =~= seq![kids[0]]);
            }
            self.root = only;
        }
    }

    /// Removes every one of `keys` that is there.
    pub fn remove_all(&mut self, keys: &Vec<Vec<u8>>)
        requires
            old(self).wf(),
        ensures
            final(self).wf(),
            forall|o: Seq<u8>| #[trigger]
                entries::get(final(self).entries(), o) == (if entries::among(keys@, o) {
                    None
                } else {
                    entries::get(old(self).entries(), o)
                }),
    {
        let ghost e = self.entries();
        let n = keys.len();
        for at in 0..n
            invariant
                self.wf(),
                n == keys@.len(),
                forall|o: Seq<u8>| #[trigger]
                    entries::get(self.entries(), o) == (if entries::among(
                        keys@.subrange(0, at as int),
                        o,
                    ) {
                        None
                    } else {
                        entries::get(e, o)
                    }),
        {
            let ghost now = self.entries();
            proof {
                self.lemma_sorted();
                entries::lemma_del(now, keys@[at as int]@);
            }
            self.remove(keys[at].as_slice());
            proof {
                let a = keys@.subrange(0, at as int);
                let b = keys@.subrange(0, at + 1);
                assert forall|o: Seq<u8>| #[trigger]
                    entries::get(self.entries(), o) == (if entries::among(b, o) {
                        None
                    } else {
                        entries::get(e, o)
                    }) by {
                    entries::lemma_among_push(a, keys@[at as int], o);
                    assert(b =~= a.push(keys@[at as int]));
                    assert(entries::get(now, o) == (if entries::among(a, o) {
                        None
                    } else {
                        entries::get(e, o)
                    }));
                }
            }
        }
        assert(keys@.subrange(0, n as int) =~= keys@);
    }

    /// The value at `key`, in place.
    pub fn find(&self, key: &[u8]) -> (value: Option<&V>)
        requires
            self.wf(),
        ensures
            match value {
                Some(v) => entries::get(self.entries(), key@) == Some(*v),
                None => entries::get(self.entries(), key@) is None,
            },
    {
        find(
            &self.root,
            key,
            Ghost(None),
            Ghost(None),
            Ghost(shape::least_root(self.root.shape())),
        )
    }

    pub fn contains(&self, key: &[u8]) -> (there: bool)
        requires
            self.wf(),
        ensures
            there == entries::get(self.entries(), key@) is Some,
    {
        match self.find(key) {
            Some(_) => true,
            None => false,
        }
    }

    /// Hands the value at `key` to `f`. Does nothing if the key is not there.
    pub fn update<F: FnOnce(&mut V)>(&mut self, key: &[u8], f: F)
        requires
            old(self).wf(),
            forall|v: &mut V|
                entries::get(old(self).entries(), key@) == Some(*v) ==> call_requires(f, (v,)),
        ensures
            final(self).wf(),
            match entries::get(old(self).entries(), key@) {
                Some(was) => exists|v: &mut V|
                    {
                        &&& *v == was
                        &&& #[trigger] call_ensures(f, (v,), ())
                        &&& final(self).entries() == entries::put(
                            old(self).entries(),
                            key@,
                            *final(v),
                        )
                    },
                None => final(self).entries() == old(self).entries(),
            },
    {
        let ghost s = self.root.shape();
        update_at(
            &mut self.root,
            key,
            f,
            Ghost(None),
            Ghost(None),
            Ghost(shape::least_root(s)),
        );
    }
}

impl<V> Default for Tree<V> {
    fn default() -> (tree: Self)
        ensures
            tree.wf(),
            tree.entries() == Seq::<(Seq<u8>, V)>::empty(),
            tree@ == Map::<Seq<u8>, V>::empty(),
    {
        Self::new()
    }
}

impl<V: Clone> Tree<V> {
    /// The value at `key`.
    pub fn get(&self, key: &[u8]) -> (value: Option<V>)
        requires
            self.wf(),
        ensures
            match entries::get(self.entries(), key@) {
                Some(v) => value is Some && cloned(v, value->0),
                None => value is None,
            },
    {
        match self.find(key) {
            Some(value) => Some(value.clone()),
            None => None,
        }
    }

    /// Every entry with a key `>= key`, in ascending key order.
    pub fn range_from(&self, key: &[u8]) -> (iter: Iter<V>)
        ensures
            iter.wf(),
            iter.pending() == Seq::<(Seq<u8>, V)>::empty(),
            iter.seek() == Some(key@),
    {
        Iter { from: Some(owned(key)), taken: Vec::new() }
    }

    /// Removes every entry with a key below `key`, from the left edge.
    pub fn remove_below(&mut self, key: &[u8])
        requires
            old(self).wf(),
        ensures
            final(self).wf(),
            final(self).entries() == entries::run_from(old(self).entries(), key@),
    {
        broadcast use crate::bytes::group_order;

        let ghost e = self.entries();
        let mut walk = self.range_from(&[]);
        let ghost mut gone: int = 0;
        proof {
            self.lemma_sorted();
            entries::lemma_slot_exists(e, key@);
            lemma_from_start(e);
            assert(e.subrange(0, e.len() as int) =~= e);
            assert(walk.seek()->0 =~= Seq::empty());
            assert(walk.rest(e) =~= e);
        }
        loop
            invariant_except_break
                same_keys(walk.rest(self.entries()), self.entries()),
            invariant
                self.wf(),
                walk.wf(),
                entries::sorted(e),
                entries::place(e, key@, entries::slot(e, key@)),
                0 <= gone <= entries::slot(e, key@),
                self.entries() == e.subrange(gone, e.len() as int),
            ensures
                self.wf(),
                self.entries() == entries::run_from(e, key@),
            decreases e.len() - gone,
        {
            let ghost was = walk;
            let ghost now = self.entries();
            proof {
                self.lemma_sorted();
            }
            let next = walk.next(self);
            proof {
                lemma_walk_rest(was, now, plain(next), walk);
            }
            let found = match next {
                Some((found, _)) => found,
                None => {
                    assert(self.entries() =~= entries::run_from(e, key@));
                    break;
                },
            };
            proof {
                assert(was.rest(now)[0].0 == now[0].0);
                assert(now[0] == e[gone]);
            }
            if let Side::Before = compare(found.as_slice(), key) {
                self.remove(found.as_slice());
                proof {
                    assert(gone < entries::slot(e, key@));
                    entries::lemma_found(now, 0);
                    assert(now.remove(0) =~= e.subrange(gone + 1, e.len() as int));
                    lemma_walk_ascends(was, now, plain(next), walk);
                    lemma_ahead_without_first(walk.seek(), now);
                    let r = was.rest(now);
                    let q = walk.rest(now);
                    let t = self.entries();
                    assert(walk.rest(t) =~= q);
                    assert forall|i: int| 0 <= i < q.len() implies q[i].0 == t[i].0 by {
                        assert(r.subrange(1, r.len() as int)[i] == r[i + 1]);
                        assert(r[i + 1].0 == now[i + 1].0);
                    }
                    gone = gone + 1;
                }
            } else {
                proof {
                    assert(gone == entries::slot(e, key@));
                }
                break;
            }
        }
    }
}

// --------------------------------------------------------------------- walk

/// Yields entries in ascending byte-lexicographic key order.
///
/// One leaf's worth of entries is taken at a time and handed out as owned
/// values, so the walk holds nothing of the tree between them and the writer is
/// free to reshape the tree behind it. The next leaf is found by seeking again
/// from the root, past the last key that was taken.
pub struct Iter<V> {
    /// Where the next seek starts. `None` once the walk has run off the end.
    from: Option<Vec<u8>>,
    /// What was taken and not yet handed out, the last entry first.
    taken: Vec<(Vec<u8>, V)>,
}

/// What a seek starting at `from` has before it.
pub open spec fn ahead<V>(from: Bound, e: Entries<V>) -> Entries<V> {
    match from {
        Some(f) => entries::run_from(e, f),
        None => Seq::empty(),
    }
}

/// `a` and `b` have the same keys.
pub open spec fn same_keys<V>(a: Entries<V>, b: Entries<V>) -> bool {
    &&& a.len() == b.len()
    &&& forall|i: int| #![trigger a[i]] #![trigger b[i]] 0 <= i < a.len() ==> a[i].0 == b[i].0
}

impl<V> Iter<V> {
    /// What was taken and not yet handed out.
    pub closed spec fn pending(&self) -> Entries<V> {
        entries::listed(self.taken@.reverse())
    }

    /// Where the next seek starts.
    pub closed spec fn seek(&self) -> Bound {
        match self.from {
            Some(from) => Some(from@),
            None => None,
        }
    }

    /// What is pending is in order, and the next seek starts past it.
    pub open spec fn wf(&self) -> bool {
        &&& entries::sorted(self.pending())
        &&& self.pending().len() > 0 ==> self.seek() is Some
        &&& forall|i: int|
            0 <= i < self.pending().len() ==> bytes::lt(
                (#[trigger] self.pending()[i]).0,
                self.seek()->0,
            )
    }

    /// What is left of the walk over a tree that holds `e`.
    pub open spec fn rest(&self, e: Entries<V>) -> Entries<V> {
        self.pending() + ahead(self.seek(), e)
    }
}

/// One step of a walk over a tree that holds `e`: what is pending is handed out
/// first, and when nothing is, the next run of entries is taken from the tree.
pub open spec fn stepped<V: Clone>(
    old: Iter<V>,
    e: Entries<V>,
    entry: Option<(Seq<u8>, V)>,
    new: Iter<V>,
) -> bool {
    let before = ahead(old.seek(), e);
    if old.pending().len() > 0 {
        &&& entry == Some(old.pending()[0])
        &&& new.pending() == old.pending().subrange(1, old.pending().len() as int)
        &&& new.seek() == old.seek()
    } else if before.len() == 0 {
        &&& entry is None
        &&& new.pending().len() == 0
        &&& new.seek() is None
    } else {
        let n = 1 + new.pending().len() as int;
        &&& entry is Some
        &&& n <= before.len()
        &&& entries::copied(before.subrange(0, n), seq![entry->0] + new.pending())
        &&& new.seek() == Some(before[n - 1].0.push(0))
    }
}

/// An entry as the contracts speak of it.
pub open spec fn plain<V>(entry: Option<(Vec<u8>, V)>) -> Option<(Seq<u8>, V)> {
    match entry {
        Some((key, value)) => Some((key@, value)),
        None => None,
    }
}

impl<V: Clone> Iter<V> {
    /// The next entry of the walk over `tree`.
    pub fn next(&mut self, tree: &Tree<V>) -> (entry: Option<(Vec<u8>, V)>)
        requires
            old(self).wf(),
            tree.wf(),
        ensures
            final(self).wf(),
            stepped(*old(self), tree.entries(), plain(entry), *final(self)),
    {
        broadcast use crate::bytes::group_order;

        let ghost was = *self;
        let ghost e = tree.entries();
        proof {
            tree.lemma_sorted();
        }
        if let Some(entry) = self.taken.pop() {
            proof {
                let p = was.pending();
                assert(p[0] == (entry.0@, entry.1));
                assert(self.pending() =~= p.subrange(1, p.len() as int));
            }
            return Some(entry);
        }
        let ghost mut caught = false;
        loop
            invariant
                tree.wf(),
                was == *old(self),
                e == tree.entries(),
                entries::sorted(e),
                was.pending().len() == 0,
                self.taken@.len() == 0,
                ahead(self.seek(), e) == ahead(was.seek(), e),
                caught ==> self.from is Some && shape::catches(tree.shape(), self.from->0@),
            decreases
                    (if self.from is None {
                        0int
                    } else if caught {
                        1
                    } else {
                        2
                    }),
        {
            let from = match self.from.take() {
                Some(from) => from,
                None => {
                    return None;
                },
            };
            let ghost before = ahead(was.seek(), e);
            let (mut taken, fence) = batch(
                &tree.root,
                from.as_slice(),
                None,
                Ghost(None),
                Ghost(shape::least_root(tree.root.shape())),
            );
            if taken.len() > 0 {
                self.from = Some(after(taken[0].0.as_slice()));
                let ghost all = taken@;
                let entry = taken.pop();
                self.taken = taken;
                proof {
                    broadcast use crate::bytes::group_order;

                    let n = all.len() as int;
                    let list = entries::listed(all.reverse());
                    assert(list =~= seq![plain(entry)->0] + self.pending());
                    entries::lemma_run(e, from@);
                    assert(before.subrange(0, n)[n - 1] == before[n - 1]);
                    assert(list[n - 1].0 == all[0].0@);
                    let last = before[n - 1].0;
                    bytes::lemma_after(last, last.push(0));
                    assert(bytes::lt(last, last.push(0)));
                    let p = self.pending();
                    assert forall|i: int| 0 <= i < p.len() implies #[trigger] p[i].0 == before[i
                        + 1].0 by {
                        assert(list[i + 1] == p[i]);
                        assert(before.subrange(0, n)[i + 1] == before[i + 1]);
                    }
                    assert forall|i: int| 0 <= i < p.len() implies bytes::lt(
                        (#[trigger] p[i]).0,
                        last.push(0),
                    ) by {
                        if i + 1 < n - 1 {
                            assert(bytes::lt(before[i + 1].0, before[n - 1].0));
                        }
                        assert(p[i].0 == before[i + 1].0);
                    }
                }
                return entry;
            }
            self.from = fence;
            proof {
                if fence is Some {
                    caught = true;
                }
            }
        }
    }

    /// The rest of the walk over `tree`.
    pub fn collect(self, tree: &Tree<V>) -> (list: Vec<(Vec<u8>, V)>)
        requires
            self.wf(),
            tree.wf(),
        ensures
            entries::copied(self.rest(tree.entries()), entries::listed(list@)),
    {
        let mut walk = self;
        let mut list: Vec<(Vec<u8>, V)> = Vec::new();
        let ghost e = tree.entries();
        let ghost all = self.rest(e);
        proof {
            tree.lemma_sorted();
            assert(all.subrange(0, 0) =~= entries::listed(list@));
            assert(all.subrange(0, walk.pending().len() as int) =~= walk.pending());
            assert(all.subrange(walk.pending().len() as int, all.len() as int) =~= ahead(
                walk.seek(),
                e,
            ));
        }
        loop
            invariant
                walk.wf(),
                tree.wf(),
                e == tree.entries(),
                all == self.rest(e),
                entries::sorted(e),
                list@.len() + walk.pending().len() <= all.len(),
                entries::copied(
                    all.subrange(0, list@.len() as int),
                    entries::listed(list@),
                ),
                entries::copied(
                    all.subrange(
                        list@.len() as int,
                        (list@.len() + walk.pending().len()) as int,
                    ),
                    walk.pending(),
                ),
                all.subrange(
                    (list@.len() + walk.pending().len()) as int,
                    all.len() as int,
                ) == ahead(walk.seek(), e),
            decreases all.len() - list@.len(),
        {
            let ghost was = walk;
            let ghost m = list@.len() as int;
            let ghost p = walk.pending().len() as int;
            match walk.next(tree) {
                Some(entry) => {
                    let ghost so_far = list@;
                    proof {
                        let before = ahead(was.seek(), e);
                        let q = walk.pending().len() as int;
                        if p == 0 {
                            let taken = seq![plain(Some(entry))->0] + walk.pending();
                            lemma_ahead_after(e, was.seek()->0, 1 + q);
                            assert(before.subrange(0, 1 + q) =~= all.subrange(m, m + 1 + q));
                            assert(taken[0] == plain(Some(entry))->0);
                            assert(all.subrange(m, m + 1 + q)[0] == all[m]);
                            assert forall|i: int| 0 <= i < q implies {
                                let x = all.subrange(m + 1, m + 1 + q)[i];
                                let y = #[trigger] walk.pending()[i];
                                x.0 == y.0 && cloned(x.1, y.1)
                            } by {
                                assert(taken[i + 1] == walk.pending()[i]);
                                assert(all.subrange(m, m + 1 + q)[i + 1] == all[m + 1 + i]);
                            }
                            assert(before.subrange(1 + q, before.len() as int) =~= all.subrange(
                                m + 1 + q,
                                all.len() as int,
                            ));
                        } else {
                            assert(all.subrange(m, m + p)[0] == all[m]);
                            assert forall|i: int| 0 <= i < q implies {
                                let x = all.subrange(m + 1, m + 1 + q)[i];
                                let y = #[trigger] walk.pending()[i];
                                x.0 == y.0 && cloned(x.1, y.1)
                            } by {
                                assert(was.pending()[i + 1] == walk.pending()[i]);
                                assert(all.subrange(m, m + p)[i + 1] == all[m + 1 + i]);
                            }
                        }
                    }
                    list.push(entry);
                    proof {
                        let x = all.subrange(0, m + 1);
                        let y = entries::listed(list@);
                        assert forall|i: int| 0 <= i < m + 1 implies x[i].0 == y[i].0 && cloned(
                            x[i].1,
                            y[i].1,
                        ) by {
                            if i < m {
                                assert(all.subrange(0, m)[i] == x[i]);
                                assert(entries::listed(so_far)[i] == y[i]);
                            }
                        }
                    }
                },
                None => {
                    assert(all.subrange(0, m) =~= all);
                    return list;
                },
            }
        }
    }
}

/// A walk from the empty key has every entry before it.
pub proof fn lemma_from_start<V>(e: Entries<V>)
    ensures
        entries::run_from(e, Seq::empty()) == e,
{
    assert forall|j: int| 0 <= j < e.len() implies !bytes::lt((#[trigger] e[j]).0, Seq::empty()) by {
        bytes::lemma_empty_first(e[j].0);
    }
    entries::lemma_slot(e, Seq::empty(), 0);
    assert(e.subrange(0, e.len() as int) =~= e);
}

/// A seek past the last of `n` entries goes on with the one after them.
proof fn lemma_ahead_after<V>(e: Entries<V>, from: Seq<u8>, n: int)
    requires
        entries::sorted(e),
        1 <= n <= entries::run_from(e, from).len(),
    ensures
        ({
            let before = entries::run_from(e, from);
            entries::run_from(e, before[n - 1].0.push(0)) == before.subrange(
                n,
                before.len() as int,
            )
        }),
{
    broadcast use crate::bytes::group_order;

    let before = entries::run_from(e, from);
    entries::lemma_run(e, from);
    let s = entries::slot(e, from);
    let last = before[n - 1].0;
    assert(before[n - 1] == e[s + n - 1]);
    bytes::lemma_after(last, last.push(0));
    assert forall|j: int| 0 <= j < s + n implies bytes::lt((#[trigger] e[j]).0, last.push(0)) by {
        if j < s + n - 1 {
            assert(bytes::lt(e[j].0, e[s + n - 1].0));
        }
    }
    assert forall|j: int| s + n <= j < e.len() implies !bytes::lt(
        (#[trigger] e[j]).0,
        last.push(0),
    ) by {
        assert(bytes::lt(e[s + n - 1].0, e[j].0));
        bytes::lemma_after(last, e[j].0);
    }
    entries::lemma_slot(e, last.push(0), s + n);
    assert(entries::run_from(e, last.push(0)) =~= before.subrange(n, before.len() as int));
}

/// Removing the first entry changes nothing ahead of a seek that is past it.
proof fn lemma_ahead_without_first<V>(from: Bound, e: Entries<V>)
    requires
        entries::sorted(e),
        e.len() > 0,
        from is Some ==> bytes::lt(e[0].0, from->0),
    ensures
        ahead(from, e.remove(0)) == ahead(from, e),
{
    if from is Some {
        let f = from->0;
        entries::lemma_slot_exists(e, f);
        let s = entries::slot(e, f);
        let t = e.remove(0);
        assert(s >= 1);
        assert forall|j: int| 0 <= j < s - 1 implies bytes::lt((#[trigger] t[j]).0, f) by {
            assert(t[j] == e[j + 1]);
        }
        assert forall|j: int| s - 1 <= j < t.len() implies !bytes::lt((#[trigger] t[j]).0, f) by {
            assert(t[j] == e[j + 1]);
        }
        entries::lemma_slot(t, f, s - 1);
        assert(ahead(from, t) =~= ahead(from, e));
    }
}

/// Over a tree that stays as it is, a step hands out the first entry left, with
/// its value cloned, and leaves the others. The walk ends when none is left.
pub proof fn lemma_walk_rest<V: Clone>(
    old: Iter<V>,
    e: Entries<V>,
    entry: Option<(Seq<u8>, V)>,
    new: Iter<V>,
)
    requires
        entries::sorted(e),
        stepped(old, e, entry, new),
    ensures
        entry is None <==> old.rest(e).len() == 0,
        entry is None ==> new.rest(e).len() == 0,
        entry is Some ==> {
            let r = old.rest(e);
            &&& (entry->0).0 == r[0].0
            &&& cloned(r[0].1, (entry->0).1)
            &&& entries::copied(r.subrange(1, r.len() as int), new.rest(e))
        },
{
    let r = old.rest(e);
    let before = ahead(old.seek(), e);
    if old.pending().len() > 0 {
        assert(r[0] == old.pending()[0]);
        assert(new.rest(e) =~= r.subrange(1, r.len() as int));
    } else if before.len() > 0 {
        let n = 1 + new.pending().len() as int;
        let taken = seq![entry->0] + new.pending();
        lemma_ahead_after(e, old.seek()->0, n);
        assert(r =~= before);
        assert(taken[0] == entry->0);
        assert(before.subrange(0, n)[0] == before[0]);
        let x = r.subrange(1, r.len() as int);
        let y = new.rest(e);
        assert forall|i: int| 0 <= i < x.len() implies x[i].0 == y[i].0 && cloned(
            x[i].1,
            y[i].1,
        ) by {
            if i < n - 1 {
                assert(taken[i + 1] == y[i]);
                assert(before.subrange(0, n)[i + 1] == x[i]);
            } else {
                assert(y[i] == before.subrange(n, before.len() as int)[i - (n - 1)]);
            }
        }
    }
}

/// Everything the walk has before it sorts after `k`.
pub open spec fn past<V>(walk: Iter<V>, k: Seq<u8>) -> bool {
    &&& forall|i: int|
        0 <= i < walk.pending().len() ==> bytes::lt(k, (#[trigger] walk.pending()[i]).0)
    &&& walk.seek() is Some ==> bytes::lt(k, walk.seek()->0)
}

/// A walk hands out keys in ascending order, whatever was written to the tree
/// between its steps: what a step leaves sorts after the key it hands out, and
/// what follows a key sorts after it.
pub proof fn lemma_walk_ascends<V: Clone>(
    old: Iter<V>,
    e: Entries<V>,
    entry: Option<(Seq<u8>, V)>,
    new: Iter<V>,
)
    requires
        old.wf(),
        entries::sorted(e),
        stepped(old, e, entry, new),
    ensures
        entry is Some ==> past(new, (entry->0).0),
        entry is Some ==> forall|k: Seq<u8>| #[trigger] past(old, k) ==> bytes::lt(k, (entry->0).0),
{
    broadcast use crate::bytes::group_order;

    let before = ahead(old.seek(), e);
    let p = new.pending();
    if old.pending().len() > 0 {
        assert forall|i: int| 0 <= i < p.len() implies bytes::lt(
            (entry->0).0,
            (#[trigger] p[i]).0,
        ) by {
            assert(p[i] == old.pending()[i + 1]);
        }
    } else if before.len() > 0 {
        let n = 1 + p.len() as int;
        let taken = seq![entry->0] + p;
        entries::lemma_run(e, old.seek()->0);
        assert(taken[0] == entry->0);
        assert(before.subrange(0, n)[0] == before[0]);
        assert forall|i: int| 0 <= i < p.len() implies bytes::lt(
            (entry->0).0,
            (#[trigger] p[i]).0,
        ) by {
            assert(taken[i + 1] == p[i]);
            assert(before.subrange(0, n)[i + 1] == before[i + 1]);
            assert(bytes::lt(before[0].0, before[i + 1].0));
        }
        let last = before[n - 1].0;
        bytes::lemma_after(last, last.push(0));
        if n > 1 {
            assert(bytes::lt(before[0].0, before[n - 1].0));
        }
        assert(!bytes::lt(before[0].0, old.seek()->0));
    }
}

/// The walk has `k` before it, if the tree holds `k`.
pub open spec fn covers<V>(walk: Iter<V>, k: Seq<u8>) -> bool {
    ||| exists|i: int| 0 <= i < walk.pending().len() && (#[trigger] walk.pending()[i]).0 == k
    ||| walk.seek() is Some && bytes::le(walk.seek()->0, k)
}

/// A walk misses no key that stays in the tree: a step that has the key before
/// it hands it out or still has it before it.
pub proof fn lemma_walk_keeps<V: Clone>(
    old: Iter<V>,
    e: Entries<V>,
    entry: Option<(Seq<u8>, V)>,
    new: Iter<V>,
    k: Seq<u8>,
)
    requires
        entries::sorted(e),
        stepped(old, e, entry, new),
        covers(old, k),
        entries::get(e, k) is Some,
    ensures
        entry is Some,
        (entry->0).0 == k || covers(new, k),
{
    broadcast use crate::bytes::group_order;

    let before = ahead(old.seek(), e);
    let p = new.pending();
    if old.pending().len() > 0 {
        if !(old.seek() is Some && bytes::le(old.seek()->0, k)) {
            let i = choose|i: int|
                0 <= i < old.pending().len() && (#[trigger] old.pending()[i]).0 == k;
            if i > 0 {
                assert(p[i - 1] == old.pending()[i]);
            }
        }
    } else {
        let f = old.seek()->0;
        entries::lemma_run(e, f);
        assert(entries::get(before, k) is Some);
        let i = entries::lemma_get_index(before, k);
        let n = 1 + p.len() as int;
        let taken = seq![entry->0] + p;
        if i < n {
            assert(before.subrange(0, n)[i] == before[i]);
            assert(taken[i].0 == k);
            if i > 0 {
                assert(taken[i] == p[i - 1]);
            }
        } else {
            assert(bytes::lt(before[n - 1].0, before[i].0));
            bytes::lemma_after(before[n - 1].0, k);
        }
    }
}

} // verus!
