//! Persistent B+tree keyed by byte strings.
//!
//! A write path-copies: every node from the root down to the change is rebuilt,
//! everything else stays shared through `Arc`. A node this transaction already
//! rebuilt is mutated in place instead, which is what the `txn` stamp is for.
//!
//! Values live in the leaves; a branch holds separators and children. The keys
//! of one node sit end to end in a single buffer with their offsets beside it,
//! so rebuilding the node copies two allocations rather than one per key. A
//! leaf keeps the common prefix of its keys once and the remainders in that
//! buffer, so a descent matches the prefix and then binary-searches remainders
//! that no longer repeat it.
//!
//! The depth is `log` of the entry count, so every walk down and back up is a
//! recursion the keys' owner cannot make deep.
//!
//! The tree says nothing about notification: a node stands for a key range that
//! the range's owner never named, so what a reader watches is the database's
//! to decide.
//!
//! Rebuilding a leaf clones its values, so what a transaction leaves of the
//! entries it did not write are values that descend from the ones it found.

use std::sync::Arc;

use vstd::prelude::*;

use crate::bytes;
use crate::bytes::{owned, starts_with};
use crate::copies;
use crate::entries;
use crate::entries::Entries;
use crate::keys::Keys;
use crate::leaf::Leaf;
use crate::shape;
use crate::shape::{Bound, Shape, MIN, ORDER};

verus! {

/// Identifies the transaction that built a node. `0` is "no transaction".
pub type TxnId = u64;

/// `separators[i]` is at or before the first key of `children[i + 1]` and after
/// every key of `children[i]`.
struct Branch<V> {
    separators: Keys,
    children: Vec<Arc<Node<V>>>,
    txn: TxnId,
}

enum Node<V> {
    Leaf(Leaf<V>, TxnId),
    Branch(Branch<V>),
}

/// A node that came out of a split: its first key, and the node.
type Split<V> = Option<(Vec<u8>, Arc<Node<V>>)>;

/// `Arc::make_mut`: the value behind `shared`, to be written in place. If other
/// pointers share it, `shared` is first pointed at a clone of its own; if none
/// does, it is the value itself. What is written is what `shared` then holds.
#[verifier::external_body]
fn make_mut<'a, T: Clone>(shared: &'a mut Arc<T>) -> (value: &'a mut T)
    ensures
        cloned(**old(shared), *value),
        **final(shared) == *final(value),
{
    Arc::make_mut(shared)
}

/// The shapes of a run of nodes.
spec fn shapes<V>(nodes: Seq<Arc<Node<V>>>) -> Seq<Shape<V>>
    decreases nodes,
{
    if nodes.len() == 0 {
        Seq::empty()
    } else {
        shapes(nodes.drop_last()).push(nodes.last().shape())
    }
}

/// Every node of a run is sound.
spec fn oks<V>(nodes: Seq<Arc<Node<V>>>) -> bool
    decreases nodes,
{
    forall|i: int| 0 <= i < nodes.len() ==> (#[trigger] nodes[i]).ok()
}

proof fn lemma_shapes<V>(nodes: Seq<Arc<Node<V>>>)
    ensures
        shapes(nodes).len() == nodes.len(),
        forall|i: int| 0 <= i < nodes.len() ==> #[trigger] shapes(nodes)[i] == nodes[i].shape(),
    decreases nodes.len(),
{
    if nodes.len() > 0 {
        lemma_shapes(nodes.drop_last());
        assert forall|i: int| 0 <= i < nodes.len() implies #[trigger] shapes(nodes)[i]
            == nodes[i].shape() by {
            if i < nodes.len() - 1 {
                assert(shapes(nodes.drop_last())[i] == nodes.drop_last()[i].shape());
            }
        }
    }
}

impl<V> Branch<V> {
    spec fn seps(&self) -> Seq<Seq<u8>> {
        self.separators@
    }

    spec fn kids(&self) -> Seq<Shape<V>> {
        shapes(self.children@)
    }

    spec fn ok(&self) -> bool
        decreases self,
    {
        self.separators.wf() && oks(self.children@)
    }
}

impl<V> Node<V> {
    pub closed spec fn shape(&self) -> Shape<V>
        decreases self,
    {
        match self {
            Node::Leaf(leaf, _) => Shape::Leaf(leaf.entries()),
            Node::Branch(branch) => Shape::Branch {
                seps: branch.separators@,
                kids: shapes(branch.children@),
            },
        }
    }

    /// The arrays of every node describe what it holds.
    pub closed spec fn ok(&self) -> bool
        decreases self,
    {
        match self {
            Node::Leaf(leaf, _) => leaf.wf(),
            Node::Branch(branch) => branch.ok(),
        }
    }

    fn txn(&self) -> (txn: TxnId)
        ensures
            txn == self.stamp(),
    {
        match self {
            Node::Leaf(_, txn) => *txn,
            Node::Branch(branch) => branch.txn,
        }
    }

    spec fn stamp(&self) -> TxnId {
        match self {
            Node::Leaf(_, txn) => *txn,
            Node::Branch(branch) => branch.txn,
        }
    }

    /// Entries for a leaf, children for a branch.
    fn len(&self) -> (n: usize)
        ensures
            n == self.shape().len(),
    {
        match self {
            Node::Leaf(leaf, _) => leaf.len(),
            Node::Branch(branch) => {
                proof {
                    lemma_shapes(branch.children@);
                }
                branch.children.len()
            },
        }
    }
}

impl<V> Branch<V> {
    /// The child `key` belongs to.
    fn child_of(&self, key: &[u8], Ghost(lo): Ghost<Bound>, Ghost(hi): Ghost<Bound>) -> (at: usize)
        requires
            self.ok(),
            shape::fenced(self.seps(), self.kids(), lo, hi, -1),
            shape::within(key@, lo, hi),
        ensures
            at < self.children@.len(),
            self.children@[at as int].ok(),
            self.kids()[at as int] == self.children@[at as int].shape(),
            shape::within(key@, shape::lower(self.seps(), lo, at as int), shape::upper(self.seps(), hi, at as int)),
            ({
                let a = shape::all(self.kids().subrange(0, at as int));
                let c = self.kids()[at as int].entries();
                let b = shape::all(self.kids().subrange(at + 1, self.kids().len() as int));
                &&& entries::sorted(c)
                &&& forall|i: int| 0 <= i < a.len() ==> bytes::lt((#[trigger] a[i]).0, key@)
                &&& forall|i: int| 0 <= i < b.len() ==> bytes::lt(key@, (#[trigger] b[i]).0)
                &&& shape::all(self.kids()) == a + c + b
            }),
    {
        let at = self.separators.upper_bound(key);
        proof {
            lemma_shapes(self.children@);
            shape::lemma_route(self.seps(), self.kids(), lo, hi, -1, key@, at as int);
        }
        at
    }
}

proof fn lemma_shapes_subrange<V>(nodes: Seq<Arc<Node<V>>>, a: int, b: int)
    requires
        0 <= a <= b <= nodes.len(),
    ensures
        shapes(nodes.subrange(a, b)) == shapes(nodes).subrange(a, b),
{
    lemma_shapes(nodes);
    lemma_shapes(nodes.subrange(a, b));
    assert(shapes(nodes.subrange(a, b)) =~= shapes(nodes).subrange(a, b));
}

proof fn lemma_shapes_update<V>(nodes: Seq<Arc<Node<V>>>, at: int, node: Arc<Node<V>>)
    requires
        0 <= at < nodes.len(),
    ensures
        shapes(nodes.update(at, node)) == shapes(nodes).update(at, node.shape()),
{
    lemma_shapes(nodes);
    lemma_shapes(nodes.update(at, node));
    assert(shapes(nodes.update(at, node)) =~= shapes(nodes).update(at, node.shape()));
}

proof fn lemma_shapes_insert<V>(nodes: Seq<Arc<Node<V>>>, at: int, node: Arc<Node<V>>)
    requires
        0 <= at <= nodes.len(),
    ensures
        shapes(nodes.insert(at, node)) == shapes(nodes).insert(at, node.shape()),
{
    lemma_shapes(nodes);
    lemma_shapes(nodes.insert(at, node));
    assert(shapes(nodes.insert(at, node)) =~= shapes(nodes).insert(at, node.shape()));
}

proof fn lemma_shapes_remove<V>(nodes: Seq<Arc<Node<V>>>, at: int)
    requires
        0 <= at < nodes.len(),
    ensures
        shapes(nodes.remove(at)) == shapes(nodes).remove(at),
{
    lemma_shapes(nodes);
    lemma_shapes(nodes.remove(at));
    assert(shapes(nodes.remove(at)) =~= shapes(nodes).remove(at));
}

proof fn lemma_oks_insert<V>(nodes: Seq<Arc<Node<V>>>, at: int, node: Arc<Node<V>>)
    requires
        0 <= at <= nodes.len(),
        oks(nodes),
        node.ok(),
    ensures
        oks(nodes.insert(at, node)),
{
    let more = nodes.insert(at, node);
    assert forall|i: int| 0 <= i < more.len() implies (#[trigger] more[i]).ok() by {
        if i < at {
            assert(more[i] == nodes[i]);
        } else if i > at {
            assert(more[i] == nodes[i - 1]);
        }
    }
}

proof fn lemma_oks_remove<V>(nodes: Seq<Arc<Node<V>>>, at: int)
    requires
        0 <= at < nodes.len(),
        oks(nodes),
    ensures
        oks(nodes.remove(at)),
{
    let fewer = nodes.remove(at);
    assert forall|i: int| 0 <= i < fewer.len() implies (#[trigger] fewer[i]).ok() by {
        assert(fewer[i] == nodes[if i < at { i } else { i + 1 }]);
    }
}

proof fn lemma_shapes_concat<V>(a: Seq<Arc<Node<V>>>, b: Seq<Arc<Node<V>>>)
    ensures
        shapes(a + b) == shapes(a) + shapes(b),
{
    lemma_shapes(a);
    lemma_shapes(b);
    lemma_shapes(a + b);
    assert(shapes(a + b) =~= shapes(a) + shapes(b));
}

/// The same node, built by `txn`: a leaf's values are cloned, a branch's
/// children are shared.
fn copy<V: Clone>(node: &Node<V>, txn: TxnId) -> (next: Node<V>)
    ensures
        next.ok() == node.ok(),
        copies::alike(node.shape(), next.shape()),
        next.stamp() == txn,
{
    match node {
        Node::Leaf(leaf, _) => {
            let next = leaf.clone();
            proof {
                copies::lemma_near_copied(leaf.entries(), next.entries());
            }
            Node::Leaf(next, txn)
        },
        Node::Branch(branch) => {
            let separators = branch.separators.clone();
            let children = share(&branch.children);
            Node::Branch(Branch { separators, children, txn })
        },
    }
}

/// Another pointer to each of the nodes.
fn share<V>(nodes: &Vec<Arc<Node<V>>>) -> (shared: Vec<Arc<Node<V>>>)
    ensures
        shared@ == nodes@,
{
    let mut shared: Vec<Arc<Node<V>>> = Vec::new();
    let n = nodes.len();
    for at in 0..n
        invariant
            n == nodes@.len(),
            shared@ == nodes@.subrange(0, at as int),
    {
        shared.push(nodes[at].clone());
        assert(shared@ =~= nodes@.subrange(0, at + 1));
    }
    assert(nodes@.subrange(0, n as int) =~= nodes@);
    shared
}

impl<V: Clone> Clone for Node<V> {
    fn clone(&self) -> (node: Self)
        ensures
            node.ok() == self.ok(),
            copies::alike(self.shape(), node.shape()),
    {
        copy(self, self.txn())
    }
}

/// The node this transaction may mutate: `*node` itself when this transaction
/// built it, a path copy of it otherwise. A node this transaction built has
/// never been published, so nobody can be reading it.
fn own<'a, V: Clone>(node: &'a mut Arc<Node<V>>, txn: TxnId) -> (mine: &'a mut Node<V>)
    requires
        old(node).ok(),
    ensures
        mine.ok(),
        copies::alike(old(node).shape(), mine.shape()),
        **final(node) == *final(mine),
{
    let ghost was = node.shape();
    if node.txn() != txn {
        *node = Arc::new(copy(&**node, txn));
    }
    let ghost mid = node.shape();
    let mine = make_mut(node);
    proof {
        copies::lemma_alike(was, was);
        copies::lemma_alike_chain(was, mid, mine.shape());
    }
    mine
}

impl<V> Branch<V> {
    /// Takes the upper half of a branch that is over full, with the separator
    /// the parent files it under.
    fn split(&mut self, txn: TxnId, Ghost(lo): Ghost<Bound>, Ghost(hi): Ghost<Bound>) -> (split: Split<V>)
        requires
            old(self).ok(),
            shape::fenced(old(self).seps(), old(self).kids(), lo, hi, -1),
            old(self).kids().len() <= ORDER + 1,
        ensures
            final(self).ok(),
            split is None <==> old(self).kids().len() <= ORDER,
            match split {
                None => *final(self) == *old(self),
                Some((first, right)) => {
                    &&& right.ok()
                    &&& shape::halves(
                        shape::all(old(self).kids()),
                        Node::Branch(*final(self)).shape(),
                        first@,
                        right.shape(),
                        lo,
                        hi,
                    )
                    &&& shape::even(Node::Branch(*final(self)).shape(), right.shape())
                    &&& final(self).kids()[0].height() == old(self).kids()[0].height()
                },
            },
    {
        let ghost was = *self;
        proof {
            lemma_shapes(self.children@);
        }
        if self.children.len() <= ORDER {
            return None;
        }
        let at = self.children.len() / 2;
        let children = self.children.split_off(at);
        let mut separators = self.separators.split_off(at - 1);
        // The separator between the halves is at or before the first key of the
        // right one, which is what the parent files it under.
        let first = separators.owned(0);
        separators.remove(0);
        let right = Arc::new(Node::Branch(Branch { separators, children, txn }));
        proof {
            let ghost n = was.children@.len() as int;
            shape::lemma_split(was.seps(), was.kids(), lo, hi, at as int);
            lemma_shapes_subrange(was.children@, 0, at as int);
            lemma_shapes_subrange(was.children@, at as int, n);
            assert(self.seps() =~= was.seps().subrange(0, at - 1));
            assert(separators@ =~= was.seps().subrange(at as int, was.seps().len() as int));
            assert(first@ == was.seps()[at - 1]);
            assert forall|i: int| 0 <= i < children@.len() implies (#[trigger] children@[i]).ok() by {
                assert(children@[i] == was.children@[at + i]);
            }
            assert(was.kids()[at as int].height() == was.kids()[0].height());
        }
        Some((first, right))
    }
}

impl<V> Branch<V> {
    /// Files what child `at` split off, after a write below that child, and
    /// splits in turn if that overfills this branch.
    fn settle(
        &mut self,
        at: usize,
        split: Split<V>,
        txn: TxnId,
        Ghost(was): Ghost<Self>,
        Ghost(lo): Ghost<Bound>,
        Ghost(hi): Ghost<Bound>,
        Ghost(whole): Ghost<Entries<V>>,
    ) -> (r: Split<V>)
        requires
            was.ok(),
            shape::fenced(was.seps(), was.kids(), lo, hi, -1),
            was.kids().len() <= ORDER,
            at < was.children@.len(),
            old(self).separators == was.separators,
            old(self).children@ == was.children@.update(at as int, old(self).children@[at as int]),
            old(self).children@[at as int].ok(),
            old(self).children@[at as int].shape().height() == was.kids()[at as int].height(),
            match split {
                None => {
                    &&& old(self).children@[at as int].shape().wf(
                        shape::lower(was.seps(), lo, at as int),
                        shape::upper(was.seps(), hi, at as int),
                        MIN as nat,
                        ORDER as nat,
                    )
                    &&& old(self).children@[at as int].shape().entries() == whole
                },
                Some((sep, right)) => {
                    &&& right.ok()
                    &&& shape::halves(
                        whole,
                        old(self).children@[at as int].shape(),
                        sep@,
                        right.shape(),
                        shape::lower(was.seps(), lo, at as int),
                        shape::upper(was.seps(), hi, at as int),
                    )
                },
            },
        ensures
            final(self).ok(),
            final(self).kids()[0].height() == was.kids()[0].height(),
            r is Some <==> split is Some && was.kids().len() == ORDER,
            ({
                let e = shape::all(was.kids().subrange(0, at as int)) + whole + shape::all(
                    was.kids().subrange(at + 1, was.kids().len() as int),
                );
                match r {
                    None => {
                        &&& final(self).kids().len() == was.kids().len() + (if split is Some {
                            1int
                        } else {
                            0
                        })
                        &&& final(self).kids().len() <= ORDER
                        &&& shape::fenced(final(self).seps(), final(self).kids(), lo, hi, -1)
                        &&& shape::all(final(self).kids()) == e
                    },
                    Some((sep, right)) => {
                        &&& right.ok()
                        &&& shape::halves(
                            e,
                            Node::Branch(*final(self)).shape(),
                            sep@,
                            right.shape(),
                            lo,
                            hi,
                        )
                        &&& shape::even(Node::Branch(*final(self)).shape(), right.shape())
                    },
                }
            }),
    {
        let ghost child = self.children@[at as int];
        proof {
            lemma_shapes(was.children@);
            lemma_shapes_update(was.children@, at as int, child);
        }
        match split {
            None => {
                proof {
                    let kids = self.kids();
                    shape::lemma_replace(
                        was.seps(),
                        was.kids(),
                        lo,
                        hi,
                        at as int,
                        child.shape(),
                        -1,
                    );
                    shape::lemma_all_around(kids, at as int);
                    assert(kids.subrange(0, at as int) =~= was.kids().subrange(0, at as int));
                    assert(kids.subrange(at + 1, kids.len() as int) =~= was.kids().subrange(
                        at + 1,
                        was.kids().len() as int,
                    ));
                    assert(was.kids()[at as int].height() == was.kids()[0].height());
                }
                None
            },
            Some((separator, right)) => {
                let ghost mid = self.children@;
                self.separators.insert(at, separator.as_slice());
                self.children.insert(at + 1, right);
                proof {
                    lemma_shapes_insert(mid, at + 1, right);
                    let kids = self.kids();
                    shape::lemma_insert_kid(
                        was.seps(),
                        was.kids(),
                        lo,
                        hi,
                        at as int,
                        child.shape(),
                        separator@,
                        right.shape(),
                    );
                    shape::lemma_all_around_two(kids, at as int);
                    assert(kids.subrange(0, at as int) =~= was.kids().subrange(0, at as int));
                    assert(kids.subrange(at + 2, kids.len() as int) =~= was.kids().subrange(
                        at + 1,
                        was.kids().len() as int,
                    ));
                    assert(was.kids()[at as int].height() == was.kids()[0].height());
                    assert forall|i: int| 0 <= i < self.children@.len() implies (
                    #[trigger] self.children@[i]).ok() by {
                        if i <= at {
                            assert(self.children@[i] == mid[i]);
                        } else if i > at + 1 {
                            assert(self.children@[i] == mid[i - 1]);
                        }
                    }
                }
                self.split(txn, Ghost(lo), Ghost(hi))
            },
        }
    }
}

/// Writes `value` at `key` below `*node`, replacing `*node` with the node that
/// takes its place. Returns what was there and what the node split off, if
/// anything, and the entries it leaves.
fn insert<V: Clone>(
    node: &mut Arc<Node<V>>,
    key: &[u8],
    value: V,
    txn: TxnId,
    Ghost(lo): Ghost<Bound>,
    Ghost(hi): Ghost<Bound>,
    Ghost(min): Ghost<nat>,
) -> (r: (Option<V>, Split<V>, Ghost<Entries<V>>))
    requires
        old(node).ok(),
        old(node).shape().wf(lo, hi, min, ORDER as nat),
        shape::within(key@, lo, hi),
    ensures
        final(node).ok(),
        final(node).shape().height() == old(node).shape().height(),
        copies::near_value(entries::get(old(node).shape().entries(), key@), r.0),
        copies::near(entries::put(old(node).shape().entries(), key@, value), r.2@),
        entries::get(r.2@, key@) == Some(value),
        old(node).shape() is Leaf ==> (r.1 is None <==> r.2@.len() <= ORDER),
        match r.1 {
            None => {
                &&& old(node).shape().len() <= final(node).shape().len() <= old(node).shape().len()
                    + 1
                &&& final(node).shape().wf(lo, hi, min, ORDER as nat)
                &&& final(node).shape() is Leaf <==> old(node).shape() is Leaf
                &&& final(node).shape().entries() == r.2@
            },
            Some((sep, right)) => {
                &&& right.ok()
                &&& shape::halves(r.2@, final(node).shape(), sep@, right.shape(), lo, hi)
                &&& old(node).shape().len() == ORDER
                &&& shape::even(final(node).shape(), right.shape())
            },
        },
    decreases old(node).shape().height(),
{
    let ghost s = node.shape();
    let ghost e = s.entries();
    proof {
        shape::lemma_entries(s, lo, hi, min, ORDER as nat);
    }
    let mine = own(node, txn);
    let ghost held = mine.shape().entries();
    proof {
        copies::lemma_alike(s, mine.shape());
        copies::lemma_near_slots(e, held);
        copies::lemma_near_put(e, held, key@, value);
        entries::lemma_put(held, key@, value);
    }
    match mine {
        Node::Leaf(leaf, _) => {
            let (old, split) = leaf.insert(key, value, Ghost(lo), Ghost(hi));
            let split = match split {
                None => None,
                Some((first, right)) => Some((first, Arc::new(Node::Leaf(right, txn)))),
            };
            (old, split, Ghost(entries::put(held, key@, value)))
        },
        Node::Branch(branch) => {
            let ghost was = *branch;
            let at = branch.child_of(key, Ghost(lo), Ghost(hi));
            let ghost a = shape::all(was.kids().subrange(0, at as int));
            let ghost c = was.kids()[at as int].entries();
            let ghost b = shape::all(was.kids().subrange(at + 1, was.kids().len() as int));
            proof {
                lemma_shapes(was.children@);
                entries::lemma_middle(a, c, b, key@);
                entries::lemma_put(c, key@, value);
                assert(was.kids()[at as int].height() == was.kids()[0].height());
            }
            let (old, split, whole) = insert(
                &mut branch.children[at],
                key,
                value,
                txn,
                Ghost(shape::lower(was.seps(), lo, at as int)),
                Ghost(shape::upper(was.seps(), hi, at as int)),
                Ghost(MIN as nat),
            );
            let split = branch.settle(
                at,
                split,
                txn,
                Ghost(was),
                Ghost(lo),
                Ghost(hi),
                Ghost(whole@),
            );
            proof {
                let put = entries::put(c, key@, value);
                copies::lemma_near_slots(put, whole@);
                copies::lemma_near_middle(a, put, whole@, b);
                entries::lemma_middle(a, whole@, b, key@);
            }
            (old, split, Ghost(a + whole@ + b))
        },
    }
}

/// Folds `b`, which sorts after `a` from `separator` on, into `a`. A leaf's
/// values are cloned, a branch's children shared: `b` may be shared itself.
/// Returns what became of `b`.
fn fuse<V: Clone>(
    a: &mut Node<V>,
    separator: &[u8],
    b: &Node<V>,
    Ghost(lo): Ghost<Bound>,
    Ghost(hi): Ghost<Bound>,
    Ghost(min): Ghost<(nat, nat)>,
) -> (moved: Ghost<Shape<V>>)
    requires
        old(a).ok(),
        b.ok(),
        old(a).shape().wf(lo, Some(separator@), min.0, ORDER as nat),
        b.shape().wf(Some(separator@), hi, min.1, ORDER as nat),
        shape::between(separator@, lo, hi),
        old(a).shape().height() == b.shape().height(),
        min.0 >= 1,
        min.1 >= 1,
        MIN <= old(a).shape().len() + b.shape().len() <= ORDER,
    ensures
        final(a).ok(),
        copies::alike(b.shape(), moved@),
        final(a).shape().wf(lo, hi, MIN as nat, ORDER as nat),
        final(a).shape().height() == b.shape().height(),
        final(a).shape().len() == old(a).shape().len() + b.shape().len(),
        final(a).shape().entries() == old(a).shape().entries() + moved@.entries(),
{
    match a {
        Node::Leaf(x, _) => match b {
            Node::Leaf(y, _) => {
                let ghost p = x.entries();
                x.absorb_copy(y);
                let ghost q = x.entries().subrange(p.len() as int, x.entries().len() as int);
                proof {
                    copies::lemma_near_copied(y.entries(), q);
                    copies::lemma_alike(Shape::Leaf(y.entries()), Shape::Leaf(q));
                    assert(Shape::Leaf(q).wf(Some(separator@), hi, min.1, ORDER as nat));
                    shape::lemma_join_leaves(p, q, lo, separator@, hi);
                    assert(x.entries() =~= x.entries().subrange(0, p.len() as int) + q);
                }
                Ghost(Shape::Leaf(q))
            },
            Node::Branch(y) => {
                proof {
                    lemma_shapes(y.children@);
                    assert(false);
                }
                Ghost(b.shape())
            },
        },
        Node::Branch(x) => match b {
            Node::Leaf(y, _) => {
                proof {
                    lemma_shapes(x.children@);
                    assert(false);
                }
                Ghost(b.shape())
            },
            Node::Branch(y) => {
                let ghost was = *x;
                proof {
                    lemma_shapes(was.children@);
                    lemma_shapes(y.children@);
                    lemma_shapes_concat(was.children@, y.children@);
                    shape::lemma_join(
                        was.seps(),
                        was.kids(),
                        separator@,
                        y.seps(),
                        y.kids(),
                        lo,
                        hi,
                    );
                    assert(separator@ + Seq::<u8>::empty() =~= separator@);
                }
                x.separators.push(separator, &[]);
                x.separators.append(&y.separators);
                let mut children = share(&y.children);
                x.children.append(&mut children);
                proof {
                    assert(x.children@ =~= was.children@ + y.children@);
                    assert forall|i: int| 0 <= i < x.children@.len() implies (
                    #[trigger] x.children@[i]).ok() by {
                        if i < was.children@.len() {
                            assert(x.children@[i] == was.children@[i]);
                        } else {
                            assert(x.children@[i] == y.children@[i - was.children@.len()]);
                        }
                    }
                }
                Ghost(b.shape())
            },
        },
    }
}

/// Moves one entry or child between `a` and `b`, which sorts after `a` from
/// `separator` on, towards `a` when `to_left`. Returns what separates them
/// now.
fn trade<V>(
    a: &mut Node<V>,
    separator: &[u8],
    b: &mut Node<V>,
    to_left: bool,
    Ghost(lo): Ghost<Bound>,
    Ghost(hi): Ghost<Bound>,
    Ghost(min): Ghost<(nat, nat)>,
) -> (raised: Vec<u8>)
    requires
        old(a).ok(),
        old(b).ok(),
        old(a).shape().wf(lo, Some(separator@), min.0, ORDER as nat),
        old(b).shape().wf(Some(separator@), hi, min.1, ORDER as nat),
        shape::between(separator@, lo, hi),
        old(a).shape().height() == old(b).shape().height(),
        to_left ==> MIN - 1 <= old(a).shape().len() < ORDER && old(b).shape().len() > MIN,
        !to_left ==> MIN - 1 <= old(b).shape().len() < ORDER && old(a).shape().len() > MIN,
    ensures
        final(a).ok(),
        final(b).ok(),
        shape::halves(
            old(a).shape().entries() + old(b).shape().entries(),
            final(a).shape(),
            raised@,
            final(b).shape(),
            lo,
            hi,
        ),
        final(a).shape().height() == old(a).shape().height(),
        final(a).shape().len() == shape::moved(old(a).shape().len(), to_left),
        final(b).shape().len() == shape::moved(old(b).shape().len(), !to_left),
        final(b).shape() is Leaf ==> raised@ == final(b).shape().entries()[0].0,
{
    match a {
        Node::Leaf(x, _) => match b {
            Node::Leaf(y, _) => {
                let ghost (p, q) = (x.entries(), y.entries());
                let ghost e = p + q;
                proof {
                    shape::lemma_join_leaves(p, q, lo, separator@, hi);
                    let at: int = if to_left { p.len() as int + 1 } else { p.len() as int - 1 };
                    shape::lemma_split_leaf(e, lo, hi, at);
                }
                if to_left {
                    x.take_first(y);
                    assert(x.entries() =~= e.subrange(0, p.len() as int + 1));
                    assert(y.entries() =~= e.subrange(p.len() as int + 1, e.len() as int));
                } else {
                    y.take_last(x);
                    assert(x.entries() =~= e.subrange(0, p.len() - 1));
                    assert(y.entries() =~= e.subrange(p.len() - 1, e.len() as int));
                }
                y.full_key(0)
            },
            Node::Branch(y) => {
                proof {
                    lemma_shapes(y.children@);
                    assert(false);
                }
                Vec::new()
            },
        },
        Node::Branch(x) => match b {
            Node::Leaf(y, _) => {
                proof {
                    lemma_shapes(x.children@);
                    assert(false);
                }
                Vec::new()
            },
            Node::Branch(y) => trade_children(x, separator, y, to_left, Ghost(lo), Ghost(hi)),
        },
    }
}

impl<V> Branch<V> {
    /// Moves the first child of `other`, which sorts after this branch from
    /// `separator` on, onto the end of this one. Returns the separator behind
    /// that child.
    fn take_first(&mut self, separator: &[u8], other: &mut Self) -> (raised: Vec<u8>)
        requires
            old(self).ok(),
            old(other).ok(),
            old(other).kids().len() == old(other).seps().len() + 1,
            old(other).seps().len() > 0,
        ensures
            final(self).ok(),
            final(other).ok(),
            raised@ == old(other).seps()[0],
            final(self).seps() == old(self).seps().push(separator@),
            final(self).kids() == old(self).kids().push(old(other).kids()[0]),
            final(other).seps() == old(other).seps().remove(0),
            final(other).kids() == old(other).kids().remove(0),
    {
        let ghost (x, y) = (*self, *other);
        proof {
            lemma_shapes(x.children@);
            lemma_shapes(y.children@);
            lemma_shapes_insert(x.children@, x.children@.len() as int, y.children@[0]);
            lemma_shapes_remove(y.children@, 0);
            assert(separator@ + Seq::<u8>::empty() =~= separator@);
        }
        self.separators.push(separator, &[]);
        self.children.push(other.children.remove(0));
        let raised = other.separators.owned(0);
        other.separators.remove(0);
        proof {
            assert(self.children@ =~= x.children@.insert(
                x.children@.len() as int,
                y.children@[0],
            ));
            assert(self.kids() =~= x.kids().push(y.kids()[0]));
            lemma_oks_insert(x.children@, x.children@.len() as int, y.children@[0]);
            lemma_oks_remove(y.children@, 0);
        }
        raised
    }

    /// Moves the last child of `other`, which this branch sorts after from
    /// `separator` on, to the front of this one. Returns the separator before
    /// that child.
    fn take_last(&mut self, separator: &[u8], other: &mut Self) -> (raised: Vec<u8>)
        requires
            old(self).ok(),
            old(other).ok(),
            old(other).kids().len() == old(other).seps().len() + 1,
            old(other).seps().len() > 0,
        ensures
            final(self).ok(),
            final(other).ok(),
            raised@ == old(other).seps().last(),
            final(self).seps() == old(self).seps().insert(0, separator@),
            final(self).kids() == old(self).kids().insert(0, old(other).kids().last()),
            final(other).seps() == old(other).seps().drop_last(),
            final(other).kids() == old(other).kids().drop_last(),
    {
        let ghost (x, y) = (*self, *other);
        proof {
            lemma_shapes(x.children@);
            lemma_shapes(y.children@);
            lemma_shapes_insert(x.children@, 0, y.children@.last());
            lemma_shapes_remove(y.children@, y.children@.len() - 1);
        }
        let last = other.children.len() - 1;
        self.children.insert(0, other.children.remove(last));
        self.separators.insert(0, separator);
        let end = other.separators.len() - 1;
        let raised = other.separators.owned(end);
        other.separators.remove(end);
        proof {
            assert(other.kids() =~= y.kids().drop_last());
            assert(other.seps() =~= y.seps().drop_last());
            lemma_oks_insert(x.children@, 0, y.children@.last());
            lemma_oks_remove(y.children@, y.children@.len() - 1);
        }
        raised
    }
}

/// The same between two branches: one child moves, and the separators turn
/// around it.
fn trade_children<V>(
    x: &mut Branch<V>,
    separator: &[u8],
    y: &mut Branch<V>,
    to_left: bool,
    Ghost(lo): Ghost<Bound>,
    Ghost(hi): Ghost<Bound>,
) -> (raised: Vec<u8>)
    requires
        old(x).ok(),
        old(y).ok(),
        shape::fenced(old(x).seps(), old(x).kids(), lo, Some(separator@), -1),
        shape::fenced(old(y).seps(), old(y).kids(), Some(separator@), hi, -1),
        shape::between(separator@, lo, hi),
        old(x).kids()[0].height() == old(y).kids()[0].height(),
        to_left ==> MIN - 1 <= old(x).kids().len() < ORDER && MIN < old(y).kids().len() <= ORDER,
        !to_left ==> MIN - 1 <= old(y).kids().len() < ORDER && MIN < old(x).kids().len() <= ORDER,
    ensures
        final(x).ok(),
        final(y).ok(),
        shape::halves(
            shape::all(old(x).kids()) + shape::all(old(y).kids()),
            Node::Branch(*final(x)).shape(),
            raised@,
            Node::Branch(*final(y)).shape(),
            lo,
            hi,
        ),
        final(x).kids()[0].height() == old(x).kids()[0].height(),
        final(x).kids().len() == shape::moved(old(x).kids().len(), to_left),
        final(y).kids().len() == shape::moved(old(y).kids().len(), !to_left),
{
    let ghost (p, q) = (*x, *y);
    let ghost at: int = if to_left { p.kids().len() as int + 1 } else { p.kids().len() as int - 1 };
    let ghost seps = p.seps().push(separator@) + q.seps();
    let ghost kids = p.kids() + q.kids();
    let raised = if to_left {
        x.take_first(separator, y)
    } else {
        y.take_last(separator, x)
    };
    proof {
        shape::lemma_trade(
            p.seps(),
            p.kids(),
            separator@,
            q.seps(),
            q.kids(),
            lo,
            hi,
            at,
        );
        assert(x.seps() =~= seps.subrange(0, at - 1));
        assert(x.kids() =~= kids.subrange(0, at));
        assert(y.seps() =~= seps.subrange(at, seps.len() as int));
        assert(y.kids() =~= kids.subrange(at, kids.len() as int));
    }
    raised
}

impl<V> Branch<V> {
    /// Replaces the separator at `at`, which the two children beside it moved.
    fn refile(&mut self, at: usize, key: &[u8])
        requires
            old(self).separators.wf(),
            at < old(self).seps().len(),
        ensures
            final(self).separators.wf(),
            final(self).seps() == old(self).seps().update(at as int, key@),
            final(self).children == old(self).children,
    {
        let ghost s = self.seps();
        self.separators.remove(at);
        self.separators.insert(at, key);
        assert(self.seps() =~= s.update(at as int, key@));
    }
}

impl<V: Clone> Branch<V> {
    /// Restores the entry count of child `at` after a delete took it below
    /// `MIN`, by merging it with a neighbour or moving one entry across.
    fn rebalance(
        &mut self,
        at: usize,
        txn: TxnId,
        Ghost(lo): Ghost<Bound>,
        Ghost(hi): Ghost<Bound>,
    )
        requires
            old(self).ok(),
            shape::fenced(old(self).seps(), old(self).kids(), lo, hi, at as int),
            at < old(self).kids().len(),
            2 <= old(self).kids().len(),
        ensures
            final(self).ok(),
            shape::fenced(final(self).seps(), final(self).kids(), lo, hi, -1),
            copies::near(shape::all(old(self).kids()), shape::all(final(self).kids())),
            final(self).kids().len() == old(self).kids().len() - (if shape::folds(
                old(self).kids(),
                at as int,
            ) {
                1int
            } else {
                0
            }),
            old(self).kids()[at as int].len() >= MIN ==> *final(self) == *old(self),
            final(self).kids()[0].height() == old(self).kids()[0].height(),
    {
        proof {
            lemma_shapes(self.children@);
        }
        assert(self.children@[at as int].shape() == self.kids()[at as int]);
        if self.children[at].len() >= MIN {
            proof {
                shape::lemma_full_enough(self.seps(), self.kids(), lo, hi, at as int);
                copies::lemma_near_same(shape::all(self.kids()));
            }
            return;
        }
        let count = self.children.len();
        let left = if at < count - 1 {
            at
        } else {
            at - 1
        };
        assert(self.children@[left as int].shape() == self.kids()[left as int]);
        assert(self.children@[left + 1].shape() == self.kids()[left + 1]);
        if self.children[left].len() + self.children[left + 1].len() <= ORDER {
            self.merge(left, txn, Ghost(lo), Ghost(hi), Ghost(at as int));
        } else {
            self.shift(left, at == left, txn, Ghost(lo), Ghost(hi));
        }
    }

    /// Folds `left + 1` into `left`.
    fn merge(
        &mut self,
        left: usize,
        txn: TxnId,
        Ghost(lo): Ghost<Bound>,
        Ghost(hi): Ghost<Bound>,
        Ghost(low): Ghost<int>,
    )
        requires
            old(self).ok(),
            shape::fenced(old(self).seps(), old(self).kids(), lo, hi, low),
            left + 1 < old(self).kids().len(),
            low == left || low == left + 1,
            old(self).kids()[left as int].len() + old(self).kids()[left + 1].len() <= ORDER,
        ensures
            final(self).ok(),
            shape::fenced(final(self).seps(), final(self).kids(), lo, hi, -1),
            copies::near(shape::all(old(self).kids()), shape::all(final(self).kids())),
            final(self).kids().len() == old(self).kids().len() - 1,
            final(self).kids()[left as int].len() == old(self).kids()[left as int].len() + old(
                self,
            ).kids()[left + 1].len(),
            forall|i: int|
                0 <= i < left ==> #[trigger] final(self).kids()[i] == old(self).kids()[i],
            forall|i: int|
                left < i < final(self).kids().len() ==> #[trigger] final(self).kids()[i]
                    == old(self).kids()[i + 1],
            final(self).seps() == old(self).seps().remove(left as int),
            final(self).kids()[0].height() == old(self).kids()[0].height(),
    {
        let ghost was = *self;
        proof {
            lemma_shapes(was.children@);
            assert(was.kids()[left as int].height() == was.kids()[0].height());
            assert(was.kids()[left + 1].height() == was.kids()[0].height());
            assert(shape::between(was.seps()[left as int], lo, hi));
            if left > 0 {
                assert(bytes::lt(was.seps()[left - 1], was.seps()[left as int]));
            }
            if left + 1 < was.seps().len() {
                assert(bytes::lt(was.seps()[left as int], was.seps()[left + 1]));
            }
        }
        let count = self.children.len();
        assert(left + 1 < count);
        let separator = self.separators.owned(left);
        self.separators.remove(left);
        let right = self.children.remove(left + 1);
        assert(right.ok() && right.shape() == was.kids()[left + 1]);
        assert(self.children@[left as int] == was.children@[left as int]);
        let mine = own(&mut self.children[left], txn);
        let ghost own = mine.shape();
        proof {
            copies::lemma_alike(was.kids()[left as int], own);
        }
        let moved = fuse(
            mine,
            separator.as_slice(),
            &*right,
            Ghost(shape::lower(was.seps(), lo, left as int)),
            Ghost(shape::upper(was.seps(), hi, left + 1)),
            Ghost((shape::least(left as int, low), shape::least(left + 1, low))),
        );
        proof {
            let kid = self.children@[left as int];
            lemma_shapes_remove(was.children@, left + 1);
            lemma_shapes_update(was.children@.remove(left + 1), left as int, kid);
            assert(self.children@ =~= was.children@.remove(left + 1).update(left as int, kid));
            let k1 = was.kids().update(left as int, own);
            let k2 = k1.update(left + 1, moved@);
            copies::lemma_alike_kid(was.seps(), was.kids(), lo, hi, low, left as int, own);
            copies::lemma_alike_kid(was.seps(), k1, lo, hi, low, left + 1, moved@);
            copies::lemma_near_chain(shape::all(was.kids()), shape::all(k1), shape::all(k2));
            shape::lemma_merge_kids(was.seps(), k2, lo, hi, low, left as int, kid.shape());
            assert(k2.remove(left + 1).update(left as int, kid.shape()) =~= was.kids().remove(
                left + 1,
            ).update(left as int, kid.shape()));
            assert forall|i: int| 0 <= i < self.children@.len() implies (
            #[trigger] self.children@[i]).ok() by {
                if i < left {
                    assert(self.children@[i] == was.children@[i]);
                } else if i > left {
                    assert(self.children@[i] == was.children@[i + 1]);
                }
            }
        }
    }

    /// Moves one entry between `left` and `left + 1`, towards `left` when
    /// `to_left`, and files the right neighbour under its new first key.
    fn shift(
        &mut self,
        left: usize,
        to_left: bool,
        txn: TxnId,
        Ghost(lo): Ghost<Bound>,
        Ghost(hi): Ghost<Bound>,
    )
        requires
            old(self).ok(),
            shape::fenced(
                old(self).seps(),
                old(self).kids(),
                lo,
                hi,
                if to_left { left as int } else { left + 1 },
            ),
            left + 1 < old(self).kids().len(),
            old(self).kids()[left as int].len() + old(self).kids()[left + 1].len() > ORDER,
            to_left ==> old(self).kids()[left as int].len() == MIN - 1,
            !to_left ==> old(self).kids()[left + 1].len() == MIN - 1,
        ensures
            final(self).ok(),
            shape::fenced(final(self).seps(), final(self).kids(), lo, hi, -1),
            copies::near(shape::all(old(self).kids()), shape::all(final(self).kids())),
            final(self).kids().len() == old(self).kids().len(),
            final(self).kids()[left as int].len() == shape::moved(
                old(self).kids()[left as int].len(),
                to_left,
            ),
            final(self).kids()[left + 1].len() == shape::moved(
                old(self).kids()[left + 1].len(),
                !to_left,
            ),
            forall|i: int|
                0 <= i < old(self).kids().len() && i != left && i != left + 1
                    ==> #[trigger] final(self).kids()[i] == old(self).kids()[i],
            forall|i: int|
                0 <= i < old(self).seps().len() && i != left ==> #[trigger] final(self).seps()[i]
                    == old(self).seps()[i],
            final(self).kids()[left + 1] is Leaf ==> final(self).seps()[left as int]
                == final(self).kids()[left + 1].entries()[0].0,
            final(self).kids()[0].height() == old(self).kids()[0].height(),
    {
        let ghost was = *self;
        let ghost low: int = if to_left { left as int } else { left + 1 };
        proof {
            lemma_shapes(was.children@);
            assert(was.kids()[left as int].height() == was.kids()[0].height());
            assert(was.kids()[left + 1].height() == was.kids()[0].height());
            assert(shape::between(was.seps()[left as int], lo, hi));
            if left > 0 {
                assert(bytes::lt(was.seps()[left - 1], was.seps()[left as int]));
            }
            if left + 1 < was.seps().len() {
                assert(bytes::lt(was.seps()[left as int], was.seps()[left + 1]));
            }
        }
        let count = self.children.len();
        assert(left + 1 < count);
        let separator = self.separators.owned(left);
        let mut above = self.children.remove(left + 1);
        assert(above.ok() && above.shape() == was.kids()[left + 1]);
        assert(self.children@[left as int] == was.children@[left as int]);
        let a = own(&mut self.children[left], txn);
        let b = own(&mut above, txn);
        let ghost (k1, k2) = {
            let k1 = was.kids().update(left as int, a.shape());
            (k1, k1.update(left + 1, b.shape()))
        };
        proof {
            copies::lemma_alike(was.kids()[left as int], a.shape());
            copies::lemma_alike(was.kids()[left + 1], b.shape());
            copies::lemma_alike_kid(was.seps(), was.kids(), lo, hi, low, left as int, a.shape());
            copies::lemma_alike_kid(was.seps(), k1, lo, hi, low, left + 1, b.shape());
            copies::lemma_near_chain(shape::all(was.kids()), shape::all(k1), shape::all(k2));
        }
        let raised = trade(
            a,
            separator.as_slice(),
            b,
            to_left,
            Ghost(shape::lower(was.seps(), lo, left as int)),
            Ghost(shape::upper(was.seps(), hi, left + 1)),
            Ghost((shape::least(left as int, low), shape::least(left + 1, low))),
        );
        let ghost below = self.children@[left as int];
        let ghost moved = above;
        self.children.insert(left + 1, above);
        self.refile(left, raised.as_slice());
        proof {
            let mid = was.children@.update(left as int, below);
            lemma_shapes_update(was.children@, left as int, below);
            lemma_shapes_update(mid, left + 1, moved);
            assert(self.children@ =~= mid.update(left + 1, moved));
            shape::lemma_refile(
                was.seps(),
                k2,
                lo,
                hi,
                low,
                left as int,
                below.shape(),
                moved.shape(),
                raised@,
            );
            assert(k2.update(left as int, below.shape()).update(left + 1, moved.shape())
                =~= self.kids());
            assert forall|i: int| 0 <= i < self.children@.len() implies (
            #[trigger] self.children@[i]).ok() by {
                if i != left && i != left + 1 {
                    assert(self.children@[i] == was.children@[i]);
                }
            }
        }
    }
}

/// Removes `key`, which must be present, replacing `*node` with the node that
/// takes its place.
fn remove<V: Clone>(
    node: &mut Arc<Node<V>>,
    key: &[u8],
    txn: TxnId,
    Ghost(lo): Ghost<Bound>,
    Ghost(hi): Ghost<Bound>,
    Ghost(min): Ghost<nat>,
) -> (gone: V)
    requires
        old(node).ok(),
        old(node).shape().wf(lo, hi, min, ORDER as nat),
        old(node).shape() is Branch ==> min >= 2,
        shape::within(key@, lo, hi),
        entries::get(old(node).shape().entries(), key@) is Some,
    ensures
        final(node).ok(),
        final(node).shape().height() == old(node).shape().height(),
        final(node).shape() is Leaf <==> old(node).shape() is Leaf,
        final(node).shape().wf(lo, hi, one_less(min), ORDER as nat),
        copies::near_value(entries::get(old(node).shape().entries(), key@), Some(gone)),
        copies::near(
            entries::del(old(node).shape().entries(), key@),
            final(node).shape().entries(),
        ),
    decreases old(node).shape().height(),
{
    let ghost s = node.shape();
    proof {
        shape::lemma_entries(s, lo, hi, min, ORDER as nat);
    }
    let mine = own(node, txn);
    let ghost e = mine.shape().entries();
    proof {
        copies::lemma_alike(s, mine.shape());
        copies::lemma_near_slots(s.entries(), e);
        copies::lemma_near_del(s.entries(), e, key@);
        entries::lemma_del(e, key@);
    }
    match mine {
        Node::Leaf(leaf, _) => {
            let at = match leaf.locate(key) {
                Ok(at) => at,
                Err(at) => {
                    proof {
                        entries::lemma_missing(e, key@);
                        assert(false);
                    }
                    at
                },
            };
            proof {
                entries::lemma_slot(e, key@, at as int);
            }
            let gone = leaf.take(at);
            proof {
                let n = leaf.entries();
                assert forall|i: int| 0 <= i < n.len() implies shape::within(
                    (#[trigger] n[i]).0,
                    lo,
                    hi,
                ) by {
                    assert(n[i] == e[if i < at { i } else { i + 1 }]);
                }
            }
            gone
        },
        Node::Branch(branch) => {
            let ghost was = *branch;
            let at = branch.child_of(key, Ghost(lo), Ghost(hi));
            let ghost a = shape::all(was.kids().subrange(0, at as int));
            let ghost c = was.kids()[at as int].entries();
            let ghost b = shape::all(was.kids().subrange(at + 1, was.kids().len() as int));
            proof {
                lemma_shapes(was.children@);
                entries::lemma_middle(a, c, b, key@);
                assert(was.kids()[at as int].height() == was.kids()[0].height());
            }
            let gone = remove(
                &mut branch.children[at],
                key,
                txn,
                Ghost(shape::lower(was.seps(), lo, at as int)),
                Ghost(shape::upper(was.seps(), hi, at as int)),
                Ghost(MIN as nat),
            );
            let ghost mid = branch.kids();
            proof {
                let child = branch.children@[at as int];
                lemma_shapes_update(was.children@, at as int, child);
                assert(branch.children@ =~= was.children@.update(at as int, child));
                shape::lemma_replace(
                    was.seps(),
                    was.kids(),
                    lo,
                    hi,
                    at as int,
                    child.shape(),
                    at as int,
                );
                shape::lemma_all_around(mid, at as int);
                assert(mid.subrange(0, at as int) =~= was.kids().subrange(0, at as int));
                assert(mid.subrange(at + 1, mid.len() as int) =~= was.kids().subrange(
                    at + 1,
                    was.kids().len() as int,
                ));
                copies::lemma_near_middle(
                    a,
                    entries::del(c, key@),
                    child.shape().entries(),
                    b,
                );
            }
            branch.rebalance(at, txn, Ghost(lo), Ghost(hi));
            proof {
                copies::lemma_near_chain(
                    entries::del(e, key@),
                    shape::all(mid),
                    shape::all(branch.kids()),
                );
                copies::lemma_near_chain(
                    entries::del(s.entries(), key@),
                    entries::del(e, key@),
                    shape::all(branch.kids()),
                );
            }
            gone
        },
    }
}

/// What a node may hold once one entry or child has gone.
spec fn one_less(min: nat) -> nat {
    if min > 0 {
        (min - 1) as nat
    } else {
        0
    }
}

/// The value at `key` below `node`.
fn find<'a, V>(
    node: &'a Node<V>,
    key: &[u8],
    Ghost(lo): Ghost<Bound>,
    Ghost(hi): Ghost<Bound>,
    Ghost(min): Ghost<nat>,
) -> (value: Option<&'a V>)
    requires
        node.ok(),
        node.shape().wf(lo, hi, min, ORDER as nat),
        shape::within(key@, lo, hi),
    ensures
        match value {
            Some(v) => entries::get(node.shape().entries(), key@) == Some(*v),
            None => entries::get(node.shape().entries(), key@) is None,
        },
    decreases node,
{
    let ghost e = node.shape().entries();
    match node {
        Node::Leaf(leaf, _) => match leaf.locate(key) {
            Ok(at) => {
                proof {
                    entries::lemma_slot(e, key@, at as int);
                }
                Some(leaf.value(at))
            },
            Err(_) => {
                proof {
                    entries::lemma_missing(e, key@);
                }
                None
            },
        },
        Node::Branch(branch) => {
            let at = branch.child_of(key, Ghost(lo), Ghost(hi));
            proof {
                lemma_shapes(branch.children@);
                entries::lemma_middle(
                    shape::all(branch.kids().subrange(0, at as int)),
                    branch.kids()[at as int].entries(),
                    shape::all(branch.kids().subrange(at + 1, branch.kids().len() as int)),
                    key@,
                );
            }
            find(
                &*branch.children[at],
                key,
                Ghost(shape::lower(branch.seps(), lo, at as int)),
                Ghost(shape::upper(branch.seps(), hi, at as int)),
                Ghost(MIN as nat),
            )
        },
    }
}

/// The child of a root branch that is left with a single one: a level that
/// fences nothing.
fn lone<V>(root: &Node<V>) -> (only: Option<Arc<Node<V>>>)
    requires
        root.ok(),
        root.shape().wf(
            None,
            None,
            if root.shape() is Leaf {
                0
            } else {
                1
            },
            ORDER as nat,
        ),
    ensures
        match only {
            Some(child) => {
                &&& child.ok()
                &&& child.shape().wf_root()
                &&& child.shape().entries() == root.shape().entries()
            },
            None => root.shape().wf_root(),
        },
{
    match root {
        Node::Branch(branch) => {
            let ghost kids = branch.kids();
            proof {
                lemma_shapes(branch.children@);
            }
            if branch.children.len() == 1 {
                proof {
                    assert(kids[0].wf(None, None, MIN as nat, ORDER as nat));
                    shape::lemma_all_one(kids[0]);
                    assert(kids =~= seq![kids[0]]);
                }
                Some(branch.children[0].clone())
            } else {
                None
            }
        },
        Node::Leaf(_, _) => None,
    }
}

// --------------------------------------------------------------------- tree

/// An immutable snapshot. `clone` is one `Arc` bump.
pub struct Tree<V> {
    root: Arc<Node<V>>,
    /// The transaction that produced this tree; the next one gets `last_txn + 1`.
    last_txn: TxnId,
}

impl<V> View for Tree<V> {
    type V = Map<Seq<u8>, V>;

    open spec fn view(&self) -> Map<Seq<u8>, V> {
        entries::to_map(self.entries())
    }
}

impl<V> Clone for Tree<V> {
    fn clone(&self) -> (tree: Self)
        ensures
            tree == *self,
    {
        Tree { root: self.root.clone(), last_txn: self.last_txn }
    }
}

impl<V> Default for Tree<V> {
    fn default() -> (tree: Self)
        ensures
            tree.wf(),
            tree.entries() == Seq::<(Seq<u8>, V)>::empty(),
            tree@ == Map::<Seq<u8>, V>::empty(),
            tree.stamp() == 0,
    {
        Self::new()
    }
}

impl<V> Tree<V> {
    /// What the tree holds, in key order.
    pub closed spec fn entries(&self) -> Entries<V> {
        self.root.shape().entries()
    }

    /// The nodes of the tree, as the invariants see them.
    pub closed spec fn shape(&self) -> Shape<V> {
        self.root.shape()
    }

    /// The transaction that produced the tree.
    pub closed spec fn stamp(&self) -> TxnId {
        self.last_txn
    }

    /// The keys are in order, every separator fences the children it sits
    /// between, the leaves are at one depth and no node is over- or
    /// under-filled.
    pub closed spec fn wf(&self) -> bool {
        self.root.ok() && self.root.shape().wf_root()
    }

    /// A sound tree holds its entries in ascending key order, one per key.
    pub proof fn lemma_sorted(&self)
        requires
            self.wf(),
        ensures
            self.shape().wf_root(),
            self.shape().entries() == self.entries(),
            entries::sorted(self.entries()),
            self@.dom().finite(),
            self@.dom().len() == self.entries().len(),
    {
        let s = self.root.shape();
        shape::lemma_entries(s, None, None, shape::least_root(s), ORDER as nat);
        entries::lemma_map_len(self.entries());
    }

    /// The depth is the logarithm of the entry count: a tree with `h` levels
    /// below its root holds twice `MIN` to the power of `h` entries at least.
    pub proof fn lemma_depth(&self)
        requires
            self.wf(),
            self.shape().height() > 0,
        ensures
            self.entries().len() >= 2 * vstd::arithmetic::power::pow(
                MIN as int,
                self.shape().height(),
            ),
    {
        shape::lemma_depth(self.shape(), None, None, 2);
    }

    pub fn new() -> (tree: Self)
        ensures
            tree.wf(),
            tree.entries() == Seq::<(Seq<u8>, V)>::empty(),
            tree@ == Map::<Seq<u8>, V>::empty(),
            tree.stamp() == 0,
    {
        let tree = Tree { root: Arc::new(Node::Leaf(Leaf::empty(), 0)), last_txn: 0 };
        assert(tree@ =~= Map::<Seq<u8>, V>::empty());
        tree
    }

    /// The value at `key`.
    pub fn get(&self, key: &[u8]) -> (value: Option<&V>)
        requires
            self.wf(),
        ensures
            match value {
                Some(v) => entries::get(self.entries(), key@) == Some(*v),
                None => entries::get(self.entries(), key@) is None,
            },
    {
        find(
            &*self.root,
            key,
            Ghost(None),
            Ghost(None),
            Ghost(shape::least_root(self.root.shape())),
        )
    }

    /// Every entry whose key starts with `p`.
    pub fn prefix(&self, p: &[u8]) -> (iter: Iter<'_, V>)
        requires
            self.wf(),
        ensures
            iter.wf(),
            iter.rest() == entries::under(self.entries(), p@),
    {
        Iter::under(&self.root, p)
    }

    /// Every entry with a key `>= key`, in order.
    pub fn lower_bound(&self, key: &[u8]) -> (iter: Iter<'_, V>)
        requires
            self.wf(),
        ensures
            iter.wf(),
            iter.rest() == entries::run_from(self.entries(), key@),
    {
        Iter::from(&self.root, key)
    }

    /// Every entry, in ascending key order.
    pub fn iter(&self) -> (iter: Iter<'_, V>)
        requires
            self.wf(),
        ensures
            iter.wf(),
            iter.rest() == self.entries(),
    {
        Iter::whole(&self.root)
    }

    /// A batch of writes over this snapshot.
    pub fn txn(&self) -> (txn: Txn<V>)
        requires
            self.wf(),
            self.stamp() < u64::MAX,
        ensures
            txn.wf(),
            txn.entries() == self.entries(),
            txn.stamp() == self.stamp() + 1,
    {
        Txn { root: self.root.clone(), id: self.last_txn + 1 }
    }
}

// --------------------------------------------------------------------- walk

/// Every leaf below holds something.
spec fn filled<V>(s: Shape<V>) -> bool
    decreases s,
{
    match s {
        Shape::Leaf(e) => e.len() > 0,
        Shape::Branch { seps, kids } => {
            &&& kids.len() > 0
            &&& forall|i: int| 0 <= i < kids.len() ==> filled(#[trigger] kids[i])
        },
    }
}

proof fn lemma_filled<V>(s: Shape<V>, lo: Bound, hi: Bound, min: nat)
    requires
        s.wf(lo, hi, min, ORDER as nat),
        min > 0,
    ensures
        filled(s),
    decreases s,
{
    if let Shape::Branch { seps, kids } = s {
        assert forall|i: int| 0 <= i < kids.len() implies filled(#[trigger] kids[i]) by {
            assert(kids[i].wf(
                shape::lower(seps, lo, i),
                shape::upper(seps, hi, i),
                shape::least(i, -1),
                ORDER as nat,
            ));
            lemma_filled(
                kids[i],
                shape::lower(seps, lo, i),
                shape::upper(seps, hi, i),
                MIN as nat,
            );
        }
    }
}

/// What the branches on a path still have to be walked, innermost first.
spec fn above<V>(stack: Seq<(&Branch<V>, usize)>) -> Entries<V>
    decreases stack.len(),
{
    if stack.len() == 0 {
        Seq::empty()
    } else {
        let (branch, at) = stack.last();
        shape::all(branch.kids().subrange(at as int, branch.kids().len() as int)) + above(
            stack.drop_last(),
        )
    }
}

/// A branch on the path, and a child to go on with.
spec fn step_ok<V>(step: (&Branch<V>, usize)) -> bool {
    &&& step.0.ok()
    &&& step.1 <= step.0.children@.len()
    &&& filled(Node::Branch(*step.0).shape())
}

/// Yields values in ascending byte-lexicographic key order.
pub struct Iter<'a, V> {
    /// The branches on the path down, each with the child to descend into next.
    stack: Vec<(&'a Branch<V>, usize)>,
    /// The leaf the walk is in, and the entry to yield next.
    leaf: Option<(&'a Leaf<V>, usize)>,
    /// The key of the entry the last `next` returned.
    path: Vec<u8>,
    /// Stops the walk at the first key that does not start with this.
    stop: Option<Vec<u8>>,
}

impl<'a, V> Iter<'a, V> {
    /// What the walk has before it, prefix or no prefix.
    spec fn all(&self) -> Entries<V> {
        match self.leaf {
            Some((leaf, at)) => leaf.entries().subrange(at as int, leaf.entries().len() as int)
                + above(self.stack@),
            None => Seq::empty(),
        }
    }

    /// What the walk has before it.
    pub closed spec fn rest(&self) -> Entries<V> {
        match self.stop {
            Some(p) => entries::lead(self.all(), p@),
            None => self.all(),
        }
    }

    /// The key of the entry the last `next` returned.
    pub closed spec fn last(&self) -> Seq<u8> {
        self.path@
    }

    /// The path leads through sound nodes, and ends in a leaf until the walk
    /// is over.
    pub closed spec fn wf(&self) -> bool {
        &&& forall|i: int| 0 <= i < self.stack@.len() ==> step_ok(#[trigger] self.stack@[i])
        &&& self.leaf is None ==> self.stack@.len() == 0
        &&& self.leaf is Some ==> {
            let (leaf, at) = self.leaf->0;
            leaf.wf() && at <= leaf.entries().len()
        }
    }

    fn empty() -> (iter: Self)
        ensures
            iter.wf(),
            iter.leaf is None,
            iter.stop is None,
            iter.stack@.len() == 0,
    {
        Iter { stack: Vec::new(), leaf: None, path: Vec::new(), stop: None }
    }

    /// The whole tree, in order.
    fn whole(root: &'a Arc<Node<V>>) -> (iter: Self)
        requires
            root.ok(),
            root.shape().wf_root(),
        ensures
            iter.wf(),
            iter.rest() == root.shape().entries(),
    {
        let mut iter = Self::empty();
        proof {
            if root.shape() is Branch {
                lemma_filled(root.shape(), None, None, 2);
            }
        }
        iter.descend(&**root);
        assert(iter.all() =~= root.shape().entries());
        iter
    }

    /// Every entry with a key `>= key`, in order.
    fn from(root: &'a Arc<Node<V>>, key: &[u8]) -> (iter: Self)
        requires
            root.ok(),
            root.shape().wf_root(),
        ensures
            iter.wf(),
            iter.stop is None,
            iter.rest() == entries::run_from(root.shape().entries(), key@),
    {
        let mut iter = Self::empty();
        iter.seek(
            &**root,
            key,
            Ghost(None),
            Ghost(None),
            Ghost(shape::least_root(root.shape())),
        );
        assert(iter.all() =~= entries::run_from(root.shape().entries(), key@));
        iter
    }

    /// Goes down to where `key` sits below `node`, or would go.
    fn seek(
        &mut self,
        node: &'a Node<V>,
        key: &[u8],
        Ghost(lo): Ghost<Bound>,
        Ghost(hi): Ghost<Bound>,
        Ghost(min): Ghost<nat>,
    )
        requires
            node.ok(),
            node.shape().wf(lo, hi, min, ORDER as nat),
            node.shape() is Branch ==> min > 0,
            shape::within(key@, lo, hi),
            forall|i: int|
                0 <= i < old(self).stack@.len() ==> step_ok(#[trigger] old(self).stack@[i]),
        ensures
            final(self).wf(),
            final(self).leaf is Some,
            final(self).stop == old(self).stop,
            final(self).path == old(self).path,
            final(self).all() == entries::run_from(node.shape().entries(), key@) + above(
                old(self).stack@,
            ),
        decreases node.shape().height(),
    {
        let ghost was = *self;
        match node {
            Node::Leaf(leaf, _) => {
                let at = match leaf.locate(key) {
                    Ok(at) => at,
                    Err(at) => at,
                };
                proof {
                    entries::lemma_slot(leaf.entries(), key@, at as int);
                }
                self.leaf = Some((leaf, at));
            },
            Node::Branch(branch) => {
                let at = branch.child_of(key, Ghost(lo), Ghost(hi));
                let ghost kids = branch.kids();
                let ghost a = shape::all(kids.subrange(0, at as int));
                let ghost c = kids[at as int].entries();
                let ghost b = shape::all(kids.subrange(at + 1, kids.len() as int));
                proof {
                    lemma_shapes(branch.children@);
                    lemma_filled(node.shape(), lo, hi, min);
                    entries::lemma_middle_run(a, c, b, key@);
                    assert(kids[at as int].height() == kids[0].height());
                }
                self.stack.push((branch, at + 1));
                proof {
                    assert(self.stack@.drop_last() =~= was.stack@);
                    assert(above(self.stack@) == b + above(was.stack@));
                }
                let ghost pushed = self.stack@;
                self.seek(
                    &*branch.children[at],
                    key,
                    Ghost(shape::lower(branch.seps(), lo, at as int)),
                    Ghost(shape::upper(branch.seps(), hi, at as int)),
                    Ghost(MIN as nat),
                );
                assert(entries::run_from(c, key@) + (b + above(was.stack@)) =~= (
                entries::run_from(c, key@) + b) + above(was.stack@));
            },
        }
    }

    /// Every entry whose key starts with `p`.
    fn under(root: &'a Arc<Node<V>>, p: &[u8]) -> (iter: Self)
        requires
            root.ok(),
            root.shape().wf_root(),
        ensures
            iter.wf(),
            iter.rest() == entries::under(root.shape().entries(), p@),
    {
        let mut iter = Self::from(root, p);
        proof {
            let s = root.shape();
            shape::lemma_entries(s, None, None, shape::least_root(s), ORDER as nat);
            entries::lemma_under(s.entries(), p@);
        }
        iter.stop = Some(owned(p));
        iter
    }

    /// Enters the leftmost leaf of `node`.
    fn descend(&mut self, node: &'a Node<V>)
        requires
            node.ok(),
            node.shape() is Branch ==> filled(node.shape()),
            forall|i: int|
                0 <= i < old(self).stack@.len() ==> step_ok(#[trigger] old(self).stack@[i]),
        ensures
            final(self).wf(),
            final(self).leaf is Some,
            final(self).stop == old(self).stop,
            final(self).path == old(self).path,
            final(self).all() == node.shape().entries() + above(old(self).stack@),
            filled(node.shape()) ==> {
                let (leaf, at) = final(self).leaf->0;
                at < leaf.entries().len()
            },
        decreases node.shape().height(),
    {
        let ghost was = *self;
        match node {
            Node::Leaf(leaf, _) => {
                self.leaf = Some((leaf, 0));
                assert(leaf.entries().subrange(0, leaf.entries().len() as int)
                    =~= leaf.entries());
            },
            Node::Branch(branch) => {
                let ghost kids = branch.kids();
                proof {
                    lemma_shapes(branch.children@);
                    shape::lemma_all_around(kids, 0);
                    assert(kids.subrange(0, 0) =~= Seq::empty());
                }
                self.stack.push((branch, 1));
                proof {
                    assert(self.stack@.drop_last() =~= was.stack@);
                }
                self.descend(&*branch.children[0]);
                proof {
                    let first = kids[0].entries();
                    let others = shape::all(kids.subrange(1, kids.len() as int));
                    assert(first + (others + above(was.stack@)) =~= (Seq::empty() + first + others)
                        + above(was.stack@));
                }
            },
        }
    }

    /// Moves on to the next leaf. `false` when there is none.
    fn advance(&mut self) -> (moved: bool)
        requires
            forall|i: int|
                0 <= i < old(self).stack@.len() ==> step_ok(#[trigger] old(self).stack@[i]),
            old(self).leaf is None,
        ensures
            final(self).wf(),
            final(self).stop == old(self).stop,
            final(self).path == old(self).path,
            final(self).all() == above(old(self).stack@),
            moved <==> final(self).leaf is Some,
            moved ==> {
                let (leaf, at) = final(self).leaf->0;
                at < leaf.entries().len()
            },
    {
        let ghost was = *self;
        loop
            invariant
                forall|i: int| 0 <= i < self.stack@.len() ==> step_ok(#[trigger] self.stack@[i]),
                self.leaf is None,
                self.stop == was.stop,
                self.path == was.path,
                was == *old(self),
                above(self.stack@) == above(was.stack@),
            decreases self.stack@.len(),
        {
            let ghost stack = self.stack@;
            let (branch, at) = match self.stack.pop() {
                Some(step) => step,
                None => {
                    return false;
                },
            };
            let ghost kids = branch.kids();
            proof {
                assert(stack.last() == (branch, at));
                assert(step_ok(stack[stack.len() - 1]));
                assert(self.stack@ =~= stack.drop_last());
                lemma_shapes(branch.children@);
            }
            if at < branch.children.len() {
                let ghost outer = self.stack@;
                self.stack.push((branch, at + 1));
                proof {
                    let tail = kids.subrange(at as int, kids.len() as int);
                    shape::lemma_all_around(tail, 0);
                    assert(tail.subrange(0, 0) =~= Seq::empty());
                    assert(tail.subrange(1, tail.len() as int) =~= kids.subrange(
                        at + 1,
                        kids.len() as int,
                    ));
                    assert(self.stack@.drop_last() =~= outer);
                    assert(filled(kids[at as int]));
                }
                self.descend(&*branch.children[at]);
                proof {
                    let first = kids[at as int].entries();
                    let others = shape::all(kids.subrange(at + 1, kids.len() as int));
                    assert(first + (others + above(outer)) =~= (Seq::empty() + first + others)
                        + above(outer));
                }
                return true;
            }
            proof {
                assert(kids.subrange(at as int, kids.len() as int) =~= Seq::empty());
                assert(above(stack) =~= above(self.stack@));
            }
        }
    }

    /// The key of the entry the last [`Iter::next`] returned. Meaningless
    /// before the first `next`, and after one that returned `None`.
    pub fn key(&self) -> (key: &[u8])
        ensures
            key@ == self.last(),
    {
        self.path.as_slice()
    }

    /// The next value of the walk.
    pub fn next(&mut self) -> (value: Option<&'a V>)
        requires
            old(self).wf(),
        ensures
            final(self).wf(),
            match value {
                Some(v) => {
                    &&& old(self).rest().len() > 0
                    &&& *v == old(self).rest()[0].1
                    &&& final(self).last() == old(self).rest()[0].0
                    &&& final(self).rest() == old(self).rest().subrange(
                        1,
                        old(self).rest().len() as int,
                    )
                },
                None => old(self).rest().len() == 0 && final(self).rest().len() == 0,
            },
    {
        let ghost was = *self;
        loop
            invariant
                was == *old(self),
                self.wf(),
                self.stop == was.stop,
                self.all() == was.all(),
            decreases
                    (match self.leaf {
                        Some((leaf, at)) => if at < leaf.entries().len() {
                            0int
                        } else {
                            1
                        },
                        None => 0,
                    }),
        {
            let (leaf, at) = match self.leaf {
                Some(place) => place,
                None => {
                    return None;
                },
            };
            let ghost run = leaf.entries().subrange(at as int, leaf.entries().len() as int);
            if at == leaf.len() {
                self.leaf = None;
                assert(self.all() =~= Seq::empty());
                let moved = self.advance();
                assert(run + above(was.stack@) =~= above(was.stack@));
                if moved {
                    continue;
                }
                return None;
            }
            return self.hand_out(leaf, at);
        }
    }

    /// Hands out entry `at` of `leaf`, where the walk is, unless it stops here.
    fn hand_out(&mut self, leaf: &'a Leaf<V>, at: usize) -> (value: Option<&'a V>)
        requires
            old(self).wf(),
            old(self).leaf == Some((leaf, at)),
            at < leaf.entries().len(),
        ensures
            final(self).wf(),
            match value {
                Some(v) => {
                    &&& old(self).rest().len() > 0
                    &&& *v == old(self).rest()[0].1
                    &&& final(self).last() == old(self).rest()[0].0
                    &&& final(self).rest() == old(self).rest().subrange(
                        1,
                        old(self).rest().len() as int,
                    )
                },
                None => old(self).rest().len() == 0 && final(self).rest().len() == 0,
            },
    {
        let ghost was = *self;
        let count = leaf.len();
        assert(at < count);
        self.leaf = Some((leaf, at + 1));
        self.path = leaf.full_key(at);
        proof {
            let a = was.all();
            assert(a[0] == leaf.entries()[at as int]);
            assert(self.all() =~= a.subrange(1, a.len() as int));
        }
        let stopped = match &self.stop {
            Some(p) => !starts_with(self.path.as_slice(), p.as_slice()),
            None => false,
        };
        if stopped {
            self.leaf = None;
            self.stack.clear();
            return None;
        }
        assert(self.rest() =~= was.rest().subrange(1, was.rest().len() as int));
        Some(leaf.value(at))
    }
}

// -------------------------------------------------------------------- write

/// A batch of writes over one snapshot. Dropping it aborts.
pub struct Txn<V> {
    root: Arc<Node<V>>,
    /// This transaction's stamp: the node it built, it may write in place.
    id: TxnId,
}

impl<V> View for Txn<V> {
    type V = Map<Seq<u8>, V>;

    open spec fn view(&self) -> Map<Seq<u8>, V> {
        entries::to_map(self.entries())
    }
}

impl<V> Txn<V> {
    /// What the transaction sees, in key order.
    pub closed spec fn entries(&self) -> Entries<V> {
        self.root.shape().entries()
    }

    /// This transaction's stamp.
    pub closed spec fn stamp(&self) -> TxnId {
        self.id
    }

    /// The nodes are sound.
    pub closed spec fn wf(&self) -> bool {
        self.root.ok() && self.root.shape().wf_root()
    }

    /// The entries are in ascending key order, one per key.
    pub proof fn lemma_sorted(&self)
        requires
            self.wf(),
        ensures
            entries::sorted(self.entries()),
            self@.dom().finite(),
            self@.dom().len() == self.entries().len(),
    {
        let s = self.root.shape();
        shape::lemma_entries(s, None, None, shape::least_root(s), ORDER as nat);
        entries::lemma_map_len(self.entries());
    }
}

impl<V: Clone> Txn<V> {
    pub fn get(&self, key: &[u8]) -> (value: Option<&V>)
        requires
            self.wf(),
        ensures
            match value {
                Some(v) => entries::get(self.entries(), key@) == Some(*v),
                None => entries::get(self.entries(), key@) is None,
            },
    {
        find(
            &*self.root,
            key,
            Ghost(None),
            Ghost(None),
            Ghost(shape::least_root(self.root.shape())),
        )
    }

    /// Every entry, in ascending key order.
    pub fn iter(&self) -> (iter: Iter<'_, V>)
        requires
            self.wf(),
        ensures
            iter.wf(),
            iter.rest() == self.entries(),
    {
        Iter::whole(&self.root)
    }

    /// Every entry whose key starts with `p`.
    pub fn prefix(&self, p: &[u8]) -> (iter: Iter<'_, V>)
        requires
            self.wf(),
        ensures
            iter.wf(),
            iter.rest() == entries::under(self.entries(), p@),
    {
        Iter::under(&self.root, p)
    }

    /// Every entry with a key `>= key`, in order.
    pub fn lower_bound(&self, key: &[u8]) -> (iter: Iter<'_, V>)
        requires
            self.wf(),
        ensures
            iter.wf(),
            iter.rest() == entries::run_from(self.entries(), key@),
    {
        Iter::from(&self.root, key)
    }

    /// Returns the replaced value.
    pub fn insert(&mut self, key: &[u8], value: V) -> (was: Option<V>)
        requires
            old(self).wf(),
        ensures
            final(self).wf(),
            final(self).stamp() == old(self).stamp(),
            copies::near_value(entries::get(old(self).entries(), key@), was),
            copies::near(
                entries::put(old(self).entries(), key@, value),
                final(self).entries(),
            ),
            entries::get(final(self).entries(), key@) == Some(value),
            copies::faithful::<V>() ==> {
                &&& was == entries::get(old(self).entries(), key@)
                &&& final(self).entries() == entries::put(old(self).entries(), key@, value)
                &&& final(self)@ == old(self)@.insert(key@, value)
            },
    {
        let ghost s = self.root.shape();
        let ghost e = self.entries();
        let (was, split, whole) = insert(
            &mut self.root,
            key,
            value,
            self.id,
            Ghost(None),
            Ghost(None),
            Ghost(shape::least_root(s)),
        );
        if let Some((separator, right)) = split {
            let ghost l = self.root;
            let mut separators = Keys::new();
            separators.push(separator.as_slice(), &[]);
            let left = self.root.clone();
            let mut children: Vec<Arc<Node<V>>> = Vec::new();
            children.push(left);
            children.push(right);
            proof {
                let nodes = seq![l, right];
                let kids = seq![l.shape(), right.shape()];
                lemma_shapes(nodes);
                assert(shapes(nodes) =~= kids);
                assert(separators@ =~= seq![separator@]);
                assert(children@ =~= nodes);
                shape::lemma_all_around_two(kids, 0);
                assert(kids.subrange(0, 0) =~= Seq::empty());
                assert(kids.subrange(2, 2) =~= Seq::empty());
                assert(shape::all(kids) =~= whole@);
            }
            self.root = Arc::new(Node::Branch(Branch { separators, children, txn: self.id }));
        }
        proof {
            shape::lemma_entries(s, None, None, shape::least_root(s), ORDER as nat);
            if copies::faithful::<V>() {
                copies::lemma_near_faithful(entries::put(e, key@, value), whole@);
                entries::lemma_put(e, key@, value);
                if was is Some {
                    copies::lemma_faithful(entries::get(e, key@)->0, was->0);
                }
            }
        }
        was
    }

    pub fn delete(&mut self, key: &[u8]) -> (was: Option<V>)
        requires
            old(self).wf(),
        ensures
            final(self).wf(),
            final(self).stamp() == old(self).stamp(),
            copies::near_value(entries::get(old(self).entries(), key@), was),
            copies::near(entries::del(old(self).entries(), key@), final(self).entries()),
            was is None ==> *final(self) == *old(self),
            copies::faithful::<V>() ==> {
                &&& was == entries::get(old(self).entries(), key@)
                &&& final(self).entries() == entries::del(old(self).entries(), key@)
                &&& final(self)@ == old(self)@.remove(key@)
            },
    {
        let ghost s = self.root.shape();
        let ghost e = self.entries();
        proof {
            shape::lemma_entries(s, None, None, shape::least_root(s), ORDER as nat);
            entries::lemma_del(e, key@);
        }
        // The descent below rebuilds as it goes, so the key is looked up first:
        // a miss must leave the tree alone.
        if self.get(key).is_none() {
            proof {
                copies::lemma_near_same(e);
            }
            return None;
        }
        let was = remove(
            &mut self.root,
            key,
            self.id,
            Ghost(None),
            Ghost(None),
            Ghost(shape::least_root(s)),
        );
        if let Some(only) = lone(&*self.root) {
            self.root = only;
        }
        proof {
            if copies::faithful::<V>() {
                copies::lemma_near_faithful(entries::del(e, key@), self.entries());
                copies::lemma_faithful(entries::get(e, key@)->0, was);
            }
        }
        Some(was)
    }

    /// The tree this transaction leaves behind.
    pub fn commit(self) -> (tree: Tree<V>)
        requires
            self.wf(),
        ensures
            tree.wf(),
            tree.entries() == self.entries(),
            tree.stamp() == self.stamp(),
    {
        Tree { root: self.root, last_txn: self.id }
    }
}

} // verus!
