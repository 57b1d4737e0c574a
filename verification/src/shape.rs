//! The shape of a B+tree: what its nodes hold and how its separators fence
//! them, whatever the nodes are made of.

use vstd::arithmetic::power;
use vstd::prelude::*;

use crate::bytes;
use crate::entries;
use crate::entries::Entries;

verus! {

/// Entries in a leaf, children in a branch. A node over this splits.
pub const ORDER: usize = 32;

/// Under this a node borrows from a sibling or merges with it. The root is
/// exempt: it may hold anything from nothing to a full node.
pub const MIN: usize = 16;

/// A node and everything below it.
pub enum Shape<V> {
    Leaf(Entries<V>),
    /// `seps[i]` sorts after everything in `kids[i]` and at or before
    /// everything in `kids[i + 1]`.
    Branch { seps: Seq<Seq<u8>>, kids: Seq<Shape<V>> },
}

/// One side of the key range a node stands for; `None` leaves that side open.
pub type Bound = Option<Seq<u8>>;

/// `k` is at or after `lo` and before `hi`.
pub open spec fn within(k: Seq<u8>, lo: Bound, hi: Bound) -> bool {
    &&& lo is Some ==> bytes::le(lo->0, k)
    &&& hi is Some ==> bytes::lt(k, hi->0)
}

/// `k` is after `lo` and before `hi`.
pub open spec fn between(k: Seq<u8>, lo: Bound, hi: Bound) -> bool {
    &&& lo is Some ==> bytes::lt(lo->0, k)
    &&& hi is Some ==> bytes::lt(k, hi->0)
}

/// The lower bound on child `i`.
pub open spec fn lower(seps: Seq<Seq<u8>>, lo: Bound, i: int) -> Bound {
    if i == 0 {
        lo
    } else {
        Some(seps[i - 1])
    }
}

/// The upper bound on child `i`.
pub open spec fn upper(seps: Seq<Seq<u8>>, hi: Bound, i: int) -> Bound {
    if i < seps.len() {
        Some(seps[i])
    } else {
        hi
    }
}

/// Every key is within the bounds.
pub open spec fn all_within<V>(e: Entries<V>, lo: Bound, hi: Bound) -> bool {
    forall|i: int| 0 <= i < e.len() ==> within((#[trigger] e[i]).0, lo, hi)
}

/// The entries below a run of nodes, in order.
pub open spec fn all<V>(kids: Seq<Shape<V>>) -> Entries<V>
    decreases kids,
{
    if kids.len() == 0 {
        Seq::empty()
    } else {
        all(kids.drop_last()) + kids.last().entries()
    }
}

/// The separators fence the children, which are sound and equally deep. Child
/// `low`, if there is one, may be one short of the least a node holds.
pub open spec fn fenced<V>(
    seps: Seq<Seq<u8>>,
    kids: Seq<Shape<V>>,
    lo: Bound,
    hi: Bound,
    low: int,
) -> bool
    decreases kids,
{
    &&& kids.len() == seps.len() + 1
    &&& bytes::ascending(seps)
    &&& forall|i: int| 0 <= i < seps.len() ==> between(#[trigger] seps[i], lo, hi)
    &&& forall|i: int| 0 <= i < kids.len() ==> (#[trigger] kids[i]).height() == kids[0].height()
    &&& forall|i: int|
        0 <= i < kids.len() ==> (#[trigger] kids[i]).wf(
            lower(seps, lo, i),
            upper(seps, hi, i),
            least(i, low),
            ORDER as nat,
        )
}

/// The least child `i` may hold when child `low` was just taken from.
pub open spec fn least(i: int, low: int) -> nat {
    if i == low {
        (MIN - 1) as nat
    } else {
        MIN as nat
    }
}

impl<V> Shape<V> {
    /// What the subtree holds, in key order.
    pub open spec fn entries(self) -> Entries<V>
        decreases self,
    {
        match self {
            Shape::Leaf(e) => e,
            Shape::Branch { seps, kids } => all(kids),
        }
    }

    /// Levels below this node.
    pub open spec fn height(self) -> nat
        decreases self,
    {
        match self {
            Shape::Leaf(_) => 0,
            Shape::Branch { seps, kids } => if kids.len() == 0 {
                0
            } else {
                1 + kids[0].height()
            },
        }
    }

    /// Entries for a leaf, children for a branch.
    pub open spec fn len(self) -> nat {
        match self {
            Shape::Leaf(e) => e.len(),
            Shape::Branch { seps, kids } => kids.len(),
        }
    }

    /// The subtree keeps its keys sorted and within the bounds, its leaves at
    /// one depth and its nodes filled; this node holds `min` to `max`.
    pub open spec fn wf(self, lo: Bound, hi: Bound, min: nat, max: nat) -> bool
        decreases self,
    {
        &&& min <= self.len() <= max
        &&& match self {
            Shape::Leaf(e) => entries::sorted(e) && all_within(e, lo, hi),
            Shape::Branch { seps, kids } => fenced(seps, kids, lo, hi, -1),
        }
    }

    /// A whole tree: a root branch has at least two children, a root leaf may
    /// hold nothing.
    pub open spec fn wf_root(self) -> bool {
        self.wf(None, None, least_root(self), ORDER as nat)
    }
}

/// The least a root holds.
pub open spec fn least_root<V>(s: Shape<V>) -> nat {
    if s is Leaf {
        0
    } else {
        2
    }
}

/// A seek to `k` lands in a leaf that holds something at or after it.
pub open spec fn catches<V>(s: Shape<V>, k: Seq<u8>) -> bool
    decreases s,
{
    match s {
        Shape::Leaf(e) => entries::run_from(e, k).len() > 0,
        Shape::Branch { seps, kids } => exists|i: int|
            {
                &&& 0 <= i < kids.len()
                &&& i > 0 ==> bytes::le(seps[i - 1], k)
                &&& i < seps.len() ==> bytes::lt(k, seps[i])
                &&& catches(#[trigger] kids[i], k)
            },
    }
}

/// What a split leaves: the node's own half, and the half that came off.
pub open spec fn halves<V>(
    whole: Entries<V>,
    left: Shape<V>,
    sep: Seq<u8>,
    right: Shape<V>,
    lo: Bound,
    hi: Bound,
) -> bool {
    &&& left.wf(lo, Some(sep), MIN as nat, ORDER as nat)
    &&& right.wf(Some(sep), hi, MIN as nat, ORDER as nat)
    &&& between(sep, lo, hi)
    &&& left.height() == right.height()
    &&& left.entries() + right.entries() == whole
}

/// The halves of a node that was one over full.
pub open spec fn even<V>(left: Shape<V>, right: Shape<V>) -> bool {
    left.len() == MIN && right.len() == MIN + 1
}

/// How many children or entries a neighbour holds after one moved to it, or
/// away from it.
pub open spec fn moved(n: nat, gains: bool) -> int {
    if gains {
        n as int + 1
    } else {
        n - 1
    }
}

/// The left one of the two children a short child is evened out with: the
/// child itself, unless it is the last.
pub open spec fn pair(at: int, count: nat) -> int {
    if at < count - 1 {
        at
    } else {
        at - 1
    }
}

/// Whether evening out child `at` folds two children into one: it is short, and
/// one node can hold what the two hold.
pub open spec fn folds<V>(kids: Seq<Shape<V>>, at: int) -> bool {
    let left = pair(at, kids.len());
    kids[at].len() < MIN && kids[left].len() + kids[left + 1].len() <= ORDER
}

// ------------------------------------------------------------- runs of nodes

pub proof fn lemma_all_push<V>(kids: Seq<Shape<V>>, kid: Shape<V>)
    ensures
        all(kids.push(kid)) == all(kids) + kid.entries(),
{
    assert(kids.push(kid).drop_last() =~= kids);
}

pub proof fn lemma_all_one<V>(kid: Shape<V>)
    ensures
        all(seq![kid]) == kid.entries(),
{
    assert(seq![kid].drop_last() =~= Seq::empty());
    assert(all(Seq::<Shape<V>>::empty()) + kid.entries() =~= kid.entries());
}

pub proof fn lemma_all_concat<V>(a: Seq<Shape<V>>, b: Seq<Shape<V>>)
    ensures
        all(a + b) == all(a) + all(b),
    decreases b.len(),
{
    if b.len() == 0 {
        assert(a + b =~= a);
        assert(all(a) + all(b) =~= all(a));
    } else {
        lemma_all_concat(a, b.drop_last());
        assert((a + b).drop_last() =~= a + b.drop_last());
        assert(all(a + b) =~= all(a) + all(b));
    }
}

/// The entries below a run of nodes, around the ones of node `i`.
pub proof fn lemma_all_around<V>(kids: Seq<Shape<V>>, i: int)
    requires
        0 <= i < kids.len(),
    ensures
        all(kids) == all(kids.subrange(0, i)) + kids[i].entries() + all(
            kids.subrange(i + 1, kids.len() as int),
        ),
{
    let a = kids.subrange(0, i);
    let b = kids.subrange(i + 1, kids.len() as int);
    assert(kids =~= a.push(kids[i]) + b);
    lemma_all_push(a, kids[i]);
    lemma_all_concat(a.push(kids[i]), b);
}

/// The entries below a run of nodes, around the ones of nodes `i` and `i + 1`.
pub proof fn lemma_all_around_two<V>(kids: Seq<Shape<V>>, i: int)
    requires
        0 <= i,
        i + 1 < kids.len(),
    ensures
        all(kids) == all(kids.subrange(0, i)) + (kids[i].entries() + kids[i + 1].entries()) + all(
            kids.subrange(i + 2, kids.len() as int),
        ),
{
    let a = kids.subrange(0, i);
    let b = kids.subrange(i + 2, kids.len() as int);
    assert(kids =~= a.push(kids[i]).push(kids[i + 1]) + b);
    lemma_all_push(a, kids[i]);
    lemma_all_push(a.push(kids[i]), kids[i + 1]);
    lemma_all_concat(a.push(kids[i]).push(kids[i + 1]), b);
    assert(all(kids) =~= all(a) + (kids[i].entries() + kids[i + 1].entries()) + all(b));
}

/// What holds of the keys of every node in a run holds of the run's.
pub proof fn lemma_all_within<V>(kids: Seq<Shape<V>>, lo: Bound, hi: Bound)
    requires
        forall|i: int| 0 <= i < kids.len() ==> all_within((#[trigger] kids[i]).entries(), lo, hi),
    ensures
        all_within(all(kids), lo, hi),
    decreases kids.len(),
{
    if kids.len() > 0 {
        let p = kids.drop_last();
        assert forall|i: int| 0 <= i < p.len() implies all_within(
            (#[trigger] p[i]).entries(),
            lo,
            hi,
        ) by {
            assert(p[i] == kids[i]);
        }
        lemma_all_within(p, lo, hi);
        let (a, b) = (all(p), kids.last().entries());
        assert forall|i: int| 0 <= i < all(kids).len() implies within(
            (#[trigger] all(kids)[i]).0,
            lo,
            hi,
        ) by {
            if i < a.len() {
                assert(all(kids)[i] == a[i]);
            } else {
                assert(all(kids)[i] == b[i - a.len()]);
            }
        }
    }
}

// -------------------------------------------------------- order of the entries

/// Wider bounds hold of whatever narrower ones hold of.
pub proof fn lemma_widen<V>(e: Entries<V>, lo: Bound, hi: Bound, lo2: Bound, hi2: Bound)
    requires
        all_within(e, lo, hi),
        lo2 is Some ==> lo is Some && bytes::le(lo2->0, lo->0),
        hi2 is Some ==> hi is Some && bytes::le(hi->0, hi2->0),
    ensures
        all_within(e, lo2, hi2),
{
    broadcast use crate::bytes::group_order;

}

/// The entries of a sound subtree are sorted and within its bounds.
pub proof fn lemma_entries<V>(s: Shape<V>, lo: Bound, hi: Bound, min: nat, max: nat)
    requires
        s.wf(lo, hi, min, max),
    ensures
        entries::sorted(s.entries()),
        all_within(s.entries(), lo, hi),
    decreases s, 1int,
{
    match s {
        Shape::Leaf(e) => {},
        Shape::Branch { seps, kids } => {
            lemma_fenced_entries(seps, kids, lo, hi, -1);
        },
    }
}

/// The entries below a fenced run of children are sorted and within the
/// bounds, and each child's are within its own.
pub proof fn lemma_fenced_entries<V>(
    seps: Seq<Seq<u8>>,
    kids: Seq<Shape<V>>,
    lo: Bound,
    hi: Bound,
    low: int,
)
    requires
        fenced(seps, kids, lo, hi, low),
    ensures
        entries::sorted(all(kids)),
        all_within(all(kids), lo, hi),
        forall|i: int|
            0 <= i < kids.len() ==> entries::sorted((#[trigger] kids[i]).entries()) && all_within(
                kids[i].entries(),
                lower(seps, lo, i),
                upper(seps, hi, i),
            ),
    decreases kids, 0int,
{
    broadcast use crate::bytes::group_order;

    assert forall|i: int| 0 <= i < kids.len() implies entries::sorted((#[trigger] kids[i]).entries())
        && all_within(kids[i].entries(), lower(seps, lo, i), upper(seps, hi, i)) && all_within(
        kids[i].entries(),
        lo,
        hi,
    ) by {
        lemma_entries(kids[i], lower(seps, lo, i), upper(seps, hi, i), least(i, low), ORDER as nat);
        if i > 0 {
            assert(between(seps[i - 1], lo, hi));
        }
        if i < seps.len() {
            assert(between(seps[i], lo, hi));
        }
        lemma_widen(kids[i].entries(), lower(seps, lo, i), upper(seps, hi, i), lo, hi);
    }
    lemma_all_within(kids, lo, hi);
    lemma_run_sorted(seps, kids, lo, hi, kids.len() as int);
    assert(kids.subrange(0, kids.len() as int) =~= kids);
}

proof fn lemma_run_sorted<V>(
    seps: Seq<Seq<u8>>,
    kids: Seq<Shape<V>>,
    lo: Bound,
    hi: Bound,
    n: int,
)
    requires
        0 <= n <= kids.len(),
        kids.len() == seps.len() + 1,
        bytes::ascending(seps),
        forall|i: int|
            0 <= i < kids.len() ==> entries::sorted((#[trigger] kids[i]).entries()) && all_within(
                kids[i].entries(),
                lower(seps, lo, i),
                upper(seps, hi, i),
            ),
    ensures
        entries::sorted(all(kids.subrange(0, n))),
    decreases n,
{
    broadcast use crate::bytes::group_order;

    if n > 0 {
        lemma_run_sorted(seps, kids, lo, hi, n - 1);
        let p = kids.subrange(0, n - 1);
        assert(kids.subrange(0, n) =~= p.push(kids[n - 1]));
        lemma_all_push(p, kids[n - 1]);
        let (a, b) = (all(p), kids[n - 1].entries());
        if n > 1 {
            let fence = seps[n - 2];
            assert forall|i: int| 0 <= i < p.len() implies all_within(
                (#[trigger] p[i]).entries(),
                None,
                Some(fence),
            ) by {
                assert(p[i] == kids[i]);
                if i < n - 2 {
                    assert(bytes::lt(seps[i], seps[n - 2]));
                }
                lemma_widen(
                    kids[i].entries(),
                    lower(seps, lo, i),
                    upper(seps, hi, i),
                    None,
                    Some(fence),
                );
            }
            lemma_all_within(p, None, Some(fence));
            assert(all_within(b, Some(fence), upper(seps, hi, n - 1)));
        } else {
            assert(p =~= Seq::empty());
        }
        let e = a + b;
        assert forall|i: int, j: int| 0 <= i < j < e.len() implies bytes::lt(
            (#[trigger] e[i]).0,
            (#[trigger] e[j]).0,
        ) by {
            if j < a.len() {
                assert(e[i] == a[i] && e[j] == a[j]);
            } else if i >= a.len() {
                assert(e[i] == b[i - a.len()] && e[j] == b[j - a.len()]);
            } else {
                assert(e[i] == a[i] && e[j] == b[j - a.len()]);
                assert(within(a[i].0, None, Some(seps[n - 2])));
                assert(within(b[j - a.len()].0, Some(seps[n - 2]), upper(seps, hi, n - 1)));
            }
        }
    }
}

/// The child a key belongs to: everything before it sorts before the key and
/// everything after it sorts after.
pub proof fn lemma_route<V>(
    seps: Seq<Seq<u8>>,
    kids: Seq<Shape<V>>,
    lo: Bound,
    hi: Bound,
    low: int,
    key: Seq<u8>,
    at: int,
)
    requires
        fenced(seps, kids, lo, hi, low),
        within(key, lo, hi),
        0 <= at <= seps.len(),
        forall|i: int| 0 <= i < at ==> bytes::le(#[trigger] seps[i], key),
        forall|i: int| at <= i < seps.len() ==> bytes::lt(key, #[trigger] seps[i]),
    ensures
        within(key, lower(seps, lo, at), upper(seps, hi, at)),
        entries::sorted(kids[at].entries()),
        ({
            let a = all(kids.subrange(0, at));
            forall|i: int| 0 <= i < a.len() ==> bytes::lt((#[trigger] a[i]).0, key)
        }),
        ({
            let b = all(kids.subrange(at + 1, kids.len() as int));
            forall|i: int| 0 <= i < b.len() ==> bytes::lt(key, (#[trigger] b[i]).0)
        }),
        all(kids) == all(kids.subrange(0, at)) + kids[at].entries() + all(
            kids.subrange(at + 1, kids.len() as int),
        ),
{
    broadcast use crate::bytes::group_order;

    lemma_fenced_entries(seps, kids, lo, hi, low);
    lemma_all_around(kids, at);
    let p = kids.subrange(0, at);
    let q = kids.subrange(at + 1, kids.len() as int);
    if at > 0 {
        let fence = seps[at - 1];
        assert forall|i: int| 0 <= i < p.len() implies all_within(
            (#[trigger] p[i]).entries(),
            None,
            Some(fence),
        ) by {
            assert(p[i] == kids[i]);
            if i < at - 1 {
                assert(bytes::lt(seps[i], seps[at - 1]));
            }
            lemma_widen(kids[i].entries(), lower(seps, lo, i), upper(seps, hi, i), None, Some(fence));
        }
        lemma_all_within(p, None, Some(fence));
        let a = all(p);
        assert forall|i: int| 0 <= i < a.len() implies bytes::lt((#[trigger] a[i]).0, key) by {
            assert(within(a[i].0, None, Some(fence)));
            assert(bytes::le(seps[at - 1], key));
        }
    } else {
        assert(p =~= Seq::empty());
    }
    if at < seps.len() {
        let fence = seps[at];
        assert forall|i: int| 0 <= i < q.len() implies all_within(
            (#[trigger] q[i]).entries(),
            Some(fence),
            None,
        ) by {
            assert(q[i] == kids[at + 1 + i]);
            if i > 0 {
                assert(bytes::lt(seps[at], seps[at + i]));
            }
            lemma_widen(
                kids[at + 1 + i].entries(),
                lower(seps, lo, at + 1 + i),
                upper(seps, hi, at + 1 + i),
                Some(fence),
                None,
            );
        }
        lemma_all_within(q, Some(fence), None);
        let b = all(q);
        assert forall|i: int| 0 <= i < b.len() implies bytes::lt(key, (#[trigger] b[i]).0) by {
            assert(within(b[i].0, Some(fence), None));
            assert(bytes::lt(key, seps[at]));
        }
    } else {
        assert(q =~= Seq::empty());
    }
}

// ------------------------------------------------------------------- reshaping

/// A child replaced by another that stands for the same range.
pub proof fn lemma_replace<V>(
    seps: Seq<Seq<u8>>,
    kids: Seq<Shape<V>>,
    lo: Bound,
    hi: Bound,
    at: int,
    kid: Shape<V>,
    low: int,
)
    requires
        fenced(seps, kids, lo, hi, -1),
        0 <= at < kids.len(),
        low == at || low == -1,
        kid.wf(lower(seps, lo, at), upper(seps, hi, at), least(at, low), ORDER as nat),
        kid.height() == kids[at].height(),
    ensures
        fenced(seps, kids.update(at, kid), lo, hi, low),
{
    let n = kids.update(at, kid);
    assert(kids[0].height() == kids[at].height());
    assert forall|i: int| 0 <= i < n.len() implies (#[trigger] n[i]).height() == n[0].height() by {
        assert(kids[i].height() == kids[0].height());
    }
    assert forall|i: int| 0 <= i < n.len() implies (#[trigger] n[i]).wf(
        lower(seps, lo, i),
        upper(seps, hi, i),
        least(i, low),
        ORDER as nat,
    ) by {
        if i != at {
            assert(n[i] == kids[i]);
        }
    }
}

/// A child that split: its two halves, with the first key of the right one
/// between them.
pub proof fn lemma_insert_kid<V>(
    seps: Seq<Seq<u8>>,
    kids: Seq<Shape<V>>,
    lo: Bound,
    hi: Bound,
    at: int,
    left: Shape<V>,
    sep: Seq<u8>,
    right: Shape<V>,
)
    requires
        fenced(seps, kids, lo, hi, -1),
        0 <= at < kids.len(),
        left.wf(lower(seps, lo, at), Some(sep), MIN as nat, ORDER as nat),
        right.wf(Some(sep), upper(seps, hi, at), MIN as nat, ORDER as nat),
        left.height() == kids[at].height(),
        right.height() == kids[at].height(),
        between(sep, lower(seps, lo, at), upper(seps, hi, at)),
    ensures
        fenced(
            seps.insert(at, sep),
            kids.update(at, left).insert(at + 1, right),
            lo,
            hi,
            -1,
        ),
{
    broadcast use crate::bytes::group_order;

    let s = seps.insert(at, sep);
    let n = kids.update(at, left).insert(at + 1, right);
    if at > 0 {
        assert(between(seps[at - 1], lo, hi));
    }
    if at < seps.len() {
        assert(between(seps[at], lo, hi));
    }
    assert(between(sep, lo, hi));
    assert forall|i: int, j: int| 0 <= i < j < s.len() implies bytes::lt(
        #[trigger] s[i],
        #[trigger] s[j],
    ) by {
        let x = if i < at { i } else { i - 1 };
        let y = if j < at { j } else { j - 1 };
        if i != at && j != at {
            assert(bytes::lt(seps[x], seps[y]));
        } else if i == at {
            if y > at {
                assert(bytes::lt(seps[at], seps[y]));
            }
        } else {
            if x < at - 1 {
                assert(bytes::lt(seps[x], seps[at - 1]));
            }
        }
    }
    assert forall|i: int| 0 <= i < s.len() implies between(#[trigger] s[i], lo, hi) by {
        if i != at {
            let x = if i < at { i } else { i - 1 };
            assert(between(seps[x], lo, hi));
        }
    }
    assert(kids[at].height() == kids[0].height());
    assert forall|i: int| 0 <= i < n.len() implies (#[trigger] n[i]).height() == n[0].height() by {
        let x = if i <= at { i } else { i - 1 };
        assert(kids[x].height() == kids[0].height());
    }
    assert forall|i: int| 0 <= i < n.len() implies (#[trigger] n[i]).wf(
        lower(s, lo, i),
        upper(s, hi, i),
        least(i, -1),
        ORDER as nat,
    ) by {
        if i < at {
            assert(n[i] == kids[i]);
            assert(upper(s, hi, i) == upper(seps, hi, i));
            assert(lower(s, lo, i) == lower(seps, lo, i));
        } else if i > at + 1 {
            assert(n[i] == kids[i - 1]);
            assert(upper(s, hi, i) == upper(seps, hi, i - 1));
            assert(lower(s, lo, i) == lower(seps, lo, i - 1));
        } else if i == at {
            assert(lower(s, lo, i) == lower(seps, lo, i));
        } else {
            assert(upper(s, hi, i) == upper(seps, hi, at));
        }
    }
}

/// A run of children cut in two at `at`, under the separator that was there.
pub proof fn lemma_split<V>(
    seps: Seq<Seq<u8>>,
    kids: Seq<Shape<V>>,
    lo: Bound,
    hi: Bound,
    at: int,
)
    requires
        fenced(seps, kids, lo, hi, -1),
        0 < at < kids.len(),
    ensures
        fenced(seps.subrange(0, at - 1), kids.subrange(0, at), lo, Some(seps[at - 1]), -1),
        fenced(
            seps.subrange(at, seps.len() as int),
            kids.subrange(at, kids.len() as int),
            Some(seps[at - 1]),
            hi,
            -1,
        ),
        between(seps[at - 1], lo, hi),
        all(kids) == all(kids.subrange(0, at)) + all(kids.subrange(at, kids.len() as int)),
{
    let sep = seps[at - 1];
    let (s, n) = (seps.subrange(0, at - 1), kids.subrange(0, at));
    let (t, m) = (seps.subrange(at, seps.len() as int), kids.subrange(at, kids.len() as int));
    assert(kids =~= n + m);
    lemma_all_concat(n, m);
    assert forall|i: int| 0 <= i < s.len() implies between(#[trigger] s[i], lo, Some(sep)) by {
        assert(between(seps[i], lo, hi));
        assert(bytes::lt(seps[i], seps[at - 1]));
    }
    assert forall|i: int| 0 <= i < t.len() implies between(#[trigger] t[i], Some(sep), hi) by {
        assert(between(seps[at + i], lo, hi));
        assert(bytes::lt(seps[at - 1], seps[at + i]));
    }
    assert forall|i: int| 0 <= i < n.len() implies (#[trigger] n[i]).wf(
        lower(s, lo, i),
        upper(s, Some(sep), i),
        least(i, -1),
        ORDER as nat,
    ) by {
        assert(n[i] == kids[i]);
        assert(lower(s, lo, i) == lower(seps, lo, i));
        assert(upper(s, Some(sep), i) == upper(seps, hi, i));
    }
    assert forall|i: int| 0 <= i < m.len() implies (#[trigger] m[i]).wf(
        lower(t, Some(sep), i),
        upper(t, hi, i),
        least(i, -1),
        ORDER as nat,
    ) by {
        assert(m[i] == kids[at + i]);
        assert(lower(t, Some(sep), i) == lower(seps, lo, at + i));
        assert(upper(t, hi, i) == upper(seps, hi, at + i));
    }
    assert forall|i: int| 0 <= i < n.len() implies (#[trigger] n[i]).height() == n[0].height() by {
        assert(n[i] == kids[i]);
    }
    assert forall|i: int| 0 <= i < m.len() implies (#[trigger] m[i]).height() == m[0].height() by {
        assert(m[i] == kids[at + i]);
        assert(kids[at].height() == kids[0].height());
    }
}

/// Two runs of children set side by side, with the separator that stood
/// between them.
pub proof fn lemma_join<V>(
    s: Seq<Seq<u8>>,
    n: Seq<Shape<V>>,
    sep: Seq<u8>,
    t: Seq<Seq<u8>>,
    m: Seq<Shape<V>>,
    lo: Bound,
    hi: Bound,
)
    requires
        fenced(s, n, lo, Some(sep), -1),
        fenced(t, m, Some(sep), hi, -1),
        n[0].height() == m[0].height(),
        between(sep, lo, hi),
    ensures
        fenced(s.push(sep) + t, n + m, lo, hi, -1),
        all(n + m) == all(n) + all(m),
{
    broadcast use crate::bytes::group_order;

    lemma_all_concat(n, m);
    let seps = s.push(sep) + t;
    let kids = n + m;
    assert forall|i: int| 0 <= i < seps.len() implies between(#[trigger] seps[i], lo, hi) by {
        if i < s.len() {
            assert(seps[i] == s[i]);
            assert(between(s[i], lo, Some(sep)));
        } else if i > s.len() {
            assert(seps[i] == t[i - s.len() - 1]);
            assert(between(t[i - s.len() - 1], Some(sep), hi));
        }
    }
    assert forall|i: int, j: int| 0 <= i < j < seps.len() implies bytes::lt(
        #[trigger] seps[i],
        #[trigger] seps[j],
    ) by {
        if i < s.len() {
            assert(seps[i] == s[i]);
            assert(between(s[i], lo, Some(sep)));
        }
        if j > s.len() {
            assert(seps[j] == t[j - s.len() - 1]);
            assert(between(t[j - s.len() - 1], Some(sep), hi));
        }
        if j < s.len() {
            assert(seps[j] == s[j]);
            assert(bytes::lt(s[i], s[j]));
        } else if i > s.len() {
            assert(seps[i] == t[i - s.len() - 1]);
            assert(bytes::lt(t[i - s.len() - 1], t[j - s.len() - 1]));
        }
    }
    assert forall|i: int| 0 <= i < kids.len() implies (#[trigger] kids[i]).height()
        == kids[0].height() by {
        if i < n.len() {
            assert(kids[i] == n[i]);
        } else {
            assert(kids[i] == m[i - n.len()]);
        }
    }
    assert forall|i: int| 0 <= i < kids.len() implies (#[trigger] kids[i]).wf(
        lower(seps, lo, i),
        upper(seps, hi, i),
        least(i, -1),
        ORDER as nat,
    ) by {
        if i < n.len() {
            assert(kids[i] == n[i]);
            assert(lower(seps, lo, i) == lower(s, lo, i));
            assert(upper(seps, hi, i) == upper(s, Some(sep), i));
        } else {
            let j = i - n.len();
            assert(kids[i] == m[j]);
            assert(lower(seps, lo, i) == lower(t, Some(sep), j));
            assert(upper(seps, hi, i) == upper(t, hi, j));
        }
    }
}

/// Two neighbours with a child moved between them: the children of both, parted
/// at another place, under the separator that stands there.
pub proof fn lemma_trade<V>(
    s: Seq<Seq<u8>>,
    n: Seq<Shape<V>>,
    sep: Seq<u8>,
    t: Seq<Seq<u8>>,
    m: Seq<Shape<V>>,
    lo: Bound,
    hi: Bound,
    at: int,
)
    requires
        fenced(s, n, lo, Some(sep), -1),
        fenced(t, m, Some(sep), hi, -1),
        n[0].height() == m[0].height(),
        between(sep, lo, hi),
        MIN <= at <= ORDER,
        MIN <= n.len() + m.len() - at <= ORDER,
    ensures
        ({
            let seps = s.push(sep) + t;
            let kids = n + m;
            let left = Shape::Branch { seps: seps.subrange(0, at - 1), kids: kids.subrange(0, at) };
            let right = Shape::Branch {
                seps: seps.subrange(at, seps.len() as int),
                kids: kids.subrange(at, kids.len() as int),
            };
            halves(all(n) + all(m), left, seps[at - 1], right, lo, hi)
        }),
{
    let kids = n + m;
    lemma_join(s, n, sep, t, m, lo, hi);
    lemma_split(s.push(sep) + t, kids, lo, hi, at);
    assert(kids[at].height() == kids[0].height());
}

/// Two neighbours folded into one node.
pub proof fn lemma_merge_kids<V>(
    seps: Seq<Seq<u8>>,
    kids: Seq<Shape<V>>,
    lo: Bound,
    hi: Bound,
    low: int,
    left: int,
    kid: Shape<V>,
)
    requires
        fenced(seps, kids, lo, hi, low),
        0 <= left < seps.len(),
        low == left || low == left + 1,
        kid.wf(lower(seps, lo, left), upper(seps, hi, left + 1), MIN as nat, ORDER as nat),
        kid.height() == kids[left].height(),
        kid.entries() == kids[left].entries() + kids[left + 1].entries(),
    ensures
        fenced(seps.remove(left), kids.remove(left + 1).update(left, kid), lo, hi, -1),
        all(kids.remove(left + 1).update(left, kid)) == all(kids),
{
    let s = seps.remove(left);
    let n = kids.remove(left + 1).update(left, kid);
    assert(kids[left].height() == kids[0].height());
    assert forall|i: int, j: int| 0 <= i < j < s.len() implies bytes::lt(
        #[trigger] s[i],
        #[trigger] s[j],
    ) by {
        let x = if i < left { i } else { i + 1 };
        let y = if j < left { j } else { j + 1 };
        assert(bytes::lt(seps[x], seps[y]));
    }
    assert forall|i: int| 0 <= i < s.len() implies between(#[trigger] s[i], lo, hi) by {
        let x = if i < left { i } else { i + 1 };
        assert(between(seps[x], lo, hi));
    }
    assert forall|i: int| 0 <= i < n.len() implies (#[trigger] n[i]).height() == n[0].height() by {
        let x = if i <= left { i } else { i + 1 };
        assert(kids[x].height() == kids[0].height());
    }
    assert forall|i: int| 0 <= i < n.len() implies (#[trigger] n[i]).wf(
        lower(s, lo, i),
        upper(s, hi, i),
        least(i, -1),
        ORDER as nat,
    ) by {
        if i < left {
            assert(n[i] == kids[i]);
            assert(lower(s, lo, i) == lower(seps, lo, i));
            assert(upper(s, hi, i) == upper(seps, hi, i));
        } else if i > left {
            assert(n[i] == kids[i + 1]);
            assert(lower(s, lo, i) == lower(seps, lo, i + 1));
            assert(upper(s, hi, i) == upper(seps, hi, i + 1));
        } else {
            assert(lower(s, lo, i) == lower(seps, lo, i));
            assert(upper(s, hi, i) == upper(seps, hi, i + 1));
        }
    }
    lemma_all_around_two(kids, left);
    lemma_all_around(n, left);
    assert(n.subrange(0, left) =~= kids.subrange(0, left));
    assert(n.subrange(left + 1, n.len() as int) =~= kids.subrange(left + 2, kids.len() as int));
}

/// Two neighbours that moved something across, under a new separator.
pub proof fn lemma_refile<V>(
    seps: Seq<Seq<u8>>,
    kids: Seq<Shape<V>>,
    lo: Bound,
    hi: Bound,
    low: int,
    left: int,
    l: Shape<V>,
    r: Shape<V>,
    sep: Seq<u8>,
)
    requires
        fenced(seps, kids, lo, hi, low),
        0 <= left < seps.len(),
        low == left || low == left + 1,
        l.wf(lower(seps, lo, left), Some(sep), MIN as nat, ORDER as nat),
        r.wf(Some(sep), upper(seps, hi, left + 1), MIN as nat, ORDER as nat),
        l.height() == kids[left].height(),
        r.height() == kids[left].height(),
        between(sep, lower(seps, lo, left), upper(seps, hi, left + 1)),
        l.entries() + r.entries() == kids[left].entries() + kids[left + 1].entries(),
    ensures
        fenced(seps.update(left, sep), kids.update(left, l).update(left + 1, r), lo, hi, -1),
        all(kids.update(left, l).update(left + 1, r)) == all(kids),
{
    broadcast use crate::bytes::group_order;

    let s = seps.update(left, sep);
    let n = kids.update(left, l).update(left + 1, r);
    assert(kids[left].height() == kids[0].height());
    if left > 0 {
        assert(between(seps[left - 1], lo, hi));
    }
    if left + 1 < seps.len() {
        assert(between(seps[left + 1], lo, hi));
    }
    assert(between(sep, lo, hi));
    assert forall|i: int, j: int| 0 <= i < j < s.len() implies bytes::lt(
        #[trigger] s[i],
        #[trigger] s[j],
    ) by {
        if i != left && j != left {
            assert(bytes::lt(seps[i], seps[j]));
        } else if i == left {
            if j > left + 1 {
                assert(bytes::lt(seps[left + 1], seps[j]));
            }
        } else {
            if i < left - 1 {
                assert(bytes::lt(seps[i], seps[left - 1]));
            }
        }
    }
    assert forall|i: int| 0 <= i < s.len() implies between(#[trigger] s[i], lo, hi) by {
        if i != left {
            assert(between(seps[i], lo, hi));
        }
    }
    assert forall|i: int| 0 <= i < n.len() implies (#[trigger] n[i]).height() == n[0].height() by {
        assert(kids[i].height() == kids[0].height());
    }
    assert forall|i: int| 0 <= i < n.len() implies (#[trigger] n[i]).wf(
        lower(s, lo, i),
        upper(s, hi, i),
        least(i, -1),
        ORDER as nat,
    ) by {
        if i != left && i != left + 1 {
            assert(n[i] == kids[i]);
            assert(lower(s, lo, i) == lower(seps, lo, i));
            assert(upper(s, hi, i) == upper(seps, hi, i));
        }
    }
    lemma_all_around_two(kids, left);
    lemma_all_around_two(n, left);
    assert(n.subrange(0, left) =~= kids.subrange(0, left));
    assert(n.subrange(left + 2, n.len() as int) =~= kids.subrange(left + 2, kids.len() as int));
}

/// A leaf cut in two at `at`, under the first key of the right half.
pub proof fn lemma_split_leaf<V>(e: Entries<V>, lo: Bound, hi: Bound, at: int)
    requires
        entries::sorted(e),
        all_within(e, lo, hi),
        0 < at < e.len(),
    ensures
        entries::sorted(e.subrange(0, at)),
        entries::sorted(e.subrange(at, e.len() as int)),
        all_within(e.subrange(0, at), lo, Some(e[at].0)),
        all_within(e.subrange(at, e.len() as int), Some(e[at].0), hi),
        between(e[at].0, lo, hi),
        e == e.subrange(0, at) + e.subrange(at, e.len() as int),
{
    broadcast use crate::bytes::group_order;

    let (a, b) = (e.subrange(0, at), e.subrange(at, e.len() as int));
    assert(e =~= a + b);
    assert(within(e[0].0, lo, hi));
    assert(within(e[at].0, lo, hi));
    assert(bytes::lt(e[0].0, e[at].0));
    assert forall|i: int| 0 <= i < a.len() implies within(
        (#[trigger] a[i]).0,
        lo,
        Some(e[at].0),
    ) by {
        assert(a[i] == e[i]);
        assert(bytes::lt(e[i].0, e[at].0));
    }
    assert forall|i: int| 0 <= i < b.len() implies within(
        (#[trigger] b[i]).0,
        Some(e[at].0),
        hi,
    ) by {
        assert(b[i] == e[at + i]);
        if i > 0 {
            assert(bytes::lt(e[at].0, e[at + i].0));
        }
    }
}

/// Two neighbouring leaves' entries set side by side.
pub proof fn lemma_join_leaves<V>(a: Entries<V>, b: Entries<V>, lo: Bound, sep: Seq<u8>, hi: Bound)
    requires
        entries::sorted(a),
        entries::sorted(b),
        all_within(a, lo, Some(sep)),
        all_within(b, Some(sep), hi),
        between(sep, lo, hi),
    ensures
        entries::sorted(a + b),
        all_within(a + b, lo, hi),
{
    broadcast use crate::bytes::group_order;

    let e = a + b;
    assert forall|i: int, j: int| 0 <= i < j < e.len() implies bytes::lt(
        (#[trigger] e[i]).0,
        (#[trigger] e[j]).0,
    ) by {
        if j < a.len() {
            assert(e[i] == a[i] && e[j] == a[j]);
        } else if i >= a.len() {
            assert(e[i] == b[i - a.len()] && e[j] == b[j - a.len()]);
        } else {
            assert(e[i] == a[i] && e[j] == b[j - a.len()]);
            assert(within(a[i].0, lo, Some(sep)));
            assert(within(b[j - a.len()].0, Some(sep), hi));
        }
    }
    assert forall|i: int| 0 <= i < e.len() implies within((#[trigger] e[i]).0, lo, hi) by {
        if i < a.len() {
            assert(e[i] == a[i]);
        } else {
            assert(e[i] == b[i - a.len()]);
        }
    }
}

/// A child that was taken from and still holds enough.
pub proof fn lemma_full_enough<V>(
    seps: Seq<Seq<u8>>,
    kids: Seq<Shape<V>>,
    lo: Bound,
    hi: Bound,
    low: int,
)
    requires
        fenced(seps, kids, lo, hi, low),
        0 <= low < kids.len(),
        kids[low].len() >= MIN,
    ensures
        fenced(seps, kids, lo, hi, -1),
{
    assert forall|i: int| 0 <= i < kids.len() implies (#[trigger] kids[i]).wf(
        lower(seps, lo, i),
        upper(seps, hi, i),
        least(i, -1),
        ORDER as nat,
    ) by {
        assert(kids[i].wf(lower(seps, lo, i), upper(seps, hi, i), least(i, low), ORDER as nat));
    }
}

/// A subtree that holds something is sought from its lower bound without
/// coming up empty.
pub proof fn lemma_catches<V>(s: Shape<V>, lo: Seq<u8>, hi: Bound, min: nat)
    requires
        s.wf(Some(lo), hi, min, ORDER as nat),
        min > 0,
    ensures
        catches(s, lo),
    decreases s,
{
    match s {
        Shape::Leaf(e) => {
            assert forall|j: int| 0 <= j < e.len() implies !bytes::lt((#[trigger] e[j]).0, lo) by {
                assert(within(e[j].0, Some(lo), hi));
            }
            entries::lemma_slot(e, lo, 0);
        },
        Shape::Branch { seps, kids } => {
            assert(kids[0].wf(lower(seps, Some(lo), 0), upper(seps, hi, 0), least(0, -1), ORDER as nat));
            lemma_catches(kids[0], lo, upper(seps, hi, 0), MIN as nat);
            if seps.len() > 0 {
                assert(between(seps[0], Some(lo), hi));
            }
        },
    }
}

/// A key in the range of child `at` belongs there.
pub proof fn lemma_child_range<V>(
    seps: Seq<Seq<u8>>,
    kids: Seq<Shape<V>>,
    lo: Bound,
    hi: Bound,
    key: Seq<u8>,
    at: int,
)
    requires
        fenced(seps, kids, lo, hi, -1),
        0 <= at < kids.len(),
        within(key, lower(seps, lo, at), upper(seps, hi, at)),
    ensures
        within(key, lo, hi),
        forall|i: int| 0 <= i < at ==> bytes::le(#[trigger] seps[i], key),
        forall|i: int| at <= i < seps.len() ==> bytes::lt(key, #[trigger] seps[i]),
{
    broadcast use crate::bytes::group_order;

    assert forall|i: int| 0 <= i < at implies bytes::le(#[trigger] seps[i], key) by {
        if i < at - 1 {
            assert(bytes::lt(seps[i], seps[at - 1]));
        }
    }
    assert forall|i: int| at <= i < seps.len() implies bytes::lt(key, #[trigger] seps[i]) by {
        if i > at {
            assert(bytes::lt(seps[at], seps[i]));
        }
    }
    if at > 0 {
        assert(between(seps[at - 1], lo, hi));
    }
    if at < seps.len() {
        assert(between(seps[at], lo, hi));
    }
}

/// A seek that finds nothing in child `at` goes on from the separator after it.
pub proof fn lemma_past_child<V>(
    seps: Seq<Seq<u8>>,
    kids: Seq<Shape<V>>,
    lo: Bound,
    hi: Bound,
    key: Seq<u8>,
    at: int,
)
    requires
        fenced(seps, kids, lo, hi, -1),
        0 <= at < seps.len(),
        within(key, lower(seps, lo, at), upper(seps, hi, at)),
        entries::run_from(kids[at].entries(), key).len() == 0,
    ensures
        entries::run_from(all(kids), seps[at]) == entries::run_from(all(kids), key),
        catches(Shape::Branch { seps, kids }, seps[at]),
        within(seps[at], lo, hi),
{
    broadcast use crate::bytes::group_order;

    let f = seps[at];
    let e = all(kids);
    lemma_child_range(seps, kids, lo, hi, key, at);
    lemma_route(seps, kids, lo, hi, -1, key, at);
    let a = all(kids.subrange(0, at));
    let c = kids[at].entries();
    let b = all(kids.subrange(at + 1, kids.len() as int));
    entries::lemma_middle(a, c, b, key);
    entries::lemma_slot_exists(c, key);
    let s = a.len() + c.len();
    assert(entries::slot(e, key) == s);
    if at + 1 < seps.len() {
        assert(bytes::lt(seps[at], seps[at + 1]));
    }
    assert(between(seps[at], lo, hi));
    lemma_child_range(seps, kids, lo, hi, f, at + 1);
    lemma_route(seps, kids, lo, hi, -1, f, at + 1);
    let a2 = all(kids.subrange(0, at + 1));
    let c2 = kids[at + 1].entries();
    let b2 = all(kids.subrange(at + 2, kids.len() as int));
    assert(kids.subrange(0, at + 1) =~= kids.subrange(0, at).push(kids[at]));
    lemma_all_push(kids.subrange(0, at), kids[at]);
    let next = kids[at + 1];
    let up = upper(seps, hi, at + 1);
    assert(next.wf(lower(seps, lo, at + 1), up, least(at + 1, -1), ORDER as nat));
    lemma_entries(next, Some(f), up, MIN as nat, ORDER as nat);
    assert forall|j: int| 0 <= j < s implies bytes::lt((#[trigger] e[j]).0, f) by {
        assert(e[j] == a2[j]);
    }
    assert forall|j: int| s <= j < e.len() implies !bytes::lt((#[trigger] e[j]).0, f) by {
        if j < s + c2.len() {
            assert(e[j] == c2[j - s]);
            assert(within(c2[j - s].0, Some(f), up));
        } else {
            assert(e[j] == b2[j - s - c2.len()]);
        }
    }
    entries::lemma_slot(e, f, s as int);
    lemma_catches(next, f, up, MIN as nat);
    lemma_catches_child(seps, kids, lo, hi, f, at + 1);
}

/// A seek into child `at` is a seek into the branch.
pub proof fn lemma_catches_child<V>(
    seps: Seq<Seq<u8>>,
    kids: Seq<Shape<V>>,
    lo: Bound,
    hi: Bound,
    key: Seq<u8>,
    at: int,
)
    requires
        fenced(seps, kids, lo, hi, -1),
        0 <= at < kids.len(),
        within(key, lower(seps, lo, at), upper(seps, hi, at)),
    ensures
        catches(Shape::Branch { seps, kids }, key) == catches(kids[at], key),
{
    broadcast use crate::bytes::group_order;

    let s = Shape::Branch { seps, kids };
    lemma_child_range(seps, kids, lo, hi, key, at);
    if catches(s, key) {
        let i = choose|i: int|
            {
                &&& 0 <= i < kids.len()
                &&& i > 0 ==> bytes::le(seps[i - 1], key)
                &&& i < seps.len() ==> bytes::lt(key, seps[i])
                &&& catches(#[trigger] kids[i], key)
            };
        if i < at {
            assert(bytes::le(seps[i], key));
        }
        if i > at {
            assert(bytes::lt(key, seps[i - 1]));
        }
        assert(i == at);
    }
    if catches(kids[at], key) {
        if at > 0 {
            assert(bytes::le(seps[at - 1], key));
        }
        if at < seps.len() {
            assert(bytes::lt(key, seps[at]));
        }
        assert(s->seps == seps && s->kids == kids);
        assert(s->kids[at] == kids[at]);
        assert(catches(s, key));
    }
}

// -------------------------------------------------------------------- depth

/// Nodes this full hold sixteen times more with every level.
pub proof fn lemma_depth<V>(s: Shape<V>, lo: Bound, hi: Bound, min: nat)
    requires
        s.wf(lo, hi, min, ORDER as nat),
    ensures
        s.entries().len() >= min * power::pow(MIN as int, s.height()),
    decreases s, 1int,
{
    broadcast use vstd::arithmetic::power::lemma_pow_positive;

    match s {
        Shape::Leaf(e) => {
            power::lemma_pow0(MIN as int);
            assert(min * 1 == min) by (nonlinear_arith);
        },
        Shape::Branch { seps, kids } => {
            let h = kids[0].height();
            lemma_depth_all(seps, kids, lo, hi, kids.len() as int);
            assert(kids.subrange(0, kids.len() as int) =~= kids);
            power::lemma_pow_adds(MIN as int, 1, h);
            power::lemma_pow1(MIN as int);
            let unit = power::pow(MIN as int, s.height());
            assert(kids.len() * unit >= min * unit) by (nonlinear_arith)
                requires
                    kids.len() >= min,
                    unit >= 0,
            ;
        },
    }
}

proof fn lemma_depth_all<V>(
    seps: Seq<Seq<u8>>,
    kids: Seq<Shape<V>>,
    lo: Bound,
    hi: Bound,
    n: int,
)
    requires
        fenced(seps, kids, lo, hi, -1),
        0 <= n <= kids.len(),
    ensures
        all(kids.subrange(0, n)).len() >= n * (MIN * power::pow(MIN as int, kids[0].height())),
    decreases kids, n,
{
    let unit = MIN * power::pow(MIN as int, kids[0].height());
    if n == 0 {
        assert(0 * unit == 0) by (nonlinear_arith);
    } else {
        let kid = kids[n - 1];
        lemma_depth_all(seps, kids, lo, hi, n - 1);
        assert(kid.wf(lower(seps, lo, n - 1), upper(seps, hi, n - 1), least(n - 1, -1), ORDER as nat));
        lemma_depth(kid, lower(seps, lo, n - 1), upper(seps, hi, n - 1), MIN as nat);
        assert(kids.subrange(0, n) =~= kids.subrange(0, n - 1).push(kid));
        lemma_all_push(kids.subrange(0, n - 1), kid);
        assert(kid.height() == kids[0].height());
        assert((n - 1) * unit + unit == n * unit) by (nonlinear_arith);
    }
}

} // verus!
