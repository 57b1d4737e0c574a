//! Byte strings and the lexicographic order the trees keep them in.

use vstd::prelude::*;

verus! {

// ---------------------------------------------------------------------- model

/// How many leading bytes two strings have in common.
pub open spec fn common(a: Seq<u8>, b: Seq<u8>) -> nat
    decreases a.len(),
{
    if a.len() == 0 || b.len() == 0 || a[0] != b[0] {
        0
    } else {
        1 + common(a.drop_first(), b.drop_first())
    }
}

/// Lexicographic order: at the first place the strings part, `a` has ended or
/// holds the smaller byte.
pub closed spec fn lt(a: Seq<u8>, b: Seq<u8>) -> bool {
    let i = common(a, b) as int;
    i < b.len() && (i == a.len() || a[i] < b[i])
}

/// `a` sorts at or before `b`.
#[verifier::inline]
pub open spec fn le(a: Seq<u8>, b: Seq<u8>) -> bool {
    !lt(b, a)
}

/// Each string sorts before every one that follows it.
pub open spec fn ascending(keys: Seq<Seq<u8>>) -> bool {
    forall|i: int, j: int|
        #![trigger keys[i], keys[j]]
        0 <= i < j < keys.len() ==> lt(keys[i], keys[j])
}

/// `key` begins with `prefix`.
pub open spec fn begins(key: Seq<u8>, prefix: Seq<u8>) -> bool {
    prefix.len() <= key.len() && key.subrange(0, prefix.len() as int) == prefix
}

// --------------------------------------------------------------------- lemmas

pub proof fn lemma_common(a: Seq<u8>, b: Seq<u8>)
    ensures
        common(a, b) <= a.len(),
        common(a, b) <= b.len(),
        forall|j: int| 0 <= j < common(a, b) ==> a[j] == b[j],
        common(a, b) == a.len() || common(a, b) == b.len() || a[common(a, b) as int]
            != b[common(a, b) as int],
    decreases a.len(),
{
    if !(a.len() == 0 || b.len() == 0 || a[0] != b[0]) {
        let (c, d) = (a.drop_first(), b.drop_first());
        lemma_common(c, d);
        assert forall|j: int| 0 <= j < common(a, b) implies a[j] == b[j] by {
            if j > 0 {
                assert(c[j - 1] == d[j - 1]);
            }
        }
    }
}

/// How two strings compare shows where they part.
pub proof fn lemma_lt_at(a: Seq<u8>, b: Seq<u8>)
    ensures
        lt(a, b) == ({
            let i = common(a, b) as int;
            i < b.len() && (i == a.len() || a[i] < b[i])
        }),
{
}

/// The place two strings part at is the only one.
pub proof fn lemma_parts_at(a: Seq<u8>, b: Seq<u8>, i: nat)
    requires
        i <= a.len(),
        i <= b.len(),
        forall|j: int| 0 <= j < i ==> a[j] == b[j],
        i == a.len() || i == b.len() || a[i as int] != b[i as int],
    ensures
        common(a, b) == i,
{
    lemma_common(a, b);
    let c = common(a, b);
    if c < i {
        assert(a[c as int] == b[c as int]);
    }
    if i < c {
        assert(a[i as int] == b[i as int]);
    }
}

pub broadcast proof fn lemma_lt_irreflexive(a: Seq<u8>)
    ensures
        !(#[trigger] lt(a, a)),
{
    lemma_parts_at(a, a, a.len());
}

/// Of two different strings exactly one sorts first.
pub broadcast proof fn lemma_lt_total(a: Seq<u8>, b: Seq<u8>)
    ensures
        #![trigger lt(a, b)]
        lt(a, b) ==> !lt(b, a),
        lt(a, b) || lt(b, a) || a == b,
{
    lemma_common(a, b);
    lemma_parts_at(b, a, common(a, b));
    if common(a, b) == a.len() && common(a, b) == b.len() {
        assert(a =~= b);
    }
}

pub broadcast proof fn lemma_lt_transitive(a: Seq<u8>, b: Seq<u8>, c: Seq<u8>)
    requires
        #[trigger] lt(a, b),
        #[trigger] lt(b, c),
    ensures
        lt(a, c),
{
    lemma_common(a, b);
    lemma_common(b, c);
    let i = common(a, b);
    let j = common(b, c);
    if i <= j {
        assert forall|k: int| 0 <= k < i implies a[k] == c[k] by {
            assert(a[k] == b[k] && b[k] == c[k]);
        }
        if i < j {
            assert(b[i as int] == c[i as int]);
        }
        lemma_parts_at(a, c, i);
    } else {
        assert forall|k: int| 0 <= k < j implies a[k] == c[k] by {
            assert(a[k] == b[k] && b[k] == c[k]);
        }
        assert(a[j as int] == b[j as int]);
        lemma_parts_at(a, c, j);
    }
}

/// The order of byte strings, as a strict total order.
pub broadcast group group_order {
    lemma_lt_irreflexive,
    lemma_lt_total,
    lemma_lt_transitive,
}

/// A shared head does not change how two strings compare.
pub proof fn lemma_lt_under_prefix(p: Seq<u8>, a: Seq<u8>, b: Seq<u8>)
    ensures
        lt(p + a, p + b) == lt(a, b),
{
    lemma_common(a, b);
    let i = common(a, b);
    let (pa, pb) = (p + a, p + b);
    assert forall|j: int| 0 <= j < p.len() + i implies pa[j] == pb[j] by {
        if j >= p.len() {
            assert(pa[j] == a[j - p.len()] && pb[j] == b[j - p.len()]);
        }
    }
    if i < a.len() && i < b.len() {
        assert(pa[(p.len() + i) as int] == a[i as int] && pb[(p.len() + i) as int] == b[i as int]);
    }
    lemma_parts_at(pa, pb, p.len() + i);
}

/// A strict prefix sorts before what it is a prefix of.
pub proof fn lemma_prefix_first(a: Seq<u8>, b: Seq<u8>)
    requires
        begins(b, a),
        a != b,
    ensures
        lt(a, b),
{
    assert forall|j: int| 0 <= j < a.len() implies a[j] == b[j] by {
        assert(b.subrange(0, a.len() as int)[j] == b[j]);
    }
    if a.len() == b.len() {
        assert(a =~= b);
    }
    lemma_parts_at(a, b, a.len());
}

/// Two strings that part inside `p` compare as their first `p.len()` bytes do.
pub proof fn lemma_lt_outside_prefix(key: Seq<u8>, p: Seq<u8>, rest: Seq<u8>)
    requires
        common(key, p) < p.len(),
    ensures
        lt(key, p + rest) == lt(key, p),
        lt(p + rest, key) == lt(p, key),
{
    lemma_common(key, p);
    let i = common(key, p);
    let full = p + rest;
    lemma_parts_at(key, full, i);
    lemma_parts_at(full, key, i);
    lemma_parts_at(p, key, i);
}

/// Heads of one length decide how two strings compare, unless they are equal.
pub proof fn lemma_lt_concat(a: Seq<u8>, x: Seq<u8>, b: Seq<u8>, y: Seq<u8>)
    requires
        a.len() == b.len(),
    ensures
        lt(a + x, b + y) == (lt(a, b) || (a == b && lt(x, y))),
{
    broadcast use group_order;

    if a == b {
        lemma_lt_under_prefix(a, x, y);
    } else {
        lemma_common(a, b);
        let i = common(a, b);
        if i == a.len() {
            assert(a =~= b);
        }
        lemma_parts_at(a + x, b + y, i);
    }
}

/// Single bytes compare as numbers.
pub proof fn lemma_single(x: u8, y: u8)
    ensures
        lt(seq![x], seq![y]) == (x < y),
{
    if x == y {
        lemma_parts_at(seq![x], seq![y], 1);
    } else {
        lemma_parts_at(seq![x], seq![y], 0);
    }
}

/// The empty string sorts before everything else.
pub proof fn lemma_empty_first(a: Seq<u8>)
    ensures
        !lt(a, Seq::empty()),
{
    lemma_common(a, Seq::empty());
}

/// Nothing sorts between a string and the same string with a zero byte added.
pub proof fn lemma_after(a: Seq<u8>, b: Seq<u8>)
    ensures
        lt(a, b) == le(a.push(0), b),
{
    broadcast use group_order;

    let next = a.push(0);
    assert(next.subrange(0, a.len() as int) =~= a);
    lemma_prefix_first(a, next);
    if lt(a, b) && lt(b, next) {
        lemma_common(a, b);
        let i = common(a, b);
        if i < a.len() {
            lemma_parts_at(b, next, i);
            assert(false);
        } else {
            assert forall|j: int| 0 <= j < a.len() implies b[j] == next[j] by {
                assert(a[j] == b[j]);
            }
            if b[a.len() as int] != 0 {
                lemma_parts_at(b, next, a.len());
                assert(false);
            } else {
                assert forall|j: int| 0 <= j < a.len() + 1 implies b[j] == next[j] by {}
                lemma_parts_at(b, next, a.len() + 1);
                assert(false);
            }
        }
    }
}

/// What a string begins with sorts at or before it, and everything between the
/// two begins with it as well.
pub proof fn lemma_begins_run(p: Seq<u8>, a: Seq<u8>, b: Seq<u8>)
    requires
        le(p, a),
        le(a, b),
        begins(b, p),
    ensures
        begins(a, p),
{
    lemma_common(p, a);
    let i = common(p, a);
    if i < p.len() {
        // `a` leaves `p` upwards at `i`, and `b` still follows `p` there.
        lemma_parts_at(a, p, i);
        assert forall|j: int| 0 <= j < p.len() implies p[j] == b[j] by {
            assert(b.subrange(0, p.len() as int)[j] == b[j]);
        }
        assert forall|j: int| 0 <= j < i implies b[j] == a[j] by {
            assert(p[j] == a[j]);
        }
        lemma_parts_at(b, a, i);
        lemma_parts_at(p, a, i);
        assert(i < a.len() ==> p[i as int] < a[i as int]);
        assert(false);
    }
    assert(a.subrange(0, p.len() as int) =~= p);
}

/// A string that begins with `p` is at or after it.
pub proof fn lemma_begins_le(p: Seq<u8>, a: Seq<u8>)
    requires
        begins(a, p),
    ensures
        le(p, a),
{
    broadcast use group_order;

    if a != p {
        lemma_prefix_first(p, a);
    }
}

// ----------------------------------------------------------------- executable

/// Which way one byte string sorts against another.
#[derive(Clone, Copy, PartialEq, Eq, Structural, Debug)]
pub enum Side {
    Before,
    Same,
    After,
}

/// How many leading bytes `a` and `b` share.
pub fn lcp(a: &[u8], b: &[u8]) -> (n: usize)
    ensures
        n == common(a@, b@),
{
    let mut n: usize = 0;
    while n < a.len() && n < b.len() && a[n] == b[n]
        invariant
            n <= a.len(),
            n <= b.len(),
            forall|j: int| 0 <= j < n ==> a@[j] == b@[j],
        decreases a.len() - n,
    {
        n += 1;
    }
    proof {
        lemma_parts_at(a@, b@, n as nat);
    }
    n
}

/// Where `a` sorts against `b`.
pub fn compare(a: &[u8], b: &[u8]) -> (side: Side)
    ensures
        side == (if lt(a@, b@) {
            Side::Before
        } else if lt(b@, a@) {
            Side::After
        } else {
            Side::Same
        }),
        side == Side::Same <==> a@ == b@,
{
    let n = lcp(a, b);
    proof {
        lemma_common(a@, b@);
        lemma_parts_at(b@, a@, n as nat);
        if n == a.len() && n == b.len() {
            assert(a@ =~= b@);
        }
        broadcast use group_order;
    }
    if n == b.len() {
        if n == a.len() {
            Side::Same
        } else {
            Side::After
        }
    } else if n == a.len() || a[n] < b[n] {
        Side::Before
    } else {
        Side::After
    }
}

/// Whether `key` begins with `prefix`.
pub fn starts_with(key: &[u8], prefix: &[u8]) -> (yes: bool)
    ensures
        yes == begins(key@, prefix@),
{
    let n = lcp(key, prefix);
    proof {
        lemma_common(key@, prefix@);
        if n == prefix.len() {
            assert(key@.subrange(0, prefix.len() as int) =~= prefix@);
        } else if begins(key@, prefix@) {
            assert(key@.subrange(0, prefix.len() as int)[n as int] == key@[n as int]);
        }
    }
    n == prefix.len()
}

/// A copy of `bytes`.
pub fn owned(bytes: &[u8]) -> (copy: Vec<u8>)
    ensures
        copy@ == bytes@,
{
    let mut copy: Vec<u8> = Vec::with_capacity(bytes.len());
    copy.extend_from_slice(bytes);
    assert(copy@ =~= bytes@);
    copy
}

/// `head` followed by `tail`.
pub fn joined(head: &[u8], tail: &[u8]) -> (both: Vec<u8>)
    ensures
        both@ == head@ + tail@,
{
    let mut both: Vec<u8> = Vec::new();
    both.extend_from_slice(head);
    both.extend_from_slice(tail);
    assert(both@ =~= head@ + tail@);
    both
}

/// The first string that sorts after `key`: everything above `key` is at or
/// above it.
pub fn after(key: &[u8]) -> (next: Vec<u8>)
    ensures
        next@ == key@.push(0),
        forall|other: Seq<u8>| lt(key@, other) == le(next@, other),
{
    let mut next = owned(key);
    next.push(0);
    proof {
        assert forall|other: Seq<u8>| lt(key@, other) == le(next@, other) by {
            lemma_after(key@, other);
        }
    }
    next
}

} // verus!
