//! The values of one key range, under the prefix their keys share.

use vstd::prelude::*;
use vstd::slice::slice_subrange;

use crate::bytes;
use crate::bytes::{compare, joined, lcp, owned, Side};
use crate::entries;
use crate::entries::Entries;
use crate::keys::Keys;
use crate::shape;
use crate::shape::{Bound, Shape, ORDER};

verus! {

/// The values of one key range, in ascending key order.
pub struct Leaf<V> {
    /// A prefix of every key here. Not necessarily the longest one: a delete
    /// may leave it shorter than it could be, which costs space, not meaning.
    prefix: Vec<u8>,
    /// Each key with `prefix` cut off the front.
    rest: Keys,
    values: Vec<V>,
}

/// Every key starts with `p`.
pub open spec fn all_begin<V>(e: Entries<V>, p: Seq<u8>) -> bool {
    forall|i: int| 0 <= i < e.len() ==> bytes::begins((#[trigger] e[i]).0, p)
}

/// `p` is the longest prefix that every key starts with.
pub open spec fn longest<V>(e: Entries<V>, p: Seq<u8>) -> bool {
    &&& all_begin(e, p)
    &&& forall|q: Seq<u8>| #[trigger] all_begin(e, q) ==> q.len() <= p.len()
}

/// What both strings start with.
pub open spec fn both_begin(a: Seq<u8>, b: Seq<u8>) -> Seq<u8> {
    a.subrange(0, bytes::common(a, b) as int)
}

/// The first `n` of `rs` start with the first `m` bytes of the first.
spec fn agree(rs: Seq<Seq<u8>>, n: int, m: int) -> bool {
    forall|i: int|
        0 <= i < n ==> bytes::begins(#[trigger] rs[i], rs[0].subrange(0, m))
}

/// One string more to agree with: what the first shares with it is as far as
/// all of them agree.
proof fn lemma_agree(rs: Seq<Seq<u8>>, at: int, shared: int, n: int)
    requires
        1 <= at < rs.len(),
        0 <= shared <= rs[0].len(),
        agree(rs, at, shared),
        forall|m: int| shared < m <= rs[0].len() ==> !#[trigger] agree(rs, at, m),
        n == bytes::common(rs[0].subrange(0, shared), rs[at]),
    ensures
        0 <= n <= shared,
        agree(rs, at + 1, n),
        forall|m: int| n < m <= rs[0].len() ==> !#[trigger] agree(rs, at + 1, m),
{
    let zero = rs[0];
    let first = zero.subrange(0, shared);
    let head = zero.subrange(0, n);
    bytes::lemma_common(first, rs[at]);
    assert forall|i: int| 0 <= i < at + 1 implies bytes::begins(#[trigger] rs[i], head) by {
        let k = rs[i];
        if i < at {
            assert(bytes::begins(k, first));
            assert forall|j: int| 0 <= j < n implies k[j] == zero[j] by {
                assert(k.subrange(0, shared)[j] == first[j]);
            }
        }
        assert(k.subrange(0, n) =~= head);
    }
    assert forall|m: int| n < m <= zero.len() implies !#[trigger] agree(rs, at + 1, m) by {
        if agree(rs, at + 1, m) {
            if m > shared {
                assert(agree(rs, at, m)) by {
                    assert forall|i: int| 0 <= i < at implies bytes::begins(
                        #[trigger] rs[i],
                        zero.subrange(0, m),
                    ) by {}
                }
            } else {
                assert(bytes::begins(rs[at], zero.subrange(0, m)));
                assert(rs[at].subrange(0, m)[n] == zero.subrange(0, m)[n]);
            }
        }
    }
}

impl<V> Leaf<V> {
    /// The entries, with their whole keys.
    pub closed spec fn entries(&self) -> Entries<V> {
        Seq::new(self.values@.len(), |i: int| (self.prefix@ + self.rest@[i], self.values@[i]))
    }

    /// Every value has its key.
    pub closed spec fn wf(&self) -> bool {
        &&& self.rest.wf()
        &&& self.rest@.len() == self.values@.len()
    }

    /// The part of every key that is held once.
    pub closed spec fn shared(&self) -> Seq<u8> {
        self.prefix@
    }

    pub fn empty() -> (leaf: Self)
        ensures
            leaf.wf(),
            leaf.entries() == Entries::<V>::empty(),
            leaf.shared() == Seq::<u8>::empty(),
    {
        let leaf = Leaf { prefix: Vec::new(), rest: Keys::new(), values: Vec::new() };
        assert(leaf.entries() =~= Entries::<V>::empty());
        leaf
    }

    pub fn len(&self) -> (n: usize)
        ensures
            n == self.entries().len(),
    {
        self.values.len()
    }

    /// The remainders are in the order the whole keys are in.
    proof fn lemma_rest_ascending(&self)
        requires
            self.wf(),
            entries::sorted(self.entries()),
        ensures
            bytes::ascending(self.rest@),
    {
        let e = self.entries();
        assert forall|i: int, j: int| 0 <= i < j < self.rest@.len() implies bytes::lt(
            #[trigger] self.rest@[i],
            #[trigger] self.rest@[j],
        ) by {
            assert(bytes::lt(e[i].0, e[j].0));
            bytes::lemma_lt_under_prefix(self.prefix@, self.rest@[i], self.rest@[j]);
        }
    }

    /// Where `key` sits, or where it would go.
    pub fn locate(&self, key: &[u8]) -> (found: Result<usize, usize>)
        requires
            self.wf(),
            entries::sorted(self.entries()),
        ensures
            match found {
                Ok(at) => {
                    &&& at < self.entries().len()
                    &&& self.entries()[at as int].0 == key@
                    &&& entries::place(self.entries(), key@, at as int)
                },
                Err(at) => {
                    &&& at <= self.entries().len()
                    &&& entries::place(self.entries(), key@, at as int)
                    &&& forall|i: int|
                        0 <= i < self.entries().len() ==> (#[trigger] self.entries()[i]).0 != key@
                },
            },
    {
        let ghost e = self.entries();
        let n = lcp(key, self.prefix.as_slice());
        proof {
            broadcast use crate::bytes::group_order;

            bytes::lemma_common(key@, self.prefix@);
        }
        if n < self.prefix.len() {
            // The key parts from the shared prefix, so every key here sorts on
            // the same side of it.
            proof {
                assert forall|i: int| 0 <= i < e.len() implies bytes::lt(key@, (#[trigger] e[i]).0) == bytes::lt(
                    key@,
                    self.prefix@,
                ) && bytes::lt(e[i].0, key@) == bytes::lt(self.prefix@, key@) by {
                    bytes::lemma_lt_outside_prefix(key@, self.prefix@, self.rest@[i]);
                }
            }
            match compare(key, self.prefix.as_slice()) {
                Side::Before => Err(0),
                Side::After => Err(self.values.len()),
                Side::Same => {
                    assert(false);
                    Err(0)
                },
            }
        } else {
            let tail = slice_subrange(key, self.prefix.len(), key.len());
            proof {
                self.lemma_rest_ascending();
                assert(key@ =~= self.prefix@ + tail@);
                assert forall|i: int| 0 <= i < e.len() implies bytes::lt(key@, (#[trigger] e[i]).0) == bytes::lt(
                    tail@,
                    self.rest@[i],
                ) && bytes::lt(e[i].0, key@) == bytes::lt(self.rest@[i], tail@) by {
                    bytes::lemma_lt_under_prefix(self.prefix@, tail@, self.rest@[i]);
                    bytes::lemma_lt_under_prefix(self.prefix@, self.rest@[i], tail@);
                }
            }
            let found = self.rest.search(tail);
            proof {
                match found {
                    Ok(at) => {
                        assert(e[at as int].0 == key@);
                        assert forall|j: int| 0 <= j < at implies bytes::lt((#[trigger] e[j]).0, key@) by {
                            assert(bytes::lt(e[j].0, e[at as int].0));
                        }
                        assert forall|j: int| at <= j < e.len() implies !bytes::lt(
                            (#[trigger] e[j]).0,
                            key@,
                        ) by {
                            if j > at {
                                assert(bytes::lt(e[at as int].0, e[j].0));
                            }
                        }
                    },
                    Err(at) => {
                        assert forall|j: int| 0 <= j < at implies bytes::lt((#[trigger] e[j]).0, key@) by {
                            assert(bytes::lt(self.rest@[j], tail@));
                        }
                        assert forall|j: int| at <= j < e.len() implies bytes::lt(
                            key@,
                            (#[trigger] e[j]).0,
                        ) by {
                            assert(bytes::lt(tail@, self.rest@[j]));
                        }
                    },
                }
            }
            found
        }
    }

    pub fn full_key(&self, at: usize) -> (key: Vec<u8>)
        requires
            self.wf(),
            at < self.entries().len(),
        ensures
            key@ == self.entries()[at as int].0,
    {
        joined(self.prefix.as_slice(), self.rest.get(at))
    }

    pub fn value(&self, at: usize) -> (value: &V)
        requires
            at < self.entries().len(),
        ensures
            *value == self.entries()[at as int].1,
    {
        &self.values[at]
    }

    /// A copy of the entries from `at` on, the last one first.
    pub fn run_back(&self, at: usize) -> (run: Vec<(Vec<u8>, V)>)
        where
            V: Clone,
        requires
            self.wf(),
            at <= self.entries().len(),
        ensures
            entries::copied(
                self.entries().subrange(at as int, self.entries().len() as int),
                entries::listed(run@.reverse()),
            ),
    {
        let mut run: Vec<(Vec<u8>, V)> = Vec::new();
        let mut next: usize = self.values.len();
        while next > at
            invariant
                self.wf(),
                at <= next <= self.entries().len(),
                run@.len() == self.entries().len() - next,
                forall|i: int|
                    0 <= i < run@.len() ==> {
                        let (k, v) = #[trigger] run@[i];
                        let e = self.entries()[self.entries().len() - 1 - i];
                        k@ == e.0 && cloned(e.1, v)
                    },
            decreases next,
        {
            next = next - 1;
            let key = self.full_key(next);
            let value = self.values[next].clone();
            run.push((key, value));
        }
        proof {
            let a = self.entries().subrange(at as int, self.entries().len() as int);
            let b = entries::listed(run@.reverse());
            assert forall|i: int| 0 <= i < a.len() implies a[i].0 == b[i].0 && cloned(
                a[i].1,
                b[i].1,
            ) by {
                assert(run@.reverse()[i] == run@[run@.len() - 1 - i]);
            }
        }
        run
    }

    /// Hands the value at `at` to `f`.
    pub fn update<F: FnOnce(&mut V)>(&mut self, at: usize, f: F)
        requires
            old(self).wf(),
            at < old(self).entries().len(),
            forall|v: &mut V| *v == old(self).entries()[at as int].1 ==> call_requires(f, (v,)),
        ensures
            final(self).wf(),
            final(self).shared() == old(self).shared(),
            exists|v: &mut V|
                {
                    &&& *v == old(self).entries()[at as int].1
                    &&& #[trigger] call_ensures(f, (v,), ())
                    &&& final(self).entries() == old(self).entries().update(
                        at as int,
                        (old(self).entries()[at as int].0, *final(v)),
                    )
                },
    {
        f(&mut self.values[at]);
    }

    /// Puts `value` at `at`, in place of the one there, which it returns.
    pub fn replace(&mut self, at: usize, value: V) -> (was: V)
        requires
            old(self).wf(),
            at < old(self).entries().len(),
        ensures
            final(self).wf(),
            final(self).shared() == old(self).shared(),
            was == old(self).entries()[at as int].1,
            final(self).entries() == old(self).entries().update(
                at as int,
                (old(self).entries()[at as int].0, value),
            ),
    {
        let ghost e = self.entries();
        let mut was = value;
        core::mem::swap(&mut self.values[at], &mut was);
        assert(self.entries() =~= e.update(at as int, (e[at as int].0, value)));
        was
    }

    /// Puts `value` at `at`, where `key` was found not to be.
    pub fn place(&mut self, at: usize, key: &[u8], value: V)
        requires
            old(self).wf(),
            at <= old(self).entries().len(),
            bytes::begins(key@, old(self).shared()),
        ensures
            final(self).wf(),
            final(self).shared() == old(self).shared(),
            final(self).entries() == old(self).entries().insert(at as int, (key@, value)),
    {
        let ghost e = self.entries();
        let tail = slice_subrange(key, self.prefix.len(), key.len());
        assert(key@ =~= self.prefix@ + tail@) by {
            assert(key@.subrange(0, self.prefix@.len() as int) == self.prefix@);
            assert(key@ =~= key@.subrange(0, self.prefix@.len() as int) + tail@);
        }
        self.rest.insert(at, tail);
        self.values.insert(at, value);
        assert(self.entries() =~= e.insert(at as int, (key@, value)));
    }

    pub fn take(&mut self, at: usize) -> (value: V)
        requires
            old(self).wf(),
            at < old(self).entries().len(),
        ensures
            final(self).wf(),
            final(self).shared() == old(self).shared(),
            value == old(self).entries()[at as int].1,
            final(self).entries() == old(self).entries().remove(at as int),
    {
        let ghost e = self.entries();
        self.rest.remove(at);
        let value = self.values.remove(at);
        assert(self.entries() =~= e.remove(at as int));
        value
    }

    /// Cuts the shared prefix back to `keep` bytes, giving what it loses back
    /// to every remainder.
    fn shrink(&mut self, keep: usize)
        requires
            old(self).wf(),
            keep <= old(self).shared().len(),
        ensures
            final(self).wf(),
            final(self).shared() == old(self).shared().subrange(0, keep as int),
            final(self).entries() == old(self).entries(),
            final(self).values == old(self).values,
    {
        let ghost was = *self;
        if keep == self.prefix.len() {
            assert(self.prefix@.subrange(0, keep as int) =~= self.prefix@);
            return;
        }
        let lost = self.prefix.split_off(keep);
        self.rest.rewrite(lost.as_slice(), 0);
        assert forall|i: int| 0 <= i < self.entries().len() implies #[trigger] self.entries()[i]
            == was.entries()[i] by {
            assert(self.prefix@ + self.rest@[i] =~= was.prefix@ + was.rest@[i]);
        }
        assert(self.entries() =~= was.entries());
    }

    /// Cuts the shared prefix back to what `key` also starts with, so `key` can
    /// be stored here as a remainder.
    pub fn adopt(&mut self, key: &[u8])
        requires
            old(self).wf(),
        ensures
            final(self).wf(),
            bytes::begins(key@, final(self).shared()),
            final(self).shared() == both_begin(old(self).shared(), key@),
            final(self).entries() == old(self).entries(),
    {
        let keep = lcp(self.prefix.as_slice(), key);
        proof {
            bytes::lemma_common(self.prefix@, key@);
        }
        let ghost was = self.prefix@;
        self.shrink(keep);
        assert(key@.subrange(0, keep as int) =~= was.subrange(0, keep as int));
    }

    /// Takes the longest common prefix of the remainders into the shared
    /// prefix. Run after a split, where each half usually shares more than the
    /// whole did.
    fn compress(&mut self)
        requires
            old(self).wf(),
        ensures
            final(self).wf(),
            final(self).entries() == old(self).entries(),
            if old(self).entries().len() == 0 {
                final(self).shared() == old(self).shared()
            } else {
                longest(old(self).entries(), final(self).shared())
            },
    {
        let ghost was = *self;
        let ghost rs = self.rest@;
        if self.rest.len() == 0 {
            return;
        }
        let mut shared = self.rest.get(0).len();
        let mut at: usize = 1;
        proof {
            assert(rs[0].subrange(0, shared as int) =~= rs[0]);
        }
        while at < self.rest.len()
            invariant
                *self == was,
                was.wf(),
                rs == was.rest@,
                1 <= at <= rs.len(),
                shared <= rs[0].len(),
                agree(rs, at as int, shared as int),
                forall|m: int| shared < m <= rs[0].len() ==> !#[trigger] agree(rs, at as int, m),
            decreases rs.len() - at,
        {
            let first = slice_subrange(self.rest.get(0), 0, shared);
            let n = lcp(first, self.rest.get(at));
            proof {
                lemma_agree(rs, at as int, shared as int, n as int);
            }
            shared = n;
            at += 1;
        }
        proof {
            was.lemma_longest(shared as int);
        }
        if shared == 0 {
            assert(was.prefix@ + rs[0].subrange(0, 0) =~= was.prefix@);
            return;
        }
        let ghost head = rs[0].subrange(0, shared as int);
        self.prefix.extend_from_slice(slice_subrange(self.rest.get(0), 0, shared));
        assert(self.prefix@ =~= was.prefix@ + head);
        proof {
            assert forall|i: int| 0 <= i < rs.len() implies shared <= (#[trigger] rs[i]).len() by {
                assert(bytes::begins(rs[i], head));
            }
        }
        self.rest.rewrite(&[], shared);
        assert forall|i: int| 0 <= i < self.entries().len() implies #[trigger] self.entries()[i]
            == was.entries()[i] by {
            let k = rs[i];
            assert(bytes::begins(k, head));
            assert(k =~= k.subrange(0, shared as int) + k.subrange(shared as int, k.len() as int));
            assert(self.prefix@ + self.rest@[i] =~= was.prefix@ + k);
        }
        assert(self.entries() =~= was.entries());
    }

    /// The prefix and what the remainders agree on are the longest prefix of
    /// the whole keys.
    proof fn lemma_longest(&self, shared: int)
        requires
            self.wf(),
            self.rest@.len() > 0,
            0 <= shared <= self.rest@[0].len(),
            agree(self.rest@, self.rest@.len() as int, shared),
            forall|m: int|
                shared < m <= self.rest@[0].len() ==> !#[trigger] agree(
                    self.rest@,
                    self.rest@.len() as int,
                    m,
                ),
        ensures
            longest(self.entries(), self.prefix@ + self.rest@[0].subrange(0, shared)),
    {
        let e = self.entries();
        let rs = self.rest@;
        let p = self.prefix@;
        let n = p.len() as int;
        let long = p + rs[0].subrange(0, shared);
        assert forall|i: int| 0 <= i < e.len() implies bytes::begins((#[trigger] e[i]).0, long) by {
            assert(bytes::begins(rs[i], rs[0].subrange(0, shared)));
            assert(e[i].0.subrange(0, n + shared) =~= p + rs[i].subrange(0, shared));
        }
        assert forall|q: Seq<u8>| #[trigger] all_begin(e, q) implies q.len() <= long.len() by {
            if q.len() > long.len() {
                let m = q.len() - n;
                assert(bytes::begins(e[0].0, q));
                assert forall|i: int| 0 <= i < rs.len() implies bytes::begins(
                    #[trigger] rs[i],
                    rs[0].subrange(0, m),
                ) by {
                    assert(bytes::begins(e[i].0, q));
                    assert forall|j: int| 0 <= j < m implies rs[i][j] == rs[0][j] by {
                        assert(e[i].0.subrange(0, q.len() as int)[n + j] == q[n + j]);
                        assert(e[0].0.subrange(0, q.len() as int)[n + j] == q[n + j]);
                    }
                    assert(rs[i].subrange(0, m) =~= rs[0].subrange(0, m));
                }
                assert(agree(rs, rs.len() as int, m));
            }
        }
    }

    /// Takes the upper half of a leaf that is over full, with its first key, and
    /// leaves each half under the longest prefix its keys share.
    pub fn split(&mut self) -> (split: Option<(Vec<u8>, Self)>)
        requires
            old(self).wf(),
        ensures
            final(self).wf(),
            split is None <==> old(self).entries().len() <= ORDER,
            match split {
                None => {
                    &&& final(self).entries() == old(self).entries()
                    &&& final(self).shared() == old(self).shared()
                },
                Some((first, right)) => {
                    let e = old(self).entries();
                    let at = e.len() as int / 2;
                    &&& right.wf()
                    &&& first@ == e[at].0
                    &&& final(self).entries() == e.subrange(0, at)
                    &&& right.entries() == e.subrange(at, e.len() as int)
                    &&& longest(final(self).entries(), final(self).shared())
                    &&& longest(right.entries(), right.shared())
                },
            },
    {
        let ghost e = self.entries();
        if self.rest.len() <= ORDER {
            return None;
        }
        let at = self.rest.len() / 2;
        let prefix = owned(self.prefix.as_slice());
        let rest = self.rest.split_off(at);
        let values = self.values.split_off(at);
        let mut right = Leaf { prefix, rest, values };
        assert(self.entries() =~= e.subrange(0, at as int));
        assert(right.entries() =~= e.subrange(at as int, e.len() as int));
        let first = right.full_key(0);
        self.compress();
        right.compress();
        Some((first, right))
    }

    /// Takes every entry of `other`, which sorts after this one.
    pub fn absorb(&mut self, other: Self)
        requires
            old(self).wf(),
            other.wf(),
        ensures
            final(self).wf(),
            final(self).entries() == old(self).entries() + other.entries(),
            final(self).shared() == both_begin(old(self).shared(), other.shared()),
    {
        let ghost e = self.entries();
        self.carry(&other);
        let mut values = other.values;
        self.values.append(&mut values);
        assert(self.entries() =~= e + other.entries());
    }

    /// Takes a copy of every entry of `other`, which sorts after this one.
    pub fn absorb_copy(&mut self, other: &Self)
        where
            V: Clone,
        requires
            old(self).wf(),
            other.wf(),
        ensures
            final(self).wf(),
            final(self).entries().len() == old(self).entries().len() + other.entries().len(),
            final(self).shared() == both_begin(old(self).shared(), other.shared()),
            final(self).entries().subrange(0, old(self).entries().len() as int) == old(
                self,
            ).entries(),
            entries::copied(
                other.entries(),
                final(self).entries().subrange(
                    old(self).entries().len() as int,
                    final(self).entries().len() as int,
                ),
            ),
    {
        let ghost e = self.entries();
        self.carry(other);
        let ghost held = self.values@;
        let ghost cut = self.prefix@;
        let mut at: usize = 0;
        while at < other.values.len()
            invariant
                at <= other.values@.len(),
                self.values@.len() == held.len() + at,
                self.values@.subrange(0, held.len() as int) == held,
                forall|i: int|
                    0 <= i < at ==> cloned(
                        #[trigger] other.values@[i],
                        self.values@[held.len() + i],
                    ),
                self.rest.wf(),
                self.prefix@ == cut,
                self.rest@.len() == held.len() + other.values@.len(),
                forall|i: int|
                    0 <= i < held.len() ==> self.prefix@ + #[trigger] self.rest@[i] == e[i].0,
                forall|i: int|
                    0 <= i < other.values@.len() ==> self.prefix@ + self.rest@[held.len() + i] == (
                    #[trigger] other.entries()[i]).0,
            decreases other.values@.len() - at,
        {
            let ghost before = self.values@;
            self.values.push(other.values[at].clone());
            assert(self.values@.subrange(0, held.len() as int) =~= before.subrange(
                0,
                held.len() as int,
            ));
            at += 1;
        }
        proof {
            let n = self.entries();
            assert forall|i: int| 0 <= i < e.len() implies #[trigger] n[i] == e[i] by {
                assert(self.values@.subrange(0, held.len() as int)[i] == self.values@[i]);
            }
            assert(n.subrange(0, e.len() as int) =~= e);
            let x = other.entries();
            let y = n.subrange(e.len() as int, n.len() as int);
            assert forall|i: int| 0 <= i < x.len() implies x[i].0 == y[i].0 && cloned(
                (#[trigger] x[i]).1,
                y[i].1,
            ) by {
                assert(y[i] == n[e.len() + i]);
                assert(cloned(other.values@[i], self.values@[held.len() + i]));
            }
        }
    }

    /// Takes the keys of `other`, ahead of its values.
    fn carry(&mut self, other: &Self)
        requires
            old(self).wf(),
            other.wf(),
        ensures
            final(self).rest.wf(),
            final(self).values == old(self).values,
            final(self).prefix@ == both_begin(old(self).prefix@, other.prefix@),
            final(self).rest@.len() == old(self).rest@.len() + other.rest@.len(),
            forall|i: int|
                0 <= i < old(self).rest@.len() ==> final(self).prefix@
                    + #[trigger] final(self).rest@[i] == old(self).prefix@ + old(self).rest@[i],
            forall|i: int|
                0 <= i < other.rest@.len() ==> final(self).prefix@
                    + final(self).rest@[old(self).rest@.len() + i] == other.prefix@
                    + #[trigger] other.rest@[i],
    {
        let ghost was = *self;
        let keep = lcp(self.prefix.as_slice(), other.prefix.as_slice());
        proof {
            bytes::lemma_common(self.prefix@, other.prefix@);
        }
        self.shrink(keep);
        let ghost cut = *self;
        assert forall|i: int| 0 <= i < was.rest@.len() implies cut.prefix@ + #[trigger] cut.rest@[i]
            == was.prefix@ + was.rest@[i] by {
            assert(cut.entries()[i] == was.entries()[i]);
        }
        let carried = slice_subrange(other.prefix.as_slice(), keep, other.prefix.len());
        let mut at: usize = 0;
        while at < other.rest.len()
            invariant
                other.wf(),
                self.rest.wf(),
                self.prefix == cut.prefix,
                self.values == cut.values,
                at <= other.rest@.len(),
                carried@ == other.prefix@.subrange(keep as int, other.prefix@.len() as int),
                self.rest@.len() == cut.rest@.len() + at,
                forall|i: int| 0 <= i < cut.rest@.len() ==> self.rest@[i] == cut.rest@[i],
                forall|i: int|
                    0 <= i < at ==> self.rest@[cut.rest@.len() + i] == carried@
                        + #[trigger] other.rest@[i],
            decreases other.rest@.len() - at,
        {
            self.rest.push(carried, other.rest.get(at));
            at += 1;
        }
        assert forall|i: int| 0 <= i < was.rest@.len() implies self.prefix@
            + #[trigger] self.rest@[i] == was.prefix@ + was.rest@[i] by {
            assert(self.rest@[i] == cut.rest@[i]);
        }
        assert forall|i: int| 0 <= i < other.rest@.len() implies self.prefix@
            + self.rest@[was.rest@.len() + i] == other.prefix@ + #[trigger] other.rest@[i] by {
            assert(self.prefix@ =~= other.prefix@.subrange(0, keep as int));
            assert(self.prefix@ + (carried@ + other.rest@[i]) =~= other.prefix@ + other.rest@[i]);
        }
    }

    /// Moves one entry from the front of `other` onto the end of this leaf.
    pub fn take_first(&mut self, other: &mut Self)
        requires
            old(self).wf(),
            old(other).wf(),
            old(other).entries().len() > 0,
        ensures
            final(self).wf(),
            final(other).wf(),
            final(self).shared() == both_begin(old(self).shared(), old(other).entries()[0].0),
            final(other).shared() == old(other).shared(),
            final(self).entries() == old(self).entries().push(old(other).entries()[0]),
            final(other).entries() == old(other).entries().remove(0),
    {
        let key = other.full_key(0);
        let value = other.take(0);
        self.adopt(key.as_slice());
        let at = self.values.len();
        let ghost e = self.entries();
        self.place(at, key.as_slice(), value);
        assert(self.entries() =~= e.push((key@, value)));
    }

    /// Moves one entry from the end of `other` onto the front of this leaf.
    pub fn take_last(&mut self, other: &mut Self)
        requires
            old(self).wf(),
            old(other).wf(),
            old(other).entries().len() > 0,
        ensures
            final(self).wf(),
            final(other).wf(),
            final(self).shared() == both_begin(old(self).shared(), old(other).entries().last().0),
            final(other).shared() == old(other).shared(),
            final(self).entries() == old(self).entries().insert(0, old(other).entries().last()),
            final(other).entries() == old(other).entries().drop_last(),
    {
        let ghost e = other.entries();
        let last = other.values.len() - 1;
        let key = other.full_key(last);
        let value = other.take(last);
        assert(other.entries() =~= e.drop_last());
        self.adopt(key.as_slice());
        self.place(0, key.as_slice(), value);
    }

    /// Writes `value` at `key` and returns what it replaced and the upper half
    /// of a leaf that is then over full.
    pub fn insert(
        &mut self,
        key: &[u8],
        value: V,
        Ghost(lo): Ghost<Bound>,
        Ghost(hi): Ghost<Bound>,
    ) -> (r: (Option<V>, Option<(Vec<u8>, Self)>))
        requires
            old(self).wf(),
            entries::sorted(old(self).entries()),
            shape::all_within(old(self).entries(), lo, hi),
            old(self).entries().len() <= ORDER,
            shape::within(key@, lo, hi),
        ensures
            final(self).wf(),
            r.0 == entries::get(old(self).entries(), key@),
            r.1 is None <==> entries::put(old(self).entries(), key@, value).len() <= ORDER,
            match r.1 {
                None => {
                    &&& old(self).entries().len() <= final(self).entries().len() <= ORDER
                    &&& final(self).entries().len() <= old(self).entries().len() + 1
                    &&& entries::sorted(final(self).entries())
                    &&& shape::all_within(final(self).entries(), lo, hi)
                    &&& final(self).entries() == entries::put(old(self).entries(), key@, value)
                    &&& final(self).shared() == both_begin(old(self).shared(), key@)
                },
                Some((sep, right)) => {
                    &&& right.wf()
                    &&& longest(final(self).entries(), final(self).shared())
                    &&& longest(right.entries(), right.shared())
                    &&& shape::halves(
                        entries::put(old(self).entries(), key@, value),
                        Shape::Leaf(final(self).entries()),
                        sep@,
                        Shape::Leaf(right.entries()),
                        lo,
                        hi,
                    )
                    &&& old(self).entries().len() == ORDER
                    &&& shape::even(
                        Shape::Leaf(final(self).entries()),
                        Shape::Leaf(right.entries()),
                    )
                },
            },
    {
        let ghost e = self.entries();
        proof {
            entries::lemma_put(e, key@, value);
        }
        self.adopt(key);
        match self.locate(key) {
            Ok(at) => {
                proof {
                    entries::lemma_slot(e, key@, at as int);
                }
                let was = self.replace(at, value);
                (Some(was), None)
            },
            Err(at) => {
                proof {
                    entries::lemma_slot(e, key@, at as int);
                    entries::lemma_missing(e, key@);
                }
                self.place(at, key, value);
                let ghost n = self.entries();
                assert forall|i: int| 0 <= i < n.len() implies shape::within(
                    (#[trigger] n[i]).0,
                    lo,
                    hi,
                ) by {
                    if i < at {
                        assert(n[i] == e[i]);
                    } else if i > at {
                        assert(n[i] == e[i - 1]);
                    }
                }
                let split = self.split();
                proof {
                    if n.len() > ORDER {
                        shape::lemma_split_leaf(n, lo, hi, n.len() as int / 2);
                    }
                }
                (None, split)
            },
        }
    }
}

impl<V: Clone> Clone for Leaf<V> {
    fn clone(&self) -> (leaf: Self)
        ensures
            leaf.wf() == self.wf(),
            leaf.shared() == self.shared(),
            entries::copied(self.entries(), leaf.entries()),
    {
        let prefix = owned(self.prefix.as_slice());
        let rest = self.rest.clone();
        let mut values: Vec<V> = Vec::with_capacity(self.values.len());
        let mut at: usize = 0;
        while at < self.values.len()
            invariant
                at <= self.values@.len(),
                values@.len() == at,
                forall|i: int| 0 <= i < at ==> cloned(#[trigger] self.values@[i], values@[i]),
            decreases self.values@.len() - at,
        {
            values.push(self.values[at].clone());
            at += 1;
        }
        let leaf = Leaf { prefix, rest, values };
        proof {
            let x = self.entries();
            let y = leaf.entries();
            assert forall|i: int| 0 <= i < x.len() implies x[i].0 == y[i].0 && cloned(
                (#[trigger] x[i]).1,
                y[i].1,
            ) by {
                assert(cloned(self.values@[i], values@[i]));
            }
        }
        leaf
    }
}

} // verus!
