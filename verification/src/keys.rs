//! The keys of one tree node, end to end in one buffer.

use vstd::prelude::*;
use vstd::slice::slice_subrange;

use crate::bytes;
use crate::bytes::{compare, Side};

verus! {

/// The keys of one node, in ascending order, end to end in one buffer.
pub struct Keys {
    bytes: Vec<u8>,
    /// Where each key ends in `bytes`; the previous end is where it starts.
    ends: Vec<usize>,
}

/// The key that runs up to the `i`th end.
spec fn cut(bytes: Seq<u8>, ends: Seq<usize>, i: int) -> Seq<u8> {
    bytes.subrange(from(ends, i), ends[i] as int)
}

/// Where the `i`th key starts.
spec fn from(ends: Seq<usize>, i: int) -> int {
    if i == 0 {
        0
    } else {
        ends[i - 1] as int
    }
}

/// The ends rise and the last of them is the end of the buffer.
spec fn laid_out(bytes: Seq<u8>, ends: Seq<usize>) -> bool {
    &&& forall|i: int, j: int| 0 <= i <= j < ends.len() ==> ends[i] <= ends[j]
    &&& ends.len() == 0 ==> bytes.len() == 0
    &&& ends.len() > 0 ==> ends[ends.len() - 1] == bytes.len()
}

impl View for Keys {
    type V = Seq<Seq<u8>>;

    closed spec fn view(&self) -> Seq<Seq<u8>> {
        Seq::new(self.ends@.len(), |i: int| cut(self.bytes@, self.ends@, i))
    }
}

impl Keys {
    /// The offsets describe the buffer.
    pub closed spec fn wf(&self) -> bool {
        laid_out(self.bytes@, self.ends@)
    }

    pub fn new() -> (keys: Self)
        ensures
            keys.wf(),
            keys@ == Seq::<Seq<u8>>::empty(),
    {
        let keys = Keys { bytes: Vec::new(), ends: Vec::new() };
        assert(keys@ =~= Seq::<Seq<u8>>::empty());
        keys
    }

    pub fn len(&self) -> (n: usize)
        ensures
            n == self@.len(),
    {
        self.ends.len()
    }

    fn start(&self, at: usize) -> (start: usize)
        requires
            self.wf(),
            at <= self@.len(),
        ensures
            start == from(self.ends@, at as int),
            start <= self.bytes@.len(),
            at < self@.len() ==> start <= self.ends@[at as int],
    {
        if at == 0 {
            0
        } else {
            self.ends[at - 1]
        }
    }

    pub fn get(&self, at: usize) -> (key: &[u8])
        requires
            self.wf(),
            at < self@.len(),
        ensures
            key@ == self@[at as int],
    {
        slice_subrange(self.bytes.as_slice(), self.start(at), self.ends[at])
    }

    pub fn owned(&self, at: usize) -> (key: Vec<u8>)
        requires
            self.wf(),
            at < self@.len(),
        ensures
            key@ == self@[at as int],
    {
        crate::bytes::owned(self.get(at))
    }

    /// Where `key` sits, or where it would go.
    pub fn search(&self, key: &[u8]) -> (place: Result<usize, usize>)
        requires
            self.wf(),
            bytes::ascending(self@),
        ensures
            match place {
                Ok(at) => at < self@.len() && self@[at as int] == key@,
                Err(at) => {
                    &&& at <= self@.len()
                    &&& forall|i: int| 0 <= i < at ==> bytes::lt(#[trigger] self@[i], key@)
                    &&& forall|i: int| at <= i < self@.len() ==> bytes::lt(key@, #[trigger] self@[i])
                },
            },
    {
        let mut low: usize = 0;
        let mut high: usize = self.len();
        while low < high
            invariant
                self.wf(),
                bytes::ascending(self@),
                low <= high <= self@.len(),
                forall|i: int| 0 <= i < low ==> bytes::lt(#[trigger] self@[i], key@),
                forall|i: int| high <= i < self@.len() ==> bytes::lt(key@, #[trigger] self@[i]),
            decreases high - low,
        {
            let mid: usize = low + (high - low) / 2;
            let side = compare(self.get(mid), key);
            proof {
                broadcast use crate::bytes::group_order;
            }
            match side {
                Side::Before => {
                    assert forall|i: int| 0 <= i < mid + 1 implies bytes::lt(#[trigger] self@[i], key@) by {
                        if i < mid {
                            assert(bytes::lt(self@[i], self@[mid as int]));
                        }
                    }
                    low = mid + 1;
                },
                Side::After => {
                    assert forall|i: int| mid <= i < self@.len() implies bytes::lt(
                        key@,
                        #[trigger] self@[i],
                    ) by {
                        if i > mid {
                            assert(bytes::lt(self@[mid as int], self@[i]));
                        }
                    }
                    high = mid;
                },
                Side::Same => {
                    return Ok(mid);
                },
            }
        }
        Err(low)
    }

    /// How many keys sort at or before `key`.
    pub fn upper_bound(&self, key: &[u8]) -> (n: usize)
        requires
            self.wf(),
            bytes::ascending(self@),
        ensures
            n <= self@.len(),
            forall|i: int| 0 <= i < n ==> !bytes::lt(key@, #[trigger] self@[i]),
            forall|i: int| n <= i < self@.len() ==> bytes::lt(key@, #[trigger] self@[i]),
    {
        proof {
            broadcast use crate::bytes::group_order;
        }
        let len = self.len();
        assert(len == self@.len());
        match self.search(key) {
            Ok(at) => {
                assert forall|i: int| 0 <= i < at + 1 implies !bytes::lt(key@, #[trigger] self@[i]) by {
                    if i < at {
                        assert(bytes::lt(self@[i], self@[at as int]));
                    }
                }
                assert forall|i: int| at + 1 <= i < self@.len() implies bytes::lt(
                    key@,
                    #[trigger] self@[i],
                ) by {
                    assert(bytes::lt(self@[at as int], self@[i]));
                }
                at + 1
            },
            Err(at) => at,
        }
    }

    /// Appends `head ++ tail` as one more key.
    pub fn push(&mut self, head: &[u8], tail: &[u8])
        requires
            old(self).wf(),
        ensures
            final(self).wf(),
            final(self)@ == old(self)@.push(head@ + tail@),
    {
        let ghost was = *self;
        self.bytes.extend_from_slice(head);
        self.bytes.extend_from_slice(tail);
        assert(self.bytes@ =~= was.bytes@ + head@ + tail@);
        self.ends.push(self.bytes.len());
        assert forall|i: int| 0 <= i < self@.len() implies #[trigger] self@[i] == was@.push(
            head@ + tail@,
        )[i] by {
            assert(self@[i] =~= was@.push(head@ + tail@)[i]);
        }
        assert(self@ =~= was@.push(head@ + tail@));
    }

    pub fn insert(&mut self, at: usize, key: &[u8])
        requires
            old(self).wf(),
            at <= old(self)@.len(),
        ensures
            final(self).wf(),
            final(self)@ == old(self)@.insert(at as int, key@),
    {
        let ghost was = *self;
        let start = self.start(at);
        let mut above = self.bytes.split_off(start);
        self.bytes.extend_from_slice(key);
        self.bytes.append(&mut above);
        assert(self.bytes@ =~= was.bytes@.subrange(0, start as int) + key@ + was.bytes@.subrange(
            start as int,
            was.bytes@.len() as int,
        ));
        let total = self.bytes.len();
        let grew = key.len();
        self.ends.insert(at, start + grew);
        let count = self.ends.len();
        assert(at < count);
        let mut i: usize = at + 1;
        while i < self.ends.len()
            invariant
                laid_out(was.bytes@, was.ends@),
                self.bytes@.len() == total,
                total == was.bytes@.len() + grew,
                at + 1 <= i <= self.ends@.len(),
                self.ends@.len() == was.ends@.len() + 1,
                start == from(was.ends@, at as int),
                self.ends@[at as int] == start + grew,
                forall|j: int| 0 <= j < at ==> self.ends@[j] == was.ends@[j],
                forall|j: int| at < j < i ==> self.ends@[j] == was.ends@[j - 1] + grew,
                forall|j: int| i <= j < self.ends@.len() ==> self.ends@[j] == was.ends@[j - 1],
                self.bytes@ == was.bytes@.subrange(0, start as int) + key@ + was.bytes@.subrange(
                    start as int,
                    was.bytes@.len() as int,
                ),
            decreases self.ends@.len() - i,
        {
            let end = self.ends[i];
            self.ends.set(i, end + grew);
            i += 1;
        }
        let ghost ends = self.ends@;
        assert forall|a: int, b: int| 0 <= a <= b < ends.len() implies ends[a] <= ends[b] by {
            let x = if a < at { a } else { a - 1 };
            let y = if b < at { b } else { b - 1 };
            if 0 <= x && a != at {
                assert(was.ends@[x] <= was.ends@[y]);
            }
        }
        assert(laid_out(self.bytes@, self.ends@));
        assert forall|j: int| 0 <= j < self@.len() implies #[trigger] self@[j] == was@.insert(
            at as int,
            key@,
        )[j] by {
            assert(self@[j] =~= was@.insert(at as int, key@)[j]);
        }
        assert(self@ =~= was@.insert(at as int, key@));
    }

    pub fn remove(&mut self, at: usize)
        requires
            old(self).wf(),
            at < old(self)@.len(),
        ensures
            final(self).wf(),
            final(self)@ == old(self)@.remove(at as int),
    {
        let ghost was = *self;
        let start = self.start(at);
        let end = self.ends[at];
        let shrank = end - start;
        let mut above = self.bytes.split_off(end);
        self.bytes.truncate(start);
        self.bytes.append(&mut above);
        assert(self.bytes@ =~= was.bytes@.subrange(0, start as int) + was.bytes@.subrange(
            end as int,
            was.bytes@.len() as int,
        ));
        self.ends.remove(at);
        let mut i: usize = at;
        while i < self.ends.len()
            invariant
                laid_out(was.bytes@, was.ends@),
                at <= i <= self.ends@.len(),
                self.ends@.len() + 1 == was.ends@.len(),
                start == from(was.ends@, at as int),
                end == was.ends@[at as int],
                shrank == end - start,
                forall|j: int| 0 <= j < at ==> self.ends@[j] == was.ends@[j],
                forall|j: int| at <= j < i ==> self.ends@[j] == was.ends@[j + 1] - shrank,
                forall|j: int| i <= j < self.ends@.len() ==> self.ends@[j] == was.ends@[j + 1],
                self.bytes@ == was.bytes@.subrange(0, start as int) + was.bytes@.subrange(
                    end as int,
                    was.bytes@.len() as int,
                ),
            decreases self.ends@.len() - i,
        {
            let e = self.ends[i];
            self.ends.set(i, e - shrank);
            i += 1;
        }
        let ghost ends = self.ends@;
        assert forall|a: int, b: int| 0 <= a <= b < ends.len() implies ends[a] <= ends[b] by {
            let x = if a < at { a } else { a + 1 };
            let y = if b < at { b } else { b + 1 };
            assert(was.ends@[x] <= was.ends@[y]);
            if a < at && b >= at {
                assert(was.ends@[at as int] <= was.ends@[y]);
                assert(was.ends@[a] <= from(was.ends@, at as int));
            }
        }
        assert(laid_out(self.bytes@, self.ends@));
        assert forall|j: int| 0 <= j < self@.len() implies #[trigger] self@[j] == was@.remove(
            at as int,
        )[j] by {
            assert(self@[j] =~= was@.remove(at as int)[j]);
        }
        assert(self@ =~= was@.remove(at as int));
    }

    /// Takes the keys from `at` onwards.
    pub fn split_off(&mut self, at: usize) -> (tail: Self)
        requires
            old(self).wf(),
            at <= old(self)@.len(),
        ensures
            final(self).wf(),
            tail.wf(),
            final(self)@ == old(self)@.subrange(0, at as int),
            tail@ == old(self)@.subrange(at as int, old(self)@.len() as int),
    {
        let ghost was = *self;
        let start = self.start(at);
        let bytes = self.bytes.split_off(start);
        let mut ends = self.ends.split_off(at);
        let mut i: usize = 0;
        while i < ends.len()
            invariant
                laid_out(was.bytes@, was.ends@),
                at <= was.ends@.len(),
                i <= ends@.len(),
                ends@.len() == was.ends@.len() - at,
                start == from(was.ends@, at as int),
                forall|j: int| 0 <= j < i ==> ends@[j] == was.ends@[at + j] - start,
                forall|j: int| i <= j < ends@.len() ==> ends@[j] == was.ends@[at + j],
            decreases ends@.len() - i,
        {
            let e = ends[i];
            ends.set(i, e - start);
            i += 1;
        }
        let tail = Keys { bytes, ends };
        assert(laid_out(self.bytes@, self.ends@));
        assert(laid_out(tail.bytes@, tail.ends@));
        assert forall|j: int| 0 <= j < self@.len() implies #[trigger] self@[j] == was@[j] by {
            assert(self@[j] =~= was@[j]);
        }
        assert(self@ =~= was@.subrange(0, at as int));
        assert forall|j: int| 0 <= j < tail@.len() implies #[trigger] tail@[j] == was@[at + j] by {
            assert(tail@[j] =~= was@[at + j]);
        }
        assert(tail@ =~= was@.subrange(at as int, was@.len() as int));
        tail
    }

    /// Appends every key of `other`.
    pub fn append(&mut self, other: &Self)
        requires
            old(self).wf(),
            other.wf(),
        ensures
            final(self).wf(),
            final(self)@ == old(self)@ + other@,
    {
        let ghost was = *self;
        let mut at: usize = 0;
        while at < other.len()
            invariant
                self.wf(),
                other.wf(),
                at <= other@.len(),
                self@ == was@ + other@.subrange(0, at as int),
            decreases other@.len() - at,
        {
            self.push(other.get(at), &[]);
            assert(other@[at as int] + Seq::<u8>::empty() =~= other@[at as int]);
            assert(self@ =~= was@ + other@.subrange(0, at + 1));
            at += 1;
        }
        assert(other@.subrange(0, other@.len() as int) =~= other@);
        assert(self@ =~= was@ + other@);
    }

    /// Rebuilds every key as `head` followed by the key with `strip` bytes cut
    /// off its front.
    pub fn rewrite(&mut self, head: &[u8], strip: usize)
        requires
            old(self).wf(),
            forall|i: int| 0 <= i < old(self)@.len() ==> strip <= (#[trigger] old(self)@[i]).len(),
        ensures
            final(self).wf(),
            final(self)@.len() == old(self)@.len(),
            forall|i: int|
                0 <= i < old(self)@.len() ==> #[trigger] final(self)@[i] == head@
                    + old(self)@[i].subrange(strip as int, old(self)@[i].len() as int),
    {
        let ghost was = *self;
        let mut rebuilt = Keys::new();
        let mut at: usize = 0;
        while at < self.len()
            invariant
                *self == was,
                was.wf(),
                rebuilt.wf(),
                at <= was@.len(),
                rebuilt@.len() == at,
                forall|i: int| 0 <= i < was@.len() ==> strip <= (#[trigger] was@[i]).len(),
                forall|i: int|
                    0 <= i < at ==> #[trigger] rebuilt@[i] == head@ + was@[i].subrange(
                        strip as int,
                        was@[i].len() as int,
                    ),
            decreases was@.len() - at,
        {
            let key = self.get(at);
            assert(strip <= was@[at as int].len());
            rebuilt.push(head, slice_subrange(key, strip, key.len()));
            at += 1;
        }
        *self = rebuilt;
    }
}

impl Clone for Keys {
    fn clone(&self) -> (keys: Self)
        ensures
            keys.wf() == self.wf(),
            keys@ == self@,
    {
        let mut ends: Vec<usize> = Vec::with_capacity(self.ends.len());
        ends.extend_from_slice(self.ends.as_slice());
        assert(ends@ =~= self.ends@);
        Keys { bytes: crate::bytes::owned(self.bytes.as_slice()), ends }
    }
}

} // verus!
