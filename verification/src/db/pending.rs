//! What a transaction has buffered and not yet committed.

use vstd::prelude::*;

use crate::bytes;
use crate::db::row;
use crate::db::row::{History, Version};
use crate::db::{Key, Revision};
use crate::entries;
use crate::entries::Entries;
use crate::tree::Tree;

verus! {

/// What a transaction leaves at one key, as the contracts speak of it.
#[verifier::ext_equal]
pub struct Write<V> {
    pub key: Seq<u8>,
    /// The whole history, in place of what the row holds. No change record.
    pub loaded: Option<History<V>>,
    /// One version, at the transaction's revision, over what is below it.
    pub wrote: Option<Version<V>>,
}

impl<V> Write<V> {
    /// It holds a version, and so does a load.
    pub open spec fn wf(self) -> bool {
        &&& self.loaded is Some || self.wrote is Some
        &&& self.loaded is Some ==> (self.loaded->0).len() > 0
    }

    /// What a write of this key goes on top of, where the row holds `h`.
    pub open spec fn base(self, h: History<V>) -> History<V> {
        match self.loaded {
            Some(loaded) => loaded,
            None => h,
        }
    }

    /// What a commit makes of a row that holds `h`.
    pub open spec fn landed(self, h: History<V>, compacted: Revision) -> History<V> {
        match self.wrote {
            Some(version) => row::grown(self.base(h), version, compacted),
            None => self.base(h),
        }
    }

    /// The version this leaves at the head of the row.
    pub open spec fn top(self) -> Version<V> {
        match self.wrote {
            Some(version) => version,
            None => (self.loaded->0).last(),
        }
    }
}

/// A history with a write on top of it, if there is one.
pub open spec fn topped<V>(h: History<V>, wrote: Option<Version<V>>) -> History<V> {
    match wrote {
        Some(version) => h.push(version),
        None => h,
    }
}

/// The place of `k` among the writes, or -1 if it is not there.
pub open spec fn place_of<V>(ws: Seq<Write<V>>, k: Seq<u8>) -> int {
    if exists|i: int| 0 <= i < ws.len() && (#[trigger] ws[i]).key == k {
        choose|i: int| 0 <= i < ws.len() && (#[trigger] ws[i]).key == k
    } else {
        -1
    }
}

/// The write of `k`, if there is one.
pub open spec fn written<V>(ws: Seq<Write<V>>, k: Seq<u8>) -> Option<Write<V>> {
    if place_of(ws, k) >= 0 {
        Some(ws[place_of(ws, k)])
    } else {
        None
    }
}

/// No key is written twice, and every write holds a version.
pub open spec fn distinct<V>(ws: Seq<Write<V>>) -> bool {
    &&& forall|i: int, j: int|
        #![trigger ws[i], ws[j]]
        0 <= i < j < ws.len() ==> ws[i].key != ws[j].key
    &&& forall|i: int| 0 <= i < ws.len() ==> (#[trigger] ws[i]).wf()
}

/// The writes with `w` in place of what was there for its key, or after the
/// rest if nothing was.
pub open spec fn with<V>(ws: Seq<Write<V>>, w: Write<V>) -> Seq<Write<V>> {
    if place_of(ws, w.key) >= 0 {
        ws.update(place_of(ws, w.key), w)
    } else {
        ws.push(w)
    }
}

/// What a load put at `k`, if anything.
pub open spec fn loaded_at<V>(ws: Seq<Write<V>>, k: Seq<u8>) -> Option<History<V>> {
    match written(ws, k) {
        Some(w) => w.loaded,
        None => None,
    }
}

/// The writes with `version` on top of `k`, in place of an earlier write of it.
pub open spec fn with_write<V>(ws: Seq<Write<V>>, k: Seq<u8>, version: Version<V>) -> Seq<
    Write<V>,
> {
    with(ws, Write { key: k, loaded: loaded_at(ws, k), wrote: Some(version) })
}

/// The writes with `versions` in place of the row, and of anything written over
/// it.
pub open spec fn with_load<V>(ws: Seq<Write<V>>, k: Seq<u8>, versions: History<V>) -> Seq<
    Write<V>,
> {
    with(ws, Write { key: k, loaded: Some(versions), wrote: None })
}

pub proof fn lemma_place<V>(ws: Seq<Write<V>>, i: int)
    requires
        distinct(ws),
        0 <= i < ws.len(),
    ensures
        place_of(ws, ws[i].key) == i,
        written(ws, ws[i].key) == Some(ws[i]),
{
    let k = ws[i].key;
    assert(ws[i].key == k);
    let j = place_of(ws, k);
    assert(0 <= j < ws.len() && ws[j].key == k);
    if i < j {
        assert(ws[i].key != ws[j].key);
    }
    if j < i {
        assert(ws[j].key != ws[i].key);
    }
}

/// A write changes what is written at its own key alone.
pub proof fn lemma_with<V>(ws: Seq<Write<V>>, w: Write<V>)
    requires
        distinct(ws),
        w.wf(),
    ensures
        distinct(with(ws, w)),
        with(ws, w).len() <= ws.len() + 1,
        forall|k: Seq<u8>| #[trigger]
            written(with(ws, w), k) == (if k == w.key {
                Some(w)
            } else {
                written(ws, k)
            }),
{
    let n = with(ws, w);
    let at = place_of(ws, w.key);
    if at >= 0 {
        assert(ws[at].key == w.key);
    }
    let slot = if at >= 0 { at } else { ws.len() as int };
    assert forall|i: int, j: int| 0 <= i < j < n.len() implies (#[trigger] n[i]).key != (
    #[trigger] n[j]).key by {
        if i != slot && j != slot {
            assert(ws[i].key != ws[j].key);
        } else if at >= 0 {
            assert(ws[i].key != ws[j].key);
        } else {
            assert(n[i] == ws[i]);
            assert(ws[i].key != w.key);
        }
    }
    assert forall|i: int| 0 <= i < n.len() implies (#[trigger] n[i]).wf() by {
        if i != slot {
            assert(n[i] == ws[i]);
        }
    }
    assert forall|k: Seq<u8>| #[trigger]
        written(n, k) == (if k == w.key {
            Some(w)
        } else {
            written(ws, k)
        }) by {
        if k == w.key {
            assert(n[slot] == w);
            lemma_place(n, slot);
        } else {
            if place_of(ws, k) >= 0 {
                let i = place_of(ws, k);
                assert(ws[i].key == k);
                assert(n[i] == ws[i]);
                lemma_place(n, i);
            } else if place_of(n, k) >= 0 {
                let i = place_of(n, k);
                assert(n[i].key == k);
                assert(n[i] == ws[i]);
                assert(ws[i].key == k);
            }
        }
    }
}

/// What a transaction leaves at one key: the history a load put in place of the
/// row, then the version an insert or a delete left on top of it. A load with a
/// write over it is a row rebuilt and then written, and the write follows the
/// history the load put there.
pub struct Pending<V> {
    pub key: Key,
    /// The whole history, in place of what the row holds. No change record.
    pub loaded: Option<Vec<Version<V>>>,
    /// One version, at the transaction's revision, over what is below it.
    pub wrote: Option<Version<V>>,
}

impl<V> View for Pending<V> {
    type V = Write<V>;

    open spec fn view(&self) -> Write<V> {
        Write {
            key: self.key@,
            loaded: match self.loaded {
                Some(versions) => Some(versions@),
                None => None,
            },
            wrote: self.wrote,
        }
    }
}

impl<V> Pending<V> {
    /// The version this leaves at the head of the row.
    pub fn newest(&self) -> (version: &Version<V>)
        requires
            self@.wf(),
        ensures
            *version == self@.top(),
    {
        if let Some(version) = &self.wrote {
            return version;
        }
        let versions = self.loaded.as_ref().unwrap();
        &versions[versions.len() - 1]
    }

    /// The versions a reader of this key sees, oldest first: the loaded history,
    /// or `stored` when this key was not loaded, and then the write.
    pub fn versions<F: FnOnce() -> Vec<Version<V>>>(&self, stored: F) -> (versions: Vec<Version<V>>)
        requires
            call_requires(stored, ()),
        ensures
            exists|base: Vec<Version<V>>|
                {
                    &&& match self@.loaded {
                        Some(loaded) => base@ == loaded,
                        None => call_ensures(stored, (), base),
                    }
                    &&& versions@ == #[trigger] topped(base@, self@.wrote)
                },
    {
        let mut versions = match &self.loaded {
            Some(loaded) => copied(loaded),
            None => stored(),
        };
        let ghost base = versions;
        if let Some(version) = &self.wrote {
            versions.push(version.clone());
        }
        assert(versions@ == topped(base@, self@.wrote));
        versions
    }
}

/// The writes of a list.
pub open spec fn writes<V>(pending: Seq<Pending<V>>) -> Seq<Write<V>> {
    Seq::new(pending.len(), |i: int| pending[i]@)
}

/// One table's buffered writes, in the order they were made.
pub struct Buffer<V> {
    pending: Vec<Pending<V>>,
    /// Where each key's write sits, so a second write of one key replaces the
    /// first where it stands rather than following it.
    at: Tree<usize>,
}

impl<V> View for Buffer<V> {
    type V = Seq<Write<V>>;

    closed spec fn view(&self) -> Seq<Write<V>> {
        writes(self.pending@)
    }
}

impl<V> Buffer<V> {
    /// The tree says where each write sits.
    pub closed spec fn wf(&self) -> bool {
        &&& distinct(self@)
        &&& self.at.wf()
        &&& forall|k: Seq<u8>| #[trigger]
            entries::get(self.at.entries(), k) == (if place_of(self@, k) >= 0 {
                Some(place_of(self@, k) as usize)
            } else {
                None
            })
    }

    pub proof fn lemma_distinct(&self)
        requires
            self.wf(),
        ensures
            distinct(self@),
    {
    }

    pub fn new() -> (buffer: Self)
        ensures
            buffer.wf(),
            buffer@ == Seq::<Write<V>>::empty(),
    {
        let buffer = Buffer { pending: Vec::new(), at: Tree::new() };
        assert(buffer@ =~= Seq::<Write<V>>::empty());
        buffer
    }

    pub fn len(&self) -> (n: usize)
        ensures
            n == self@.len(),
    {
        self.pending.len()
    }

    /// Where the write of `key` sits, if there is one.
    fn slot(&self, key: &[u8]) -> (at: Option<usize>)
        requires
            self.wf(),
        ensures
            match at {
                Some(at) => {
                    &&& at == place_of(self@, key@)
                    &&& at < self.pending@.len()
                    &&& self@[at as int].key == key@
                    &&& self@[at as int].wf()
                },
                None => place_of(self@, key@) < 0,
            },
    {
        let count = self.pending.len();
        proof {
            let i = place_of(self@, key@);
            if i >= 0 {
                assert(0 <= i < self@.len() && self@[i].key == key@);
                assert(i < count);
            }
        }
        match self.at.find(key) {
            Some(at) => Some(*at),
            None => None,
        }
    }

    /// Puts the write of a new key after the rest.
    fn append(&mut self, pending: Pending<V>)
        requires
            old(self).wf(),
            pending@.wf(),
            place_of(old(self)@, pending@.key) < 0,
        ensures
            final(self).wf(),
            final(self)@ == with(old(self)@, pending@),
    {
        let ghost was = self@;
        let ghost w = pending@;
        let ghost tree = self.at.entries();
        proof {
            lemma_with(was, w);
            self.at.lemma_sorted();
        }
        let at = self.pending.len();
        self.at.insert(pending.key.as_slice(), at);
        self.pending.push(pending);
        proof {
            assert(self@ =~= with(was, w));
            entries::lemma_put(tree, w.key, at);
            lemma_one_more(was, w);
        }
    }

    /// Leaves `version` on top of the key, in place of an earlier write of it.
    pub fn wrote(&mut self, key: Key, version: Version<V>)
        requires
            old(self).wf(),
        ensures
            final(self).wf(),
            final(self)@ == with_write(old(self)@, key@, version),
    {
        let ghost was = self@;
        let ghost w = Write { key: key@, loaded: loaded_at(was, key@), wrote: Some(version) };
        match self.slot(key.as_slice()) {
            Some(at) => {
                let pending = &mut self.pending[at];
                pending.wrote = Some(version);
                proof {
                    assert(self@ =~= with(was, w));
                    lemma_with(was, w);
                    lemma_same_places(was, w);
                }
            },
            None => self.append(Pending { key, loaded: None, wrote: Some(version) }),
        }
    }

    /// Puts `versions` in place of the row, and of anything written over it.
    pub fn loaded(&mut self, key: Key, versions: Vec<Version<V>>)
        requires
            old(self).wf(),
            versions@.len() > 0,
        ensures
            final(self).wf(),
            final(self)@ == with_load(old(self)@, key@, versions@),
    {
        let ghost was = self@;
        let ghost w = Write { key: key@, loaded: Some(versions@), wrote: None };
        match self.slot(key.as_slice()) {
            Some(at) => {
                let pending = &mut self.pending[at];
                pending.loaded = Some(versions);
                pending.wrote = None;
                proof {
                    assert(self@ =~= with(was, w));
                    lemma_with(was, w);
                    lemma_same_places(was, w);
                }
            },
            None => self.append(Pending { key, loaded: Some(versions), wrote: None }),
        }
    }

    /// The write of `key`, if there is one.
    pub fn written(&self, key: &[u8]) -> (pending: Option<&Pending<V>>)
        requires
            self.wf(),
        ensures
            match pending {
                Some(p) => written(self@, key@) == Some(p@) && p@.wf() && p@.key == key@,
                None => written(self@, key@) is None,
            },
    {
        match self.slot(key) {
            Some(at) => Some(&self.pending[at]),
            None => None,
        }
    }

    /// Whether one of the keys was loaded.
    pub fn rebuilds(&self) -> (yes: bool)
        ensures
            yes == exists|i: int| 0 <= i < self@.len() && (#[trigger] self@[i]).loaded is Some,
    {
        let n = self.pending.len();
        for at in 0..n
            invariant
                n == self.pending@.len(),
                forall|i: int| 0 <= i < at ==> (#[trigger] self@[i]).loaded is None,
        {
            if self.pending[at].loaded.is_some() {
                assert(self@[at as int].loaded is Some);
                return true;
            }
        }
        false
    }

    /// Where the writes at or after `from` sit, in key order.
    pub fn ordered(&self, from: &[u8]) -> (places: Vec<usize>)
        requires
            self.wf(),
        ensures
            forall|i: int| 0 <= i < places@.len() ==> (#[trigger] places@[i]) < self@.len(),
            entries::sorted(by_place(self@, places@)),
            forall|i: int|
                0 <= i < places@.len() ==> bytes::le(
                    from@,
                    (#[trigger] by_place(self@, places@)[i]).0,
                ),
            forall|k: Seq<u8>|
                bytes::le(from@, k) && #[trigger] written(self@, k) is Some ==> entries::get(
                    by_place(self@, places@),
                    k,
                ) is Some,
    {
        let list = self.at.range_from(from).collect(&self.at);
        let ghost e = self.at.entries();
        let ghost r = entries::run_from(e, from@);
        let ghost l = entries::listed(list@);
        let count = self.pending.len();
        proof {
            self.at.lemma_sorted();
            entries::lemma_run(e, from@);
            assert(entries::copied(r, l));
            assert(r =~= l);
            assert forall|i: int| 0 <= i < r.len() implies {
                let (k, at) = #[trigger] r[i];
                at < self@.len() && self@[at as int].key == k && !bytes::lt(k, from@)
            } by {
                let k = r[i].0;
                entries::lemma_found(r, i);
                assert(entries::get(r, k) == entries::get(e, k));
                let p = place_of(self@, k);
                assert(0 <= p < self@.len() && self@[p].key == k);
                assert(p < count);
            }
        }
        let mut places: Vec<usize> = Vec::with_capacity(list.len());
        let n = list.len();
        for i in 0..n
            invariant
                n == list@.len(),
                l == entries::listed(list@),
                places@.len() == i,
                forall|j: int| 0 <= j < i ==> (#[trigger] places@[j]) == l[j].1,
        {
            let at = list[i].1;
            assert(l[i as int].1 == at);
            places.push(at);
        }
        proof {
            let b = by_place(self@, places@);
            assert forall|i: int| 0 <= i < places@.len() implies (#[trigger] places@[i])
                < self@.len() by {
                assert(r[i] == l[i]);
            }
            assert(b =~= Seq::new(r.len(), |i: int| (r[i].0, self@[r[i].1 as int]))) by {
                assert forall|i: int| 0 <= i < b.len() implies (#[trigger] b[i]).0 == r[i].0 by {
                    assert(r[i] == l[i]);
                }
            }
            assert forall|i: int, j: int| 0 <= i < j < b.len() implies bytes::lt(
                (#[trigger] b[i]).0,
                (#[trigger] b[j]).0,
            ) by {
                assert(bytes::lt(r[i].0, r[j].0));
            }
            assert forall|k: Seq<u8>|
                bytes::le(from@, k) && #[trigger] written(self@, k) is Some implies entries::get(
                b,
                k,
            ) is Some by {
                assert(entries::get(e, k) is Some);
                assert(entries::get(r, k) is Some);
                let i = entries::lemma_get_index(r, k);
                assert(b[i].0 == k);
                entries::lemma_found(b, i);
            }
        }
        places
    }

    /// The write that sits at `at`.
    pub fn pending(&self, at: usize) -> (pending: &Pending<V>)
        requires
            self.wf(),
            at < self@.len(),
        ensures
            pending@ == self@[at as int],
            pending@.wf(),
            written(self@, pending@.key) == Some(pending@),
    {
        proof {
            lemma_place(self@, at as int);
        }
        &self.pending[at]
    }
}

/// The writes at `places`, each with its key.
pub open spec fn by_place<V>(ws: Seq<Write<V>>, places: Seq<usize>) -> Entries<Write<V>> {
    Seq::new(places.len(), |i: int| (ws[places[i] as int].key, ws[places[i] as int]))
}

/// A write in place of another one moves nothing.
pub(crate) proof fn lemma_same_places<V>(ws: Seq<Write<V>>, w: Write<V>)
    requires
        distinct(ws),
        w.wf(),
        place_of(ws, w.key) >= 0,
    ensures
        forall|k: Seq<u8>| #[trigger] place_of(with(ws, w), k) == place_of(ws, k),
{
    let n = with(ws, w);
    lemma_with(ws, w);
    let at = place_of(ws, w.key);
    assert(ws[at].key == w.key);
    assert forall|k: Seq<u8>| #[trigger] place_of(n, k) == place_of(ws, k) by {
        if place_of(ws, k) >= 0 {
            let i = place_of(ws, k);
            assert(ws[i].key == k);
            assert(n[i].key == k);
            lemma_place(n, i);
        } else if place_of(n, k) >= 0 {
            let i = place_of(n, k);
            assert(n[i].key == k);
            assert(ws[i].key == k);
        }
    }
}

/// A write of a new key goes to the end and moves nothing.
pub(crate) proof fn lemma_one_more<V>(ws: Seq<Write<V>>, w: Write<V>)
    requires
        distinct(ws),
        w.wf(),
        place_of(ws, w.key) < 0,
    ensures
        forall|k: Seq<u8>| #[trigger]
            place_of(with(ws, w), k) == (if k == w.key {
                ws.len() as int
            } else {
                place_of(ws, k)
            }),
{
    let n = with(ws, w);
    lemma_with(ws, w);
    assert forall|k: Seq<u8>| #[trigger]
        place_of(n, k) == (if k == w.key {
            ws.len() as int
        } else {
            place_of(ws, k)
        }) by {
        if k == w.key {
            assert(n[ws.len() as int] == w);
            lemma_place(n, ws.len() as int);
        } else if place_of(ws, k) >= 0 {
            let i = place_of(ws, k);
            assert(ws[i].key == k);
            assert(n[i] == ws[i]);
            lemma_place(n, i);
        } else if place_of(n, k) >= 0 {
            let i = place_of(n, k);
            assert(n[i].key == k);
            assert(n[i] == ws[i]);
            assert(ws[i].key == k);
        }
    }
}

/// A copy of a list of versions: one `Arc` bump each.
pub fn copied<V>(versions: &Vec<Version<V>>) -> (list: Vec<Version<V>>)
    ensures
        list@ == versions@,
{
    let mut list: Vec<Version<V>> = Vec::with_capacity(versions.len());
    let n = versions.len();
    for at in 0..n
        invariant
            n == versions@.len(),
            list@ == versions@.subrange(0, at as int),
    {
        list.push(versions[at].clone());
        assert(list@ =~= versions@.subrange(0, at + 1));
    }
    assert(versions@.subrange(0, n as int) =~= versions@);
    list
}

} // verus!
