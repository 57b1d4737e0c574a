//! A row: the versions of one key, newest at the head.

use std::sync::Arc;

use vstd::prelude::*;

use crate::db::Revision;

verus! {

/// One version of one key. A deletion keeps the value it removed, so a reader
/// of the change stream is told what went away.
pub struct Version<V> {
    pub revision: Revision,
    pub value: Arc<V>,
    pub deleted: bool,
}

/// Cloning a version is one `Arc` bump. Derived would ask for `V: Clone`,
/// which no table needs.
impl<V> Clone for Version<V> {
    fn clone(&self) -> (version: Self)
        ensures
            version == *self,
    {
        Version { revision: self.revision, value: self.value.clone(), deleted: self.deleted }
    }
}

// ------------------------------------------------------------------- history

/// The versions of one key, oldest first.
pub type History<V> = Seq<Version<V>>;

/// The place of the newest version at or below `at`, or -1 if every version is
/// above it.
pub open spec fn seen<V>(h: History<V>, at: Revision) -> int
    decreases h.len(),
{
    if h.len() == 0 {
        -1
    } else if h.last().revision <= at {
        h.len() - 1
    } else {
        seen(h.drop_last(), at)
    }
}

/// The newest version at or below `at`.
pub open spec fn version_at<V>(h: History<V>, at: Revision) -> Option<Version<V>> {
    if seen(h, at) >= 0 {
        Some(h[seen(h, at)])
    } else {
        None
    }
}

/// The value a version holds and its revision, unless it is a tombstone.
pub open spec fn alive<V>(version: Option<Version<V>>) -> Option<(Arc<V>, Revision)> {
    match version {
        Some(v) => if v.deleted {
            None
        } else {
            Some((v.value, v.revision))
        },
        None => None,
    }
}

/// The value a reader at `at` sees, and the revision of the commit that wrote
/// it.
pub open spec fn live<V>(h: History<V>, at: Revision) -> Option<(Arc<V>, Revision)> {
    alive(version_at(h, at))
}

/// The versions a reader at `at` sees: the newest at or below `at` and all that
/// are older.
pub open spec fn upto<V>(h: History<V>, at: Revision) -> History<V> {
    h.subrange(0, seen(h, at) + 1)
}

/// The newest version, if the history holds any.
pub open spec fn newest<V>(h: History<V>) -> Option<Version<V>> {
    if h.len() > 0 {
        Some(h.last())
    } else {
        None
    }
}

/// The value the newest version holds, unless it is a tombstone.
pub open spec fn held<V>(h: History<V>) -> Option<Arc<V>> {
    match alive(newest(h)) {
        Some((value, _)) => Some(value),
        None => None,
    }
}

/// The history ends with a tombstone at or below `at`.
pub open spec fn buried_by<V>(h: History<V>, at: Revision) -> bool {
    h.len() > 0 && h.last().deleted && h.last().revision <= at
}

/// The version one commit left, if the history still holds it.
pub open spec fn exactly<V>(h: History<V>, revision: Revision) -> Option<Version<V>>
    decreases h.len(),
{
    if h.len() == 0 || h.last().revision < revision {
        None
    } else if h.last().revision == revision {
        Some(h.last())
    } else {
        exactly(h.drop_last(), revision)
    }
}

/// The history without what nothing at or above `compacted` can ask for: it
/// then starts with the version a reader at the bound reads.
pub open spec fn trim<V>(h: History<V>, compacted: Revision) -> History<V> {
    if h.len() == 0 || h[0].revision > compacted {
        h
    } else {
        h.subrange(seen(h, compacted), h.len() as int)
    }
}

/// The history from the newest version at or below `compacted` on, or all of it
/// if every version is above that. Of a history in order it is what trimming
/// leaves.
pub open spec fn cut<V>(h: History<V>, compacted: Revision) -> History<V> {
    if seen(h, compacted) >= 0 {
        h.subrange(seen(h, compacted), h.len() as int)
    } else {
        h
    }
}

/// The history `version` leaves on top of `h`.
pub open spec fn grown<V>(h: History<V>, version: Version<V>, compacted: Revision) -> History<V> {
    trim(h, compacted).push(version)
}

/// No version is above one that follows it.
pub open spec fn ordered<V>(h: History<V>) -> bool {
    forall|i: int, j: int|
        #![trigger h[i], h[j]]
        0 <= i < j < h.len() ==> h[i].revision <= h[j].revision
}

/// Each version is above the one before it.
pub open spec fn ascending<V>(h: History<V>) -> bool {
    forall|i: int, j: int|
        #![trigger h[i], h[j]]
        0 <= i < j < h.len() ==> h[i].revision < h[j].revision
}

/// Whether each version is above the one before it.
pub fn ascends<V>(versions: &Vec<Version<V>>) -> (yes: bool)
    ensures
        yes == ascending(versions@),
{
    let n = versions.len();
    for at in 0..n
        invariant
            n == versions@.len(),
            forall|i: int, j: int|
                #![trigger versions@[i], versions@[j]]
                0 <= i < j < at ==> versions@[i].revision < versions@[j].revision,
    {
        if at > 0 && versions[at - 1].revision >= versions[at].revision {
            return false;
        }
        assert forall|i: int, j: int| 0 <= i < j < at + 1 implies (
        #[trigger] versions@[i]).revision < (#[trigger] versions@[j]).revision by {
            if j == at && i < at - 1 {
                assert(versions@[i].revision < versions@[at - 1].revision);
            }
        }
    }
    true
}

/// Every version is at or below `revision`.
pub open spec fn capped<V>(h: History<V>, revision: Revision) -> bool {
    forall|i: int| 0 <= i < h.len() ==> (#[trigger] h[i]).revision <= revision
}

pub proof fn lemma_seen<V>(h: History<V>, at: Revision)
    ensures
        -1 <= seen(h, at) < h.len(),
        seen(h, at) >= 0 ==> h[seen(h, at)].revision <= at,
        forall|i: int| seen(h, at) < i < h.len() ==> (#[trigger] h[i]).revision > at,
    decreases h.len(),
{
    if h.len() > 0 && h.last().revision > at {
        lemma_seen(h.drop_last(), at);
        assert forall|i: int| seen(h, at) < i < h.len() implies (#[trigger] h[i]).revision > at by {
            if i < h.len() - 1 {
                assert(h.drop_last()[i] == h[i]);
            }
        }
    }
}

/// `i` is the place of the newest version at or below `at`.
pub proof fn lemma_seen_is<V>(h: History<V>, at: Revision, i: int)
    requires
        -1 <= i < h.len(),
        i >= 0 ==> h[i].revision <= at,
        forall|j: int| i < j < h.len() ==> (#[trigger] h[j]).revision > at,
    ensures
        seen(h, at) == i,
{
    lemma_seen(h, at);
    let s = seen(h, at);
    if s < i {
        assert(h[i].revision > at);
    }
    if i < s {
        assert(h[s].revision > at);
    }
}

/// A reader at or above every version reads the newest.
pub proof fn lemma_capped<V>(h: History<V>, at: Revision)
    requires
        capped(h, at),
    ensures
        version_at(h, at) == newest(h),
{
    if h.len() > 0 {
        assert(h.last() == h[h.len() - 1]);
        assert(h[h.len() - 1].revision <= at);
    }
}

/// Trimming leaves what a reader at or above the bound reads.
pub proof fn lemma_trim<V>(h: History<V>, compacted: Revision, at: Revision)
    requires
        compacted <= at,
    ensures
        version_at(trim(h, compacted), at) == version_at(h, at),
{
    let t = trim(h, compacted);
    lemma_seen(h, compacted);
    lemma_seen(h, at);
    if t != h {
        let s = seen(h, compacted);
        if s < 0 {
            assert(h[0].revision > compacted);
        }
        let i = seen(h, at);
        assert(s >= 0);
        if i < s {
            assert(h[s].revision > at);
        }
        assert forall|j: int| i - s < j < t.len() implies (#[trigger] t[j]).revision > at by {
            assert(t[j] == h[s + j]);
        }
        assert(t[i - s] == h[i]);
        lemma_seen_is(t, at, i - s);
    }
}

/// Trimming leaves the newest version, and nothing that was not there.
pub proof fn lemma_trim_keeps<V>(h: History<V>, compacted: Revision)
    ensures
        newest(trim(h, compacted)) == newest(h),
        h.len() > 0 ==> trim(h, compacted).len() > 0,
        ordered(h) ==> ordered(trim(h, compacted)),
        forall|r: Revision| capped(h, r) ==> #[trigger] capped(trim(h, compacted), r),
{
    let t = trim(h, compacted);
    lemma_seen(h, compacted);
    if t != h {
        let s = seen(h, compacted);
        if s < 0 {
            assert(h[0].revision > compacted);
        }
        assert(t.last() == h.last());
        if ordered(h) {
            assert forall|i: int, j: int| 0 <= i < j < t.len() implies (#[trigger] t[i]).revision
                <= (#[trigger] t[j]).revision by {
                assert(t[i] == h[s + i] && t[j] == h[s + j]);
            }
        }
        assert forall|r: Revision| capped(h, r) implies #[trigger] capped(t, r) by {
            assert forall|i: int| 0 <= i < t.len() implies (#[trigger] t[i]).revision <= r by {
                assert(t[i] == h[s + i]);
            }
        }
    }
}

/// What a write leaves: its own version at its revision and above, and what was
/// there before for a reader between the compaction bound and the write.
pub proof fn lemma_grown<V>(h: History<V>, version: Version<V>, compacted: Revision, at: Revision)
    ensures
        at >= version.revision ==> version_at(grown(h, version, compacted), at) == Some(version),
        compacted <= at < version.revision ==> version_at(grown(h, version, compacted), at)
            == version_at(h, at),
        newest(grown(h, version, compacted)) == Some(version),
{
    let g = grown(h, version, compacted);
    assert(g.last() == version);
    assert(g.drop_last() =~= trim(h, compacted));
    if compacted <= at {
        lemma_trim(h, compacted, at);
        lemma_seen(trim(h, compacted), at);
    }
}

/// Trimming a history in order is cutting it at the bound.
pub proof fn lemma_cut<V>(h: History<V>, compacted: Revision)
    requires
        h.len() > 0 && h[0].revision > compacted ==> ordered(h),
    ensures
        trim(h, compacted) == cut(h, compacted),
{
    lemma_seen(h, compacted);
    let s = seen(h, compacted);
    if h.len() > 0 && h[0].revision > compacted && s > 0 {
        assert(h[0].revision <= h[s].revision);
    }
    if h.len() > 0 && h[0].revision <= compacted && s < 0 {
        assert(h[0].revision > compacted);
    }
}

/// A write past every version keeps the history in order.
pub proof fn lemma_grown_ordered<V>(h: History<V>, version: Version<V>, compacted: Revision)
    requires
        ordered(h),
        capped(h, version.revision),
    ensures
        ordered(grown(h, version, compacted)),
        capped(grown(h, version, compacted), version.revision),
{
    let t = trim(h, compacted);
    let g = grown(h, version, compacted);
    lemma_trim_keeps(h, compacted);
    assert(capped(t, version.revision));
    assert forall|i: int, j: int| 0 <= i < j < g.len() implies (#[trigger] g[i]).revision <= (
    #[trigger] g[j]).revision by {
        assert(g[i] == t[i]);
        if j < t.len() {
            assert(g[j] == t[j]);
        }
    }
}

/// A version past the compaction bound is still found after a later write.
pub proof fn lemma_exactly_grown<V>(
    h: History<V>,
    version: Version<V>,
    compacted: Revision,
    revision: Revision,
)
    requires
        ordered(h),
        compacted < revision < version.revision,
    ensures
        exactly(grown(h, version, compacted), revision) == exactly(h, revision),
{
    let g = grown(h, version, compacted);
    assert(g.drop_last() =~= trim(h, compacted));
    lemma_exactly_trim(h, compacted, revision);
}

proof fn lemma_exactly_trim<V>(h: History<V>, compacted: Revision, revision: Revision)
    requires
        ordered(h),
        compacted < revision,
    ensures
        exactly(trim(h, compacted), revision) == exactly(h, revision),
    decreases h.len(),
{
    let t = trim(h, compacted);
    lemma_seen(h, compacted);
    if t != h {
        let s = seen(h, compacted);
        if s < 0 {
            assert(h[0].revision > compacted);
        }
        lemma_exactly_tail(h, s, revision);
    }
}

/// What precedes a version below `revision` does not matter.
proof fn lemma_exactly_tail<V>(h: History<V>, s: int, revision: Revision)
    requires
        0 <= s < h.len(),
        h[s].revision < revision,
    ensures
        exactly(h.subrange(s, h.len() as int), revision) == exactly(h, revision),
    decreases h.len(),
{
    let t = h.subrange(s, h.len() as int);
    assert(t.last() == h.last());
    if h.last().revision > revision {
        assert(s < h.len() - 1);
        let p = h.drop_last();
        lemma_exactly_tail(p, s, revision);
        assert(p.subrange(s, p.len() as int) =~= t.drop_last());
    }
}

/// A version that is found is no later than the newest.
pub proof fn lemma_exactly_last<V>(h: History<V>, revision: Revision)
    requires
        exactly(h, revision) is Some,
    ensures
        h.len() > 0,
        h.last().revision >= revision,
{
}

// --------------------------------------------------------------------- chain

/// One version and everything older than it.
pub struct Link<V> {
    version: Version<V>,
    prev: Option<Arc<Link<V>>>,
}

/// The versions of a chain, oldest first.
pub closed spec fn chain<V>(link: &Link<V>) -> History<V>
    decreases link,
{
    match link.prev {
        Some(prev) => chain(&*prev).push(link.version),
        None => seq![link.version],
    }
}

proof fn lemma_chain<V>(link: &Link<V>)
    ensures
        chain(link).len() > 0,
        chain(link).last() == link.version,
        chain(link).drop_last() == (match link.prev {
            Some(prev) => chain(&*prev),
            None => Seq::empty(),
        }),
{
    match link.prev {
        Some(prev) => {
            assert(chain(link).drop_last() =~= chain(&*prev));
        },
        None => {
            assert(chain(link).drop_last() =~= Seq::empty());
        },
    }
}

/// `Arc::into_inner`: the value, if this is the only pointer to it.
#[verifier::external_body]
fn into_inner<T>(shared: Arc<T>) -> (value: Option<T>)
    ensures
        value matches Some(v) ==> v == *shared,
    opens_invariants none
    no_unwind
{
    Arc::into_inner(shared)
}

/// How many links there are from here down.
spec fn depth<V>(link: Option<Arc<Link<V>>>) -> nat {
    match link {
        Some(link) => chain(&*link).len(),
        None => 0,
    }
}

/// A chain is let go one link at a time, not one stack frame at a time: its
/// length is the number of writes to one key.
impl<V> Drop for Link<V> {
    fn drop(&mut self)
        opens_invariants none
        no_unwind
    {
        let mut next: Option<Arc<Link<V>>> = None;
        core::mem::swap(&mut next, &mut self.prev);
        loop
            decreases depth(next),
        {
            match next {
                Some(shared) => {
                    proof {
                        lemma_chain(&*shared);
                    }
                    let mut below: Option<Arc<Link<V>>> = None;
                    if let Some(link) = into_inner(shared) {
                        let mut link = link;
                        core::mem::swap(&mut below, &mut link.prev);
                    }
                    next = below;
                },
                None => {
                    return;
                },
            }
        }
    }
}

/// A row: the head of its version chain. A write is one allocation, the link
/// that points at what was there.
pub struct Row<V> {
    head: Arc<Link<V>>,
    /// The revision of the oldest version on the chain. A write that finds it
    /// above the compaction bound has nothing to trim and skips the walk.
    tail: Revision,
}

impl<V> View for Row<V> {
    type V = History<V>;

    closed spec fn view(&self) -> History<V> {
        chain(&*self.head)
    }
}

/// A reader clones the head and walks the chain on its own.
impl<V> Clone for Row<V> {
    fn clone(&self) -> (row: Self)
        ensures
            row == *self,
    {
        Row { head: self.head.clone(), tail: self.tail }
    }
}

impl<V> Row<V> {
    /// The tail is where the chain ends.
    pub closed spec fn wf(&self) -> bool {
        self.tail == self@[0].revision
    }

    /// A row holds a version.
    pub proof fn lemma_holds(&self)
        ensures
            self@.len() > 0,
    {
        lemma_chain(&*self.head);
    }

    /// The row `version` leaves on top of this chain.
    pub fn written(head: Option<Self>, version: Version<V>, compacted: Revision) -> (row: Self)
        requires
            head matches Some(row) ==> row.wf(),
        ensures
            row.wf(),
            row@ == grown(
                match head {
                    Some(row) => row@,
                    None => Seq::empty(),
                },
                version,
                compacted,
            ),
    {
        let tail;
        let prev;
        match head {
            None => {
                tail = version.revision;
                prev = None;
            },
            Some(row) => {
                proof {
                    lemma_chain(&*row.head);
                }
                if row.tail > compacted {
                    tail = row.tail;
                    prev = Some(row.head.clone());
                } else {
                    let (link, end) = trimmed(&row.head, compacted);
                    proof {
                        lemma_cut(row@, compacted);
                        lemma_chain(&*link);
                    }
                    tail = end;
                    prev = Some(link);
                }
            },
        }
        Row { head: Arc::new(Link { version, prev }), tail }
    }

    /// The chain `versions` makes, which are in ascending revision order.
    pub fn loaded(versions: &Vec<Version<V>>) -> (row: Self)
        requires
            versions@.len() > 0,
        ensures
            row.wf(),
            row@ == versions@,
    {
        let tail = versions[0].revision;
        let mut head = Arc::new(Link { version: versions[0].clone(), prev: None });
        let mut at: usize = 1;
        assert(versions@.subrange(0, 1) =~= seq![versions@[0]]);
        while at < versions.len()
            invariant
                1 <= at <= versions@.len(),
                chain(&*head) == versions@.subrange(0, at as int),
            decreases versions@.len() - at,
        {
            head = Arc::new(Link { version: versions[at].clone(), prev: Some(head) });
            assert(versions@.subrange(0, at + 1) =~= versions@.subrange(0, at as int).push(
                versions@[at as int],
            ));
            at += 1;
        }
        assert(versions@.subrange(0, at as int) =~= versions@);
        Row { head, tail }
    }

    /// The newest version.
    pub fn newest(&self) -> (version: &Version<V>)
        ensures
            newest(self@) == Some(*version),
    {
        proof {
            lemma_chain(&*self.head);
        }
        &self.head.version
    }

    /// The newest version at or below `at`. A row whose every version is above
    /// it was written after the reader's revision and is not there yet.
    pub fn at(&self, at: Revision) -> (version: Option<&Version<V>>)
        ensures
            match version {
                Some(v) => version_at(self@, at) == Some(*v),
                None => version_at(self@, at) is None,
            },
    {
        match find_at(&*self.head, at) {
            Some(link) => {
                proof {
                    lemma_chain(link);
                    lemma_seen(self@, at);
                    assert(upto(self@, at).last() == self@[seen(self@, at)]);
                }
                Some(&link.version)
            },
            None => None,
        }
    }

    /// The version one commit left, if the row still holds it.
    pub fn exactly(&self, revision: Revision) -> (version: Option<&Version<V>>)
        ensures
            match version {
                Some(v) => exactly(self@, revision) == Some(*v),
                None => exactly(self@, revision) is None,
            },
    {
        let mut link: &Link<V> = &*self.head;
        loop
            invariant
                exactly(self@, revision) == exactly(chain(link), revision),
            decreases chain(link).len(),
        {
            proof {
                lemma_chain(link);
            }
            if link.version.revision < revision {
                return None;
            }
            if link.version.revision == revision {
                return Some(&link.version);
            }
            match &link.prev {
                Some(prev) => {
                    link = &**prev;
                },
                None => {
                    assert(exactly(chain(link).drop_last(), revision) is None);
                    return None;
                },
            }
        }
    }

    /// The value at `at`, unless the version there is a tombstone.
    pub fn live(&self, at: Revision) -> (found: Option<(Arc<V>, Revision)>)
        ensures
            found == live(self@, at),
    {
        match self.at(at) {
            Some(version) => if version.deleted {
                None
            } else {
                Some((version.value.clone(), version.revision))
            },
            None => None,
        }
    }

    /// The value the newest version holds: what a write hands back and what the
    /// indexes list.
    pub fn held(&self) -> (value: Option<Arc<V>>)
        ensures
            value == held(self@),
    {
        let version = self.newest();
        if version.deleted {
            None
        } else {
            Some(version.value.clone())
        }
    }

    /// The revision of the tombstone this row ends with, if it ends with one.
    pub fn tombstoned(&self) -> (revision: Option<Revision>)
        ensures
            match revision {
                Some(r) => newest(self@)->0.deleted && newest(self@)->0.revision == r,
                None => !newest(self@)->0.deleted,
            },
    {
        let version = self.newest();
        if version.deleted {
            Some(version.revision)
        } else {
            None
        }
    }

    /// Every version at or below `at`, oldest first.
    pub fn versions(&self, at: Revision) -> (versions: Vec<Version<V>>)
        ensures
            versions@ == upto(self@, at),
    {
        match find_at(&*self.head, at) {
            Some(link) => listed(link),
            None => Vec::new(),
        }
    }
}

/// The link of the newest version at or below `at`, from `head` down.
fn find_at<'a, V>(head: &'a Link<V>, at: Revision) -> (found: Option<&'a Link<V>>)
    ensures
        match found {
            Some(link) => chain(link) == upto(chain(head), at) && seen(chain(head), at) >= 0,
            None => seen(chain(head), at) == -1,
        },
{
    let mut link: &'a Link<V> = head;
    loop
        invariant
            seen(chain(head), at) == seen(chain(link), at),
            chain(link).len() <= chain(head).len(),
            chain(link) == chain(head).subrange(0, chain(link).len() as int),
        decreases chain(link).len(),
    {
        proof {
            lemma_chain(link);
        }
        if link.version.revision <= at {
            return Some(link);
        }
        match &link.prev {
            Some(prev) => {
                assert(chain(&**prev) =~= chain(head).subrange(0, chain(&**prev).len() as int));
                link = &**prev;
            },
            None => {
                assert(seen(chain(link).drop_last(), at) == -1);
                return None;
            },
        }
    }
}

/// Every version of a chain, oldest first.
fn listed<V>(head: &Link<V>) -> (versions: Vec<Version<V>>)
    ensures
        versions@ == chain(head),
{
    let mut back: Vec<Version<V>> = Vec::new();
    let mut link: &Link<V> = head;
    loop
        invariant_except_break
            back@.reverse() == chain(head).subrange(
                chain(link).len() as int,
                chain(head).len() as int,
            ),
        invariant
            chain(link).len() <= chain(head).len(),
            chain(link) == chain(head).subrange(0, chain(link).len() as int),
        ensures
            back@.reverse() == chain(head),
        decreases chain(link).len(),
    {
        proof {
            lemma_chain(link);
        }
        let ghost n = chain(link).len() as int;
        let ghost before = back@;
        back.push(link.version.clone());
        proof {
            let c = chain(head);
            assert(c[n - 1] == chain(link).last());
            assert(back@.reverse() =~= seq![link.version] + before.reverse());
            assert(back@.reverse() =~= c.subrange(n - 1, c.len() as int));
        }
        match &link.prev {
            Some(prev) => {
                assert(chain(&**prev) =~= chain(head).subrange(0, n - 1));
                link = &**prev;
            },
            None => {
                break;
            },
        }
    }
    reversed(back)
}

/// The versions in the other order.
fn reversed<V>(versions: Vec<Version<V>>) -> (turned: Vec<Version<V>>)
    ensures
        turned@ == versions@.reverse(),
{
    let mut left = versions;
    let mut turned: Vec<Version<V>> = Vec::with_capacity(left.len());
    loop
        invariant
            left@.len() <= versions@.len(),
            left@ == versions@.subrange(0, left@.len() as int),
            turned@ == versions@.subrange(left@.len() as int, versions@.len() as int).reverse(),
        decreases left@.len(),
    {
        let ghost n = left@.len() as int;
        match left.pop() {
            Some(version) => {
                turned.push(version);
                assert(turned@ =~= versions@.subrange(n - 1, versions@.len() as int).reverse());
            },
            None => {
                assert(versions@.subrange(0, versions@.len() as int) =~= versions@);
                return turned;
            },
        }
    }
}

/// The chain from `head` down to the first version at or below `compacted`,
/// which ends it: a reader at the compaction bound still reads the value that
/// version holds, and nothing below it may be asked for again. The links above
/// it are rebuilt, one allocation per write since the compaction; a chain that
/// already ends there is passed on as it is. Returns the chain and the
/// revision it now ends at.
fn trimmed<V>(head: &Arc<Link<V>>, compacted: Revision) -> (r: (Arc<Link<V>>, Revision))
    ensures
        chain(&*r.0) == cut(chain(&**head), compacted),
        ordered(chain(&**head)) ==> chain(&*r.0) == trim(chain(&**head), compacted),
        r.1 == chain(&*r.0)[0].revision,
{
    let ghost c = chain(&**head);
    proof {
        lemma_chain(&**head);
        lemma_seen(c, compacted);
        if ordered(c) {
            lemma_cut(c, compacted);
        }
    }
    let ghost s = seen(c, compacted);
    let mut above: Vec<Version<V>> = Vec::new();
    let mut link: &Link<V> = &**head;
    while link.version.revision > compacted
        invariant
            c == chain(&**head),
            s == seen(c, compacted),
            ordered(c) ==> trim(c, compacted) == cut(c, compacted),
            s == seen(chain(link), compacted),
            chain(link).len() <= c.len(),
            chain(link) == c.subrange(0, chain(link).len() as int),
            above@.reverse() == c.subrange(chain(link).len() as int, c.len() as int),
        decreases chain(link).len(),
    {
        proof {
            lemma_chain(link);
        }
        let ghost n = chain(link).len() as int;
        let ghost before = above@;
        above.push(link.version.clone());
        proof {
            assert(c[n - 1] == chain(link).last());
            assert(above@.reverse() =~= seq![link.version] + before.reverse());
            assert(above@.reverse() =~= c.subrange(n - 1, c.len() as int));
        }
        match &link.prev {
            Some(prev) => {
                assert(chain(&**prev) =~= c.subrange(0, n - 1));
                link = &**prev;
            },
            None => {
                assert(seen(chain(link).drop_last(), compacted) == -1);
                assert(chain(link)[0] == link.version);
                return (head.clone(), link.version.revision);
            },
        }
    }
    proof {
        lemma_chain(link);
    }
    let bound = link.version.revision;
    assert(c[s] == link.version);
    if link.prev.is_none() {
        assert(c.subrange(0, c.len() as int) =~= c);
        return (head.clone(), bound);
    }
    let mut rebuilt = Arc::new(Link { version: link.version.clone(), prev: None });
    let ghost up = above@.reverse();
    assert(chain(&*rebuilt) =~= c.subrange(s, s + 1));
    assert(up =~= c.subrange(s + 1, c.len() as int));
    loop
        invariant
            0 <= s < c.len(),
            above@.len() <= up.len(),
            up == c.subrange(s + 1, c.len() as int),
            above@.reverse() == up.subrange(up.len() - above@.len(), up.len() as int),
            chain(&*rebuilt) == c.subrange(s, c.len() - above@.len()),
            bound == c[s].revision,
        ensures
            chain(&*rebuilt) == c.subrange(s, c.len() as int),
        decreases above@.len(),
    {
        let ghost n = above@.len() as int;
        let ghost was = above@;
        match above.pop() {
            Some(version) => {
                proof {
                    assert(version == was.reverse()[0]);
                    assert(version == c[c.len() - n]);
                    assert(above@.reverse() =~= was.reverse().subrange(1, n));
                    assert(above@.reverse() =~= up.subrange(up.len() - (n - 1), up.len() as int));
                    assert(c.subrange(s, c.len() - (n - 1)) =~= c.subrange(s, c.len() - n).push(
                        version,
                    ));
                }
                rebuilt = Arc::new(Link { version, prev: Some(rebuilt) });
            },
            None => {
                break;
            },
        }
    }
    (rebuilt, bound)
}

} // verus!
