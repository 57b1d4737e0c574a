//! The rows of one table as a reader sees them, in key order.

use std::sync::Arc;

use vstd::prelude::*;

use crate::bytes;
use crate::bytes::{compare, owned, starts_with, Side};
use crate::db::pending;
use crate::db::pending::{Buffer, Write};
use crate::db::row;
use crate::db::row::{History, Row};
use crate::db::rows;
use crate::db::{Key, Revision};
use crate::entries;
use crate::entries::Entries;
use crate::tree;
use crate::tree::Tree;

verus! {

/// What a reader at `at` sees of a key whose row holds `h` and for which `w` is
/// buffered: a buffered key stands in for the row.
pub open spec fn visible<V>(h: History<V>, w: Option<Write<V>>, at: Revision) -> Option<
    (Arc<V>, Revision),
> {
    match w {
        Some(w) => row::alive(Some(w.top())),
        None => row::live(h, at),
    }
}

/// A list of keys, values and revisions as entries.
pub open spec fn shown<V>(list: Seq<(Key, Arc<V>, Revision)>) -> Entries<(Arc<V>, Revision)> {
    Seq::new(list.len(), |i: int| (list[i].0@, (list[i].1, list[i].2)))
}

/// A key that a scan is for: at or after where it starts, and under the prefix
/// it is for, if it is for one.
pub open spec fn wanted(k: Seq<u8>, from: Seq<u8>, under: Option<Seq<u8>>) -> bool {
    &&& bytes::le(from, k)
    &&& under is Some ==> bytes::begins(k, under->0)
}

/// A prefix, as the contracts speak of it.
pub open spec fn prefix_of(under: Option<&[u8]>) -> Option<Seq<u8>> {
    match under {
        Some(p) => Some(p@),
        None => None,
    }
}

/// `k` is before what is left of the rows and of the buffered writes.
spec fn before<V>(a: Entries<Row<V>>, i: int, b: Entries<Write<V>>, j: int, k: Seq<u8>) -> bool {
    &&& i < a.len() ==> bytes::lt(k, a[i].0)
    &&& j < b.len() ==> bytes::lt(k, b[j].0)
}

/// Where a scan stands: the rows from `from` on, the writes from `from` on, and
/// how far it has come in both.
struct Front<V> {
    e: Entries<Row<V>>,
    ws: Seq<Write<V>>,
    at: Revision,
    from: Seq<u8>,
    a: Entries<Row<V>>,
    b: Entries<Write<V>>,
}

impl<V> Front<V> {
    spec fn wf(self) -> bool {
        &&& entries::sorted(self.a)
        &&& entries::sorted(self.b)
        &&& forall|i: int| 0 <= i < self.a.len() ==> bytes::le(self.from, (#[trigger] self.a[i]).0)
        &&& forall|i: int| 0 <= i < self.b.len() ==> bytes::le(self.from, (#[trigger] self.b[i]).0)
        &&& forall|k: Seq<u8>|
            bytes::le(self.from, k) && #[trigger] rows::history(self.e, k).len() > 0
                ==> entries::get(self.a, k) is Some
        &&& forall|k: Seq<u8>|
            bytes::le(self.from, k) && #[trigger] pending::written(self.ws, k) is Some
                ==> entries::get(self.b, k) is Some
    }

    spec fn sees(self, k: Seq<u8>) -> Option<(Arc<V>, Revision)> {
        visible(rows::history(self.e, k), pending::written(self.ws, k), self.at)
    }

    /// `list` is what the reader sees of everything passed so far.
    spec fn done(self, i: int, j: int, list: Entries<(Arc<V>, Revision)>) -> bool {
        &&& 0 <= i <= self.a.len()
        &&& 0 <= j <= self.b.len()
        &&& i > 0 ==> before(self.a, i, self.b, j, self.a[i - 1].0)
        &&& j > 0 ==> before(self.a, i, self.b, j, self.b[j - 1].0)
        &&& entries::sorted(list)
        &&& forall|k: Seq<u8>| #[trigger]
            entries::get(list, k) == (if bytes::le(self.from, k) && before(
                self.a,
                i,
                self.b,
                j,
                k,
            ) {
                self.sees(k)
            } else {
                None
            })
    }

    /// A key that is neither among the rows nor among the writes is not seen.
    proof fn lemma_unseen(self, i: int, j: int, k: Seq<u8>)
        requires
            self.wf(),
            0 <= i <= self.a.len(),
            0 <= j <= self.b.len(),
            bytes::le(self.from, k),
            before(self.a, i, self.b, j, k),
            i > 0 ==> bytes::lt(self.a[i - 1].0, k),
            j > 0 ==> bytes::lt(self.b[j - 1].0, k),
        ensures
            self.sees(k) is None,
    {
        broadcast use crate::bytes::group_order;

        if rows::history(self.e, k).len() > 0 {
            let x = entries::lemma_get_index(self.a, k);
            if x < i - 1 {
                assert(bytes::lt(self.a[x].0, self.a[i - 1].0));
            }
            if x > i {
                assert(bytes::lt(self.a[i].0, self.a[x].0));
            }
            assert(false);
        }
        if pending::written(self.ws, k) is Some {
            let x = entries::lemma_get_index(self.b, k);
            if x < j - 1 {
                assert(bytes::lt(self.b[x].0, self.b[j - 1].0));
            }
            if x > j {
                assert(bytes::lt(self.b[j].0, self.b[x].0));
            }
            assert(false);
        }
    }

    proof fn lemma_start(self)
        requires
            self.wf(),
        ensures
            self.done(0, 0, Seq::empty()),
    {
        let none = Entries::<(Arc<V>, Revision)>::empty();
        assert forall|k: Seq<u8>| #[trigger]
            entries::get(none, k) == (if bytes::le(self.from, k) && before(
                self.a,
                0,
                self.b,
                0,
                k,
            ) {
                self.sees(k)
            } else {
                None
            }) by {
            if bytes::le(self.from, k) && before(self.a, 0, self.b, 0, k) {
                self.lemma_unseen(0, 0, k);
            }
        }
    }

    /// A row that no write stands in for is seen as it is.
    proof fn lemma_row(self, i: int, j: int)
        requires
            self.wf(),
            self.a == entries::run_from(self.e, self.from),
            entries::sorted(self.e),
            0 <= i < self.a.len(),
            0 <= j <= self.b.len(),
            j > 0 ==> bytes::lt(self.b[j - 1].0, self.a[i].0),
            j < self.b.len() ==> bytes::lt(self.a[i].0, self.b[j].0),
        ensures
            self.sees(self.a[i].0) == row::live(self.a[i].1@, self.at),
    {
        broadcast use crate::bytes::group_order;

        let k = self.a[i].0;
        entries::lemma_run(self.e, self.from);
        entries::lemma_found(self.a, i);
        assert(entries::get(self.a, k) == entries::get(self.e, k));
        if pending::written(self.ws, k) is Some {
            let x = entries::lemma_get_index(self.b, k);
            if x < j - 1 {
                assert(bytes::lt(self.b[x].0, self.b[j - 1].0));
            }
            if x > j {
                assert(bytes::lt(self.b[j].0, self.b[x].0));
            }
            assert(false);
        }
    }

    /// The scan is over: nothing is left, or what is left is past the prefix.
    proof fn lemma_end(
        self,
        i: int,
        j: int,
        list: Entries<(Arc<V>, Revision)>,
        under: Option<Seq<u8>>,
        n: Option<Seq<u8>>,
    )
        requires
            self.wf(),
            self.done(i, j, list),
            all_under(list, under),
            under is Some ==> under->0 == self.from,
            match n {
                Some(n) => {
                    &&& under is Some
                    &&& !bytes::begins(n, under->0)
                    &&& bytes::le(self.from, n)
                    &&& i < self.a.len() ==> bytes::le(n, self.a[i].0)
                    &&& j < self.b.len() ==> bytes::le(n, self.b[j].0)
                },
                None => i == self.a.len() && j == self.b.len(),
            },
        ensures
            forall|k: Seq<u8>| #[trigger]
                entries::get(list, k) == (if wanted(k, self.from, under) {
                    self.sees(k)
                } else {
                    None
                }),
    {
        broadcast use crate::bytes::group_order;

        assert forall|k: Seq<u8>| #[trigger]
            entries::get(list, k) == (if wanted(k, self.from, under) {
                self.sees(k)
            } else {
                None
            }) by {
            if bytes::le(self.from, k) && !before(self.a, i, self.b, j, k) {
                if bytes::begins(k, under->0) {
                    bytes::lemma_begins_run(under->0, n->0, k);
                }
            } else if entries::get(list, k) is Some {
                let x = entries::lemma_get_index(list, k);
                assert(list[x].0 == k);
            }
        }
    }

    /// The smallest key left is passed.
    proof fn lemma_pass(
        self,
        i: int,
        j: int,
        list: Entries<(Arc<V>, Revision)>,
        n: Seq<u8>,
        next: Entries<(Arc<V>, Revision)>,
    )
        requires
            self.wf(),
            self.done(i, j, list),
            i < self.a.len() || j < self.b.len(),
            i < self.a.len() ==> bytes::le(n, self.a[i].0),
            j < self.b.len() ==> bytes::le(n, self.b[j].0),
            (i < self.a.len() && self.a[i].0 == n) || (j < self.b.len() && self.b[j].0 == n),
            next == (match self.sees(n) {
                Some(v) => list.push((n, v)),
                None => list,
            }),
        ensures
            ({
                let i2 = if i < self.a.len() && self.a[i].0 == n {
                    i + 1
                } else {
                    i
                };
                let j2 = if j < self.b.len() && self.b[j].0 == n {
                    j + 1
                } else {
                    j
                };
                self.done(i2, j2, next)
            }),
    {
        broadcast use crate::bytes::group_order;

        let i2 = if i < self.a.len() && self.a[i].0 == n {
            i + 1
        } else {
            i
        };
        let j2 = if j < self.b.len() && self.b[j].0 == n {
            j + 1
        } else {
            j
        };
        if i2 < self.a.len() && i2 > i {
            assert(bytes::lt(self.a[i].0, self.a[i2].0));
        }
        if j2 < self.b.len() && j2 > j {
            assert(bytes::lt(self.b[j].0, self.b[j2].0));
        }
        assert(before(self.a, i2, self.b, j2, n));
        assert forall|x: int| 0 <= x < list.len() implies bytes::lt((#[trigger] list[x]).0, n) by {
            entries::lemma_found(list, x);
            let k = list[x].0;
            assert(entries::get(list, k) is Some);
            assert(before(self.a, i, self.b, j, k));
        }
        let pushed = list.push((n, self.sees(n)->0));
        if self.sees(n) is Some {
            assert forall|x: int, y: int| 0 <= x < y < next.len() implies bytes::lt(
                (#[trigger] next[x]).0,
                (#[trigger] next[y]).0,
            ) by {
                assert(next[x] == list[x]);
                if y < list.len() {
                    assert(next[y] == list[y]);
                }
            }
        }
        assert forall|k: Seq<u8>| #[trigger]
            entries::get(next, k) == (if bytes::le(self.from, k) && before(
                self.a,
                i2,
                self.b,
                j2,
                k,
            ) {
                self.sees(k)
            } else {
                None
            }) by {
            lemma_get_push(list, n, self.sees(n), next, k);
            let was = entries::get(list, k);
            assert(was == (if bytes::le(self.from, k) && before(self.a, i, self.b, j, k) {
                self.sees(k)
            } else {
                None
            }));
            if k == n {
                assert(bytes::le(self.from, n));
            } else if bytes::lt(k, n) {
                assert(before(self.a, i, self.b, j, k));
                assert(before(self.a, i2, self.b, j2, k));
            } else {
                assert(bytes::lt(n, k));
                assert(!before(self.a, i, self.b, j, k));
                if bytes::le(self.from, k) && before(self.a, i2, self.b, j2, k) {
                    self.lemma_unseen(i2, j2, k);
                }
            }
        }
    }
}

/// Every key is under the prefix, if there is one.
spec fn all_under<T>(list: Entries<T>, under: Option<Seq<u8>>) -> bool {
    under is Some ==> forall|x: int|
        0 <= x < list.len() ==> bytes::begins((#[trigger] list[x]).0, under->0)
}

proof fn lemma_all_under<T>(
    list: Entries<T>,
    n: Seq<u8>,
    v: Option<T>,
    next: Entries<T>,
    under: Option<Seq<u8>>,
)
    requires
        all_under(list, under),
        under is Some ==> bytes::begins(n, under->0),
        next == (match v {
            Some(v) => list.push((n, v)),
            None => list,
        }),
    ensures
        all_under(next, under),
{
    if under is Some {
        assert forall|x: int| 0 <= x < next.len() implies bytes::begins(
            (#[trigger] next[x]).0,
            under->0,
        ) by {
            if x < list.len() {
                assert(next[x] == list[x]);
            }
        }
    }
}

/// A key put after the rest is found, and the rest as before.
proof fn lemma_get_push<T>(
    list: Entries<T>,
    n: Seq<u8>,
    v: Option<T>,
    next: Entries<T>,
    k: Seq<u8>,
)
    requires
        entries::sorted(list),
        entries::sorted(next),
        forall|x: int| 0 <= x < list.len() ==> bytes::lt((#[trigger] list[x]).0, n),
        next == (match v {
            Some(v) => list.push((n, v)),
            None => list,
        }),
    ensures
        entries::get(next, k) == (if k == n {
            v
        } else {
            entries::get(list, k)
        }),
{
    broadcast use crate::bytes::group_order;

    if k == n {
        if v is Some {
            assert(next[list.len() as int] == (n, v->0));
            entries::lemma_found(next, list.len() as int);
        } else {
            if entries::get(list, n) is Some {
                let i = entries::lemma_get_index(list, n);
                assert(bytes::lt(list[i].0, n));
            }
        }
    } else {
        if entries::get(list, k) is Some {
            let i = entries::lemma_get_index(list, k);
            assert(next[i] == list[i]);
            entries::lemma_found(next, i);
        } else if entries::get(next, k) is Some {
            let i = entries::lemma_get_index(next, k);
            assert(next[i] == list[i]);
            entries::lemma_found(list, i);
        }
    }
}

/// Every entry with a key `>= from` and under a prefix, in key order: the rows
/// read at `at`, with the writes a transaction buffered over them.
pub fn merged<V>(
    primary: &Tree<Row<V>>,
    buffer: Option<&Buffer<V>>,
    at: Revision,
    from: &[u8],
    under: Option<&[u8]>,
) -> (list: Vec<(Key, Arc<V>, Revision)>)
    requires
        primary.wf(),
        buffer matches Some(b) ==> b.wf(),
        under matches Some(p) ==> p@ == from@,
    ensures
        entries::sorted(shown(list@)),
        forall|k: Seq<u8>| #[trigger]
            entries::get(shown(list@), k) == (if wanted(k, from@, prefix_of(under)) {
                visible(
                    rows::history(primary.entries(), k),
                    pending::written(buffered(buffer), k),
                    at,
                )
            } else {
                None
            }),
{
    let places = match buffer {
        Some(buffer) => buffer.ordered(from),
        None => Vec::new(),
    };
    let ghost front = Front {
        e: primary.entries(),
        ws: buffered(buffer),
        at,
        from: from@,
        a: entries::run_from(primary.entries(), from@),
        b: pending::by_place(buffered(buffer), places@),
    };
    let ghost mut i: int = 0;
    let mut j: usize = 0;
    let mut list: Vec<(Key, Arc<V>, Revision)> = Vec::new();
    let mut walk = primary.range_from(from);
    proof {
        primary.lemma_sorted();
        entries::lemma_run(front.e, from@);
        assert(walk.rest(front.e) =~= front.a.subrange(0, front.a.len() as int));
        assert forall|k: Seq<u8>|
            bytes::le(from@, k) && #[trigger] rows::history(front.e, k).len() > 0 implies entries::get(
            front.a,
            k,
        ) is Some by {
            rows::lemma_history(front.e, k);
        }
        front.lemma_start();
        assert(shown(list@) =~= Seq::empty());
    }
    let mut row = advance(&mut walk, primary, Ghost(front.a), Ghost(0));
    loop
        invariant_except_break
            front.done(i, j as int, shown(list@)),
            all_under(shown(list@), prefix_of(under)),
        invariant
            primary.wf(),
            walk.wf(),
            entries::sorted(front.e),
            front.wf(),
            front.e == primary.entries(),
            front.a == entries::run_from(front.e, from@),
            front.ws == buffered(buffer),
            front.b == pending::by_place(front.ws, places@),
            front.at == at,
            front.from == from@,
            buffer matches Some(b) ==> b.wf(),
            buffer is None ==> places@.len() == 0,
            under matches Some(p) ==> p@ == from@,
            forall|x: int| 0 <= x < places@.len() ==> (#[trigger] places@[x]) < front.ws.len(),
            stands(front.a, i, row),
            row is Some ==> walk.rest(front.e) == front.a.subrange(i + 1, front.a.len() as int),
        ensures
            entries::sorted(shown(list@)),
            forall|k: Seq<u8>| #[trigger]
                entries::get(shown(list@), k) == (if wanted(k, from@, prefix_of(under)) {
                    front.sees(k)
                } else {
                    None
                }),
        decreases front.a.len() - i + places@.len() - j,
    {
        let take_buffered = match &row {
            Some((key, _)) => if j < places.len() {
                let pending = buffer.unwrap().pending(places[j]);
                match compare(pending.key.as_slice(), key.as_slice()) {
                    Side::After => false,
                    _ => true,
                }
            } else {
                false
            },
            None => if j < places.len() {
                true
            } else {
                proof {
                    front.lemma_end(i, j as int, shown(list@), prefix_of(under), None);
                }
                break;
            },
        };
        let key;
        let live;
        let advanced;
        if take_buffered {
            let pending = buffer.unwrap().pending(places[j]);
            let version = pending.newest();
            key = owned(pending.key.as_slice());
            live = if version.deleted {
                None
            } else {
                Some((version.value.clone(), version.revision))
            };
            advanced = match &row {
                Some((other, _)) => match compare(key.as_slice(), other.as_slice()) {
                    Side::Same => true,
                    _ => false,
                },
                None => false,
            };
            assert(front.b[j as int] == (pending@.key, pending@));
        } else {
            let (own, held) = row.as_ref().unwrap();
            key = owned(own.as_slice());
            live = held.live(at);
            advanced = true;
            proof {
                front.lemma_row(i, j as int);
            }
        }
        proof {
            broadcast use crate::bytes::group_order;

            assert(live == front.sees(key@));
            assert(i < front.a.len() ==> bytes::le(key@, front.a[i].0));
            assert(j < front.b.len() ==> bytes::le(key@, front.b[j as int].0));
        }
        if let Some(p) = under {
            if !starts_with(key.as_slice(), p) {
                proof {
                    front.lemma_end(i, j as int, shown(list@), prefix_of(under), Some(key@));
                }
                break;
            }
        }
        let ghost was = shown(list@);
        let ghost n = key@;
        if let Some((value, revision)) = live {
            list.push((key, value, revision));
            assert(shown(list@) =~= was.push((n, (value, revision))));
        }
        proof {
            front.lemma_pass(i, j as int, was, n, shown(list@));
            lemma_all_under(was, n, front.sees(n), shown(list@), prefix_of(under));
        }
        if advanced {
            proof {
                i = i + 1;
            }
            row = advance(&mut walk, primary, Ghost(front.a), Ghost(i));
        }
        if take_buffered {
            j += 1;
        }
    }
    list
}

/// The writes of a buffer that may not be there.
pub open spec fn buffered<V>(buffer: Option<&Buffer<V>>) -> Seq<Write<V>> {
    match buffer {
        Some(b) => b@,
        None => Seq::empty(),
    }
}

/// `row` is the row at place `i`, if there is one.
spec fn stands<V>(a: Entries<Row<V>>, i: int, row: Option<(Key, Row<V>)>) -> bool {
    &&& 0 <= i <= a.len()
    &&& row is None <==> i == a.len()
    &&& row matches Some((key, held)) ==> a[i] == (key@, held)
}

/// The row at place `i` of the run the walk started with.
fn advance<V>(
    walk: &mut tree::Iter<Row<V>>,
    primary: &Tree<Row<V>>,
    Ghost(a): Ghost<Entries<Row<V>>>,
    Ghost(i): Ghost<int>,
) -> (row: Option<(Key, Row<V>)>)
    requires
        old(walk).wf(),
        primary.wf(),
        0 <= i <= a.len(),
        old(walk).rest(primary.entries()) == a.subrange(i, a.len() as int),
    ensures
        final(walk).wf(),
        stands(a, i, row),
        row is Some ==> final(walk).rest(primary.entries()) == a.subrange(i + 1, a.len() as int),
{
    let ghost was = *walk;
    let row = walk.next(primary);
    proof {
        let e = primary.entries();
        primary.lemma_sorted();
        tree::lemma_walk_rest(was, e, tree::plain(row), *walk);
        if row is Some {
            let r = was.rest(e);
            assert(r[0] == a[i]);
            assert(cloned(r[0].1, (row->0).1));
            rows::lemma_row_copies(r.subrange(1, r.len() as int), walk.rest(e));
            assert(r.subrange(1, r.len() as int) =~= a.subrange(i + 1, a.len() as int));
        }
    }
    row
}

} // verus!
