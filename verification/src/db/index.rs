//! The keys of index entries, and the order they put them in.

use vstd::prelude::*;

use crate::big_endian;
use crate::big_endian::push_be;
use crate::bytes;
use crate::db::Key;

verus! {

/// What a search for one index key scans: its length big-endian, then the key.
///
/// The length ends the index key whatever bytes it holds, so a search for `a`
/// matches neither the entries of `ab` nor those of an index key that starts
/// with `a` and goes on.
pub open spec fn search_key(index_key: Seq<u8>) -> Seq<u8> {
    big_endian::be(index_key.len(), 4) + index_key
}

/// Key of an index entry: the search prefix, then the primary key, which keeps
/// the entries of one index key apart and is what the hit resolves through.
pub open spec fn entry_key(index_key: Seq<u8>, primary: Seq<u8>) -> Seq<u8> {
    search_key(index_key) + primary
}

/// A search finds the entries of its own index key and no others.
pub proof fn lemma_search(k: Seq<u8>, other: Seq<u8>, primary: Seq<u8>)
    requires
        k.len() <= u32::MAX,
        other.len() <= u32::MAX,
    ensures
        bytes::begins(entry_key(other, primary), search_key(k)) <==> k == other,
{
    big_endian::lemma_spans();
    big_endian::lemma_be(k.len(), 4);
    big_endian::lemma_be(other.len(), 4);
    let e = entry_key(other, primary);
    let p = search_key(k);
    if k == other {
        assert(e.subrange(0, p.len() as int) =~= p);
    }
    if bytes::begins(e, p) {
        let head = e.subrange(0, p.len() as int);
        assert(head.subrange(0, 4) =~= big_endian::be(other.len(), 4));
        assert(p.subrange(0, 4) =~= big_endian::be(k.len(), 4));
        assert(k.len() == other.len());
        assert(head.subrange(4, head.len() as int) =~= other);
        assert(p.subrange(4, p.len() as int) =~= k);
    }
}

/// An entry says which index key and which primary key it is for.
pub proof fn lemma_entry(k: Seq<u8>, p: Seq<u8>, k2: Seq<u8>, p2: Seq<u8>)
    requires
        k.len() <= u32::MAX,
        k2.len() <= u32::MAX,
        entry_key(k, p) == entry_key(k2, p2),
    ensures
        k == k2,
        p == p2,
{
    let e = entry_key(k, p);
    lemma_search(k, k, p);
    lemma_search(k, k2, p2);
    let n = search_key(k).len() as int;
    assert(e.subrange(n, e.len() as int) =~= p);
    assert(entry_key(k2, p2).subrange(n, e.len() as int) =~= p2);
}

/// The entries of one index key sort as their primary keys do.
pub proof fn lemma_entry_order(k: Seq<u8>, p: Seq<u8>, p2: Seq<u8>)
    ensures
        bytes::lt(entry_key(k, p), entry_key(k, p2)) == bytes::lt(p, p2),
{
    bytes::lemma_lt_under_prefix(search_key(k), p, p2);
}

pub fn index_prefix(index_key: &[u8]) -> (prefix: Vec<u8>)
    requires
        index_key@.len() <= u32::MAX,
    ensures
        prefix@ == search_key(index_key@),
{
    let mut prefix: Vec<u8> = Vec::with_capacity(4);
    push_be(&mut prefix, index_key.len() as u64, 4);
    prefix.extend_from_slice(index_key);
    assert(prefix@ =~= search_key(index_key@));
    prefix
}

pub fn index_entry(index_key: &[u8], primary: &[u8]) -> (key: Key)
    requires
        index_key@.len() <= u32::MAX,
    ensures
        key@ == entry_key(index_key@, primary@),
{
    let mut key = index_prefix(index_key);
    key.extend_from_slice(primary);
    assert(key@ =~= entry_key(index_key@, primary@));
    key
}

} // verus!
