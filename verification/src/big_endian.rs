//! Numbers as byte strings that sort as the numbers do.

use vstd::prelude::*;

use crate::bytes;

verus! {

/// `n` in `width` bytes, the most significant first.
pub open spec fn be(n: nat, width: nat) -> Seq<u8>
    decreases width,
{
    if width == 0 {
        Seq::empty()
    } else {
        be(n / 256, (width - 1) as nat).push((n % 256) as u8)
    }
}

/// The number `b` spells.
pub open spec fn value(b: Seq<u8>) -> nat
    decreases b.len(),
{
    if b.len() == 0 {
        0
    } else {
        value(b.drop_last()) * 256 + b.last() as nat
    }
}

/// How many numbers `width` bytes spell.
pub open spec fn span(width: nat) -> nat
    decreases width,
{
    if width == 0 {
        1
    } else {
        256 * span((width - 1) as nat)
    }
}

pub proof fn lemma_spans()
    ensures
        span(4) == 0x1_0000_0000,
        span(8) == 0x1_0000_0000_0000_0000,
{
    reveal_with_fuel(span, 9);
}

/// A number that fits is the one its bytes spell.
pub proof fn lemma_be(n: nat, width: nat)
    requires
        n < span(width),
    ensures
        be(n, width).len() == width,
        value(be(n, width)) == n,
    decreases width,
{
    if width > 0 {
        let w = (width - 1) as nat;
        assert(n / 256 < span(w));
        lemma_be(n / 256, w);
        let b = be(n, width);
        assert(b.drop_last() =~= be(n / 256, w));
    }
}

pub proof fn lemma_value_bound(b: Seq<u8>)
    ensures
        value(b) < span(b.len()),
    decreases b.len(),
{
    if b.len() > 0 {
        lemma_value_bound(b.drop_last());
    }
}

/// Bytes of one length sort as the numbers they spell.
pub proof fn lemma_order(a: Seq<u8>, b: Seq<u8>)
    requires
        a.len() == b.len(),
    ensures
        bytes::lt(a, b) == (value(a) < value(b)),
        a == b <==> value(a) == value(b),
    decreases a.len(),
{
    broadcast use crate::bytes::group_order;

    if a.len() > 0 {
        let (p, q) = (a.drop_last(), b.drop_last());
        let (x, y) = (seq![a.last()], seq![b.last()]);
        lemma_order(p, q);
        bytes::lemma_lt_concat(p, x, q, y);
        assert(a =~= p + x);
        assert(b =~= q + y);
        bytes::lemma_single(a.last(), b.last());
        assert(x =~= y <==> a.last() == b.last()) by {
            assert(x[0] == a.last() && y[0] == b.last());
        }
    } else {
        assert(a =~= b);
    }
}

/// Appends `n` in `width` bytes.
pub fn push_be(out: &mut Vec<u8>, n: u64, width: usize)
    ensures
        final(out)@ == old(out)@ + be(n as nat, width as nat),
    decreases width,
{
    let ghost was = out@;
    if width > 0 {
        push_be(out, n / 256, width - 1);
        out.push((n % 256) as u8);
    }
    assert(out@ =~= was + be(n as nat, width as nat));
}

/// The number `width` bytes from `at` on spell.
pub fn read_be(bytes: &[u8], at: usize, width: usize) -> (n: u64)
    requires
        width <= 8,
        at + width <= bytes@.len(),
    ensures
        n == value(bytes@.subrange(at as int, at + width)),
{
    let len = bytes.len();
    let mut n: u64 = 0;
    let mut i: usize = 0;
    while i < width
        invariant
            i <= width <= 8,
            len == bytes@.len(),
            at + width <= bytes@.len(),
            n == value(bytes@.subrange(at as int, at + i)),
        decreases width - i,
    {
        proof {
            let b = bytes@.subrange(at as int, at + i);
            let next = bytes@.subrange(at as int, at + i + 1);
            lemma_value_bound(b);
            lemma_spans();
            lemma_span_grows(i as nat, 7);
            reveal_with_fuel(span, 9);
            assert(next.drop_last() =~= b);
        }
        n = n * 256 + bytes[at + i] as u64;
        i += 1;
    }
    n
}

proof fn lemma_span_grows(a: nat, b: nat)
    requires
        a <= b,
    ensures
        span(a) <= span(b),
    decreases b - a,
{
    if a < b {
        lemma_span_grows(a, (b - 1) as nat);
    }
}

} // verus!
