//! A verified stable sort for key-decorated colors.
//!
//! Both pipeline stages rank colors: hue buckets by pixel count, highlight
//! candidates by chroma, chosen highlights by hue. Each ranking pairs every
//! color with one `u64` key that already encodes the tie-break (the
//! element's original position sits in the low bits, so keys within one
//! sequence are distinct), sorts the pairs by key, and reads the colors back
//! out. One insertion sort serves all three rankings, and its result is
//! pinned to the sequence library's `sort_by`.

use crate::color::Color;
use vstd::prelude::*;
use vstd::relations::{sorted_by, total_ordering};
use vstd::seq_lib::{lemma_multiset_commutative, lemma_sorted_unique};

verus! {

/// Order on decorated colors: by key first, then (only so that the order is
/// total on all conceivable pairs) lexicographically by the color's
/// coordinates. The rankings in this crate never fall through to the color
/// comparison, because their keys are distinct.
pub open spec fn keyed_le(a: (u64, Color), b: (u64, Color)) -> bool {
    if a.0 != b.0 {
        a.0 < b.0
    } else if a.1.l != b.1.l {
        a.1.l < b.1.l
    } else if a.1.c != b.1.c {
        a.1.c < b.1.c
    } else {
        a.1.h <= b.1.h
    }
}

/// `keyed_le` as a first-class relation, in the shape the sequence library's
/// sorting lemmas expect.
pub open spec fn keyed_order() -> spec_fn((u64, Color), (u64, Color)) -> bool {
    |a: (u64, Color), b: (u64, Color)| keyed_le(a, b)
}

/// The keyed order really is total: reflexive, antisymmetric, transitive and
/// strongly connected.
pub proof fn lemma_keyed_order_total()
    ensures
        total_ordering(keyed_order()),
{
    let r = keyed_order();
    assert forall|x: (u64, Color), y: (u64, Color)| #[trigger] r(x, y) && #[trigger] r(y, x)
        implies x == y by {
        assert(x.1.l == y.1.l && x.1.c == y.1.c && x.1.h == y.1.h);
    }
}

/// Runtime counterpart of [`keyed_le`].
fn keyed_le_exec(a: &(u64, Color), b: &(u64, Color)) -> (r: bool)
    ensures
        r == keyed_le(*a, *b),
{
    if a.0 != b.0 {
        a.0 < b.0
    } else if a.1.l != b.1.l {
        a.1.l < b.1.l
    } else if a.1.c != b.1.c {
        a.1.c < b.1.c
    } else {
        a.1.h <= b.1.h
    }
}

/// Inserting an element anywhere in a sequence adds it to the sequence's
/// multiset of elements.
proof fn lemma_insert_to_multiset(s: Seq<(u64, Color)>, p: int, x: (u64, Color))
    requires
        0 <= p <= s.len(),
    ensures
        s.insert(p, x).to_multiset() =~= s.to_multiset().insert(x),
{
    broadcast use vstd::seq_lib::group_to_multiset_ensures;
    broadcast use vstd::multiset::group_multiset_axioms;

    let left = s.subrange(0, p);
    let right = s.subrange(p, s.len() as int);
    assert(s =~= left + right);
    lemma_multiset_commutative(left, right);
    lemma_multiset_commutative(left.push(x), right);
    assert(left.push(x).to_multiset() =~= left.to_multiset().insert(x));
    assert(left.to_multiset().insert(x).add(right.to_multiset()) =~= left.to_multiset().add(
        right.to_multiset(),
    ).insert(x));
}

/// Sort the decorated colors by [`keyed_le`]. The result is exactly what the
/// sequence library's `sort_by` names for the input, so two rankings of equal
/// sequences are equal.
pub fn sort_keyed(input: Vec<(u64, Color)>) -> (out: Vec<(u64, Color)>)
    ensures
        out@ == input@.sort_by(keyed_order()),
        out@.to_multiset() == input@.to_multiset(),
        out@.len() == input@.len(),
        forall|x: (u64, Color)| #[trigger] out@.contains(x) ==> input@.contains(x),
{
    broadcast use vstd::seq_lib::group_to_multiset_ensures;

    let mut out: Vec<(u64, Color)> = Vec::new();
    let mut i: usize = 0;
    while i < input.len()
        invariant
            i <= input@.len(),
            out@.len() == i,
            sorted_by(out@, keyed_order()),
            out@.to_multiset() == input@.take(i as int).to_multiset(),
        decreases input@.len() - i,
    {
        let x = input[i];
        let mut p: usize = out.len();
        while p > 0 && !keyed_le_exec(&out[p - 1], &x)
            invariant
                p <= out@.len(),
                forall|k: int| p <= k < out@.len() ==> !keyed_le(#[trigger] out@[k], x),
            decreases p,
        {
            p = p - 1;
        }
        let ghost prev = out@;
        out.insert(p, x);
        proof {
            lemma_keyed_order_total();
            let r = keyed_order();
            // The new sequence is still sorted: everything left of `p` was
            // at most `x`, everything right of `p` was strictly above it.
            assert forall|a: int, b: int| 0 <= a < b < out@.len() implies #[trigger] r(
                out@[a],
                out@[b],
            ) by {
                prev.insert_ensures(p as int, x);
                if a < p && b == p {
                    if p > 0 && a < p - 1 {
                        assert(r(prev[a], prev[p - 1]));
                    }
                    assert(keyed_le(prev[p - 1], x));
                } else if a == p && b > p {
                    assert(!keyed_le(prev[b - 1], x));
                    assert(r(out@[a], out@[b]));
                } else if a < p && b > p {
                    if p > 0 && a < p - 1 {
                        assert(r(prev[a], prev[p - 1]));
                    }
                    assert(keyed_le(prev[p - 1], x));
                    assert(!keyed_le(prev[b - 1], x));
                }
            }
            lemma_insert_to_multiset(prev, p as int, x);
            vstd::seq_lib::to_multiset_build(input@.take(i as int), x);
            assert(input@.take(i + 1) =~= input@.take(i as int).push(x));
            assert(input@.take(i as int).push(x).to_multiset() =~= input@.take(
                i as int,
            ).to_multiset().insert(x));
            assert(out@.to_multiset() =~= input@.take(i + 1).to_multiset());
        }
        i = i + 1;
    }
    proof {
        lemma_keyed_order_total();
        assert(input@.take(input@.len() as int) =~= input@);
        input@.lemma_sort_by_ensures(keyed_order());
        lemma_sorted_unique(out@, input@.sort_by(keyed_order()), keyed_order());
        assert(out@ =~= input@.sort_by(keyed_order()));
        assert forall|x: (u64, Color)| #[trigger] out@.contains(x) implies input@.contains(x) by {
            assert(out@.to_multiset().contains(x));
        }
    }
    out
}

} // verus!
