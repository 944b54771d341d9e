//! Background statistics: the median of a collection of 16-bit pixel values,
//! and its restriction to the pixels left uncovered by a mask.
//!
//! The median of an odd-sized collection is the middle element of its sorted
//! order; for an even size it is the integer-truncated mean of the two middle
//! elements.  An empty collection has median 0.

use vstd::prelude::*;
use vstd::relations::{sorted_by, total_ordering};
use vstd::seq_lib::{lemma_multiset_commutative, lemma_sorted_unique};

verus! {

/// The order the median is defined against: plain `<=` on `u16`.
pub open spec fn u16_leq() -> spec_fn(u16, u16) -> bool {
    |x: u16, y: u16| x <= y
}

/// The ascending reordering of a collection of values.
pub open spec fn sorted_of(s: Seq<u16>) -> Seq<u16> {
    s.sort_by(u16_leq())
}

/// The median of a collection of values, as described above.
pub open spec fn median_spec(s: Seq<u16>) -> u16 {
    if s.len() == 0 {
        0u16
    } else {
        let t = sorted_of(s);
        let mid = s.len() as int / 2;
        if s.len() % 2 == 1 {
            t[mid]
        } else {
            (((t[mid - 1] + t[mid]) / 2) as u16)
        }
    }
}

/// The values of `frame`, restricted to the first `n` positions where `mask`
/// is false, in frame order.
pub open spec fn outside_values(frame: Seq<u16>, mask: Seq<bool>, n: int) -> Seq<u16>
    decreases n,
{
    if n <= 0 {
        Seq::empty()
    } else {
        let prev = outside_values(frame, mask, n - 1);
        if mask[n - 1] {
            prev
        } else {
            prev.push(frame[n - 1])
        }
    }
}

/// `<=` on `u16` is a total order.
proof fn lemma_u16_leq_total()
    ensures
        total_ordering(u16_leq()),
{
}

/// Inserting an element anywhere in a sequence adds it to the multiset.
proof fn lemma_insert_to_multiset(s: Seq<u16>, pos: int, elt: u16)
    requires
        0 <= pos <= s.len(),
    ensures
        s.insert(pos, elt).to_multiset() =~= s.to_multiset().insert(elt),
{
    broadcast use vstd::multiset::group_multiset_axioms;
    broadcast use vstd::seq_lib::group_to_multiset_ensures;

    let a = s.subrange(0, pos);
    let b = s.subrange(pos, s.len() as int);
    assert(s =~= a + b);
    lemma_multiset_commutative(a, b);
    lemma_multiset_commutative(a.push(elt), b);
    assert(a.push(elt).to_multiset() =~= a.to_multiset().insert(elt));
}

/// A sequence that is sorted and holds the same values as `s` is exactly
/// `sorted_of(s)`.
proof fn lemma_sorted_matches(s: Seq<u16>, t: Seq<u16>)
    requires
        sorted_by(t, u16_leq()),
        t.to_multiset() == s.to_multiset(),
    ensures
        t == sorted_of(s),
{
    lemma_u16_leq_total();
    s.lemma_sort_by_ensures(u16_leq());
    lemma_sorted_unique(t, s.sort_by(u16_leq()), u16_leq());
}

/// Produces the ascending reordering of the input values.
fn sort_u16(input: &[u16]) -> (out: Vec<u16>)
    ensures
        out@ == sorted_of(input@),
        out@.len() == input@.len(),
{
    let mut out: Vec<u16> = Vec::new();
    proof {
        broadcast use vstd::seq_lib::group_to_multiset_ensures;

        assert(input@.subrange(0, 0) =~= Seq::<u16>::empty());
    }
    let mut i: usize = 0;
    while i < input.len()
        invariant
            i <= input@.len(),
            out@.len() == i,
            sorted_by(out@, u16_leq()),
            out@.to_multiset() == input@.subrange(0, i as int).to_multiset(),
        decreases input@.len() - i,
    {
        let elt = input[i];
        let mut pos: usize = 0;
        while pos < out.len() && out[pos] <= elt
            invariant
                pos <= out@.len(),
                forall|j: int| 0 <= j < pos ==> out@[j] <= elt,
            decreases out@.len() - pos,
        {
            pos = pos + 1;
        }
        let ghost prev = out@;
        out.insert(pos, elt);
        proof {
            broadcast use vstd::seq_lib::group_to_multiset_ensures;

            assert(out@ =~= prev.insert(pos as int, elt));
            lemma_insert_to_multiset(prev, pos as int, elt);
            assert(input@.subrange(0, i + 1) =~= input@.subrange(0, i as int).push(input@[i as int]));
            assert forall|a: int, b: int| 0 <= a < b < out@.len() implies u16_leq()(
                out@[a],
                out@[b],
            ) by {
                prev.insert_ensures(pos as int, elt);
                if b < pos {
                    assert(out@[a] == prev[a] && out@[b] == prev[b]);
                    assert(u16_leq()(prev[a], prev[b]));
                } else if a > pos {
                    assert(out@[a] == prev[a - 1] && out@[b] == prev[b - 1]);
                    assert(u16_leq()(prev[a - 1], prev[b - 1]));
                } else if a < pos && b == pos {
                    assert(out@[a] == prev[a] && out@[b] == elt);
                    assert(prev[a] <= elt);
                } else if a == pos && b > pos {
                    assert(out@[a] == elt && out@[b] == prev[b - 1]);
                    assert(pos < prev.len() && elt < prev[pos as int]);
                    if pos < b - 1 {
                        assert(u16_leq()(prev[pos as int], prev[b - 1]));
                    }
                } else if a < pos && b > pos {
                    assert(out@[a] == prev[a] && out@[b] == prev[b - 1]);
                    assert(prev[a] <= elt);
                    assert(pos < prev.len() && elt < prev[pos as int]);
                    if pos < b - 1 {
                        assert(u16_leq()(prev[pos as int], prev[b - 1]));
                    }
                }
            }
        }
        i = i + 1;
    }
    proof {
        assert(input@.subrange(0, input@.len() as int) =~= input@);
        lemma_sorted_matches(input@, out@);
    }
    out
}

/// The median of a collection of values.  The input is not modified.
pub fn median_u16(values: &[u16]) -> (r: u16)
    ensures
        r == median_spec(values@),
{
    let n = values.len();
    if n == 0 {
        return 0;
    }
    let sorted = sort_u16(values);
    let mid = n / 2;
    if n % 2 == 1 {
        sorted[mid]
    } else {
        let low = sorted[mid - 1];
        let high = sorted[mid];
        (((low as u32) + (high as u32)) / 2) as u16
    }
}

/// The median of a collection of values; the collection is left in ascending
/// order as a side effect.
pub fn median_u16_in_place(values: &mut Vec<u16>) -> (r: u16)
    ensures
        r == median_spec(old(values)@),
        final(values)@ == sorted_of(old(values)@),
{
    let r = median_u16(values.as_slice());
    let sorted = sort_u16(values.as_slice());
    *values = sorted;
    r
}

/// The median of the frame pixels not covered by the mask.
pub fn median_outside_mask_u16(frame: &[u16], width: u32, height: u32, mask: &[bool]) -> (r: u16)
    requires
        width * height <= frame@.len(),
        width * height <= mask@.len(),
    ensures
        r == median_spec(outside_values(frame@, mask@, width * height)),
{
    let mut values: Vec<u16> = Vec::new();
    proof {
        assert(frame.len() == frame@.len());
    }
    let n: usize = (width as usize) * (height as usize);
    let mut i: usize = 0;
    while i < n
        invariant
            i <= n,
            n == width * height,
            n <= frame@.len(),
            n <= mask@.len(),
            values@ == outside_values(frame@, mask@, i as int),
        decreases n - i,
    {
        if !mask[i] {
            values.push(frame[i]);
        }
        i = i + 1;
    }
    median_u16(values.as_slice())
}

/// The median of the unmasked pixels of an 8-bit frame, after widening each
/// pixel to 16 bits (value preserved, not rescaled).
pub fn median_outside_mask_u8(frame: &[u8], width: u32, height: u32, mask: &[bool]) -> (r: u16)
    requires
        width * height <= frame@.len(),
        width * height <= mask@.len(),
    ensures
        r == median_spec(
            outside_values(frame@.map_values(|v: u8| v as u16), mask@, width * height),
        ),
{
    let mut values: Vec<u16> = Vec::new();
    proof {
        assert(frame.len() == frame@.len());
    }
    let n: usize = (width as usize) * (height as usize);
    let mut i: usize = 0;
    while i < n
        invariant
            i <= n,
            n == width * height,
            n <= frame@.len(),
            n <= mask@.len(),
            values@ == outside_values(frame@.map_values(|v: u8| v as u16), mask@, i as int),
        decreases n - i,
    {
        if !mask[i] {
            values.push(frame[i] as u16);
        }
        i = i + 1;
    }
    median_u16(values.as_slice())
}

} // verus!
