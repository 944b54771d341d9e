//! Per-crop measurements over stored chunks: total intensity, per-cell
//! fluorescence statistics against a label mask, and the stored-background
//! lookups with their two fallback behaviours.

use crate::median::median_spec;
use vstd::pervasive::VecAdditionalExecFns;
use vstd::prelude::*;

verus! {

/// The sum of the first `n` pixel values.
pub open spec fn intensity_spec(s: Seq<u16>, n: int) -> int
    decreases n,
{
    if n <= 0 {
        0
    } else {
        intensity_spec(s, n - 1) + s[n - 1]
    }
}

/// The sum of the first `n` pixel values under label `lbl`.
pub open spec fn label_sum(masks: Seq<u16>, fluo: Seq<u16>, lbl: int, n: int) -> int
    decreases n,
{
    if n <= 0 {
        0
    } else {
        label_sum(masks, fluo, lbl, n - 1) + (if masks[n - 1] == lbl {
            fluo[n - 1] as int
        } else {
            0
        })
    }
}

/// How many of the first `n` pixels carry label `lbl`.
pub open spec fn label_count(masks: Seq<u16>, lbl: int, n: int) -> int
    decreases n,
{
    if n <= 0 {
        0
    } else {
        label_count(masks, lbl, n - 1) + (if masks[n - 1] == lbl {
            1int
        } else {
            0int
        })
    }
}

/// The sum over a prefix is bounded by the prefix length times the largest
/// pixel value.
proof fn lemma_intensity_bound(s: Seq<u16>, n: int)
    requires
        0 <= n <= s.len(),
    ensures
        0 <= intensity_spec(s, n) <= n * 65535,
    decreases n,
{
    if n > 0 {
        lemma_intensity_bound(s, n - 1);
    }
}

proof fn lemma_label_bounds(masks: Seq<u16>, fluo: Seq<u16>, lbl: int, n: int)
    requires
        0 <= n <= masks.len(),
    ensures
        0 <= label_sum(masks, fluo, lbl, n) <= n * 65535,
        0 <= label_count(masks, lbl, n) <= n,
    decreases n,
{
    if n > 0 {
        lemma_label_bounds(masks, fluo, lbl, n - 1);
    }
}

/// The total intensity of one stored chunk.
pub fn total_intensity(data: &[u16]) -> (r: u64)
    requires
        data@.len() <= u32::MAX,
    ensures
        r == intensity_spec(data@, data@.len() as int),
{
    let mut acc: u64 = 0;
    let mut i: usize = 0;
    while i < data.len()
        invariant
            i <= data@.len(),
            data@.len() <= u32::MAX,
            acc == intensity_spec(data@, i as int),
        decreases data@.len() - i,
    {
        proof {
            lemma_intensity_bound(data@, i as int);
        }
        acc = acc + (data[i] as u64);
        i = i + 1;
    }
    acc
}

/// The stored background for a timepoint, falling back to 0 when none was
/// recorded.
pub fn background_at(backgrounds: &[u16], t: usize) -> (r: u16)
    ensures
        r == (if t < backgrounds@.len() {
            backgrounds@[t as int]
        } else {
            0u16
        }),
{
    if t < backgrounds.len() {
        backgrounds[t]
    } else {
        0
    }
}

/// The stored background for a timepoint, falling back to the median of
/// the raw frame when none was recorded.
pub fn background_or_median(backgrounds: &[u16], t: usize, fluo: &[u16]) -> (r: u16)
    ensures
        r == (if t < backgrounds@.len() {
            backgrounds@[t as int]
        } else {
            median_spec(fluo@)
        }),
{
    if t < backgrounds.len() {
        backgrounds[t]
    } else {
        crate::median::median_u16(fluo)
    }
}

/// The largest label in a mask.
pub fn max_label(masks: &[u16]) -> (r: u16)
    ensures
        forall|i: int| 0 <= i < masks@.len() ==> #[trigger] masks@[i] <= r,
        r > 0 ==> exists|i: int| 0 <= i < masks@.len() && #[trigger] masks@[i] == r,
{
    let mut m: u16 = 0;
    let mut i: usize = 0;
    while i < masks.len()
        invariant
            i <= masks@.len(),
            forall|j: int| 0 <= j < i ==> #[trigger] masks@[j] <= m,
            m > 0 ==> exists|j: int| 0 <= j < i && #[trigger] masks@[j] == m,
        decreases masks@.len() - i,
    {
        if masks[i] > m {
            m = masks[i];
        }
        i = i + 1;
    }
    m
}

/// Per-cell totals over one frame: for every label the summed fluorescence
/// and the pixel count, indexed by label.  Label 0 is the unlabelled
/// background and is left at zero.
pub fn cell_stats(masks: &[u16], fluo: &[u16]) -> (r: (Vec<u64>, Vec<u64>))
    requires
        masks@.len() == fluo@.len(),
        masks@.len() <= u32::MAX,
    ensures
        r.0@.len() == r.1@.len(),
        forall|i: int| 0 <= i < masks@.len() ==> #[trigger] masks@[i] < r.0@.len(),
        r.0@[0] == 0 && r.1@[0] == 0,
        forall|lbl: int|
            1 <= lbl < r.0@.len() ==> #[trigger] r.0@[lbl] == label_sum(
                masks@,
                fluo@,
                lbl,
                masks@.len() as int,
            ),
        forall|lbl: int|
            1 <= lbl < r.1@.len() ==> #[trigger] r.1@[lbl] == label_count(
                masks@,
                lbl,
                masks@.len() as int,
            ),
{
    let top = max_label(masks);
    let size = (top as usize) + 1;
    let mut sums: Vec<u64> = Vec::new();
    let mut counts: Vec<u64> = Vec::new();
    let mut k: usize = 0;
    while k < size
        invariant
            k <= size,
            sums@.len() == k,
            counts@.len() == k,
            forall|lbl: int| 0 <= lbl < k ==> #[trigger] sums@[lbl] == 0,
            forall|lbl: int| 0 <= lbl < k ==> #[trigger] counts@[lbl] == 0,
        decreases size - k,
    {
        sums.push(0);
        counts.push(0);
        k = k + 1;
    }
    let mut i: usize = 0;
    while i < masks.len()
        invariant
            i <= masks@.len(),
            masks@.len() == fluo@.len(),
            masks@.len() <= u32::MAX,
            sums@.len() == size,
            counts@.len() == size,
            size >= 1,
            forall|j: int| 0 <= j < masks@.len() ==> #[trigger] masks@[j] < size,
            sums@[0] == 0,
            counts@[0] == 0,
            forall|lbl: int|
                1 <= lbl < size ==> #[trigger] sums@[lbl] == label_sum(
                    masks@,
                    fluo@,
                    lbl,
                    i as int,
                ),
            forall|lbl: int|
                1 <= lbl < size ==> #[trigger] counts@[lbl] == label_count(masks@, lbl, i as int),
        decreases masks@.len() - i,
    {
        let lbl = masks[i] as usize;
        if lbl > 0 {
            proof {
                lemma_label_bounds(masks@, fluo@, lbl as int, i as int);
            }
            let s = sums[lbl];
            sums.set(lbl, s + (fluo[i] as u64));
            let c = counts[lbl];
            counts.set(lbl, c + 1);
        }
        proof {
            assert forall|l2: int| 1 <= l2 < size implies #[trigger] sums@[l2] == label_sum(
                masks@,
                fluo@,
                l2,
                i + 1,
            ) && counts@[l2] == label_count(masks@, l2, i + 1) by {}
        }
        i = i + 1;
    }
    (sums, counts)
}

} // verus!
