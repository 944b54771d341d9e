//! The crop pipeline: extraction of rectangular sub-regions from frames,
//! and the orchestration of a whole run — one array per crop rectangle,
//! one chunk per (time, channel, z) coordinate, each written exactly once
//! at its dense chunk index, with an optional per-frame background median.

use crate::bbox::{bbox_mask, bbox_valid, covered, parse_bbox_csv, validate_bboxes, Bbox};
use crate::frames::{
    axis_index, discover_frames, key_lt, index_wf, index_of_names, FrameIndex, FrameKey,
};
use crate::median::{median_outside_mask_u16, median_spec, outside_values};
use crate::store::{
    array_listed, chunk_find, chunk_shape_ok, group_listed, index_in_grid, store_wf, volume,
    ChunkStore, StoreError,
};
use crate::text::{format_padded, lemma_padded_val, padded_chars};
use vstd::prelude::*;
use vstd::string::StringExecFns;

verus! {

/// Copies the `w` by `h` rectangle at offset (`x`, `y`) out of a row-major
/// frame buffer whose rows are `frame_width` pixels long.  The result is a
/// fresh row-major buffer of the rectangle alone.
pub fn extract_crop_u16(
    frame: &Vec<u16>,
    frame_width: u32,
    x: u32,
    y: u32,
    w: u32,
    h: u32,
) -> (out: Vec<u16>)
    requires
        x + w <= frame_width,
        y + h <= u32::MAX,
        (y + h) * frame_width <= frame@.len(),
    ensures
        out@.len() == w * h,
        forall|r: int, c: int|
            0 <= r < h && 0 <= c < w ==> #[trigger] out@[r * (w as int) + c] == frame@[(y + r)
                * frame_width + x + c],
{
    let mut out: Vec<u16> = Vec::new();
    let mut r: u32 = 0;
    while r < h
        invariant
            r <= h,
            x + w <= frame_width,
            y + h <= u32::MAX,
            (y + h) * frame_width <= frame@.len(),
            out@.len() == r * w,
            forall|ri: int, c: int|
                0 <= ri < r && 0 <= c < w ==> #[trigger] out@[ri * (w as int) + c] == frame@[(y
                    + ri) * frame_width + x + c],
        decreases h - r,
    {
        let mut c: u32 = 0;
        proof {
            mul_le(y + r + 1, y + h, frame_width as int);
        }
        while c < w
            invariant
                c <= w,
                r < h,
                x + w <= frame_width,
                y + h <= u32::MAX,
                (y + h) * frame_width <= frame@.len(),
                (y + r + 1) * frame_width <= frame@.len(),
                out@.len() == r * w + c,
                forall|ri: int, ci: int|
                    0 <= ri < r && 0 <= ci < w ==> #[trigger] out@[ri * (w as int) + ci] == frame@[
                        (y + ri) * frame_width + x + ci],
                forall|ci: int|
                    0 <= ci < c ==> #[trigger] out@[r * (w as int) + ci] == frame@[(y + r)
                        * frame_width + x + ci],
            decreases w - c,
        {
            proof {
                assert((y + r) * frame_width + frame_width == (y + r + 1) * frame_width)
                    by (nonlinear_arith);
                assert(frame.len() == frame@.len());
            }
            let idx: usize = ((y + r) as usize) * (frame_width as usize) + ((x + c) as usize);
            let v: u16 = frame[idx];
            out.push(v);
            proof {
                assert forall|ri: int, ci: int|
                    0 <= ri < r && 0 <= ci < w implies #[trigger] out@[ri * (w as int) + ci]
                    == frame@[(y + ri) * frame_width + x + ci] by {
                    mul_le(ri + 1, r as int, w as int);
                    assert(ri * (w as int) + (w as int) == (ri + 1) * (w as int))
                        by (nonlinear_arith);
                }
            }
            c = c + 1;
        }
        r = r + 1;
        proof {
            assert((r - 1) * (w as int) + (w as int) == r * (w as int)) by (nonlinear_arith);
        }
    }
    out
}

/// Multiplying both sides of `a <= b` by a non-negative factor keeps the order.
pub proof fn mul_le(a: int, b: int, f: int)
    requires
        a <= b,
        0 <= f,
    ensures
        a * f <= b * f,
{
    broadcast use vstd::arithmetic::mul::lemma_mul_inequality;

}


/// Widens 8-bit pixels to 16 bits, value preserved.
pub fn widen_u8(frame: &[u8]) -> (out: Vec<u16>)
    ensures
        out@ == frame@.map_values(|v: u8| v as u16),
{
    let mut out: Vec<u16> = Vec::new();
    let mut i: usize = 0;
    while i < frame.len()
        invariant
            i <= frame@.len(),
            out@ == frame@.subrange(0, i as int).map_values(|v: u8| v as u16),
        decreases frame@.len() - i,
    {
        out.push(frame[i] as u16);
        proof {
            assert(out@ =~= frame@.subrange(0, i + 1).map_values(|v: u8| v as u16));
        }
        i = i + 1;
    }
    proof {
        assert(frame@.subrange(0, frame@.len() as int) =~= frame@);
    }
    out
}

/// The rectangle `b` of a frame, as the row-major sequence the crop chunk
/// holds.
pub open spec fn crop_data_spec(frame: Seq<u16>, fw: int, b: Bbox) -> Seq<u16> {
    Seq::new(
        (b.w * b.h) as nat,
        |i: int| frame[(b.y + i / (b.w as int)) * fw + b.x + (i % (b.w as int))],
    )
}

/// The row-and-column description of an extracted crop is the same data as
/// its flat description.
pub proof fn lemma_crop_rows(out: Seq<u16>, frame: Seq<u16>, fw: int, b: Bbox)
    requires
        b.w >= 1,
        out.len() == b.w * b.h,
        forall|r: int, c: int|
            0 <= r < b.h && 0 <= c < b.w ==> #[trigger] out[r * (b.w as int) + c] == frame[(b.y + r)
                * fw + b.x + c],
    ensures
        out == crop_data_spec(frame, fw, b),
{
    let w = b.w as int;
    assert forall|i: int| 0 <= i < out.len() implies out[i] == crop_data_spec(frame, fw, b)[i] by {
        let r = i / w;
        let c = i % w;
        vstd::arithmetic::div_mod::lemma_fundamental_div_mod(i, w);
        assert(0 <= c < w) by {
            vstd::arithmetic::div_mod::lemma_mod_bound(i, w);
        }
        assert(r < b.h) by (nonlinear_arith)
            requires
                i == w * r + c,
                0 <= c < w,
                0 <= i < w * (b.h as int),
        ;
        assert(r >= 0) by (nonlinear_arith)
            requires
                i == w * r + c,
                0 <= c < w,
                0 <= i,
        ;
        assert(out[r * w + c] == frame[(b.y + r) * fw + b.x + c]);
        assert(r * w + c == i) by (nonlinear_arith)
            requires
                i == w * r + c,
        ;
    }
    assert(out =~= crop_data_spec(frame, fw, b));
}

/// The position of a value on an ascending axis (meaningful when the axis
/// holds it): its dense 0-based coordinate.
pub open spec fn axis_pos(axis: Seq<u32>, v: u32) -> int
    decreases axis.len(),
{
    if axis.len() == 0 {
        0
    } else if axis[0] == v {
        0
    } else {
        1 + axis_pos(axis.drop_first(), v)
    }
}

/// On an axis that holds `v`, its position is in range and holds `v`.
pub proof fn lemma_axis_pos(axis: Seq<u32>, v: u32)
    requires
        axis.contains(v),
    ensures
        0 <= axis_pos(axis, v) < axis.len(),
        axis[axis_pos(axis, v)] == v,
    decreases axis.len(),
{
    if axis.len() > 0 && axis[0] != v {
        let k = choose|k: int| 0 <= k < axis.len() && axis[k] == v;
        assert(axis.drop_first()[k - 1] == v);
        assert(axis.drop_first().contains(v));
        lemma_axis_pos(axis.drop_first(), v);
    }
}

/// A first occurrence determines the position.
pub proof fn lemma_axis_pos_is(axis: Seq<u32>, v: u32, k: int)
    requires
        0 <= k < axis.len(),
        axis[k] == v,
        forall|j: int| 0 <= j < k ==> axis[j] != v,
    ensures
        axis_pos(axis, v) == k,
    decreases axis.len(),
{
    if axis[0] != v {
        lemma_axis_pos_is(axis.drop_first(), v, k - 1);
    }
}

/// The five-axis chunk index of a frame key: dense time, channel and z
/// coordinates, then 0, 0 for the in-plane axes.
pub open spec fn crop_chunk_index(idx: FrameIndex, k: FrameKey) -> Seq<u64> {
    seq![
        axis_pos(idx.times@, k.time) as u64,
        axis_pos(idx.channels@, k.channel) as u64,
        axis_pos(idx.zs@, k.z) as u64,
        0u64,
        0u64,
    ]
}

/// The three-axis chunk index of a frame key in the background array.
pub open spec fn bg_chunk_index(idx: FrameIndex, k: FrameKey) -> Seq<u64> {
    seq![
        axis_pos(idx.times@, k.time) as u64,
        axis_pos(idx.channels@, k.channel) as u64,
        axis_pos(idx.zs@, k.z) as u64,
    ]
}

/// Whether the index's axes hold every coordinate of the key.
pub open spec fn key_on_axes(idx: FrameIndex, k: FrameKey) -> bool {
    &&& idx.times@.contains(k.time)
    &&& idx.channels@.contains(k.channel)
    &&& idx.zs@.contains(k.z)
}

/// Two keys on the axes with one dense chunk index are one key.
pub proof fn lemma_dense_injective(idx: FrameIndex, k1: FrameKey, k2: FrameKey)
    requires
        key_on_axes(idx, k1),
        key_on_axes(idx, k2),
        bg_chunk_index(idx, k1) == bg_chunk_index(idx, k2),
    ensures
        k1 == k2,
{
    lemma_axis_pos(idx.times@, k1.time);
    lemma_axis_pos(idx.times@, k2.time);
    lemma_axis_pos(idx.channels@, k1.channel);
    lemma_axis_pos(idx.channels@, k2.channel);
    lemma_axis_pos(idx.zs@, k1.z);
    lemma_axis_pos(idx.zs@, k2.z);
    assert(idx.times.len() == idx.times@.len());
    assert(idx.channels.len() == idx.channels@.len());
    assert(idx.zs.len() == idx.zs@.len());
    assert(bg_chunk_index(idx, k1)[0] == bg_chunk_index(idx, k2)[0]);
    assert(bg_chunk_index(idx, k1)[1] == bg_chunk_index(idx, k2)[1]);
    assert(bg_chunk_index(idx, k1)[2] == bg_chunk_index(idx, k2)[2]);
    assert(axis_pos(idx.times@, k1.time) == axis_pos(idx.times@, k2.time));
    assert(axis_pos(idx.channels@, k1.channel) == axis_pos(idx.channels@, k2.channel));
    assert(axis_pos(idx.zs@, k1.z) == axis_pos(idx.zs@, k2.z));
}

/// The five- and three-axis chunk indices agree on their shared prefix.
pub proof fn lemma_crop_bg_index(idx: FrameIndex, k1: FrameKey, k2: FrameKey)
    ensures
        crop_chunk_index(idx, k1) == crop_chunk_index(idx, k2) <==> bg_chunk_index(idx, k1)
            == bg_chunk_index(idx, k2),
{
    if bg_chunk_index(idx, k1) == bg_chunk_index(idx, k2) {
        assert(crop_chunk_index(idx, k1) =~= crop_chunk_index(idx, k2));
    }
    if crop_chunk_index(idx, k1) == crop_chunk_index(idx, k2) {
        assert(bg_chunk_index(idx, k1) =~= bg_chunk_index(idx, k2));
    }
}

/// The volume of a rank-5 box.
proof fn lemma_volume5(a: u64, b: u64, c: u64, d: u64, e: u64)
    ensures
        volume(seq![a, b, c, d, e]) == (a as int) * (b as int) * (c as int) * (d as int) * (
        e as int),
{
    let s5 = seq![a, b, c, d, e];
    let s4 = seq![a, b, c, d];
    let s3 = seq![a, b, c];
    let s2 = seq![a, b];
    let s1 = seq![a];
    let s0 = Seq::<u64>::empty();
    assert(s5.drop_last() =~= s4);
    assert(s4.drop_last() =~= s3);
    assert(s3.drop_last() =~= s2);
    assert(s2.drop_last() =~= s1);
    assert(s1.drop_last() =~= s0);
    assert(volume(s0) == 1);
    assert(volume(s1) == 1 * (a as int));
    assert(volume(s2) == volume(s1) * (b as int));
    assert(volume(s3) == volume(s2) * (c as int));
    assert(volume(s4) == volume(s3) * (d as int));
    assert(volume(s5) == volume(s4) * (e as int));
}

/// The volume of a rank-3 box.
proof fn lemma_volume3(a: u64, b: u64, c: u64)
    ensures
        volume(seq![a, b, c]) == (a as int) * (b as int) * (c as int),
{
    let s3 = seq![a, b, c];
    let s2 = seq![a, b];
    let s1 = seq![a];
    let s0 = Seq::<u64>::empty();
    assert(s3.drop_last() =~= s2);
    assert(s2.drop_last() =~= s1);
    assert(s1.drop_last() =~= s0);
    assert(volume(s0) == 1);
    assert(volume(s1) == 1 * (a as int));
    assert(volume(s2) == volume(s1) * (b as int));
    assert(volume(s3) == volume(s2) * (c as int));
}


/// The group path of a position: `/pos/` and the zero-padded position.
pub open spec fn pos_path_chars(pos: int) -> Seq<char> {
    "/pos/"@ + padded_chars(pos, 3)
}

/// The group path holding a position's crops.
pub open spec fn crop_group_chars(pos: int) -> Seq<char> {
    pos_path_chars(pos) + "/crop"@
}

/// The array path of one crop: its zero-padded ordinal under the crop
/// group.
pub open spec fn crop_path_chars(pos: int, i: int) -> Seq<char> {
    pos_path_chars(pos) + "/crop/"@ + padded_chars(i, 3)
}

/// The array path of a position's background medians.
pub open spec fn bg_path_chars(pos: int) -> Seq<char> {
    pos_path_chars(pos) + "/background"@
}

/// Distinct crop ordinals give distinct array paths.
proof fn lemma_crop_paths_distinct(pos: int, i: int, j: int)
    requires
        0 <= pos,
        0 <= i,
        0 <= j,
        i != j,
    ensures
        crop_path_chars(pos, i) != crop_path_chars(pos, j),
{
    if crop_path_chars(pos, i) == crop_path_chars(pos, j) {
        let pre = pos_path_chars(pos) + "/crop/"@;
        lemma_padded_val(i, 3);
        lemma_padded_val(j, 3);
        assert(crop_path_chars(pos, i).len() == pre.len() + padded_chars(i, 3).len());
        assert(crop_path_chars(pos, j).len() == pre.len() + padded_chars(j, 3).len());
        assert(padded_chars(i, 3).len() == padded_chars(j, 3).len());
        assert(padded_chars(i, 3) =~= crop_path_chars(pos, i).subrange(
            pre.len() as int,
            crop_path_chars(pos, i).len() as int,
        ));
        assert(padded_chars(j, 3) =~= crop_path_chars(pos, j).subrange(
            pre.len() as int,
            crop_path_chars(pos, j).len() as int,
        ));
        assert(padded_chars(i, 3) == padded_chars(j, 3));
        assert(crate::text::dec_val(padded_chars(i, 3)) == crate::text::dec_val(padded_chars(j, 3)));
        assert(false);
    }
}

/// A crop array path never equals the background array path.
proof fn lemma_bg_path_distinct(pos: int, i: int)
    requires
        0 <= pos,
        0 <= i,
    ensures
        crop_path_chars(pos, i) != bg_path_chars(pos),
{
    reveal_strlit("/crop/");
    reveal_strlit("/background");
    let at = pos_path_chars(pos).len() as int + 1;
    lemma_padded_val(pos, 3);
    lemma_padded_val(i, 3);
    assert(crop_path_chars(pos, i)[at] == "/crop/"@[1]);
    assert(bg_path_chars(pos)[at] == "/background"@[1]);
    assert("/crop/"@[1] == 'c');
    assert("/background"@[1] == 'b');
}

/// The group path of a position, as a string.
fn pos_group_path(pos: u32) -> (s: String)
    ensures
        s@ == pos_path_chars(pos as int),
{
    let mut s = String::new();
    s.append("/pos/");
    let p = format_padded(pos, 3);
    s.append(p.as_str());
    proof {
        assert(s@ =~= pos_path_chars(pos as int));
    }
    s
}

/// The crop group path of a position, as a string.
fn crop_group_path(pos: u32) -> (s: String)
    ensures
        s@ == crop_group_chars(pos as int),
{
    let mut s = pos_group_path(pos);
    s.append("/crop");
    proof {
        assert(s@ =~= crop_group_chars(pos as int));
    }
    s
}

/// The array path of one crop, as a string.
fn crop_array_path(pos: u32, i: u32) -> (s: String)
    ensures
        s@ == crop_path_chars(pos as int, i as int),
{
    let mut s = pos_group_path(pos);
    s.append("/crop/");
    let p = format_padded(i, 3);
    s.append(p.as_str());
    proof {
        assert(s@ =~= crop_path_chars(pos as int, i as int));
    }
    s
}

/// The background array path of a position, as a string.
fn bg_array_path(pos: u32) -> (s: String)
    ensures
        s@ == bg_path_chars(pos as int),
{
    let mut s = pos_group_path(pos);
    s.append("/background");
    proof {
        assert(s@ =~= bg_path_chars(pos as int));
    }
    s
}


/// A fault while setting a run up.
#[derive(Clone, Copy, Debug, PartialEq, Eq, Structural)]
pub enum CropError {
    /// The rectangle table is malformed.
    Parse(crate::bbox::ParseError),
    /// The table parsed to no rectangles, so there is nothing to extract.
    NoBboxes,
    /// Frame discovery failed.
    Discovery(crate::frames::DiscoveryError),
    /// A rectangle does not fit the frame.
    Validation(crate::bbox::ValidationError),
    /// A rectangle holds more pixels than one chunk may carry.
    CropTooLarge { index: usize },
}

/// A fault while processing one frame.
#[derive(Clone, Copy, Debug, PartialEq, Eq, Structural)]
pub enum PipelineError {
    /// The decoded frame's size differs from the first frame's.
    DimensionMismatch {
        expected_width: u32,
        expected_height: u32,
        got_width: u32,
        got_height: u32,
    },
    /// The decoded buffer does not hold one frame of pixels.
    FrameBufferMismatch { expected: usize, got: usize },
}

/// The outcome of the setup stage: the parsed rectangles and the frame
/// index.  The first entry's source names the frame read to establish the
/// run's width and height.
pub struct CropSetup {
    pub index: FrameIndex,
    pub bboxes: Vec<Bbox>,
}

/// Parses the rectangle table and scans the name list; the result carries
/// everything a run needs before the first frame is decoded.  `Err`
/// exactly on a table fault, an empty table, or a discovery fault.
pub fn begin_crop_run(names: &Vec<String>, pos: u32, bbox_csv: &str) -> (r: Result<
    CropSetup,
    CropError,
>)
    ensures
        match r {
            Ok(su) => {
                &&& crate::bbox::bbox_fault(bbox_csv@) is None
                &&& su.bboxes@ == crate::bbox::bboxes_spec(bbox_csv@)
                &&& su.bboxes@.len() > 0
                &&& crate::frames::discovery_fault(names.deep_view(), pos as int) is None
                &&& index_wf(su.index)
                &&& index_of_names(su.index, names.deep_view(), pos as int)
                &&& su.index.entries@.len() > 0
            },
            Err(e) => match e {
                CropError::Parse(pe) => crate::bbox::bbox_fault(bbox_csv@) == Some(pe),
                CropError::NoBboxes => crate::bbox::bbox_fault(bbox_csv@) is None
                    && crate::bbox::bboxes_spec(bbox_csv@).len() == 0,
                CropError::Discovery(de) => {
                    &&& crate::bbox::bbox_fault(bbox_csv@) is None
                    &&& crate::bbox::bboxes_spec(bbox_csv@).len() > 0
                    &&& crate::frames::discovery_fault(names.deep_view(), pos as int) == Some(de)
                },
                _ => false,
            },
        },
{
    let bboxes = match parse_bbox_csv(bbox_csv) {
        Ok(b) => b,
        Err(e) => {
            return Err(CropError::Parse(e));
        },
    };
    if bboxes.len() == 0 {
        return Err(CropError::NoBboxes);
    }
    let index = match discover_frames(names, pos) {
        Ok(idx) => idx,
        Err(e) => {
            return Err(CropError::Discovery(e));
        },
    };
    proof {
        if index.entries@.len() == 0 {
            assert(crate::frames::discovery_fault(names.deep_view(), pos as int) is Some);
        }
    }
    Ok(CropSetup { index, bboxes })
}

/// The first rectangle, if any, holding more pixels than one chunk may
/// carry.
pub open spec fn oversize_from(bs: Seq<Bbox>, i: int) -> Option<usize>
    decreases bs.len() - i,
{
    if i < 0 || i >= bs.len() {
        None
    } else if bs[i].w * bs[i].h > u32::MAX {
        Some(i as usize)
    } else {
        oversize_from(bs, i + 1)
    }
}

proof fn lemma_oversize_skip(bs: Seq<Bbox>, i: int)
    requires
        0 <= i <= bs.len(),
        forall|j: int| 0 <= j < i ==> (#[trigger] bs[j]).w * bs[j].h <= u32::MAX,
    ensures
        oversize_from(bs, 0) == oversize_from(bs, i),
    decreases i,
{
    if i > 0 {
        lemma_oversize_skip(bs, i - 1);
    }
}

/// Whether the array under one crop handle has the run's shape for that
/// rectangle: time, channel and z extents from the index, then the
/// rectangle's height and width, chunked one frame plane at a time.
pub open spec fn crop_array_ok(run: CropRun, j: int) -> bool {
    let id = run.crop_ids@[j] as int;
    &&& run.crop_ids@[j] < run.store.arrays@.len()
    &&& run.store.arrays@[id].shape@ == seq![
        run.index.times@.len() as u64,
        run.index.channels@.len() as u64,
        run.index.zs@.len() as u64,
        run.bboxes@[j].h as u64,
        run.bboxes@[j].w as u64,
    ]
    &&& run.store.arrays@[id].chunk_shape@ == seq![
        1u64,
        1u64,
        1u64,
        run.bboxes@[j].h as u64,
        run.bboxes@[j].w as u64,
    ]
    &&& run.store.arrays@[id].fill == 0u16
}

/// The state of a crop run between frames.  `cursor` counts the entries
/// already processed, in ascending key order.
pub struct CropRun {
    pub store: ChunkStore,
    pub index: FrameIndex,
    pub bboxes: Vec<Bbox>,
    pub width: u32,
    pub height: u32,
    pub pos: u32,
    pub crop_ids: Vec<usize>,
    pub bg_id: Option<usize>,
    pub mask: Vec<bool>,
    pub cursor: usize,
}

/// Well-formedness of a run: a sound store and index, validated
/// rectangles, one correctly shaped array per rectangle (plus the optional
/// background array and its mask), and — the no-rewrite invariant — every
/// chunk written so far addressed by the dense index of an already
/// processed frame.
pub open spec fn run_wf(run: CropRun) -> bool {
    &&& store_wf(run.store)
    &&& index_wf(run.index)
    &&& run.index.entries@.len() > 0
    &&& run.bboxes@.len() > 0
    &&& run.bboxes@.len() == run.crop_ids@.len()
    &&& run.width * run.height <= usize::MAX
    &&& run.cursor <= run.index.entries@.len()
    &&& forall|j: int|
        0 <= j < run.bboxes@.len() ==> bbox_valid(
            #[trigger] run.bboxes@[j],
            run.width as int,
            run.height as int,
        )
    &&& forall|j: int|
        0 <= j < run.bboxes@.len() ==> (#[trigger] run.bboxes@[j]).w * run.bboxes@[j].h
            <= u32::MAX
    &&& forall|j: int| 0 <= j < run.crop_ids@.len() ==> crop_array_ok(run, j)
    &&& forall|j1: int, j2: int|
        0 <= j1 < j2 < run.crop_ids@.len() ==> #[trigger] run.crop_ids@[j1]
            != #[trigger] run.crop_ids@[j2]
    &&& forall|j: int, iv: Seq<u64>|
        0 <= j < run.crop_ids@.len() && (#[trigger] chunk_find(
            run.store.arrays@[run.crop_ids@[j] as int].chunks@,
            iv,
        )) is Some ==> exists|e: int|
            0 <= e < run.cursor && iv == crop_chunk_index(run.index, run.index.entries@[e].key)
    &&& match run.bg_id {
        Some(b) => {
            &&& b < run.store.arrays@.len()
            &&& forall|j: int| 0 <= j < run.crop_ids@.len() ==> #[trigger] run.crop_ids@[j] != b
            &&& run.store.arrays@[b as int].shape@ == seq![
                run.index.times@.len() as u64,
                run.index.channels@.len() as u64,
                run.index.zs@.len() as u64,
            ]
            &&& run.store.arrays@[b as int].chunk_shape@ == seq![1u64, 1u64, 1u64]
            &&& run.store.arrays@[b as int].fill == 0u16
            &&& forall|iv: Seq<u64>|
                (#[trigger] chunk_find(run.store.arrays@[b as int].chunks@, iv)) is Some
                    ==> exists|e: int|
                    0 <= e < run.cursor && iv == bg_chunk_index(
                        run.index,
                        run.index.entries@[e].key,
                    )
            &&& run.mask@.len() == run.width * run.height
            &&& forall|x: int, y: int|
                0 <= x < run.width && 0 <= y < run.height ==> #[trigger] run.mask@[y * run.width
                    + x] == covered(run.bboxes@, x, y)
        },
        None => true,
    }
}

/// A string holding the given characters.
fn lit_string(s: &str) -> (r: String)
    ensures
        r@ == s@,
{
    let mut r = String::new();
    r.append(s);
    r
}

/// Creates the run's store: the group hierarchy, one array per rectangle
/// (its shape from the index extents and the rectangle, its attributes
/// recording the axis names and the source rectangle), and, when the
/// background median is requested, the background array and the coverage
/// mask.  `Err` exactly on a validation fault or an oversize rectangle.
pub fn start_crop_run(setup: CropSetup, pos: u32, width: u32, height: u32, background: bool) -> (r:
    Result<CropRun, CropError>)
    requires
        index_wf(setup.index),
        setup.index.entries@.len() > 0,
        setup.bboxes@.len() > 0,
        setup.bboxes@.len() <= u32::MAX,
        width * height <= usize::MAX,
    ensures
        match r {
            Ok(run) => {
                &&& crate::bbox::validation_fault(setup.bboxes@, width as int, height as int)
                    is None
                &&& oversize_from(setup.bboxes@, 0) is None
                &&& run_wf(run)
                &&& run.index == setup.index
                &&& run.bboxes@ == setup.bboxes@
                &&& run.width == width
                &&& run.height == height
                &&& run.pos == pos
                &&& run.cursor == 0
                &&& (run.bg_id is Some <==> background)
                &&& forall|j: int|
                    0 <= j < run.crop_ids@.len()
                        ==> (#[trigger] run.store.arrays@[run.crop_ids@[j] as int].chunks@).len()
                        == 0
                &&& group_listed(run.store.groups@, "/"@)
                &&& group_listed(run.store.groups@, "/pos"@)
                &&& group_listed(run.store.groups@, pos_path_chars(pos as int))
                &&& group_listed(run.store.groups@, crop_group_chars(pos as int))
                &&& forall|j: int|
                    0 <= j < run.crop_ids@.len()
                        ==> (#[trigger] run.store.arrays@[run.crop_ids@[j] as int].path@)
                        == crop_path_chars(pos as int, j)
                &&& (run.bg_id matches Some(b) ==> run.store.arrays@[b as int].path@
                    == bg_path_chars(pos as int) && run.store.arrays@[b as int].chunks@.len() == 0)
            },
            Err(e) => match e {
                CropError::Validation(ve) => crate::bbox::validation_fault(
                    setup.bboxes@,
                    width as int,
                    height as int,
                ) == Some(ve),
                CropError::CropTooLarge { index } => {
                    &&& crate::bbox::validation_fault(setup.bboxes@, width as int, height as int)
                        is None
                    &&& oversize_from(setup.bboxes@, 0) == Some(index)
                },
                _ => false,
            },
        },
{
    let ghost su = setup;
    let CropSetup { index, bboxes } = setup;
    if let Err(e) = validate_bboxes(bboxes.as_slice(), width, height) {
        return Err(CropError::Validation(e));
    }
    let nb = bboxes.len();
    let mut i: usize = 0;
    while i < nb
        invariant
            i <= nb,
            nb == bboxes@.len(),
            bboxes@ == su.bboxes@,
            su == setup,
            crate::bbox::validation_fault(bboxes@, width as int, height as int) is None,
            forall|j: int| 0 <= j < i ==> (#[trigger] bboxes@[j]).w * bboxes@[j].h <= u32::MAX,
        decreases nb - i,
    {
        let b = bboxes[i];
        proof {
            assert((b.w as int) * (b.h as int) <= (u32::MAX as int) * (u32::MAX as int))
                by (nonlinear_arith)
                requires
                    0 <= b.w <= u32::MAX,
                    0 <= b.h <= u32::MAX,
            ;
        }
        if (b.w as u64) * (b.h as u64) > (u32::MAX as u64) {
            proof {
                lemma_oversize_skip(bboxes@, i as int);
            }
            return Err(CropError::CropTooLarge { index: i });
        }
        i = i + 1;
    }
    proof {
        lemma_oversize_skip(bboxes@, nb as int);
    }
    let mut store = ChunkStore::new();
    store.ensure_group(lit_string("/"));
    store.ensure_group(lit_string("/pos"));
    store.ensure_group(pos_group_path(pos));
    store.ensure_group(crop_group_path(pos));
    let n_t: u64 = index.times.len() as u64;
    let n_c: u64 = index.channels.len() as u64;
    let n_z: u64 = index.zs.len() as u64;
    let mut crop_ids: Vec<usize> = Vec::new();
    let mut i: usize = 0;
    while i < nb
        invariant
            i <= nb,
            nb == bboxes@.len(),
            bboxes@ == su.bboxes@,
            index == su.index,
            su == setup,
            index_wf(index),
            index.entries@.len() > 0,
            width * height <= usize::MAX,
            crate::bbox::validation_fault(bboxes@, width as int, height as int) is None,
            oversize_from(bboxes@, 0) is None,
            nb <= u32::MAX,
            nb > 0,
            store_wf(store),
            n_t == index.times@.len(),
            n_c == index.channels@.len(),
            n_z == index.zs@.len(),
            forall|j: int| 0 <= j < nb ==> bbox_valid(#[trigger] bboxes@[j], width as int, height as int),
            forall|j: int| 0 <= j < nb ==> (#[trigger] bboxes@[j]).w * bboxes@[j].h <= u32::MAX,
            crop_ids@.len() == i,
            store.arrays@.len() == i,
            forall|j: int| 0 <= j < i ==> #[trigger] crop_ids@[j] == j,
            forall|j: int|
                0 <= j < i ==> (#[trigger] store.arrays@[j]).path@ == crop_path_chars(
                    pos as int,
                    j,
                ),
            forall|j: int|
                0 <= j < i ==> (#[trigger] store.arrays@[j]).shape@ == seq![
                    n_t,
                    n_c,
                    n_z,
                    bboxes@[j].h as u64,
                    bboxes@[j].w as u64,
                ],
            forall|j: int|
                0 <= j < i ==> (#[trigger] store.arrays@[j]).chunk_shape@ == seq![
                    1u64,
                    1u64,
                    1u64,
                    bboxes@[j].h as u64,
                    bboxes@[j].w as u64,
                ],
            forall|j: int| 0 <= j < i ==> (#[trigger] store.arrays@[j]).fill == 0u16,
            forall|j: int| 0 <= j < i ==> (#[trigger] store.arrays@[j]).chunks@.len() == 0,
            group_listed(store.groups@, "/"@),
            group_listed(store.groups@, "/pos"@),
            group_listed(store.groups@, pos_path_chars(pos as int)),
            group_listed(store.groups@, crop_group_chars(pos as int)),
        decreases nb - i,
    {
        let b = bboxes[i];
        let path = crop_array_path(pos, i as u32);
        let mut shape: Vec<u64> = Vec::new();
        shape.push(n_t);
        shape.push(n_c);
        shape.push(n_z);
        shape.push(b.h as u64);
        shape.push(b.w as u64);
        let mut chunk: Vec<u64> = Vec::new();
        chunk.push(1);
        chunk.push(1);
        chunk.push(1);
        chunk.push(b.h as u64);
        chunk.push(b.w as u64);
        let mut attrs: Vec<(String, String)> = Vec::new();
        attrs.push((lit_string("axis_names"), lit_string("t,c,z,y,x")));
        attrs.push((lit_string("bbox_x"), crate::text::format_u32(b.x)));
        attrs.push((lit_string("bbox_y"), crate::text::format_u32(b.y)));
        attrs.push((lit_string("bbox_w"), crate::text::format_u32(b.w)));
        attrs.push((lit_string("bbox_h"), crate::text::format_u32(b.h)));
        proof {
            assert(shape@ =~= seq![n_t, n_c, n_z, b.h as u64, b.w as u64]);
            assert(chunk@ =~= seq![1u64, 1u64, 1u64, b.h as u64, b.w as u64]);
            lemma_volume5(1, 1, 1, b.h as u64, b.w as u64);
            assert((1 as int) * (1 as int) * (1 as int) * (b.h as int) * (b.w as int) == (b.h
                as int) * (b.w as int)) by (nonlinear_arith);
            assert((b.h as int) * (b.w as int) <= u32::MAX) by (nonlinear_arith)
                requires
                    (b.w as int) * (b.h as int) <= u32::MAX,
            ;
            assert(volume(chunk@) <= u32::MAX);
            assert(chunk@[0] == 1u64 && chunk@[1] == 1u64 && chunk@[2] == 1u64 && chunk@[3] == b.h
                as u64 && chunk@[4] == b.w as u64);
            assert forall|k: int| 0 <= k < chunk@.len() implies #[trigger] chunk@[k] >= 1 by {
                if k == 3 {
                    assert(chunk@[k] == b.h as u64);
                } else if k == 4 {
                    assert(chunk@[k] == b.w as u64);
                }
            }
            assert(chunk_shape_ok(chunk@));
            if array_listed(store.arrays@, path@) {
                let k = choose|k: int|
                    0 <= k < store.arrays@.len() && (#[trigger] store.arrays@[k]).path@ == path@;
                lemma_crop_paths_distinct(pos as int, k, i as int);
                assert(false);
            }
        }
        let created = store.create_array(path, shape, chunk, 0, attrs);
        let id = match created {
            Ok(id) => id,
            Err(_) => {
                proof {
                    assert(false);
                }
                vstd::pervasive::unreached()
            },
        };
        crop_ids.push(id);
        i = i + 1;
    }
    let bg_id: Option<usize> = if background {
        let path = bg_array_path(pos);
        let mut shape: Vec<u64> = Vec::new();
        shape.push(n_t);
        shape.push(n_c);
        shape.push(n_z);
        let mut chunk: Vec<u64> = Vec::new();
        chunk.push(1);
        chunk.push(1);
        chunk.push(1);
        let mut attrs: Vec<(String, String)> = Vec::new();
        attrs.push((lit_string("axis_names"), lit_string("t,c,z")));
        attrs.push(
            (
                lit_string("description"),
                lit_string("Median of pixels outside all crop bounding boxes"),
            ),
        );
        proof {
            assert(shape@ =~= seq![n_t, n_c, n_z]);
            assert(chunk@ =~= seq![1u64, 1u64, 1u64]);
            lemma_volume3(1, 1, 1);
            assert(chunk_shape_ok(chunk@));
            if array_listed(store.arrays@, path@) {
                let k = choose|k: int|
                    0 <= k < store.arrays@.len() && (#[trigger] store.arrays@[k]).path@ == path@;
                lemma_bg_path_distinct(pos as int, k);
                assert(false);
            }
        }
        let created = store.create_array(path, shape, chunk, 0, attrs);
        match created {
            Ok(id) => Some(id),
            Err(_) => {
                proof {
                    assert(false);
                }
                vstd::pervasive::unreached()
            },
        }
    } else {
        None
    };
    let mask: Vec<bool> = if background {
        bbox_mask(bboxes.as_slice(), width, height)
    } else {
        Vec::new()
    };
    let run = CropRun {
        store,
        index,
        bboxes,
        width,
        height,
        pos,
        crop_ids,
        bg_id,
        mask,
        cursor: 0,
    };
    proof {
        assert forall|j: int| 0 <= j < run.crop_ids@.len() implies crop_array_ok(run, j) by {
            assert(run.crop_ids@[j] == j);
        }
        assert forall|j: int, iv: Seq<u64>|
            0 <= j < run.crop_ids@.len() && (#[trigger] chunk_find(
                run.store.arrays@[run.crop_ids@[j] as int].chunks@,
                iv,
            )) is Some implies exists|e: int|
            0 <= e < run.cursor && iv == crop_chunk_index(run.index, run.index.entries@[e].key) by {
            assert(run.store.arrays@[run.crop_ids@[j] as int].chunks@.len() == 0);
        }
    }
    Ok(run)
}

/// The list position of the next frame to decode and feed, or nothing
/// when every frame has been processed.
pub fn next_source(run: &CropRun) -> (r: Option<usize>)
    ensures
        match r {
            Some(s) => run.cursor < run.index.entries@.len() && s == run.index.entries@[run.cursor
                as int].source,
            None => run.cursor >= run.index.entries@.len(),
        },
{
    if run.cursor < run.index.entries.len() {
        Some(run.index.entries[run.cursor].source)
    } else {
        None
    }
}


/// Processes one frame: checks its dimensions against the run's, writes
/// one chunk per rectangle at the frame's dense chunk index — never
/// rewriting an existing chunk — then, when requested, the median of the
/// pixels outside every rectangle into the background array, and advances
/// the cursor.  `Err` exactly when the frame's dimensions or buffer do not
/// match the run's; the store is then unchanged.
pub fn feed_frame(
    run: &mut CropRun,
    frame: &Vec<u16>,
    frame_width: u32,
    frame_height: u32,
) -> (r: Result<(), PipelineError>)
    requires
        run_wf(*old(run)),
        old(run).cursor < old(run).index.entries@.len(),
    ensures
        run_wf(*final (run)),
        final (run).index == old(run).index,
        final (run).bboxes@ == old(run).bboxes@,
        final (run).width == old(run).width,
        final (run).height == old(run).height,
        final (run).pos == old(run).pos,
        final (run).crop_ids@ == old(run).crop_ids@,
        final (run).bg_id == old(run).bg_id,
        final (run).mask@ == old(run).mask@,
        final (run).store.groups@ == old(run).store.groups@,
        final (run).store.arrays@.len() == old(run).store.arrays@.len(),
        r is Err <==> (frame_width != old(run).width || frame_height != old(run).height
            || frame@.len() != old(run).width * old(run).height),
        match r {
            Ok(()) => {
                &&& final (run).cursor == old(run).cursor + 1
                &&& forall|j: int|
                    0 <= j < old(run).crop_ids@.len() ==> chunk_find(
                        final (run).store.arrays@[(#[trigger] old(run).crop_ids@[j]) as int].chunks@,
                        crop_chunk_index(
                            old(run).index,
                            old(run).index.entries@[old(run).cursor as int].key,
                        ),
                    ) == Some(
                        crop_data_spec(frame@, old(run).width as int, old(run).bboxes@[j]),
                    )
                &&& forall|j: int, iv: Seq<u64>|
                    0 <= j < old(run).crop_ids@.len() && iv != crop_chunk_index(
                        old(run).index,
                        old(run).index.entries@[old(run).cursor as int].key,
                    ) ==> #[trigger] chunk_find(
                        final (run).store.arrays@[old(run).crop_ids@[j] as int].chunks@,
                        iv,
                    ) == chunk_find(
                        old(run).store.arrays@[old(run).crop_ids@[j] as int].chunks@,
                        iv,
                    )
                &&& (old(run).bg_id matches Some(b) ==> chunk_find(
                    final (run).store.arrays@[b as int].chunks@,
                    bg_chunk_index(
                        old(run).index,
                        old(run).index.entries@[old(run).cursor as int].key,
                    ),
                ) == Some(
                    seq![
                        median_spec(
                            outside_values(
                                frame@,
                                old(run).mask@,
                                old(run).width * old(run).height,
                            ),
                        ),
                    ],
                ))
            },
            Err(e) => {
                &&& final (run).store == old(run).store
                &&& final (run).cursor == old(run).cursor
                &&& match e {
                    PipelineError::DimensionMismatch {
                        expected_width,
                        expected_height,
                        got_width,
                        got_height,
                    } => {
                        &&& (frame_width != old(run).width || frame_height != old(run).height)
                        &&& expected_width == old(run).width
                        &&& expected_height == old(run).height
                        &&& got_width == frame_width
                        &&& got_height == frame_height
                    },
                    PipelineError::FrameBufferMismatch { expected, got } => {
                        &&& frame_width == old(run).width
                        &&& frame_height == old(run).height
                        &&& frame@.len() != old(run).width * old(run).height
                        &&& expected == old(run).width * old(run).height
                        &&& got == frame@.len()
                    },
                }
            },
        },
{
    if frame_width != run.width || frame_height != run.height {
        return Err(
            PipelineError::DimensionMismatch {
                expected_width: run.width,
                expected_height: run.height,
                got_width: frame_width,
                got_height: frame_height,
            },
        );
    }
    let n: usize = (run.width as usize) * (run.height as usize);
    if frame.len() != n {
        return Err(PipelineError::FrameBufferMismatch { expected: n, got: frame.len() });
    }
    let entry = run.index.entries[run.cursor];
    let ghost key = entry.key;
    let t_idx = match axis_index(run.index.times.as_slice(), entry.key.time) {
        Some(t) => t,
        None => {
            proof {
                assert(run.index.entries@[run.cursor as int].key.time == key.time);
                assert(false);
            }
            vstd::pervasive::unreached()
        },
    };
    let c_idx = match axis_index(run.index.channels.as_slice(), entry.key.channel) {
        Some(c) => c,
        None => {
            proof {
                assert(run.index.entries@[run.cursor as int].key.channel == key.channel);
                assert(false);
            }
            vstd::pervasive::unreached()
        },
    };
    let z_idx = match axis_index(run.index.zs.as_slice(), entry.key.z) {
        Some(z) => z,
        None => {
            proof {
                assert(run.index.entries@[run.cursor as int].key.z == key.z);
                assert(false);
            }
            vstd::pervasive::unreached()
        },
    };
    proof {
        lemma_axis_pos_is(run.index.times@, key.time, t_idx as int);
        lemma_axis_pos_is(run.index.channels@, key.channel, c_idx as int);
        lemma_axis_pos_is(run.index.zs@, key.z, z_idx as int);
    }
    let ghost iv5 = crop_chunk_index(run.index, key);
    let ghost iv3 = bg_chunk_index(run.index, key);
    let nb = run.bboxes.len();
    let mut j: usize = 0;
    while j < nb
        invariant
            j <= nb,
            run_wf(*old(run)),
            old(run).cursor < old(run).index.entries@.len(),
            nb == run.bboxes@.len(),
            run.index == old(run).index,
            run.bboxes@ == old(run).bboxes@,
            run.width == old(run).width,
            run.height == old(run).height,
            run.pos == old(run).pos,
            run.crop_ids@ == old(run).crop_ids@,
            run.bg_id == old(run).bg_id,
            run.mask@ == old(run).mask@,
            run.cursor == old(run).cursor,
            run.store.groups@ == old(run).store.groups@,
            run.store.arrays@.len() == old(run).store.arrays@.len(),
            store_wf(run.store),
            frame_width == run.width,
            frame_height == run.height,
            frame@.len() == run.width * run.height,
            key == old(run).index.entries@[old(run).cursor as int].key,
            t_idx < run.index.times@.len(),
            c_idx < run.index.channels@.len(),
            z_idx < run.index.zs@.len(),
            t_idx == axis_pos(run.index.times@, key.time),
            c_idx == axis_pos(run.index.channels@, key.channel),
            z_idx == axis_pos(run.index.zs@, key.z),
            iv5 == crop_chunk_index(old(run).index, key),
            iv3 == bg_chunk_index(old(run).index, key),
            forall|jj: int|
                j <= jj < nb ==> run.store.arrays@[(#[trigger] run.crop_ids@[jj]) as int] == old(
                    run,
                ).store.arrays@[run.crop_ids@[jj] as int],
            forall|jj: int|
                0 <= jj < j ==> chunk_find(
                    run.store.arrays@[(#[trigger] run.crop_ids@[jj]) as int].chunks@,
                    iv5,
                ) == Some(crop_data_spec(frame@, run.width as int, run.bboxes@[jj])),
            forall|jj: int, iv: Seq<u64>|
                0 <= jj < j && iv != iv5 ==> #[trigger] chunk_find(
                    run.store.arrays@[run.crop_ids@[jj] as int].chunks@,
                    iv,
                ) == chunk_find(old(run).store.arrays@[run.crop_ids@[jj] as int].chunks@, iv),
            forall|jj: int|
                0 <= jj < j ==> {
                    let id = (#[trigger] run.crop_ids@[jj]) as int;
                    &&& run.store.arrays@[id].shape@ == old(run).store.arrays@[id].shape@
                    &&& run.store.arrays@[id].chunk_shape@ == old(
                        run,
                    ).store.arrays@[id].chunk_shape@
                    &&& run.store.arrays@[id].fill == old(run).store.arrays@[id].fill
                    &&& run.store.arrays@[id].path@ == old(run).store.arrays@[id].path@
                },
            old(run).bg_id matches Some(b) ==> run.store.arrays@[b as int] == old(
                run,
            ).store.arrays@[b as int],
        decreases nb - j,
    {
        let b = run.bboxes[j];
        proof {
            assert(crop_array_ok(*old(run), j as int));
            assert(bbox_valid(run.bboxes@[j as int], run.width as int, run.height as int));
            assert((b.y + b.h) * run.width <= run.height * run.width) by {
                mul_le((b.y + b.h) as int, run.height as int, run.width as int);
            }
            assert(run.height * run.width == run.width * run.height) by (nonlinear_arith);
        }
        let data = extract_crop_u16(frame, run.width, b.x, b.y, b.w, b.h);
        proof {
            lemma_crop_rows(data@, frame@, run.width as int, b);
        }
        let mut iv: Vec<u64> = Vec::new();
        iv.push(t_idx as u64);
        iv.push(c_idx as u64);
        iv.push(z_idx as u64);
        iv.push(0);
        iv.push(0);
        proof {
            assert(iv@ =~= iv5);
        }
        let id = run.crop_ids[j];
        let ghost arr = run.store.arrays@[id as int];
        proof {
            assert(run.index.times.len() == run.index.times@.len());
            assert(run.index.channels.len() == run.index.channels@.len());
            assert(run.index.zs.len() == run.index.zs@.len());
            assert(arr == old(run).store.arrays@[id as int]);
            assert(arr.shape@ == seq![
                run.index.times@.len() as u64,
                run.index.channels@.len() as u64,
                run.index.zs@.len() as u64,
                b.h as u64,
                b.w as u64,
            ]);
            assert(arr.chunk_shape@ == seq![1u64, 1u64, 1u64, b.h as u64, b.w as u64]);
            assert forall|k: int| 0 <= k < iv5.len() implies #[trigger] iv5[k] < crate::store::grid_extent(
                arr.shape@[k] as int,
                arr.chunk_shape@[k] as int,
            ) by {
                if k == 0 {
                    assert(arr.shape@[0] >= 1);
                } else if k == 1 {
                    assert(arr.shape@[1] >= 1);
                } else if k == 2 {
                    assert(arr.shape@[2] >= 1);
                } else if k == 3 {
                    assert(iv5[3] == 0);
                    vstd::arithmetic::div_mod::lemma_basic_div((b.h - 1) as int, b.h as int);
                } else {
                    assert(iv5[4] == 0);
                    vstd::arithmetic::div_mod::lemma_basic_div((b.w - 1) as int, b.w as int);
                }
            }
            assert(index_in_grid(arr, iv5));
            lemma_volume5(1, 1, 1, b.h as u64, b.w as u64);
            assert((1 as int) * (1 as int) * (1 as int) * (b.h as int) * (b.w as int) == (b.w
                as int) * (b.h as int)) by (nonlinear_arith);
            assert(data@.len() == volume(arr.chunk_shape@));
            if chunk_find(arr.chunks@, iv5) is Some {
                assert(chunk_find(
                    old(run).store.arrays@[old(run).crop_ids@[j as int] as int].chunks@,
                    iv5,
                ) is Some);
                let e = choose|e: int|
                    0 <= e < old(run).cursor && iv5 == crop_chunk_index(
                        old(run).index,
                        old(run).index.entries@[e].key,
                    );
                let k2 = old(run).index.entries@[e].key;
                lemma_crop_bg_index(old(run).index, k2, key);
                assert(run.index.times@.contains(k2.time)) by {
                    assert(old(run).index.entries@[e].key.time == k2.time);
                }
                assert(run.index.channels@.contains(k2.channel)) by {
                    assert(old(run).index.entries@[e].key.channel == k2.channel);
                }
                assert(run.index.zs@.contains(k2.z)) by {
                    assert(old(run).index.entries@[e].key.z == k2.z);
                }
                assert(run.index.times@.contains(key.time)) by {
                    assert(run.index.entries@[old(run).cursor as int].key.time == key.time);
                }
                assert(run.index.channels@.contains(key.channel)) by {
                    assert(run.index.entries@[old(run).cursor as int].key.channel == key.channel);
                }
                assert(run.index.zs@.contains(key.z)) by {
                    assert(run.index.entries@[old(run).cursor as int].key.z == key.z);
                }
                lemma_dense_injective(old(run).index, k2, key);
                assert(key_lt(
                    old(run).index.entries@[e].key,
                    old(run).index.entries@[old(run).cursor as int].key,
                ));
                assert(false);
            }
        }
        let ghost pre = run.store.arrays@;
        let ghost dv = data@;
        proof {
            assert(dv == crop_data_spec(frame@, run.width as int, run.bboxes@[j as int]));
        }
        let wrote = run.store.write_chunk(id, iv, data);
        proof {
            if wrote is Err {
                assert(false);
            }
            assert(chunk_find(run.store.arrays@[id as int].chunks@, iv5) == Some(dv));
            assert forall|jj: int|
                0 <= jj < j + 1 implies chunk_find(
                run.store.arrays@[(#[trigger] run.crop_ids@[jj]) as int].chunks@,
                iv5,
            ) == Some(crop_data_spec(frame@, run.width as int, run.bboxes@[jj])) by {
                if jj < j {
                    assert(crop_array_ok(*old(run), jj));
                    assert(run.crop_ids@[jj] != run.crop_ids@[j as int]);
                    assert(run.store.arrays@[run.crop_ids@[jj] as int] == pre[run.crop_ids@[jj] as int]);
                }
            }
            assert forall|jj: int|
                j + 1 <= jj < nb implies run.store.arrays@[(#[trigger] run.crop_ids@[jj]) as int]
                == old(run).store.arrays@[run.crop_ids@[jj] as int] by {
                assert(crop_array_ok(*old(run), jj));
                assert(run.crop_ids@[jj] != run.crop_ids@[j as int]);
                assert(run.store.arrays@[run.crop_ids@[jj] as int] == pre[run.crop_ids@[jj] as int]);
            }
            assert forall|jj: int, iv2: Seq<u64>|
                0 <= jj < j + 1 && iv2 != iv5 implies #[trigger] chunk_find(
                run.store.arrays@[run.crop_ids@[jj] as int].chunks@,
                iv2,
            ) == chunk_find(old(run).store.arrays@[run.crop_ids@[jj] as int].chunks@, iv2) by {
                if jj < j {
                    assert(crop_array_ok(*old(run), jj));
                    assert(run.crop_ids@[jj] != run.crop_ids@[j as int]);
                    assert(run.store.arrays@[run.crop_ids@[jj] as int] == pre[run.crop_ids@[jj] as int]);
                } else {
                    assert(chunk_find(run.store.arrays@[id as int].chunks@, iv2) == chunk_find(
                        pre[id as int].chunks@,
                        iv2,
                    ));
                    assert(pre[id as int] == old(run).store.arrays@[id as int]);
                }
            }
            if old(run).bg_id is Some {
                assert(old(run).crop_ids@[j as int] != old(run).bg_id->0);
                assert(run.store.arrays@[old(run).bg_id->0 as int] == pre[old(run).bg_id->0 as int]);
            }
            assert forall|jj: int|
                0 <= jj < j + 1 implies {
                let cid = (#[trigger] run.crop_ids@[jj]) as int;
                &&& run.store.arrays@[cid].shape@ == old(run).store.arrays@[cid].shape@
                &&& run.store.arrays@[cid].chunk_shape@ == old(run).store.arrays@[cid].chunk_shape@
                &&& run.store.arrays@[cid].fill == old(run).store.arrays@[cid].fill
                &&& run.store.arrays@[cid].path@ == old(run).store.arrays@[cid].path@
            } by {
                assert(crop_array_ok(*old(run), jj));
                if jj < j {
                    assert(run.crop_ids@[jj] != run.crop_ids@[j as int]);
                    assert(run.store.arrays@[run.crop_ids@[jj] as int] == pre[run.crop_ids@[jj] as int]);
                } else {
                    assert(pre[id as int] == old(run).store.arrays@[id as int]);
                }
            }
        }
        j = j + 1;
    }
    let ghost after_loop = run.store.arrays@;
    if let Some(bid) = run.bg_id {
        let val = median_outside_mask_u16(
            frame.as_slice(),
            run.width,
            run.height,
            run.mask.as_slice(),
        );
        let mut data: Vec<u16> = Vec::new();
        data.push(val);
        let mut iv: Vec<u64> = Vec::new();
        iv.push(t_idx as u64);
        iv.push(c_idx as u64);
        iv.push(z_idx as u64);
        proof {
            assert(iv@ =~= iv3);
        }
        let ghost arr = run.store.arrays@[bid as int];
        proof {
            assert(run.index.times.len() == run.index.times@.len());
            assert(run.index.channels.len() == run.index.channels@.len());
            assert(run.index.zs.len() == run.index.zs@.len());
            assert(arr == old(run).store.arrays@[bid as int]);
            assert(arr.shape@ == seq![
                run.index.times@.len() as u64,
                run.index.channels@.len() as u64,
                run.index.zs@.len() as u64,
            ]);
            assert(arr.chunk_shape@ == seq![1u64, 1u64, 1u64]);
            assert forall|k: int| 0 <= k < iv3.len() implies #[trigger] iv3[k] < crate::store::grid_extent(
                arr.shape@[k] as int,
                arr.chunk_shape@[k] as int,
            ) by {
                if k == 0 {
                    assert(arr.shape@[0] >= 1);
                } else if k == 1 {
                    assert(arr.shape@[1] >= 1);
                } else {
                    assert(arr.shape@[2] >= 1);
                }
            }
            assert(index_in_grid(arr, iv3));
            lemma_volume3(1, 1, 1);
            assert(data@.len() == volume(arr.chunk_shape@));
            if chunk_find(arr.chunks@, iv3) is Some {
                let e = choose|e: int|
                    0 <= e < old(run).cursor && iv3 == bg_chunk_index(
                        old(run).index,
                        old(run).index.entries@[e].key,
                    );
                let k2 = old(run).index.entries@[e].key;
                assert(run.index.times@.contains(k2.time)) by {
                    assert(old(run).index.entries@[e].key.time == k2.time);
                }
                assert(run.index.channels@.contains(k2.channel)) by {
                    assert(old(run).index.entries@[e].key.channel == k2.channel);
                }
                assert(run.index.zs@.contains(k2.z)) by {
                    assert(old(run).index.entries@[e].key.z == k2.z);
                }
                assert(run.index.times@.contains(key.time)) by {
                    assert(run.index.entries@[old(run).cursor as int].key.time == key.time);
                }
                assert(run.index.channels@.contains(key.channel)) by {
                    assert(run.index.entries@[old(run).cursor as int].key.channel == key.channel);
                }
                assert(run.index.zs@.contains(key.z)) by {
                    assert(run.index.entries@[old(run).cursor as int].key.z == key.z);
                }
                lemma_dense_injective(old(run).index, k2, key);
                assert(key_lt(
                    old(run).index.entries@[e].key,
                    old(run).index.entries@[old(run).cursor as int].key,
                ));
                assert(false);
            }
        }
        let ghost dv = data@;
        let wrote = run.store.write_chunk(bid, iv, data);
        proof {
            if wrote is Err {
                assert(false);
            }
            assert(dv =~= seq![
                median_spec(outside_values(frame@, run.mask@, run.width * run.height)),
            ]);
            assert(chunk_find(run.store.arrays@[bid as int].chunks@, iv3) == Some(dv));
            assert forall|jj: int|
                0 <= jj < nb implies run.store.arrays@[(#[trigger] run.crop_ids@[jj]) as int]
                == after_loop[run.crop_ids@[jj] as int] by {
                assert(crop_array_ok(*old(run), jj));
                assert(run.crop_ids@[jj] != bid);
            }
        }
    }
    proof {
        assert(run.index.entries.len() == run.index.entries@.len());
    }
    run.cursor = run.cursor + 1;
    proof {
        let ghost fr = *run;
        assert forall|jj: int| 0 <= jj < fr.crop_ids@.len() implies crop_array_ok(fr, jj) by {
            assert(crop_array_ok(*old(run), jj));
        }
        assert forall|jj: int, iv: Seq<u64>|
            0 <= jj < fr.crop_ids@.len() && (#[trigger] chunk_find(
                fr.store.arrays@[fr.crop_ids@[jj] as int].chunks@,
                iv,
            )) is Some implies exists|e: int|
            0 <= e < fr.cursor && iv == crop_chunk_index(fr.index, fr.index.entries@[e].key) by {
            assert(crop_array_ok(*old(run), jj));
            assert(fr.crop_ids@[jj] == old(run).crop_ids@[jj]);
            assert(fr.store.arrays@[fr.crop_ids@[jj] as int] == after_loop[fr.crop_ids@[jj] as int]);
            if iv == iv5 {
                assert(0 <= old(run).cursor < fr.cursor && iv5 == crop_chunk_index(
                    fr.index,
                    fr.index.entries@[old(run).cursor as int].key,
                ));
            } else {
                assert(chunk_find(after_loop[fr.crop_ids@[jj] as int].chunks@, iv) == chunk_find(
                    old(run).store.arrays@[fr.crop_ids@[jj] as int].chunks@,
                    iv,
                ));
                assert(chunk_find(
                    old(run).store.arrays@[old(run).crop_ids@[jj] as int].chunks@,
                    iv,
                ) is Some);
                let e = choose|e: int|
                    0 <= e < old(run).cursor && iv == crop_chunk_index(
                        old(run).index,
                        old(run).index.entries@[e].key,
                    );
                assert(0 <= e < fr.cursor && iv == crop_chunk_index(
                    fr.index,
                    fr.index.entries@[e].key,
                ));
            }
        }
        if fr.bg_id is Some {
            let b = fr.bg_id->0;
            assert forall|iv: Seq<u64>|
                (#[trigger] chunk_find(fr.store.arrays@[b as int].chunks@, iv)) is Some implies exists|
                e: int,
            |
                0 <= e < fr.cursor && iv == bg_chunk_index(fr.index, fr.index.entries@[e].key) by {
                if iv == iv3 {
                    assert(0 <= old(run).cursor < fr.cursor && iv3 == bg_chunk_index(
                        fr.index,
                        fr.index.entries@[old(run).cursor as int].key,
                    ));
                } else {
                    assert(chunk_find(old(run).store.arrays@[b as int].chunks@, iv) is Some);
                    let e = choose|e: int|
                        0 <= e < old(run).cursor && iv == bg_chunk_index(
                            old(run).index,
                            old(run).index.entries@[e].key,
                        );
                    assert(0 <= e < fr.cursor && iv == bg_chunk_index(
                        fr.index,
                        fr.index.entries@[e].key,
                    ));
                }
            }
        }
    }
    Ok(())
}

} // verus!
