//! The slice-selection grammar: `all`, comma-separated single indices
//! (negative values count from the end), and `start:stop:step` ranges with
//! omitted components defaulting to the full extent.  A selection expression
//! evaluates, against a given length, to a deduplicated ascending list of
//! in-bounds positions.

use crate::text::{
    chars_of, eq_lit, i64_val, lower_slice, lower_spec, parse_i64_chars, parses_i64, sep_index,
    split_slice, split_spec, trim_slice, trim_spec,
};
use vstd::prelude::*;

verus! {

/// A fault in one segment of a selection expression; `segment` is the
/// zero-based ordinal of the offending comma-separated segment.
#[derive(Clone, Copy, Debug, PartialEq, Eq, Structural)]
pub enum SelectorError {
    /// The segment is not a signed integer or colon range.
    BadSegment { segment: usize },
    /// The segment is a range whose step is zero.
    ZeroStep { segment: usize },
    /// The segment is a single index outside `[-length, length)`.
    OutOfRange { segment: usize },
}

/// Whether the (already trimmed) segment is a colon range.
pub open spec fn seg_is_range(seg: Seq<char>) -> bool {
    sep_index(seg, ':') < seg.len()
}

/// Whether one colon-delimited range component is acceptable: blank, or a
/// signed integer.
pub open spec fn part_ok(p: Seq<char>) -> bool {
    trim_spec(p).len() == 0 || parses_i64(trim_spec(p))
}

/// The value of one range component, or its default when blank.
pub open spec fn part_or(p: Seq<char>, default: int) -> int {
    if trim_spec(p).len() == 0 {
        default
    } else {
        i64_val(trim_spec(p))
    }
}

/// Whether a range segment's components are acceptable: at most three, each
/// blank or a signed integer.
pub open spec fn range_parts_ok(parts: Seq<Seq<char>>) -> bool {
    &&& parts.len() <= 3
    &&& forall|i: int| 0 <= i < parts.len() ==> part_ok(#[trigger] parts[i])
}

/// The range start: the first component, defaulting to 0.
pub open spec fn range_start(parts: Seq<Seq<char>>) -> int {
    part_or(parts[0], 0)
}

/// The range stop: the second component, defaulting to the length.
pub open spec fn range_stop(parts: Seq<Seq<char>>, length: int) -> int {
    if parts.len() >= 2 {
        part_or(parts[1], length)
    } else {
        length
    }
}

/// The range step: the third component, defaulting to 1.
pub open spec fn range_step(parts: Seq<Seq<char>>) -> int {
    if parts.len() >= 3 {
        part_or(parts[2], 1)
    } else {
        1
    }
}

/// An endpoint normalized against `length`: negative endpoints are offset by
/// `length` and clamped to 0, endpoints above `length` are clamped to it.
pub open spec fn norm_endpoint(e: int, length: int) -> int {
    if e < 0 {
        if e + length > 0 {
            e + length
        } else {
            0
        }
    } else if e > length {
        length
    } else {
        e
    }
}

/// Normalizes `(start, stop, step)` against `length`: both endpoints are
/// clamped into `[0, length]`, and for a negative step a stop at or after
/// the start is replaced by -1 so that iteration may run down to 0.
pub open spec fn slice_indices_spec(start: int, stop: int, step: int, length: int) -> (
    int,
    int,
    int,
) {
    let i = norm_endpoint(start, length);
    let j = norm_endpoint(stop, length);
    if step < 0 {
        if j < i {
            (i, if j > -1 {
                j
            } else {
                -1
            }, step)
        } else {
            (i, -1, step)
        }
    } else {
        (i, j, step)
    }
}

/// The positions visited starting from `idx`, stepping by `step`, stopping
/// strictly before `stop` in the direction of travel.
pub open spec fn stepped_seq(idx: int, stop: int, step: int) -> Seq<int>
    decreases
            (if step > 0 {
                if stop - idx > 0 {
                    stop - idx
                } else {
                    0
                }
            } else {
                if idx - stop > 0 {
                    idx - stop
                } else {
                    0
                }
            }),
{
    if step > 0 && idx < stop {
        seq![idx] + stepped_seq(idx + step, stop, step)
    } else if step < 0 && idx > stop {
        seq![idx] + stepped_seq(idx + step, stop, step)
    } else {
        Seq::empty()
    }
}

/// The members of `s` that lie within `[0, length)`.
pub open spec fn in_bounds_values(s: Seq<int>, length: int) -> Set<int> {
    Set::new(|x: int| s.contains(x) && 0 <= x < length)
}

/// The fault in one comma-separated segment, if any; `ordinal` is carried
/// into the fault.  A blank segment has no fault (it is skipped).
pub open spec fn seg_fault(seg: Seq<char>, ordinal: usize, length: int) -> Option<SelectorError> {
    let t = trim_spec(seg);
    if t.len() == 0 {
        None
    } else if seg_is_range(t) {
        let parts = split_spec(t, ':');
        if !range_parts_ok(parts) {
            Some(SelectorError::BadSegment { segment: ordinal })
        } else if range_step(parts) == 0 {
            Some(SelectorError::ZeroStep { segment: ordinal })
        } else {
            None
        }
    } else {
        if !parses_i64(t) {
            Some(SelectorError::BadSegment { segment: ordinal })
        } else if i64_val(t) < -length || i64_val(t) >= length {
            Some(SelectorError::OutOfRange { segment: ordinal })
        } else {
            None
        }
    }
}

/// The positions one fault-free segment selects.
pub open spec fn seg_values(seg: Seq<char>, length: int) -> Set<int> {
    let t = trim_spec(seg);
    if t.len() == 0 {
        Set::empty()
    } else if seg_is_range(t) {
        let parts = split_spec(t, ':');
        let r = slice_indices_spec(
            range_start(parts),
            range_stop(parts, length),
            range_step(parts),
            length,
        );
        in_bounds_values(stepped_seq(r.0, r.1, r.2), length)
    } else {
        let v = i64_val(t);
        Set::empty().insert(
            if v < 0 {
                v + length
            } else {
                v
            },
        )
    }
}

/// The first fault among the segments from position `i` on.
pub open spec fn fault_from(segs: Seq<Seq<char>>, i: int, length: int) -> Option<SelectorError>
    decreases segs.len() - i,
{
    if i < 0 || i >= segs.len() {
        None
    } else if seg_fault(segs[i], i as usize, length) is Some {
        seg_fault(segs[i], i as usize, length)
    } else {
        fault_from(segs, i + 1, length)
    }
}

/// The union of the positions selected by the segments from `i` on.
pub open spec fn union_from(segs: Seq<Seq<char>>, i: int, length: int) -> Set<int>
    decreases segs.len() - i,
{
    if i < 0 || i >= segs.len() {
        Set::empty()
    } else {
        seg_values(segs[i], length).union(union_from(segs, i + 1, length))
    }
}

/// Whether the expression is the literal `all`, ignoring case and
/// surrounding whitespace.
pub open spec fn selector_is_all(s: Seq<char>) -> bool {
    lower_spec(trim_spec(s)) == "all"@
}

/// The first fault in the whole expression, if any.
pub open spec fn selector_fault(s: Seq<char>, length: int) -> Option<SelectorError> {
    if selector_is_all(s) {
        None
    } else {
        fault_from(split_spec(trim_spec(s), ','), 0, length)
    }
}

/// The positions a fault-free expression selects.
pub open spec fn selector_values(s: Seq<char>, length: int) -> Set<int> {
    if selector_is_all(s) {
        Set::new(|x: int| 0 <= x < length)
    } else {
        union_from(split_spec(trim_spec(s), ','), 0, length)
    }
}

/// The positions held by a result vector, as a set of integers.
pub open spec fn int_set_of(v: Seq<usize>) -> Set<int> {
    v.map_values(|u: usize| u as int).to_set()
}

/// Whether the result vector is strictly ascending (so also free of
/// duplicates).
pub open spec fn strictly_ascending(v: Seq<usize>) -> bool {
    forall|a: int, b: int| 0 <= a < b < v.len() ==> v[a] < v[b]
}

/// Visiting one more position either prepends it to the visited set (when it
/// is in bounds) or leaves the set unchanged.
proof fn lemma_stepped_unfold(idx: int, stop: int, step: int, length: int)
    requires
        (step > 0 && idx < stop) || (step < 0 && idx > stop),
    ensures
        0 <= idx < length ==> in_bounds_values(stepped_seq(idx, stop, step), length)
            =~= in_bounds_values(stepped_seq(idx + step, stop, step), length).insert(idx),
        !(0 <= idx < length) ==> in_bounds_values(stepped_seq(idx, stop, step), length)
            =~= in_bounds_values(stepped_seq(idx + step, stop, step), length),
{
    let s = stepped_seq(idx, stop, step);
    let rest = stepped_seq(idx + step, stop, step);
    assert(s =~= seq![idx] + rest);
    assert forall|x: int| #[trigger] s.contains(x) implies (x == idx || rest.contains(x)) by {
        let i = choose|i: int| 0 <= i < s.len() && s[i] == x;
        if i > 0 {
            assert(rest[i - 1] == x);
        }
    }
    assert forall|x: int| x == idx || rest.contains(x) implies #[trigger] s.contains(x) by {
        if x == idx {
            assert(s[0] == x);
        } else {
            let i = choose|i: int| 0 <= i < rest.len() && rest[i] == x;
            assert(s[i + 1] == x);
        }
    }
}

/// Appending a position to the result vector adds it to the position set.
proof fn lemma_int_set_insert(v: Seq<usize>, pos: int, val: usize)
    requires
        0 <= pos <= v.len(),
    ensures
        int_set_of(v.insert(pos, val)) =~= int_set_of(v).insert(val as int),
{
    let m = v.map_values(|u: usize| u as int);
    let m2 = v.insert(pos, val).map_values(|u: usize| u as int);
    assert(m2 =~= m.insert(pos, val as int));
    assert forall|x: int| #[trigger] m2.contains(x) implies (m.contains(x) || x == val as int) by {
        let i = choose|i: int| 0 <= i < m2.len() && m2[i] == x;
        if i < pos {
            assert(m[i] == x);
        } else if i > pos {
            assert(m[i - 1] == x);
        }
    }
    assert forall|x: int| m.contains(x) || x == val as int implies #[trigger] m2.contains(x) by {
        if x == val as int {
            assert(m2[pos] == x);
        } else {
            let i = choose|i: int| 0 <= i < m.len() && m[i] == x;
            if i < pos {
                assert(m2[i] == x);
            } else {
                assert(m2[i + 1] == x);
            }
        }
    }
}

/// When every segment before `i` is fault-free, the first fault from 0 is
/// the first fault from `i`.
proof fn lemma_fault_skip(segs: Seq<Seq<char>>, i: int, length: int)
    requires
        0 <= i <= segs.len(),
        forall|j: int| 0 <= j < i ==> seg_fault(#[trigger] segs[j], j as usize, length) is None,
    ensures
        fault_from(segs, 0, length) == fault_from(segs, i, length),
    decreases i,
{
    if i > 0 {
        lemma_fault_skip(segs.subrange(0, 0), 0, length);
        assert forall|j: int| 0 <= j < i - 1 implies seg_fault(
            #[trigger] segs[j],
            j as usize,
            length,
        ) is None by {}
        lemma_fault_from_step(segs, i - 1, length);
    }
}

/// One step of `fault_from`: past a fault-free segment the search moves on.
proof fn lemma_fault_from_step(segs: Seq<Seq<char>>, i: int, length: int)
    requires
        0 <= i <= segs.len(),
        forall|j: int| 0 <= j < i ==> seg_fault(#[trigger] segs[j], j as usize, length) is None,
    ensures
        fault_from(segs, 0, length) == fault_from(segs, i, length),
    decreases i,
{
    if i > 0 {
        lemma_fault_from_step(segs, i - 1, length);
    }
}

/// Inserts a position into an ascending result vector, keeping it ascending
/// and without duplicates.
fn insert_unique(out: &mut Vec<usize>, val: usize)
    requires
        strictly_ascending(old(out)@),
    ensures
        strictly_ascending(final (out)@),
        int_set_of(final (out)@) =~= int_set_of(old(out)@).insert(val as int),
{
    let mut pos: usize = 0;
    while pos < out.len() && out[pos] < val
        invariant
            pos <= out@.len(),
            forall|j: int| 0 <= j < pos ==> out@[j] < val,
            strictly_ascending(out@),
            out@ == old(out)@,
        decreases out@.len() - pos,
    {
        pos = pos + 1;
    }
    if pos < out.len() && out[pos] == val {
        proof {
            assert(out@.map_values(|u: usize| u as int)[pos as int] == val as int);
            assert(int_set_of(out@).contains(val as int));
            assert(int_set_of(out@) =~= int_set_of(out@).insert(val as int));
        }
        return ;
    }
    let ghost prev = out@;
    out.insert(pos, val);
    proof {
        assert(out@ =~= prev.insert(pos as int, val));
        lemma_int_set_insert(prev, pos as int, val);
        prev.insert_ensures(pos as int, val);
        assert forall|a: int, b: int| 0 <= a < b < out@.len() implies out@[a] < out@[b] by {
            if b < pos {
            } else if a > pos {
                assert(out@[a] == prev[a - 1] && out@[b] == prev[b - 1]);
            } else if a < pos && b == pos {
                assert(out@[a] == prev[a] && out@[b] == val);
            } else if a == pos && b > pos {
                assert(out@[a] == val && out@[b] == prev[b - 1]);
                assert(pos < prev.len() && val < prev[pos as int] || pos == prev.len());
                if pos as int <= b - 1 && pos < prev.len() {
                    assert(prev[pos as int] <= prev[b - 1]);
                }
            } else if a < pos && b > pos {
                assert(out@[a] == prev[a] && out@[b] == prev[b - 1]);
                assert(prev[a] < val);
                if pos as int <= b - 1 && pos < prev.len() {
                    assert(val < prev[pos as int] && prev[pos as int] <= prev[b - 1]);
                }
            }
        }
    }
}

/// Normalizes a range's `(start, stop, step)` against `length`, exactly as
/// `slice_indices_spec` describes.
pub fn slice_indices(start: i64, stop: i64, step: i64, length: i64) -> (r: (i64, i64, i64))
    requires
        length >= 0,
    ensures
        r.0 == slice_indices_spec(start as int, stop as int, step as int, length as int).0,
        r.1 == slice_indices_spec(start as int, stop as int, step as int, length as int).1,
        r.2 == slice_indices_spec(start as int, stop as int, step as int, length as int).2,
        0 <= r.0 <= length,
        -1 <= r.1 <= length,
        r.2 == step,
{
    let start_w: i128 = start as i128;
    let stop_w: i128 = stop as i128;
    let length_w: i128 = length as i128;
    let i: i64 = if start_w < 0 {
        if start_w + length_w > 0 {
            (start_w + length_w) as i64
        } else {
            0
        }
    } else if start_w > length_w {
        length
    } else {
        start
    };
    let j: i64 = if stop_w < 0 {
        if stop_w + length_w > 0 {
            (stop_w + length_w) as i64
        } else {
            0
        }
    } else if stop_w > length_w {
        length
    } else {
        stop
    };
    if step < 0 {
        if j < i {
            (i, if j > -1 {
                j
            } else {
                -1
            }, step)
        } else {
            (i, -1, step)
        }
    } else {
        (i, j, step)
    }
}

/// Parses a selection expression against `length` and returns the selected
/// positions as a deduplicated ascending list.  `Err` exactly when the
/// expression has a fault, naming the first faulty segment.
pub fn parse_slice_string(s: &str, length: usize) -> (r: Result<Vec<usize>, SelectorError>)
    requires
        length <= i64::MAX,
    ensures
        match r {
            Ok(v) => {
                &&& selector_fault(s@, length as int) is None
                &&& strictly_ascending(v@)
                &&& int_set_of(v@) == selector_values(s@, length as int)
            },
            Err(e) => selector_fault(s@, length as int) == Some(e),
        },
{
    let chars = chars_of(s);
    let trimmed = trim_slice(chars.as_slice());
    let lowered = lower_slice(trimmed);
    if eq_lit(lowered.as_slice(), "all") {
        let mut out: Vec<usize> = Vec::new();
        let mut i: usize = 0;
        while i < length
            invariant
                i <= length,
                out@.len() == i,
                forall|j: int| 0 <= j < i ==> out@[j] == j,
            decreases length - i,
        {
            out.push(i);
            i = i + 1;
        }
        proof {
            let m = out@.map_values(|u: usize| u as int);
            assert forall|x: int| #[trigger] int_set_of(out@).contains(x) implies 0 <= x < length
                as int by {
                let k = choose|k: int| 0 <= k < m.len() && m[k] == x;
            }
            assert forall|x: int| 0 <= x < length as int implies #[trigger] int_set_of(
                out@,
            ).contains(x) by {
                assert(m[x] == x);
            }
            assert(int_set_of(out@) =~= Set::new(|x: int| 0 <= x < length as int));
            assert(selector_is_all(s@));
        }
        return Ok(out);
    }
    let len_i: i64 = length as i64;
    let ghost segs = split_spec(trimmed@, ',');
    let parts = split_slice(trimmed, ',');
    let mut out: Vec<usize> = Vec::new();
    let mut i: usize = 0;
    while i < parts.len()
        invariant
            i <= parts@.len(),
            len_i == length,
            length <= i64::MAX,
            segs == split_spec(trimmed@, ','),
            trimmed@ == trim_spec(chars@),
            chars@ == s@,
            !selector_is_all(s@),
            parts@.map_values(|p: &[char]| p@) == segs,
            strictly_ascending(out@),
            forall|j: int| 0 <= j < i ==> seg_fault(#[trigger] segs[j], j as usize, length as int)
                is None,
            int_set_of(out@).union(union_from(segs, i as int, length as int)) =~= union_from(
                segs,
                0,
                length as int,
            ),
        decreases parts@.len() - i,
    {
        let seg = trim_slice(parts[i]);
        proof {
            assert(parts@.map_values(|p: &[char]| p@)[i as int] == segs[i as int]);
            assert(seg@ == trim_spec(segs[i as int]));
        }
        let ghost seg_set = seg_values(segs[i as int], length as int);
        let ghost base = int_set_of(out@);
        if seg.len() == 0 {
            proof {
                assert(seg_fault(segs[i as int], i, length as int) is None);
                assert(seg_set =~= Set::empty());
                assert(base.union(union_from(segs, i + 1, length as int)) =~= base.union(
                    seg_set.union(union_from(segs, i + 1, length as int)),
                ));
            }
            i = i + 1;
            continue ;
        }
        let mut has_colon: bool = false;
        let mut ci: usize = 0;
        while ci < seg.len() && !has_colon
            invariant
                ci <= seg@.len(),
                has_colon ==> ci > 0 && seg@[ci - 1] == ':',
                !has_colon ==> forall|j: int| 0 <= j < ci ==> seg@[j] != ':',
            decreases seg@.len() - ci,
        {
            if seg[ci] == ':' {
                has_colon = true;
            }
            ci = ci + 1;
        }
        proof {
            crate::text::lemma_sep_index(seg@, ':');
            if has_colon {
                assert(seg@[ci - 1] == ':');
                assert(sep_index(seg@, ':') < seg@.len());
            } else {
                crate::text::lemma_sep_index_is(seg@, ':', seg@.len() as int);
            }
            assert(has_colon == seg_is_range(seg@));
        }
        if has_colon {
            let colon_parts = split_slice(seg, ':');
            let ghost cp = split_spec(seg@, ':');
            if colon_parts.len() > 3 {
                proof {
                    lemma_fault_skip(segs, i as int, length as int);
                }
                return Err(SelectorError::BadSegment { segment: i });
            }
            let p0 = trim_slice(colon_parts[0]);
            let start_v: i64 = if p0.len() == 0 {
                0
            } else {
                match parse_i64_chars(p0) {
                    Some(v) => v,
                    None => {
                        proof {
                            assert(!part_ok(cp[0]));
                            lemma_fault_skip(segs, i as int, length as int);
                        }
                        return Err(SelectorError::BadSegment { segment: i });
                    },
                }
            };
            let stop_v: i64 = if colon_parts.len() >= 2 {
                let p1 = trim_slice(colon_parts[1]);
                if p1.len() == 0 {
                    len_i
                } else {
                    match parse_i64_chars(p1) {
                        Some(v) => v,
                        None => {
                            proof {
                                assert(!part_ok(cp[1]));
                                lemma_fault_skip(segs, i as int, length as int);
                            }
                            return Err(SelectorError::BadSegment { segment: i });
                        },
                    }
                }
            } else {
                len_i
            };
            let step_v: i64 = if colon_parts.len() >= 3 {
                let p2 = trim_slice(colon_parts[2]);
                if p2.len() == 0 {
                    1
                } else {
                    match parse_i64_chars(p2) {
                        Some(v) => v,
                        None => {
                            proof {
                                assert(!part_ok(cp[2]));
                                lemma_fault_skip(segs, i as int, length as int);
                            }
                            return Err(SelectorError::BadSegment { segment: i });
                        },
                    }
                }
            } else {
                1
            };
            proof {
                assert(range_parts_ok(cp));
                assert(start_v == range_start(cp));
                assert(stop_v == range_stop(cp, length as int));
                assert(step_v == range_step(cp));
            }
            if step_v == 0 {
                proof {
                    lemma_fault_skip(segs, i as int, length as int);
                }
                return Err(SelectorError::ZeroStep { segment: i });
            }
            let r = slice_indices(start_v, stop_v, step_v, len_i);
            let ghost i0 = r.0 as int;
            let ghost j0 = r.1 as int;
            let ghost k0 = r.2 as int;
            let mut idx: i128 = r.0 as i128;
            let j_w: i128 = r.1 as i128;
            let k_w: i128 = r.2 as i128;
            proof {
                assert(seg_set == in_bounds_values(stepped_seq(i0, j0, k0), length as int));
            }
            while (k_w > 0 && idx < j_w) || (k_w < 0 && idx > j_w)
                invariant
                    k_w == k0,
                    j_w == j0,
                    k_w != 0,
                    i64::MIN <= k_w <= i64::MAX,
                    len_i == length,
                    length <= i64::MAX,
                    0 <= i0 <= length,
                    -1 <= j0 <= length,
                    k_w > 0 ==> 0 <= idx && idx <= (if i0 > j0 + k0 {
                        i0
                    } else {
                        j0 + k0
                    }),
                    k_w < 0 ==> idx <= i0 && (if i0 < j0 + k0 {
                        i0
                    } else {
                        j0 + k0
                    }) <= idx,
                    strictly_ascending(out@),
                    base.union(in_bounds_values(stepped_seq(i0, j0, k0), length as int))
                        =~= int_set_of(out@).union(
                        in_bounds_values(stepped_seq(idx as int, j0, k0), length as int),
                    ),
                decreases (if k_w > 0 {
                        if j_w - idx > 0 {
                            j_w - idx
                        } else {
                            0
                        }
                    } else {
                        if idx - j_w > 0 {
                            idx - j_w
                        } else {
                            0
                        }
                    }),
            {
                proof {
                    lemma_stepped_unfold(idx as int, j0, k0, length as int);
                }
                if idx >= 0 && idx < len_i as i128 {
                    let ghost before = int_set_of(out@);
                    insert_unique(&mut out, idx as usize);
                    proof {
                        assert(int_set_of(out@).union(
                            in_bounds_values(stepped_seq(idx + k_w, j0, k0), length as int),
                        ) =~= before.union(
                            in_bounds_values(stepped_seq(idx as int, j0, k0), length as int),
                        ));
                    }
                }
                idx = idx + k_w;
            }
            proof {
                assert(in_bounds_values(stepped_seq(idx as int, j0, k0), length as int)
                    =~= Set::empty());
                assert(base.union(seg_set) =~= int_set_of(out@));
                assert(seg_fault(segs[i as int], i, length as int) is None);
                assert(int_set_of(out@).union(union_from(segs, i + 1, length as int)) =~= base.union(
                    seg_set.union(union_from(segs, i + 1, length as int)),
                ));
            }
        } else {
            let idx: i64 = match parse_i64_chars(seg) {
                Some(v) => v,
                None => {
                    proof {
                        lemma_fault_skip(segs, i as int, length as int);
                    }
                    return Err(SelectorError::BadSegment { segment: i });
                },
            };
            if idx < -len_i || idx >= len_i {
                proof {
                    lemma_fault_skip(segs, i as int, length as int);
                }
                return Err(SelectorError::OutOfRange { segment: i });
            }
            let val: usize = if idx < 0 {
                (idx + len_i) as usize
            } else {
                idx as usize
            };
            insert_unique(&mut out, val);
            proof {
                assert(seg_set =~= Set::empty().insert(val as int));
                assert(seg_fault(segs[i as int], i, length as int) is None);
                assert(int_set_of(out@) =~= base.insert(val as int));
                assert(int_set_of(out@).union(union_from(segs, i + 1, length as int)) =~= base.union(
                    seg_set.union(union_from(segs, i + 1, length as int)),
                ));
            }
        }
        i = i + 1;
    }
    proof {
        lemma_fault_skip(segs, segs.len() as int, length as int);
        assert(union_from(segs, segs.len() as int, length as int) =~= Set::empty());
        assert(int_set_of(out@) =~= int_set_of(out@).union(
            union_from(segs, segs.len() as int, length as int),
        ));
    }
    Ok(out)
}

} // verus!
