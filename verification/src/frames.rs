//! Frame discovery: file names encode four integers — channel, position,
//! time, z — in a fixed textual convention.  Names whose embedded position
//! equals the requested one are indexed by their (channel, time, z) key,
//! which must be unique; the distinct values of each axis, ascending, give
//! every key a dense 0-based coordinate per axis.

use crate::text::{
    chars_of, dec_val, format_padded, is_digit, lemma_padded_val, padded_chars, parse_u32_chars,
};
use vstd::prelude::*;
use vstd::slice::slice_subrange;
use vstd::string::{StrSliceExecFns, StringExecFns};

verus! {

/// The (channel, time, z) coordinate of one frame.
#[derive(Clone, Copy, Debug, PartialEq, Eq, Structural)]
pub struct FrameKey {
    pub channel: u32,
    pub time: u32,
    pub z: u32,
}

/// Lexicographic (channel, time, z) order on keys.
pub open spec fn key_lt(a: FrameKey, b: FrameKey) -> bool {
    ||| a.channel < b.channel
    ||| (a.channel == b.channel && a.time < b.time)
    ||| (a.channel == b.channel && a.time == b.time && a.z < b.z)
}

/// One indexed frame: its key and the position of its name in the scanned
/// name list.
#[derive(Clone, Copy, Debug, PartialEq, Eq, Structural)]
pub struct FrameEntry {
    pub key: FrameKey,
    pub source: usize,
}

/// The index built by discovery: the matching frames in ascending key
/// order, and the distinct values of each axis, ascending.
#[derive(Debug)]
pub struct FrameIndex {
    pub entries: Vec<FrameEntry>,
    pub channels: Vec<u32>,
    pub times: Vec<u32>,
    pub zs: Vec<u32>,
}

/// A fatal discovery fault.
#[derive(Clone, Copy, Debug, PartialEq, Eq, Structural)]
pub enum DiscoveryError {
    /// No name matched the convention with the requested position.
    NoFrames,
    /// The name at this list position matches the convention but encodes a
    /// number too large for 32 bits.
    BadNumber { name: usize },
    /// Two names with the requested position encode the same key.
    DuplicateKey { channel: u32, time: u32, z: u32 },
}

/// Whether `lit` occurs in `s` at position `i`.
pub open spec fn lit_at(s: Seq<char>, i: int, lit: Seq<char>) -> bool {
    0 <= i && i + lit.len() <= s.len() && s.subrange(i, i + lit.len()) == lit
}

/// The end of the digit run starting at `i`: the first position at or after
/// `i` holding no digit, or the end of `s`.
pub open spec fn digits_end(s: Seq<char>, i: int) -> int
    decreases s.len() - i,
{
    if i < 0 || i >= s.len() {
        i
    } else if is_digit(s[i]) {
        digits_end(s, i + 1)
    } else {
        i
    }
}

/// The end of the channel digits; they start right after `img_channel`.
pub open spec fn ch_end(s: Seq<char>) -> int {
    digits_end(s, 11)
}

/// The start and end of the position digits, after `_position`.
pub open spec fn pos_start(s: Seq<char>) -> int {
    ch_end(s) + 9
}

pub open spec fn pos_end(s: Seq<char>) -> int {
    digits_end(s, pos_start(s))
}

/// The start and end of the time digits, after `_time`.
pub open spec fn time_start(s: Seq<char>) -> int {
    pos_end(s) + 5
}

pub open spec fn time_end(s: Seq<char>) -> int {
    digits_end(s, time_start(s))
}

/// The start and end of the z digits, after `_z`.
pub open spec fn z_start(s: Seq<char>) -> int {
    time_end(s) + 2
}

pub open spec fn z_end(s: Seq<char>) -> int {
    digits_end(s, z_start(s))
}

/// Whether a file name follows the frame naming convention:
/// `img_channel<digits>_position<digits>_time<digits>_z<digits>.tif`.
pub open spec fn name_matches(s: Seq<char>) -> bool {
    &&& lit_at(s, 0, "img_channel"@)
    &&& ch_end(s) > 11
    &&& lit_at(s, ch_end(s), "_position"@)
    &&& pos_end(s) > pos_start(s)
    &&& lit_at(s, pos_end(s), "_time"@)
    &&& time_end(s) > time_start(s)
    &&& lit_at(s, time_end(s), "_z"@)
    &&& z_end(s) > z_start(s)
    &&& lit_at(s, z_end(s), ".tif"@)
    &&& z_end(s) + 4 == s.len()
}

/// The integer values a matching name encodes (unbounded).
pub open spec fn channel_val(s: Seq<char>) -> int {
    dec_val(s.subrange(11, ch_end(s)))
}

pub open spec fn position_val(s: Seq<char>) -> int {
    dec_val(s.subrange(pos_start(s), pos_end(s)))
}

pub open spec fn time_val(s: Seq<char>) -> int {
    dec_val(s.subrange(time_start(s), time_end(s)))
}

pub open spec fn z_val(s: Seq<char>) -> int {
    dec_val(s.subrange(z_start(s), z_end(s)))
}

/// The key a matching name encodes, once its values are known to fit.
pub open spec fn key_of(s: Seq<char>) -> FrameKey {
    FrameKey {
        channel: channel_val(s) as u32,
        time: time_val(s) as u32,
        z: z_val(s) as u32,
    }
}

/// The outcome of reading one file name against the convention.
#[derive(Clone, Copy, Debug, PartialEq, Eq, Structural)]
pub enum NameParse {
    /// The name does not follow the convention.
    NotAFrame,
    /// The name matches, but its position digits exceed 32 bits.
    PositionTooLarge,
    /// The name matches and its position fits, but channel, time or z
    /// digits exceed 32 bits.
    FieldTooLarge { position: u32 },
    /// The name matches and every value fits.
    Frame { key: FrameKey, position: u32 },
}

/// Whether a name at list position `i` matches with the requested position
/// and all values in range.
pub open spec fn matching(s: Seq<char>, pos: int) -> bool {
    &&& name_matches(s)
    &&& position_val(s) == pos
    &&& channel_val(s) <= u32::MAX
    &&& time_val(s) <= u32::MAX
    &&& z_val(s) <= u32::MAX
}

/// Whether a name is fatal to the scan: it matches the convention but its
/// position digits overflow, or it names the requested position and some
/// other field overflows.
pub open spec fn bad_name(s: Seq<char>, pos: int) -> bool {
    &&& name_matches(s)
    &&& (position_val(s) > u32::MAX || (position_val(s) == pos && (channel_val(s) > u32::MAX
        || time_val(s) > u32::MAX || z_val(s) > u32::MAX)))
}

/// Whether the name at `i` repeats the key of an earlier matching name.
pub open spec fn dup_at(names: Seq<Seq<char>>, i: int, pos: int) -> bool {
    &&& matching(names[i], pos)
    &&& exists|j: int|
        0 <= j < i && matching(#[trigger] names[j], pos) && key_of(names[j]) == key_of(names[i])
}

/// The first fatal fault in the scan from name `i` on, not counting the
/// no-frames case.
pub open spec fn scan_fault_from(names: Seq<Seq<char>>, i: int, pos: int) -> Option<DiscoveryError>
    decreases names.len() - i,
{
    if i < 0 || i >= names.len() {
        None
    } else if bad_name(names[i], pos) {
        Some(DiscoveryError::BadNumber { name: i as usize })
    } else if dup_at(names, i, pos) {
        Some(
            DiscoveryError::DuplicateKey {
                channel: key_of(names[i]).channel,
                time: key_of(names[i]).time,
                z: key_of(names[i]).z,
            },
        )
    } else {
        scan_fault_from(names, i + 1, pos)
    }
}

/// How many of the first `i` names match.
pub open spec fn match_count(names: Seq<Seq<char>>, i: int, pos: int) -> int
    decreases i,
{
    if i <= 0 {
        0
    } else {
        match_count(names, i - 1, pos) + (if matching(names[i - 1], pos) {
            1int
        } else {
            0int
        })
    }
}

/// The fault discovery reports, if any: the first bad or duplicate name,
/// or, with a clean scan, the absence of any match.
pub open spec fn discovery_fault(names: Seq<Seq<char>>, pos: int) -> Option<DiscoveryError> {
    match scan_fault_from(names, 0, pos) {
        Some(f) => Some(f),
        None => if match_count(names, names.len() as int, pos) == 0 {
            Some(DiscoveryError::NoFrames)
        } else {
            None
        },
    }
}

/// Well-formedness of a frame index: entries strictly ascending by key (so
/// keys are unique), and each axis strictly ascending and holding exactly
/// the values the entries use.
pub open spec fn index_wf(idx: FrameIndex) -> bool {
    &&& forall|a: int, b: int|
        0 <= a < b < idx.entries@.len() ==> key_lt(
            (#[trigger] idx.entries@[a]).key,
            (#[trigger] idx.entries@[b]).key,
        )
    &&& forall|a: int, b: int|
        0 <= a < b < idx.channels@.len() ==> #[trigger] idx.channels@[a]
            < #[trigger] idx.channels@[b]
    &&& forall|a: int, b: int|
        0 <= a < b < idx.times@.len() ==> #[trigger] idx.times@[a] < #[trigger] idx.times@[b]
    &&& forall|a: int, b: int|
        0 <= a < b < idx.zs@.len() ==> #[trigger] idx.zs@[a] < #[trigger] idx.zs@[b]
    &&& forall|c: u32|
        idx.channels@.contains(c) <==> exists|e: int|
            0 <= e < idx.entries@.len() && (#[trigger] idx.entries@[e]).key.channel == c
    &&& forall|t: u32|
        idx.times@.contains(t) <==> exists|e: int|
            0 <= e < idx.entries@.len() && (#[trigger] idx.entries@[e]).key.time == t
    &&& forall|z: u32|
        idx.zs@.contains(z) <==> exists|e: int|
            0 <= e < idx.entries@.len() && (#[trigger] idx.entries@[e]).key.z == z
}

/// The correspondence between an index and the scanned names: every entry
/// comes from a matching name, and every matching name has an entry.
pub open spec fn index_of_names(idx: FrameIndex, names: Seq<Seq<char>>, pos: int) -> bool {
    &&& forall|e: int|
        0 <= e < idx.entries@.len() ==> {
            let en = #[trigger] idx.entries@[e];
            &&& en.source < names.len()
            &&& matching(names[en.source as int], pos)
            &&& en.key == key_of(names[en.source as int])
        }
    &&& forall|j: int|
        0 <= j < names.len() && matching(#[trigger] names[j], pos) ==> exists|e: int|
            0 <= e < idx.entries@.len() && (#[trigger] idx.entries@[e]).source == j
    &&& idx.entries@.len() == match_count(names, names.len() as int, pos)
}

/// The digit-run end lies between `i` and the end of `s`, everything before
/// it (from `i`) is a digit, and it stops only at a non-digit or the end.
pub proof fn lemma_digits_end(s: Seq<char>, i: int)
    requires
        0 <= i <= s.len(),
    ensures
        i <= digits_end(s, i) <= s.len(),
        forall|j: int| i <= j < digits_end(s, i) ==> is_digit(#[trigger] s[j]),
        digits_end(s, i) < s.len() ==> !is_digit(s[digits_end(s, i)]),
    decreases s.len() - i,
{
    if i < s.len() && is_digit(s[i]) {
        lemma_digits_end(s, i + 1);
    }
}

/// When every name before `i` is neither bad nor a duplicate, the first
/// scan fault from 0 is the first from `i`.
proof fn lemma_scan_fault_skip(names: Seq<Seq<char>>, i: int, pos: int)
    requires
        0 <= i <= names.len(),
        forall|j: int| 0 <= j < i ==> !bad_name(#[trigger] names[j], pos),
        forall|j: int| 0 <= j < i ==> !dup_at(names, j, pos),
    ensures
        scan_fault_from(names, 0, pos) == scan_fault_from(names, i, pos),
    decreases i,
{
    if i > 0 {
        lemma_scan_fault_skip(names, i - 1, pos);
    }
}

/// Whether `lit` occurs in the characters at position `i`; on a match, also
/// returns the position just past it.
fn match_lit(v: &[char], i: usize, lit: &str) -> (r: (bool, usize))
    requires
        i <= v@.len(),
    ensures
        r.0 == lit_at(v@, i as int, lit@),
        r.0 ==> r.1 == i + lit@.len() && r.1 <= v@.len(),
{
    let n = lit.unicode_len();
    if v.len() - i < n {
        proof {
            assert(!lit_at(v@, i as int, lit@));
        }
        return (false, i);
    }
    let mut j: usize = 0;
    while j < n
        invariant
            j <= n,
            i + n <= v@.len(),
            i + n <= usize::MAX,
            n == lit@.len(),
            forall|k: int| 0 <= k < j ==> v@[i + k] == lit@[k],
        decreases n - j,
    {
        if v[i + j] != lit.get_char(j) {
            proof {
                assert(v@.subrange(i as int, i + lit@.len())[j as int] != lit@[j as int]);
            }
            return (false, i);
        }
        j = j + 1;
    }
    proof {
        assert(v@.subrange(i as int, i + lit@.len()) =~= lit@);
    }
    (true, i + n)
}

/// The end of the digit run starting at `i`.
fn scan_digits(v: &[char], i: usize) -> (e: usize)
    requires
        i <= v@.len(),
    ensures
        e == digits_end(v@, i as int),
        i <= e <= v@.len(),
{
    let mut j: usize = i;
    while j < v.len() && '0' <= v[j] && v[j] <= '9'
        invariant
            i <= j <= v@.len(),
            digits_end(v@, i as int) == digits_end(v@, j as int),
        decreases v@.len() - j,
    {
        j = j + 1;
    }
    j
}

/// Reads one file name against the convention, classifying it and
/// extracting its key and position when everything fits in 32 bits.
pub fn parse_frame_name(name: &str) -> (r: NameParse)
    ensures
        match r {
            NameParse::NotAFrame => !name_matches(name@),
            NameParse::PositionTooLarge => name_matches(name@) && position_val(name@) > u32::MAX,
            NameParse::FieldTooLarge { position } => {
                &&& name_matches(name@)
                &&& position_val(name@) == position
                &&& (channel_val(name@) > u32::MAX || time_val(name@) > u32::MAX || z_val(name@)
                    > u32::MAX)
            },
            NameParse::Frame { key, position } => {
                &&& name_matches(name@)
                &&& position_val(name@) == position
                &&& channel_val(name@) <= u32::MAX
                &&& time_val(name@) <= u32::MAX
                &&& z_val(name@) <= u32::MAX
                &&& key == key_of(name@)
            },
        },
{
    let chars = chars_of(name);
    let v = chars.as_slice();
    let (ok1, p1) = match_lit(v, 0, "img_channel");
    if !ok1 {
        return NameParse::NotAFrame;
    }
    proof {
        reveal_strlit("img_channel");
        assert(p1 == 11);
    }
    let d1 = scan_digits(v, p1);
    if d1 == p1 {
        return NameParse::NotAFrame;
    }
    let (ok2, p2) = match_lit(v, d1, "_position");
    if !ok2 {
        return NameParse::NotAFrame;
    }
    proof {
        reveal_strlit("_position");
        assert(p2 == pos_start(name@));
    }
    let d2 = scan_digits(v, p2);
    if d2 == p2 {
        return NameParse::NotAFrame;
    }
    let (ok3, p3) = match_lit(v, d2, "_time");
    if !ok3 {
        return NameParse::NotAFrame;
    }
    proof {
        reveal_strlit("_time");
        assert(p3 == time_start(name@));
    }
    let d3 = scan_digits(v, p3);
    if d3 == p3 {
        return NameParse::NotAFrame;
    }
    let (ok4, p4) = match_lit(v, d3, "_z");
    if !ok4 {
        return NameParse::NotAFrame;
    }
    proof {
        reveal_strlit("_z");
        assert(p4 == z_start(name@));
    }
    let d4 = scan_digits(v, p4);
    if d4 == p4 {
        return NameParse::NotAFrame;
    }
    let (ok5, p5) = match_lit(v, d4, ".tif");
    if !ok5 {
        return NameParse::NotAFrame;
    }
    proof {
        reveal_strlit(".tif");
    }
    if p5 != v.len() {
        return NameParse::NotAFrame;
    }
    proof {
        assert(name_matches(name@));
        lemma_digits_end(name@, p2 as int);
        digits_end_all_digits_note(name@, p2 as int, d2 as int);
    }
    let pos_digits = slice_subrange(v, p2, d2);
    let position = match parse_u32_chars(pos_digits) {
        Some(p) => p,
        None => {
            return NameParse::PositionTooLarge;
        },
    };
    proof {
        lemma_digits_end(name@, p1 as int);
        digits_end_all_digits_note(name@, p1 as int, d1 as int);
        lemma_digits_end(name@, p3 as int);
        digits_end_all_digits_note(name@, p3 as int, d3 as int);
        lemma_digits_end(name@, p4 as int);
        digits_end_all_digits_note(name@, p4 as int, d4 as int);
    }
    let ch_digits = slice_subrange(v, p1, d1);
    let channel = match parse_u32_chars(ch_digits) {
        Some(c) => c,
        None => {
            return NameParse::FieldTooLarge { position };
        },
    };
    let time_digits = slice_subrange(v, p3, d3);
    let time = match parse_u32_chars(time_digits) {
        Some(t) => t,
        None => {
            return NameParse::FieldTooLarge { position };
        },
    };
    let z_digits = slice_subrange(v, p4, d4);
    let z = match parse_u32_chars(z_digits) {
        Some(z) => z,
        None => {
            return NameParse::FieldTooLarge { position };
        },
    };
    NameParse::Frame { key: FrameKey { channel, time, z }, position }
}

/// A digit run, taken as a slice, is a well-formed unsigned numeral exactly
/// when its value fits.
proof fn digits_end_all_digits_note(s: Seq<char>, i: int, e: int)
    requires
        0 <= i <= e <= s.len(),
        e == digits_end(s, i),
        forall|j: int| i <= j < e ==> is_digit(#[trigger] s[j]),
    ensures
        crate::text::all_digits(s.subrange(i, e)),
        crate::text::digits_of(s.subrange(i, e)) == s.subrange(i, e),
{
    let d = s.subrange(i, e);
    assert forall|j: int| 0 <= j < d.len() implies is_digit(#[trigger] d[j]) by {
        assert(d[j] == s[i + j]);
    }
    if d.len() > 0 {
        assert(is_digit(d[0]));
        assert(d[0] != '-' && d[0] != '+');
    }
}


/// Whether some entry holds the key.
pub open spec fn has_key(s: Seq<FrameEntry>, k: FrameKey) -> bool {
    exists|a: int| 0 <= a < s.len() && (#[trigger] s[a]).key == k
}

/// Whether the entries are strictly ascending by key.
pub open spec fn sorted_entries(s: Seq<FrameEntry>) -> bool {
    forall|a: int, b: int|
        0 <= a < b < s.len() ==> key_lt((#[trigger] s[a]).key, (#[trigger] s[b]).key)
}

/// Inserts an entry into a key-sorted list; refuses a duplicate key and
/// reports whether the entry went in.
fn insert_entry(entries: &mut Vec<FrameEntry>, e: FrameEntry) -> (r: bool)
    requires
        sorted_entries(old(entries)@),
    ensures
        sorted_entries(final (entries)@),
        r ==> !has_key(old(entries)@, e.key),
        r ==> final (entries)@.len() == old(entries)@.len() + 1,
        r ==> forall|x: FrameEntry|
            final (entries)@.contains(x) <==> old(entries)@.contains(x) || x == e,
        !r ==> final (entries)@ == old(entries)@ && has_key(old(entries)@, e.key),
{
    let mut pos: usize = 0;
    while pos < entries.len() && (entries[pos].key.channel < e.key.channel || (entries[pos].key.channel
        == e.key.channel && entries[pos].key.time < e.key.time) || (entries[pos].key.channel
        == e.key.channel && entries[pos].key.time == e.key.time && entries[pos].key.z < e.key.z))
        invariant
            pos <= entries@.len(),
            entries@ == old(entries)@,
            forall|j: int| 0 <= j < pos ==> key_lt((#[trigger] entries@[j]).key, e.key),
        decreases entries@.len() - pos,
    {
        pos = pos + 1;
    }
    if pos < entries.len() && entries[pos].key.channel == e.key.channel && entries[pos].key.time
        == e.key.time && entries[pos].key.z == e.key.z {
        proof {
            assert((entries@[pos as int]).key == e.key);
        }
        return false;
    }
    let ghost prev = entries@;
    entries.insert(pos, e);
    proof {
        assert(entries@ =~= prev.insert(pos as int, e));
        prev.insert_ensures(pos as int, e);
        assert(pos < prev.len() ==> key_lt(e.key, prev[pos as int].key));
        assert forall|a: int, b: int| 0 <= a < b < entries@.len() implies key_lt(
            (#[trigger] entries@[a]).key,
            (#[trigger] entries@[b]).key,
        ) by {
            if b < pos {
                assert(entries@[a] == prev[a] && entries@[b] == prev[b]);
                assert(key_lt(prev[a].key, prev[b].key));
            } else if a > pos {
                assert(entries@[a] == prev[a - 1] && entries@[b] == prev[b - 1]);
                assert(key_lt(prev[a - 1].key, prev[b - 1].key));
            } else if a < pos && b == pos {
                assert(entries@[a] == prev[a] && entries@[b] == e);
            } else if a == pos && b > pos {
                assert(entries@[a] == e && entries@[b] == prev[b - 1]);
                if (pos as int) <= b - 1 && pos < prev.len() {
                    if (pos as int) < b - 1 {
                        assert(key_lt(prev[pos as int].key, prev[b - 1].key));
                    }
                }
            } else if a < pos && b > pos {
                assert(entries@[a] == prev[a] && entries@[b] == prev[b - 1]);
                assert(key_lt(prev[a].key, e.key));
                if (pos as int) < b - 1 && pos < prev.len() {
                    assert(key_lt(prev[pos as int].key, prev[b - 1].key));
                }
            }
        }
        assert forall|x: FrameEntry| entries@.contains(x) implies (prev.contains(x) || x == e) by {
            let i = choose|i: int| 0 <= i < entries@.len() && entries@[i] == x;
            if i < pos {
                assert(prev[i] == x);
            } else if i > pos {
                assert(prev[i - 1] == x);
            }
        }
        assert forall|x: FrameEntry| prev.contains(x) || x == e implies entries@.contains(x) by {
            if x == e {
                assert(entries@[pos as int] == x);
            } else {
                let i = choose|i: int| 0 <= i < prev.len() && prev[i] == x;
                if i < pos {
                    assert(entries@[i] == x);
                } else {
                    assert(entries@[i + 1] == x);
                }
            }
        }
        assert forall|a: int| 0 <= a < prev.len() implies (#[trigger] prev[a]).key != e.key by {
            if a < pos {
                assert(key_lt(prev[a].key, e.key));
            } else if a > pos {
                assert(key_lt(prev[pos as int].key, prev[a].key));
            }
        }
    }
    true
}

/// Inserts a value into an ascending axis list, keeping it ascending and
/// without duplicates.
fn insert_axis(vals: &mut Vec<u32>, val: u32)
    requires
        forall|a: int, b: int|
            0 <= a < b < old(vals)@.len() ==> #[trigger] old(vals)@[a] < #[trigger] old(vals)@[b],
    ensures
        forall|a: int, b: int|
            0 <= a < b < final (vals)@.len() ==> #[trigger] final (vals)@[a] < #[trigger] final (vals)@[b],
        forall|x: u32| final (vals)@.contains(x) <==> old(vals)@.contains(x) || x == val,
{
    let mut pos: usize = 0;
    while pos < vals.len() && vals[pos] < val
        invariant
            pos <= vals@.len(),
            vals@ == old(vals)@,
            forall|j: int| 0 <= j < pos ==> vals@[j] < val,
        decreases vals@.len() - pos,
    {
        pos = pos + 1;
    }
    if pos < vals.len() && vals[pos] == val {
        proof {
            assert(vals@[pos as int] == val);
            assert forall|x: u32| vals@.contains(x) <==> old(vals)@.contains(x) || x == val by {
                if x == val {
                    assert(vals@[pos as int] == x);
                }
            }
        }
        return ;
    }
    let ghost prev = vals@;
    vals.insert(pos, val);
    proof {
        assert(vals@ =~= prev.insert(pos as int, val));
        prev.insert_ensures(pos as int, val);
        assert forall|a: int, b: int| 0 <= a < b < vals@.len() implies #[trigger] vals@[a]
            < #[trigger] vals@[b] by {
            if b < pos {
            } else if a > pos {
                assert(vals@[a] == prev[a - 1] && vals@[b] == prev[b - 1]);
            } else if a < pos && b == pos {
                assert(vals@[a] == prev[a] && vals@[b] == val);
            } else if a == pos && b > pos {
                assert(vals@[a] == val && vals@[b] == prev[b - 1]);
                assert(pos < prev.len() && val < prev[pos as int] || pos == prev.len());
                if (pos as int) < b - 1 {
                    assert(prev[pos as int] < prev[b - 1]);
                }
            } else if a < pos && b > pos {
                assert(vals@[a] == prev[a] && vals@[b] == prev[b - 1]);
                assert(pos < prev.len() && val < prev[pos as int] || pos == prev.len());
                if (pos as int) < b - 1 {
                    assert(prev[pos as int] < prev[b - 1]);
                }
            }
        }
        assert forall|x: u32| vals@.contains(x) implies (prev.contains(x) || x == val) by {
            let i = choose|i: int| 0 <= i < vals@.len() && vals@[i] == x;
            if i < pos {
                assert(prev[i] == x);
            } else if i > pos {
                assert(prev[i - 1] == x);
            }
        }
        assert forall|x: u32| prev.contains(x) || x == val implies vals@.contains(x) by {
            if x == val {
                assert(vals@[pos as int] == x);
            } else {
                let i = choose|i: int| 0 <= i < prev.len() && prev[i] == x;
                if i < pos {
                    assert(vals@[i] == x);
                } else {
                    assert(vals@[i + 1] == x);
                }
            }
        }
    }
}

/// Scans the name list for frames of the requested position and builds the
/// index.  `Err` exactly on the first oversize or duplicate name, or when
/// nothing matches.
pub fn discover_frames(names: &Vec<String>, pos: u32) -> (r: Result<FrameIndex, DiscoveryError>)
    ensures
        match r {
            Ok(idx) => {
                &&& discovery_fault(names.deep_view(), pos as int) is None
                &&& index_wf(idx)
                &&& index_of_names(idx, names.deep_view(), pos as int)
            },
            Err(e) => discovery_fault(names.deep_view(), pos as int) == Some(e),
        },
{
    let ghost nv = names.deep_view();
    let mut entries: Vec<FrameEntry> = Vec::new();
    let mut i: usize = 0;
    while i < names.len()
        invariant
            i <= names@.len(),
            nv == names.deep_view(),
            nv.len() == names@.len(),
            sorted_entries(entries@),
            forall|x: FrameEntry|
                entries@.contains(x) ==> x.source < i && matching(
                    nv[x.source as int],
                    pos as int,
                ) && x.key == key_of(nv[x.source as int]),
            forall|j: int|
                0 <= j < i && matching(#[trigger] nv[j], pos as int) ==> exists|x: FrameEntry|
                    entries@.contains(x) && x.source == j,
            forall|j: int| 0 <= j < i ==> !bad_name(#[trigger] nv[j], pos as int),
            entries@.len() == match_count(nv, i as int, pos as int),
        decreases names@.len() - i,
    {
        proof {
            assert(nv[i as int] == names@[i as int]@);
        }
        let parsed = parse_frame_name(names[i].as_str());
        match parsed {
            NameParse::NotAFrame => {},
            NameParse::PositionTooLarge => {
                proof {
                    lemma_no_dups_in_prefix(nv, i as int, pos as int, entries@);
                    lemma_scan_fault_skip(nv, i as int, pos as int);
                }
                return Err(DiscoveryError::BadNumber { name: i });
            },
            NameParse::FieldTooLarge { position } => {
                if position == pos {
                    proof {
                        lemma_no_dups_in_prefix(nv, i as int, pos as int, entries@);
                        lemma_scan_fault_skip(nv, i as int, pos as int);
                    }
                    return Err(DiscoveryError::BadNumber { name: i });
                }
            },
            NameParse::Frame { key, position } => {
                if position == pos {
                    let ghost pre = entries@;
                    let inserted = insert_entry(&mut entries, FrameEntry { key, source: i });
                    if !inserted {
                        proof {
                            let a = choose|a: int|
                                0 <= a < entries@.len() && (#[trigger] entries@[a]).key == key;
                            assert(entries@.contains(entries@[a]));
                            assert(dup_at(nv, i as int, pos as int));
                            lemma_no_dups_in_prefix(nv, i as int, pos as int, entries@);
                            lemma_scan_fault_skip(nv, i as int, pos as int);
                        }
                        return Err(
                            DiscoveryError::DuplicateKey {
                                channel: key.channel,
                                time: key.time,
                                z: key.z,
                            },
                        );
                    }
                    proof {
                        assert forall|j: int|
                            0 <= j < i + 1 && matching(#[trigger] nv[j], pos as int) implies exists|
                            x: FrameEntry,
                        |
                            entries@.contains(x) && x.source == j by {
                            if j < i {
                                let x = choose|x: FrameEntry| pre.contains(x) && x.source == j;
                                assert(entries@.contains(x));
                            } else {
                                assert(entries@.contains(FrameEntry { key, source: i }));
                            }
                        }
                    }
                }
            },
        }
        i = i + 1;
    }
    proof {
        lemma_no_dups_in_prefix(nv, nv.len() as int, pos as int, entries@);
        lemma_scan_fault_skip(nv, nv.len() as int, pos as int);
    }
    if entries.len() == 0 {
        return Err(DiscoveryError::NoFrames);
    }
    let mut channels: Vec<u32> = Vec::new();
    let mut times: Vec<u32> = Vec::new();
    let mut zs: Vec<u32> = Vec::new();
    let mut k: usize = 0;
    while k < entries.len()
        invariant
            k <= entries@.len(),
            nv == names.deep_view(),
            nv.len() == names@.len(),
            sorted_entries(entries@),
            forall|x: FrameEntry|
                entries@.contains(x) ==> x.source < nv.len() && matching(
                    nv[x.source as int],
                    pos as int,
                ) && x.key == key_of(nv[x.source as int]),
            forall|j: int|
                0 <= j < nv.len() && matching(#[trigger] nv[j], pos as int) ==> exists|
                    x: FrameEntry,
                |
                    entries@.contains(x) && x.source == j,
            forall|j: int| 0 <= j < nv.len() ==> !bad_name(#[trigger] nv[j], pos as int),
            forall|j: int| 0 <= j < nv.len() ==> !dup_at(nv, j, pos as int),
            entries@.len() == match_count(nv, nv.len() as int, pos as int),
            entries@.len() > 0,
            forall|a: int, b: int|
                0 <= a < b < channels@.len() ==> #[trigger] channels@[a] < #[trigger] channels@[b],
            forall|a: int, b: int|
                0 <= a < b < times@.len() ==> #[trigger] times@[a] < #[trigger] times@[b],
            forall|a: int, b: int|
                0 <= a < b < zs@.len() ==> #[trigger] zs@[a] < #[trigger] zs@[b],
            forall|c: u32|
                channels@.contains(c) <==> exists|e: int|
                    0 <= e < k && (#[trigger] entries@[e]).key.channel == c,
            forall|t: u32|
                times@.contains(t) <==> exists|e: int|
                    0 <= e < k && (#[trigger] entries@[e]).key.time == t,
            forall|z: u32|
                zs@.contains(z) <==> exists|e: int|
                    0 <= e < k && (#[trigger] entries@[e]).key.z == z,
        decreases entries@.len() - k,
    {
        let e = entries[k];
        insert_axis(&mut channels, e.key.channel);
        insert_axis(&mut times, e.key.time);
        insert_axis(&mut zs, e.key.z);
        k = k + 1;
    }
    let idx = FrameIndex { entries, channels, times, zs };
    proof {
        assert forall|c: u32| idx.channels@.contains(c) implies exists|e: int|
            0 <= e < idx.entries@.len() && (#[trigger] idx.entries@[e]).key.channel == c by {
            let e = choose|e: int| 0 <= e < k && (#[trigger] idx.entries@[e]).key.channel == c;
        }
        assert forall|t: u32| idx.times@.contains(t) implies exists|e: int|
            0 <= e < idx.entries@.len() && (#[trigger] idx.entries@[e]).key.time == t by {
            let e = choose|e: int| 0 <= e < k && (#[trigger] idx.entries@[e]).key.time == t;
        }
        assert forall|z: u32| idx.zs@.contains(z) implies exists|e: int|
            0 <= e < idx.entries@.len() && (#[trigger] idx.entries@[e]).key.z == z by {
            let e = choose|e: int| 0 <= e < k && (#[trigger] idx.entries@[e]).key.z == z;
        }
        assert forall|e: int| 0 <= e < idx.entries@.len() implies {
            let en = #[trigger] idx.entries@[e];
            &&& en.source < nv.len()
            &&& matching(nv[en.source as int], pos as int)
            &&& en.key == key_of(nv[en.source as int])
        } by {
            assert(idx.entries@.contains(idx.entries@[e]));
        }
    }
    Ok(idx)
}

/// With the index correspondence over the first `i` names, no prefix name
/// is a duplicate: two matching names with one key would both stand in the
/// entries, whose keys are pairwise distinct.
proof fn lemma_no_dups_in_prefix(nv: Seq<Seq<char>>, i: int, pos: int, entries: Seq<FrameEntry>)
    requires
        0 <= i <= nv.len(),
        sorted_entries(entries),
        forall|x: FrameEntry|
            entries.contains(x) ==> x.source < i && matching(nv[x.source as int], pos) && x.key
                == key_of(nv[x.source as int]),
        forall|j: int|
            0 <= j < i && matching(#[trigger] nv[j], pos) ==> exists|x: FrameEntry|
                entries.contains(x) && x.source == j,
    ensures
        forall|j: int| 0 <= j < i ==> !dup_at(nv, j, pos),
{
    assert forall|j: int| 0 <= j < i implies !dup_at(nv, j, pos) by {
        if dup_at(nv, j, pos) {
            let j2 = choose|j2: int|
                0 <= j2 < j && matching(#[trigger] nv[j2], pos) && key_of(nv[j2]) == key_of(nv[j]);
            let x1 = choose|x: FrameEntry| entries.contains(x) && x.source == j;
            let x2 = choose|x: FrameEntry| entries.contains(x) && x.source == j2;
            let a1 = choose|a: int| 0 <= a < entries.len() && entries[a] == x1;
            let a2 = choose|a: int| 0 <= a < entries.len() && entries[a] == x2;
            assert(x1.key == key_of(nv[j]) && x2.key == key_of(nv[j2]));
            assert(x1.key == x2.key);
            if a1 < a2 {
                assert(key_lt(entries[a1].key, entries[a2].key));
            } else if a2 < a1 {
                assert(key_lt(entries[a2].key, entries[a1].key));
            }
            assert(x1 == x2);
            assert(false);
        }
    }
}

/// The dense coordinate of a value on an axis: the position of its first
/// occurrence, or nothing when the axis does not hold it.
pub fn axis_index(axis: &[u32], value: u32) -> (r: Option<usize>)
    ensures
        match r {
            Some(i) => i < axis@.len() && axis@[i as int] == value && forall|j: int|
                0 <= j < i ==> axis@[j] != value,
            None => !axis@.contains(value),
        },
{
    let mut i: usize = 0;
    while i < axis.len()
        invariant
            i <= axis@.len(),
            forall|j: int| 0 <= j < i ==> axis@[j] != value,
        decreases axis@.len() - i,
    {
        if axis[i] == value {
            return Some(i);
        }
        i = i + 1;
    }
    proof {
        assert forall|j: int| 0 <= j < axis@.len() implies axis@[j] != value by {}
        if axis@.contains(value) {
            let j = choose|j: int| 0 <= j < axis@.len() && axis@[j] == value;
        }
    }
    None
}


/// A maximal digit run is delimited by its first non-digit (or the end).
proof fn lemma_digits_end_is(s: Seq<char>, i: int, k: int)
    requires
        0 <= i <= k <= s.len(),
        forall|j: int| i <= j < k ==> is_digit(#[trigger] s[j]),
        k < s.len() ==> !is_digit(s[k]),
    ensures
        digits_end(s, i) == k,
    decreases k - i,
{
    if i < k {
        lemma_digits_end_is(s, i + 1, k);
    }
}

/// The name a frame of the given coordinates is stored under: the four
/// zero-padded integers in the fixed convention the scanner matches.
pub open spec fn frame_name_chars(c: int, p: int, t: int, z: int) -> Seq<char> {
    "img_channel"@ + padded_chars(c, 3) + "_position"@ + padded_chars(p, 3) + "_time"@
        + padded_chars(t, 9) + "_z"@ + padded_chars(z, 3) + ".tif"@
}

/// Formats the frame name for the given coordinates.
pub fn format_frame_name(c: u32, p: u32, t: u32, z: u32) -> (s: String)
    ensures
        s@ == frame_name_chars(c as int, p as int, t as int, z as int),
{
    let mut s = String::new();
    s.append("img_channel");
    let d = format_padded(c, 3);
    s.append(d.as_str());
    s.append("_position");
    let d = format_padded(p, 3);
    s.append(d.as_str());
    s.append("_time");
    let d = format_padded(t, 9);
    s.append(d.as_str());
    s.append("_z");
    let d = format_padded(z, 3);
    s.append(d.as_str());
    s.append(".tif");
    proof {
        assert(s@ =~= frame_name_chars(c as int, p as int, t as int, z as int));
    }
    s
}

/// Round trip of the naming convention: a formatted frame name matches the
/// convention the scanner looks for and reads back as exactly the
/// coordinates it was formatted from.
pub proof fn lemma_frame_name_round_trip(c: u32, p: u32, t: u32, z: u32)
    ensures
        name_matches(frame_name_chars(c as int, p as int, t as int, z as int)),
        channel_val(frame_name_chars(c as int, p as int, t as int, z as int)) == c,
        position_val(frame_name_chars(c as int, p as int, t as int, z as int)) == p,
        time_val(frame_name_chars(c as int, p as int, t as int, z as int)) == t,
        z_val(frame_name_chars(c as int, p as int, t as int, z as int)) == z,
        key_of(frame_name_chars(c as int, p as int, t as int, z as int)) == (FrameKey {
            channel: c,
            time: t,
            z: z,
        }),
{
    reveal_strlit("img_channel");
    reveal_strlit("_position");
    reveal_strlit("_time");
    reveal_strlit("_z");
    reveal_strlit(".tif");
    let s = frame_name_chars(c as int, p as int, t as int, z as int);
    let d1 = padded_chars(c as int, 3);
    let d2 = padded_chars(p as int, 3);
    let d3 = padded_chars(t as int, 9);
    let d4 = padded_chars(z as int, 3);
    lemma_padded_val(c as int, 3);
    lemma_padded_val(p as int, 3);
    lemma_padded_val(t as int, 9);
    lemma_padded_val(z as int, 3);
    let l1 = d1.len() as int;
    let l2 = d2.len() as int;
    let l3 = d3.len() as int;
    let l4 = d4.len() as int;
    let e1 = 11 + l1;
    let b2 = e1 + 9;
    let e2 = b2 + l2;
    let b3 = e2 + 5;
    let e3 = b3 + l3;
    let b4 = e3 + 2;
    let e4 = b4 + l4;
    assert(s.len() == e4 + 4);
    assert forall|j: int| 11 <= j < e1 implies is_digit(#[trigger] s[j]) by {
        assert(s[j] == d1[j - 11]);
    }
    assert(s[e1] == '_');
    lemma_digits_end_is(s, 11, e1);
    assert(s.subrange(e1, e1 + 9) =~= "_position"@);
    assert forall|j: int| b2 <= j < e2 implies is_digit(#[trigger] s[j]) by {
        assert(s[j] == d2[j - b2]);
    }
    assert(s[e2] == '_');
    lemma_digits_end_is(s, b2, e2);
    assert(s.subrange(e2, e2 + 5) =~= "_time"@);
    assert forall|j: int| b3 <= j < e3 implies is_digit(#[trigger] s[j]) by {
        assert(s[j] == d3[j - b3]);
    }
    assert(s[e3] == '_');
    lemma_digits_end_is(s, b3, e3);
    assert(s.subrange(e3, e3 + 2) =~= "_z"@);
    assert forall|j: int| b4 <= j < e4 implies is_digit(#[trigger] s[j]) by {
        assert(s[j] == d4[j - b4]);
    }
    assert(s[e4] == '.');
    assert(!is_digit(s[e4]));
    lemma_digits_end_is(s, b4, e4);
    assert(s.subrange(e4, e4 + 4) =~= ".tif"@);
    assert(s.subrange(0, 11) =~= "img_channel"@);
    assert(ch_end(s) == e1);
    assert(pos_start(s) == b2 && pos_end(s) == e2);
    assert(time_start(s) == b3 && time_end(s) == e3);
    assert(z_start(s) == b4 && z_end(s) == e4);
    assert(s.subrange(11, e1) =~= d1);
    assert(s.subrange(b2, e2) =~= d2);
    assert(s.subrange(b3, e3) =~= d3);
    assert(s.subrange(b4, e4) =~= d4);
}

} // verus!
