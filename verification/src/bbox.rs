//! The crop-rectangle table: a comma-delimited text whose header names the
//! five required columns (`crop`, `x`, `y`, `w`, `h`) case-insensitively and
//! in any order, followed by integer rows; and the validation of the parsed
//! rectangles against the frame dimensions.

use crate::text::{
    chars_of, eq_lit, lower_slice, lower_spec, parse_u32_chars, parses_u32, split_slice,
    split_spec, trim_slice, trim_spec, u32_val,
};
use vstd::prelude::*;

verus! {

/// One crop rectangle.  Its identity is its ordinal position in the table.
#[derive(Clone, Copy, Debug, PartialEq, Eq, Structural)]
pub struct Bbox {
    pub x: u32,
    pub y: u32,
    pub w: u32,
    pub h: u32,
}

/// One of the five required table columns.
#[derive(Clone, Copy, Debug, PartialEq, Eq, Structural)]
pub enum BboxColumn {
    Crop,
    X,
    Y,
    W,
    H,
}

/// A fault in the table text.  Rows are identified by their 1-based line
/// number in the file.
#[derive(Clone, Copy, Debug, PartialEq, Eq, Structural)]
pub enum ParseError {
    /// The header does not name the column.
    MissingColumn { column: BboxColumn },
    /// The row has fewer fields than the highest required column index.
    ShortRow { row: usize },
    /// The field under the named column is not an unsigned integer.
    BadField { row: usize, column: BboxColumn },
}

/// A fault found when validating a rectangle against the frame size;
/// `index` is the rectangle's ordinal in the table.
#[derive(Clone, Copy, Debug, PartialEq, Eq, Structural)]
pub enum ValidationError {
    /// The rectangle has zero width or height.
    ZeroSize { index: usize },
    /// `x + w` or `y + h` does not fit in 32 bits.
    Overflow { index: usize },
    /// The rectangle reaches beyond the frame.
    OutOfBounds { index: usize },
}

/// The lines of the table text.
pub open spec fn lines_of(c: Seq<char>) -> Seq<Seq<char>> {
    split_spec(c, '\n')
}

/// The header cells: the first line, case-folded, cut at commas.  Cells are
/// trimmed where they are compared.
pub open spec fn header_cells(c: Seq<char>) -> Seq<Seq<char>> {
    split_spec(lower_spec(lines_of(c)[0]), ',')
}

/// The first position at or after `i` whose trimmed cell equals `name`.
pub open spec fn find_col_from(cols: Seq<Seq<char>>, name: Seq<char>, i: int) -> Option<int>
    decreases cols.len() - i,
{
    if i < 0 || i >= cols.len() {
        None
    } else if trim_spec(cols[i]) == name {
        Some(i)
    } else {
        find_col_from(cols, name, i + 1)
    }
}

/// The first position whose trimmed cell equals `name`.
pub open spec fn find_col(cols: Seq<Seq<char>>, name: Seq<char>) -> Option<int> {
    find_col_from(cols, name, 0)
}

/// The position of one required column in the header.
pub open spec fn col_of(c: Seq<char>, which: BboxColumn) -> Option<int> {
    match which {
        BboxColumn::Crop => find_col(header_cells(c), "crop"@),
        BboxColumn::X => find_col(header_cells(c), "x"@),
        BboxColumn::Y => find_col(header_cells(c), "y"@),
        BboxColumn::W => find_col(header_cells(c), "w"@),
        BboxColumn::H => find_col(header_cells(c), "h"@),
    }
}

/// The header fault, if any: the first missing column, in the order crop,
/// x, y, w, h.
pub open spec fn header_fault(c: Seq<char>) -> Option<ParseError> {
    if col_of(c, BboxColumn::Crop) is None {
        Some(ParseError::MissingColumn { column: BboxColumn::Crop })
    } else if col_of(c, BboxColumn::X) is None {
        Some(ParseError::MissingColumn { column: BboxColumn::X })
    } else if col_of(c, BboxColumn::Y) is None {
        Some(ParseError::MissingColumn { column: BboxColumn::Y })
    } else if col_of(c, BboxColumn::W) is None {
        Some(ParseError::MissingColumn { column: BboxColumn::W })
    } else if col_of(c, BboxColumn::H) is None {
        Some(ParseError::MissingColumn { column: BboxColumn::H })
    } else {
        None
    }
}

/// The larger of two positions.
pub open spec fn max2(a: int, b: int) -> int {
    if a >= b {
        a
    } else {
        b
    }
}

/// The highest required column index.
pub open spec fn max_col(c: Seq<char>) -> int {
    max2(
        col_of(c, BboxColumn::Crop)->0,
        max2(
            col_of(c, BboxColumn::X)->0,
            max2(
                col_of(c, BboxColumn::Y)->0,
                max2(col_of(c, BboxColumn::W)->0, col_of(c, BboxColumn::H)->0),
            ),
        ),
    )
}

/// The fields of one data row.
pub open spec fn row_fields(line: Seq<char>) -> Seq<Seq<char>> {
    split_spec(line, ',')
}

/// The trimmed field under column position `col`.
pub open spec fn field_at(fields: Seq<Seq<char>>, col: int) -> Seq<char> {
    trim_spec(fields[col])
}

/// The first column of the row, in the order crop, x, y, w, h, whose field
/// is not an unsigned integer.
pub open spec fn row_cells_fault(
    fields: Seq<Seq<char>>,
    ci: int,
    xi: int,
    yi: int,
    wi: int,
    hi: int,
) -> Option<BboxColumn> {
    if !parses_u32(field_at(fields, ci)) {
        Some(BboxColumn::Crop)
    } else if !parses_u32(field_at(fields, xi)) {
        Some(BboxColumn::X)
    } else if !parses_u32(field_at(fields, yi)) {
        Some(BboxColumn::Y)
    } else if !parses_u32(field_at(fields, wi)) {
        Some(BboxColumn::W)
    } else if !parses_u32(field_at(fields, hi)) {
        Some(BboxColumn::H)
    } else {
        None
    }
}

/// The rectangle read from one row under the given column positions.
pub open spec fn row_bbox_cells(fields: Seq<Seq<char>>, xi: int, yi: int, wi: int, hi: int) -> Bbox {
    Bbox {
        x: u32_val(field_at(fields, xi)) as u32,
        y: u32_val(field_at(fields, yi)) as u32,
        w: u32_val(field_at(fields, wi)) as u32,
        h: u32_val(field_at(fields, hi)) as u32,
    }
}

/// Whether the line is blank (empty after trimming).
pub open spec fn row_is_blank(line: Seq<char>) -> bool {
    trim_spec(line).len() == 0
}

/// The fault in data line `i` of the table, if any.  Line 0 is the header;
/// the fault names the 1-based file line `i + 1`.
pub open spec fn row_fault_at(c: Seq<char>, i: int) -> Option<ParseError> {
    let line = lines_of(c)[i];
    if row_is_blank(line) {
        None
    } else if row_fields(line).len() <= max_col(c) {
        Some(ParseError::ShortRow { row: (i + 1) as usize })
    } else {
        match row_cells_fault(
            row_fields(line),
            col_of(c, BboxColumn::Crop)->0,
            col_of(c, BboxColumn::X)->0,
            col_of(c, BboxColumn::Y)->0,
            col_of(c, BboxColumn::W)->0,
            col_of(c, BboxColumn::H)->0,
        ) {
            Some(column) => Some(ParseError::BadField { row: (i + 1) as usize, column }),
            None => None,
        }
    }
}

/// The first fault among the data lines from `i` on.
pub open spec fn rows_fault_from(c: Seq<char>, i: int) -> Option<ParseError>
    decreases lines_of(c).len() - i,
{
    if i < 0 || i >= lines_of(c).len() {
        None
    } else if row_fault_at(c, i) is Some {
        row_fault_at(c, i)
    } else {
        rows_fault_from(c, i + 1)
    }
}

/// The first fault in the whole table: a missing header column, or the
/// first faulty data row.  Empty text has no fault (and no rectangles).
pub open spec fn bbox_fault(c: Seq<char>) -> Option<ParseError> {
    if c.len() == 0 {
        None
    } else if header_fault(c) is Some {
        header_fault(c)
    } else {
        rows_fault_from(c, 1)
    }
}

/// The rectangles of the data lines from `i` on, skipping blank lines.
pub open spec fn bboxes_from(c: Seq<char>, i: int) -> Seq<Bbox>
    decreases lines_of(c).len() - i,
{
    if i < 0 || i >= lines_of(c).len() {
        Seq::empty()
    } else {
        let rest = bboxes_from(c, i + 1);
        let line = lines_of(c)[i];
        if row_is_blank(line) {
            rest
        } else {
            seq![
                row_bbox_cells(
                    row_fields(line),
                    col_of(c, BboxColumn::X)->0,
                    col_of(c, BboxColumn::Y)->0,
                    col_of(c, BboxColumn::W)->0,
                    col_of(c, BboxColumn::H)->0,
                ),
            ] + rest
        }
    }
}

/// The rectangles of a fault-free table, in row order.
pub open spec fn bboxes_spec(c: Seq<char>) -> Seq<Bbox> {
    if c.len() == 0 {
        Seq::empty()
    } else {
        bboxes_from(c, 1)
    }
}

/// Whether a rectangle fits the frame: positive extents, sums within 32
/// bits, and within the frame bounds.
pub open spec fn bbox_valid(b: Bbox, width: int, height: int) -> bool {
    &&& b.w > 0
    &&& b.h > 0
    &&& b.x + b.w <= u32::MAX
    &&& b.y + b.h <= u32::MAX
    &&& b.x + b.w <= width
    &&& b.y + b.h <= height
}

/// The first validation fault among the rectangles from `i` on.
pub open spec fn validation_fault_from(bs: Seq<Bbox>, width: int, height: int, i: int) -> Option<
    ValidationError,
>
    decreases bs.len() - i,
{
    if i < 0 || i >= bs.len() {
        None
    } else {
        let b = bs[i];
        if b.w == 0 || b.h == 0 {
            Some(ValidationError::ZeroSize { index: i as usize })
        } else if b.x + b.w > u32::MAX {
            Some(ValidationError::Overflow { index: i as usize })
        } else if b.y + b.h > u32::MAX {
            Some(ValidationError::Overflow { index: i as usize })
        } else if b.x + b.w > width || b.y + b.h > height {
            Some(ValidationError::OutOfBounds { index: i as usize })
        } else {
            validation_fault_from(bs, width, height, i + 1)
        }
    }
}

/// The first validation fault, if any.
pub open spec fn validation_fault(bs: Seq<Bbox>, width: int, height: int) -> Option<
    ValidationError,
> {
    validation_fault_from(bs, width, height, 0)
}

/// Whether the pixel at (`x`, `y`) lies inside any of the rectangles.
pub open spec fn covered(bs: Seq<Bbox>, x: int, y: int) -> bool {
    exists|i: int|
        0 <= i < bs.len() && (#[trigger] bs[i]).x <= x < bs[i].x + bs[i].w && bs[i].y <= y < bs[i].y
            + bs[i].h
}

/// When every data line before `i` is fault-free, the first row fault from
/// 1 is the first row fault from `i`.
proof fn lemma_rows_fault_skip(c: Seq<char>, i: int)
    requires
        1 <= i <= lines_of(c).len(),
        forall|j: int| 1 <= j < i ==> row_fault_at(c, j) is None,
    ensures
        rows_fault_from(c, 1) == rows_fault_from(c, i),
    decreases i,
{
    if i > 1 {
        lemma_rows_fault_skip(c, i - 1);
    }
}

/// Finds the first header cell that, trimmed, equals `name`.
fn find_cell(cells: &Vec<&[char]>, name: &str) -> (r: Option<usize>)
    ensures
        r is Some ==> find_col(cells@.map_values(|p: &[char]| p@), name@) == Some(r->0 as int),
        r is None ==> find_col(cells@.map_values(|p: &[char]| p@), name@) is None,
{
    let ghost cols = cells@.map_values(|p: &[char]| p@);
    let mut i: usize = 0;
    while i < cells.len()
        invariant
            i <= cells@.len(),
            cols == cells@.map_values(|p: &[char]| p@),
            find_col(cols, name@) == find_col_from(cols, name@, i as int),
        decreases cells@.len() - i,
    {
        let cell = trim_slice(cells[i]);
        if eq_lit(cell, name) {
            return Some(i);
        }
        i = i + 1;
    }
    None
}

/// Parses the table text into its rectangles, in row order.  `Err` exactly
/// when the text has a fault: the first missing header column, or for the
/// first faulty row its 1-based line number and offending column.  Header
/// column names are matched case-insensitively and in any order.  Blank
/// lines are skipped; empty text parses to no rectangles.
pub fn parse_bbox_csv(content: &str) -> (r: Result<Vec<Bbox>, ParseError>)
    ensures
        match r {
            Ok(v) => {
                &&& bbox_fault(content@) is None
                &&& v@ == bboxes_spec(content@)
            },
            Err(e) => bbox_fault(content@) == Some(e),
        },
{
    let chars = chars_of(content);
    if chars.len() == 0 {
        proof {
            assert(bboxes_spec(content@) =~= Seq::<Bbox>::empty());
        }
        return Ok(Vec::new());
    }
    let lines = split_slice(chars.as_slice(), '\n');
    proof {
        assert(lines@.map_values(|p: &[char]| p@) == lines_of(content@));
        assert(lines@.len() > 0);
        assert(lines@.map_values(|p: &[char]| p@)[0] == lines_of(content@)[0]);
    }
    let lowered = lower_slice(lines[0]);
    let cells = split_slice(lowered.as_slice(), ',');
    proof {
        assert(cells@.map_values(|p: &[char]| p@) == header_cells(content@));
    }
    let ci = match find_cell(&cells, "crop") {
        Some(i) => i,
        None => {
            return Err(ParseError::MissingColumn { column: BboxColumn::Crop });
        },
    };
    let xi = match find_cell(&cells, "x") {
        Some(i) => i,
        None => {
            return Err(ParseError::MissingColumn { column: BboxColumn::X });
        },
    };
    let yi = match find_cell(&cells, "y") {
        Some(i) => i,
        None => {
            return Err(ParseError::MissingColumn { column: BboxColumn::Y });
        },
    };
    let wi = match find_cell(&cells, "w") {
        Some(i) => i,
        None => {
            return Err(ParseError::MissingColumn { column: BboxColumn::W });
        },
    };
    let hi = match find_cell(&cells, "h") {
        Some(i) => i,
        None => {
            return Err(ParseError::MissingColumn { column: BboxColumn::H });
        },
    };
    let mut max_i: usize = ci;
    if xi > max_i {
        max_i = xi;
    }
    if yi > max_i {
        max_i = yi;
    }
    if wi > max_i {
        max_i = wi;
    }
    if hi > max_i {
        max_i = hi;
    }
    proof {
        assert(max_i == max_col(content@));
    }
    let mut out: Vec<Bbox> = Vec::new();
    let mut li: usize = 1;
    while li < lines.len()
        invariant
            1 <= li <= lines@.len(),
            content@.len() > 0,
            lines@.map_values(|p: &[char]| p@) == lines_of(content@),
            header_fault(content@) is None,
            max_i == max_col(content@),
            ci == col_of(content@, BboxColumn::Crop)->0,
            xi == col_of(content@, BboxColumn::X)->0,
            yi == col_of(content@, BboxColumn::Y)->0,
            wi == col_of(content@, BboxColumn::W)->0,
            hi == col_of(content@, BboxColumn::H)->0,
            forall|j: int| 1 <= j < li ==> row_fault_at(content@, j) is None,
            out@ + bboxes_from(content@, li as int) == bboxes_spec(content@),
        decreases lines@.len() - li,
    {
        let line = lines[li];
        proof {
            assert(lines@.map_values(|p: &[char]| p@)[li as int] == lines_of(content@)[li as int]);
        }
        let t = trim_slice(line);
        if t.len() == 0 {
            li = li + 1;
            continue ;
        }
        let fields = split_slice(line, ',');
        proof {
            assert(fields@.map_values(|p: &[char]| p@) == row_fields(lines_of(content@)[li as int]));
        }
        if fields.len() <= max_i {
            proof {
                lemma_rows_fault_skip(content@, li as int);
            }
            return Err(ParseError::ShortRow { row: li + 1 });
        }
        let crop_field = trim_slice(fields[ci]);
        if parse_u32_chars(crop_field).is_none() {
            proof {
                lemma_rows_fault_skip(content@, li as int);
            }
            return Err(ParseError::BadField { row: li + 1, column: BboxColumn::Crop });
        }
        let x_field = trim_slice(fields[xi]);
        let x = match parse_u32_chars(x_field) {
            Some(v) => v,
            None => {
                proof {
                    lemma_rows_fault_skip(content@, li as int);
                }
                return Err(ParseError::BadField { row: li + 1, column: BboxColumn::X });
            },
        };
        let y_field = trim_slice(fields[yi]);
        let y = match parse_u32_chars(y_field) {
            Some(v) => v,
            None => {
                proof {
                    lemma_rows_fault_skip(content@, li as int);
                }
                return Err(ParseError::BadField { row: li + 1, column: BboxColumn::Y });
            },
        };
        let w_field = trim_slice(fields[wi]);
        let w = match parse_u32_chars(w_field) {
            Some(v) => v,
            None => {
                proof {
                    lemma_rows_fault_skip(content@, li as int);
                }
                return Err(ParseError::BadField { row: li + 1, column: BboxColumn::W });
            },
        };
        let h_field = trim_slice(fields[hi]);
        let h = match parse_u32_chars(h_field) {
            Some(v) => v,
            None => {
                proof {
                    lemma_rows_fault_skip(content@, li as int);
                }
                return Err(ParseError::BadField { row: li + 1, column: BboxColumn::H });
            },
        };
        out.push(Bbox { x, y, w, h });
        proof {
            assert(out@ + bboxes_from(content@, li + 1) =~= bboxes_spec(content@));
        }
        li = li + 1;
    }
    proof {
        lemma_rows_fault_skip(content@, lines@.len() as int);
        assert(bboxes_from(content@, lines@.len() as int) =~= Seq::<Bbox>::empty());
        assert(out@ =~= bboxes_spec(content@));
    }
    Ok(out)
}

/// Checks every rectangle against the frame size.  `Err` exactly when some
/// rectangle is invalid, naming the first one's ordinal and fault.
pub fn validate_bboxes(bboxes: &[Bbox], width: u32, height: u32) -> (r: Result<(), ValidationError>)
    ensures
        match r {
            Ok(()) => {
                &&& validation_fault(bboxes@, width as int, height as int) is None
                &&& forall|i: int|
                    0 <= i < bboxes@.len() ==> bbox_valid(
                        #[trigger] bboxes@[i],
                        width as int,
                        height as int,
                    )
            },
            Err(e) => validation_fault(bboxes@, width as int, height as int) == Some(e),
        },
{
    let mut i: usize = 0;
    while i < bboxes.len()
        invariant
            i <= bboxes@.len(),
            validation_fault(bboxes@, width as int, height as int) == validation_fault_from(
                bboxes@,
                width as int,
                height as int,
                i as int,
            ),
            forall|j: int|
                0 <= j < i ==> bbox_valid(#[trigger] bboxes@[j], width as int, height as int),
        decreases bboxes@.len() - i,
    {
        let b = bboxes[i];
        if b.w == 0 || b.h == 0 {
            return Err(ValidationError::ZeroSize { index: i });
        }
        if b.x > u32::MAX - b.w {
            return Err(ValidationError::Overflow { index: i });
        }
        if b.y > u32::MAX - b.h {
            return Err(ValidationError::Overflow { index: i });
        }
        if b.x + b.w > width || b.y + b.h > height {
            return Err(ValidationError::OutOfBounds { index: i });
        }
        i = i + 1;
    }
    Ok(())
}

/// Whether any of the first `n` rectangles covers the pixel.
fn pixel_covered(bboxes: &[Bbox], x: u32, y: u32) -> (r: bool)
    ensures
        r == covered(bboxes@, x as int, y as int),
{
    let mut i: usize = 0;
    while i < bboxes.len()
        invariant
            i <= bboxes@.len(),
            forall|j: int|
                0 <= j < i ==> !(bboxes@[j].x <= x < bboxes@[j].x + bboxes@[j].w && #[trigger] bboxes@[j].y
                    <= y < bboxes@[j].y + bboxes@[j].h),
        decreases bboxes@.len() - i,
    {
        let b = bboxes[i];
        if b.x <= x && (x as u64) < (b.x as u64) + (b.w as u64) && b.y <= y && (y as u64) < (b.y
            as u64) + (b.h as u64) {
            return true;
        }
        i = i + 1;
    }
    false
}

/// The background mask over one frame: true exactly where some rectangle
/// covers the pixel, in row-major order.
pub fn bbox_mask(bboxes: &[Bbox], width: u32, height: u32) -> (m: Vec<bool>)
    requires
        width * height <= usize::MAX,
    ensures
        m@.len() == width * height,
        forall|x: int, y: int|
            0 <= x < width && 0 <= y < height ==> #[trigger] m@[y * width + x] == covered(
                bboxes@,
                x,
                y,
            ),
{
    let mut m: Vec<bool> = Vec::new();
    let mut y: u32 = 0;
    while y < height
        invariant
            y <= height,
            width * height <= usize::MAX,
            m@.len() == y * width,
            forall|xi: int, yi: int|
                0 <= xi < width && 0 <= yi < y ==> #[trigger] m@[yi * width + xi] == covered(
                    bboxes@,
                    xi,
                    yi,
                ),
        decreases height - y,
    {
        let mut x: u32 = 0;
        while x < width
            invariant
                x <= width,
                y < height,
                width * height <= usize::MAX,
                m@.len() == y * width + x,
                forall|xi: int, yi: int|
                    0 <= xi < width && 0 <= yi < y ==> #[trigger] m@[yi * width + xi] == covered(
                        bboxes@,
                        xi,
                        yi,
                    ),
                forall|xi: int|
                    0 <= xi < x ==> #[trigger] m@[y * width + xi] == covered(bboxes@, xi, y as int),
            decreases width - x,
        {
            let v = pixel_covered(bboxes, x, y);
            m.push(v);
            proof {
                assert forall|xi: int, yi: int|
                    0 <= xi < width && 0 <= yi < y implies #[trigger] m@[yi * width + xi]
                    == covered(bboxes@, xi, yi) by {
                    crate::crop::mul_le(yi + 1, y as int, width as int);
                    assert(yi * width + width == (yi + 1) * width) by (nonlinear_arith);
                }
            }
            x = x + 1;
        }
        y = y + 1;
        proof {
            assert((y - 1) * width + width == y * width) by (nonlinear_arith);
        }
    }
    proof {
        assert(m@.len() == height * width);
        assert(height * width == width * height) by (nonlinear_arith);
    }
    m
}


/// Whether the header names `name` in exactly one column.
pub open spec fn col_unique(cols: Seq<Seq<char>>, name: Seq<char>) -> bool {
    exists|k: int|
        0 <= k < cols.len() && trim_spec(#[trigger] cols[k]) == name && (forall|j: int|
            0 <= j < cols.len() && j != k ==> trim_spec(#[trigger] cols[j]) != name)
}

/// A sole occurrence determines the found column.
proof fn lemma_find_col_at(cols: Seq<Seq<char>>, name: Seq<char>, pos: int, i: int)
    requires
        0 <= i <= pos < cols.len(),
        trim_spec(cols[pos]) == name,
        forall|j: int| i <= j < pos ==> trim_spec(#[trigger] cols[j]) != name,
    ensures
        find_col_from(cols, name, i) == Some(pos),
    decreases pos - i,
{
    if i < pos {
        lemma_find_col_at(cols, name, pos, i + 1);
    }
}

/// Column-order independence, one row at a time: when the five required
/// columns each occur once, reordering the header cells by a permutation
/// and every data row's fields by the same permutation leaves the located
/// fields — and with them the row's fault, if any, and its rectangle —
/// unchanged.
pub proof fn lemma_column_order_row(
    cols1: Seq<Seq<char>>,
    cols2: Seq<Seq<char>>,
    p: Seq<int>,
    q: Seq<int>,
    f1: Seq<Seq<char>>,
    f2: Seq<Seq<char>>,
    name: Seq<char>,
)
    requires
        cols1.len() == cols2.len(),
        p.len() == cols1.len(),
        q.len() == cols1.len(),
        forall|k: int| 0 <= k < p.len() ==> 0 <= #[trigger] p[k] < cols1.len(),
        forall|k: int| 0 <= k < q.len() ==> 0 <= #[trigger] q[k] < cols1.len(),
        forall|k: int| 0 <= k < p.len() ==> q[#[trigger] p[k]] == k,
        forall|k: int| 0 <= k < q.len() ==> p[#[trigger] q[k]] == k,
        forall|k: int|
            0 <= k < cols2.len() ==> trim_spec(#[trigger] cols2[k]) == trim_spec(cols1[p[k]]),
        f1.len() == cols1.len(),
        f2.len() == cols1.len(),
        forall|k: int| 0 <= k < f2.len() ==> trim_spec(#[trigger] f2[k]) == trim_spec(f1[p[k]]),
        col_unique(cols1, name),
    ensures
        find_col(cols1, name) is Some,
        find_col(cols2, name) is Some,
        field_at(f2, find_col(cols2, name)->0) == field_at(f1, find_col(cols1, name)->0),
{
    let k1 = choose|k: int|
        0 <= k < cols1.len() && trim_spec(#[trigger] cols1[k]) == name && (forall|j: int|
            0 <= j < cols1.len() && j != k ==> trim_spec(#[trigger] cols1[j]) != name);
    lemma_find_col_at(cols1, name, k1, 0);
    let k2 = q[k1];
    assert(trim_spec(cols2[k2]) == trim_spec(cols1[p[k2]]));
    assert(p[k2] == k1);
    assert forall|j: int| 0 <= j < cols2.len() && j != k2 implies trim_spec(#[trigger] cols2[j])
        != name by {
        if trim_spec(cols2[j]) == name {
            assert(trim_spec(cols1[p[j]]) == name);
            assert(p[j] == k1);
            assert(q[p[j]] == j);
        }
    }
    lemma_find_col_at(cols2, name, k2, 0);
    assert(trim_spec(f2[k2]) == trim_spec(f1[p[k2]]));
}

/// The rectangles of a list of data rows under the given column positions.
pub open spec fn rows_bboxes(rows: Seq<Seq<Seq<char>>>, xi: int, yi: int, wi: int, hi: int) -> Seq<
    Bbox,
> {
    rows.map_values(|f: Seq<Seq<char>>| row_bbox_cells(f, xi, yi, wi, hi))
}

/// Column-order independence: when the five required columns each occur
/// once in the header, permuting the header cells and every data row's
/// fields by one permutation changes neither any row's fault nor the
/// parsed rectangle sequence.
pub proof fn lemma_column_order_independence(
    cols1: Seq<Seq<char>>,
    cols2: Seq<Seq<char>>,
    p: Seq<int>,
    q: Seq<int>,
    rows1: Seq<Seq<Seq<char>>>,
    rows2: Seq<Seq<Seq<char>>>,
)
    requires
        cols1.len() == cols2.len(),
        p.len() == cols1.len(),
        q.len() == cols1.len(),
        forall|k: int| 0 <= k < p.len() ==> 0 <= #[trigger] p[k] < cols1.len(),
        forall|k: int| 0 <= k < q.len() ==> 0 <= #[trigger] q[k] < cols1.len(),
        forall|k: int| 0 <= k < p.len() ==> q[#[trigger] p[k]] == k,
        forall|k: int| 0 <= k < q.len() ==> p[#[trigger] q[k]] == k,
        forall|k: int|
            0 <= k < cols2.len() ==> trim_spec(#[trigger] cols2[k]) == trim_spec(cols1[p[k]]),
        rows1.len() == rows2.len(),
        forall|r: int| 0 <= r < rows1.len() ==> (#[trigger] rows1[r]).len() == cols1.len(),
        forall|r: int| 0 <= r < rows2.len() ==> (#[trigger] rows2[r]).len() == cols1.len(),
        forall|r: int, k: int|
            0 <= r < rows2.len() && 0 <= k < cols1.len() ==> trim_spec(#[trigger] rows2[r][k])
                == trim_spec(rows1[r][p[k]]),
        col_unique(cols1, "crop"@),
        col_unique(cols1, "x"@),
        col_unique(cols1, "y"@),
        col_unique(cols1, "w"@),
        col_unique(cols1, "h"@),
    ensures
        find_col(cols1, "crop"@) is Some && find_col(cols2, "crop"@) is Some,
        find_col(cols1, "x"@) is Some && find_col(cols2, "x"@) is Some,
        find_col(cols1, "y"@) is Some && find_col(cols2, "y"@) is Some,
        find_col(cols1, "w"@) is Some && find_col(cols2, "w"@) is Some,
        find_col(cols1, "h"@) is Some && find_col(cols2, "h"@) is Some,
        forall|r: int|
            0 <= r < rows1.len() ==> row_cells_fault(
                #[trigger] rows2[r],
                find_col(cols2, "crop"@)->0,
                find_col(cols2, "x"@)->0,
                find_col(cols2, "y"@)->0,
                find_col(cols2, "w"@)->0,
                find_col(cols2, "h"@)->0,
            ) == row_cells_fault(
                rows1[r],
                find_col(cols1, "crop"@)->0,
                find_col(cols1, "x"@)->0,
                find_col(cols1, "y"@)->0,
                find_col(cols1, "w"@)->0,
                find_col(cols1, "h"@)->0,
            ),
        rows_bboxes(
            rows2,
            find_col(cols2, "x"@)->0,
            find_col(cols2, "y"@)->0,
            find_col(cols2, "w"@)->0,
            find_col(cols2, "h"@)->0,
        ) == rows_bboxes(
            rows1,
            find_col(cols1, "x"@)->0,
            find_col(cols1, "y"@)->0,
            find_col(cols1, "w"@)->0,
            find_col(cols1, "h"@)->0,
        ),
{
    assert forall|r: int| 0 <= r < rows1.len() implies {
        &&& find_col(cols1, "crop"@) is Some && find_col(cols2, "crop"@) is Some
        &&& find_col(cols1, "x"@) is Some && find_col(cols2, "x"@) is Some
        &&& find_col(cols1, "y"@) is Some && find_col(cols2, "y"@) is Some
        &&& find_col(cols1, "w"@) is Some && find_col(cols2, "w"@) is Some
        &&& find_col(cols1, "h"@) is Some && find_col(cols2, "h"@) is Some
        &&& row_cells_fault(
            #[trigger] rows2[r],
            find_col(cols2, "crop"@)->0,
            find_col(cols2, "x"@)->0,
            find_col(cols2, "y"@)->0,
            find_col(cols2, "w"@)->0,
            find_col(cols2, "h"@)->0,
        ) == row_cells_fault(
            rows1[r],
            find_col(cols1, "crop"@)->0,
            find_col(cols1, "x"@)->0,
            find_col(cols1, "y"@)->0,
            find_col(cols1, "w"@)->0,
            find_col(cols1, "h"@)->0,
        )
        &&& row_bbox_cells(
            rows2[r],
            find_col(cols2, "x"@)->0,
            find_col(cols2, "y"@)->0,
            find_col(cols2, "w"@)->0,
            find_col(cols2, "h"@)->0,
        ) == row_bbox_cells(
            rows1[r],
            find_col(cols1, "x"@)->0,
            find_col(cols1, "y"@)->0,
            find_col(cols1, "w"@)->0,
            find_col(cols1, "h"@)->0,
        )
    } by {
        lemma_column_order_row(cols1, cols2, p, q, rows1[r], rows2[r], "crop"@);
        lemma_column_order_row(cols1, cols2, p, q, rows1[r], rows2[r], "x"@);
        lemma_column_order_row(cols1, cols2, p, q, rows1[r], rows2[r], "y"@);
        lemma_column_order_row(cols1, cols2, p, q, rows1[r], rows2[r], "w"@);
        lemma_column_order_row(cols1, cols2, p, q, rows1[r], rows2[r], "h"@);
    }
    lemma_column_order_row_defaults(cols1, cols2, p, q);
    assert(rows_bboxes(
        rows2,
        find_col(cols2, "x"@)->0,
        find_col(cols2, "y"@)->0,
        find_col(cols2, "w"@)->0,
        find_col(cols2, "h"@)->0,
    ) =~= rows_bboxes(
        rows1,
        find_col(cols1, "x"@)->0,
        find_col(cols1, "y"@)->0,
        find_col(cols1, "w"@)->0,
        find_col(cols1, "h"@)->0,
    ));
}

/// The five columns are found in both headers even with no data rows.
proof fn lemma_column_order_row_defaults(
    cols1: Seq<Seq<char>>,
    cols2: Seq<Seq<char>>,
    p: Seq<int>,
    q: Seq<int>,
)
    requires
        cols1.len() == cols2.len(),
        p.len() == cols1.len(),
        q.len() == cols1.len(),
        forall|k: int| 0 <= k < p.len() ==> 0 <= #[trigger] p[k] < cols1.len(),
        forall|k: int| 0 <= k < q.len() ==> 0 <= #[trigger] q[k] < cols1.len(),
        forall|k: int| 0 <= k < p.len() ==> q[#[trigger] p[k]] == k,
        forall|k: int| 0 <= k < q.len() ==> p[#[trigger] q[k]] == k,
        forall|k: int|
            0 <= k < cols2.len() ==> trim_spec(#[trigger] cols2[k]) == trim_spec(cols1[p[k]]),
        col_unique(cols1, "crop"@),
        col_unique(cols1, "x"@),
        col_unique(cols1, "y"@),
        col_unique(cols1, "w"@),
        col_unique(cols1, "h"@),
    ensures
        find_col(cols1, "crop"@) is Some && find_col(cols2, "crop"@) is Some,
        find_col(cols1, "x"@) is Some && find_col(cols2, "x"@) is Some,
        find_col(cols1, "y"@) is Some && find_col(cols2, "y"@) is Some,
        find_col(cols1, "w"@) is Some && find_col(cols2, "w"@) is Some,
        find_col(cols1, "h"@) is Some && find_col(cols2, "h"@) is Some,
{
    let empty = Seq::<Seq<char>>::new(cols1.len(), |i: int| Seq::<char>::empty());
    lemma_column_order_row(cols1, cols2, p, q, empty, empty, "crop"@);
    lemma_column_order_row(cols1, cols2, p, q, empty, empty, "x"@);
    lemma_column_order_row(cols1, cols2, p, q, empty, empty, "y"@);
    lemma_column_order_row(cols1, cols2, p, q, empty, empty, "w"@);
    lemma_column_order_row(cols1, cols2, p, q, empty, empty, "h"@);
}

} // verus!
