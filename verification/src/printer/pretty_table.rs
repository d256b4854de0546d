//! The widths of a table's columns.
use vstd::prelude::*;
use vstd::utf8::encode_utf8;

verus! {

/// The width that a text is counted with: the number of its bytes.
pub open spec fn width_of(text: Seq<char>) -> usize {
    encode_utf8(text).len() as usize
}

/// The width of the cell in row `r` and column `c`.
pub open spec fn cell_width(rows: Seq<[String; 3]>, r: int, c: int) -> usize {
    width_of(rows[r]@[c]@)
}

/// Whether `width` is the width of column `c`: that of its widest cell or
/// of its header, whichever is more.
pub open spec fn is_column_width(width: usize, header: Seq<char>, rows: Seq<[String; 3]>, c: int) -> bool {
    &&& width >= width_of(header)
    &&& forall|r: int| 0 <= r < rows.len() ==> width >= #[trigger] cell_width(rows, r, c)
    &&& (width == width_of(header) || exists|r: int| 0 <= r < rows.len() && #[trigger] cell_width(rows, r, c) == width)
}

/// The width of each column: that of its widest cell or of its header,
/// whichever is more. A row has three cells, so where there are rows there
/// are at most three headers.
pub fn max_by_column(headers: &[&str], rows: &[[String; 3]]) -> (max: Vec<usize>)
    requires
        rows@.len() > 0 ==> headers@.len() <= 3,
    ensures
        max@.len() == headers@.len(),
        forall|c: int| 0 <= c < headers@.len() ==> is_column_width(#[trigger] max@[c], headers@[c]@, rows@, c),
{
    let mut max: Vec<usize> = Vec::new();
    let mut c: usize = 0;
    while c < headers.len()
        invariant
            0 <= c <= headers@.len(),
            rows@.len() > 0 ==> headers@.len() <= 3,
            max@.len() == c,
            forall|k: int| 0 <= k < c ==> is_column_width(#[trigger] max@[k], headers@[k]@, rows@, k),
        decreases headers@.len() - c,
    {
        let mut width: usize = headers[c].len();
        let mut r: usize = 0;
        while r < rows.len()
            invariant
                0 <= r <= rows@.len(),
                0 <= c < headers@.len(),
                rows@.len() > 0 ==> headers@.len() <= 3,
                width >= width_of(headers@[c as int]@),
                forall|k: int| 0 <= k < r ==> width >= #[trigger] cell_width(rows@, k, c as int),
                width == width_of(headers@[c as int]@) || exists|k: int|
                    0 <= k < r && #[trigger] cell_width(rows@, k, c as int) == width,
            decreases rows@.len() - r,
        {
            let cell = rows[r][c].as_str().len();
            assert(cell == cell_width(rows@, r as int, c as int));
            if cell > width {
                width = cell;
            }
            r += 1;
        }
        max.push(width);
        c += 1;
    }
    max
}

/// The width of header `i`.
pub open spec fn header_width(headers: Seq<&str>, i: int) -> usize {
    width_of(headers[i]@)
}

/// The width of the cell in row `r` and column `c` of rows of any length.
pub open spec fn entry_width(rows: Seq<Vec<String>>, r: int, c: int) -> usize {
    width_of(rows[r]@[c]@)
}

/// Whether `width` is the greatest width among the headers and the cells
/// that are not the last of their row; zero where there is none.
pub open spec fn is_widest_non_last(width: usize, headers: Seq<&str>, rows: Seq<Vec<String>>) -> bool {
    &&& forall|i: int| 0 <= i < headers.len() - 1 ==> width >= #[trigger] header_width(headers, i)
    &&& forall|r: int, c: int|
        0 <= r < rows.len() && 0 <= c < rows[r]@.len() - 1 ==> width >= #[trigger] entry_width(rows, r, c)
    &&& (width == 0 || (exists|i: int| 0 <= i < headers.len() - 1 && #[trigger] header_width(headers, i) == width)
        || (exists|r: int, c: int|
        0 <= r < rows.len() && 0 <= c < rows[r]@.len() - 1 && #[trigger] entry_width(rows, r, c) == width))
}

/// The greatest width among the headers and cells, the last header and the
/// last cell of each row left aside (the last column is not padded). There
/// is at least one header, and no row is empty.
pub fn max_non_last_value(headers: &[&str], rows: &[Vec<String>]) -> (max: usize)
    requires
        headers@.len() >= 1,
        forall|r: int| 0 <= r < rows@.len() ==> (#[trigger] rows@[r])@.len() >= 1,
    ensures
        is_widest_non_last(max, headers@, rows@),
{
    let mut max: usize = 0;
    let ghost mut from_header: int = -1;
    let ghost mut from_row: int = -1;
    let ghost mut from_cell: int = -1;
    let mut i: usize = 0;
    let padded_headers = headers.len() - 1;
    while i < padded_headers
        invariant
            padded_headers == headers@.len() - 1,
            0 <= i <= headers@.len() - 1,
            forall|k: int| 0 <= k < i ==> max >= #[trigger] header_width(headers@, k),
            max == 0 || (0 <= from_header < i && header_width(headers@, from_header) == max),
        decreases headers@.len() - i,
    {
        let width = headers[i].len();
        if width > max {
            max = width;
            proof {
                from_header = i as int;
            }
        }
        i += 1;
    }
    let mut r: usize = 0;
    while r < rows.len()
        invariant
            0 <= r <= rows@.len(),
            forall|r: int| 0 <= r < rows@.len() ==> (#[trigger] rows@[r])@.len() >= 1,
            forall|k: int| 0 <= k < headers@.len() - 1 ==> max >= #[trigger] header_width(headers@, k),
            forall|k: int, c: int|
                0 <= k < r && 0 <= c < rows@[k]@.len() - 1 ==> max >= #[trigger] entry_width(rows@, k, c),
            max == 0 || (0 <= from_header < headers@.len() - 1 && header_width(headers@, from_header) == max) || (0
                <= from_row < r && 0 <= from_cell < rows@[from_row]@.len() - 1 && entry_width(
                rows@,
                from_row,
                from_cell,
            ) == max),
        decreases rows@.len() - r,
    {
        let row = &rows[r];
        assert(rows@[r as int]@.len() >= 1);
        let mut c: usize = 0;
        let padded_cells = row.len() - 1;
        while c < padded_cells
            invariant
                padded_cells == row@.len() - 1,
                0 <= r < rows@.len(),
                *row == rows@[r as int],
                row@.len() >= 1,
                0 <= c <= row@.len() - 1,
                forall|k: int| 0 <= k < headers@.len() - 1 ==> max >= #[trigger] header_width(headers@, k),
                forall|k: int, c: int|
                    0 <= k < r && 0 <= c < rows@[k]@.len() - 1 ==> max >= #[trigger] entry_width(rows@, k, c),
                forall|k: int| 0 <= k < c ==> max >= #[trigger] entry_width(rows@, r as int, k),
                max == 0 || (0 <= from_header < headers@.len() - 1 && header_width(headers@, from_header) == max)
                    || (0 <= from_row <= r && 0 <= from_cell < rows@[from_row]@.len() - 1 && entry_width(
                    rows@,
                    from_row,
                    from_cell,
                ) == max),
            decreases row@.len() - c,
        {
            let width = row[c].as_str().len();
            assert(width == entry_width(rows@, r as int, c as int));
            if width > max {
                max = width;
                proof {
                    from_row = r as int;
                    from_cell = c as int;
                }
            }
            c += 1;
        }
        r += 1;
    }
    proof {
        if max != 0 {
            if 0 <= from_header < headers@.len() - 1 && header_width(headers@, from_header) == max {
            } else {
                assert(entry_width(rows@, from_row, from_cell) == max);
            }
        }
    }
    max
}

} // verus!
