//! The hash matrix and its column windows.
//!
//! The database holds one row of 45000 hash values per word. Only the first
//! 32000 columns are processed, in four windows of 8000 columns. A window is
//! built row by row, so that a reader never holds more than one full row of
//! the database beside the window itself.

use vstd::prelude::*;
use vstd::slice::slice_subrange;
use crate::codec::{decode_i32, entries_of, Endian};

verus! {

/// The number of hash values in one row of the database.
pub const COLUMNS: usize = 45000;

/// The number of bytes in one row of the database.
pub const ROW_BYTES: usize = 180000;

/// The number of columns in one window.
pub const WINDOW_SIZE: usize = 8000;

/// The number of windows that a run processes.
pub const WINDOW_COUNT: usize = 4;

/// The number of records of a run: one per processed column.
pub const RECORD_COUNT: usize = 32000;

/// Why a window could not be filled.
#[derive(Debug, Clone, Copy, PartialEq, Eq, Structural)]
pub enum ReadError {
    /// Fewer bytes than one full row were available.
    ShortRow,
}

/// The number of rows of a database file of the given size.
pub open spec fn spec_words_count(file_size: u64) -> u64 {
    (file_size / 45000 / 4) as u64
}

/// The number of rows of a database file of the given size: only complete
/// groups of 45000 values, then of four bytes, count.
#[verifier::when_used_as_spec(spec_words_count)]
pub fn words_count(file_size: u64) -> (rows: u64)
    ensures
        rows == spec_words_count(file_size),
{
    file_size / 45000 / 4
}

/// The position of a record in the processing order of a run.
pub open spec fn spec_record_index(window: usize, offset: usize) -> int {
    window * WINDOW_SIZE + offset
}

/// The position of a record in the processing order of a run: windows in
/// order, and within a window its columns in order.
pub fn record_index(window: usize, offset: usize) -> (index: usize)
    requires
        window < WINDOW_COUNT,
        offset < WINDOW_SIZE,
    ensures
        index == spec_record_index(window, offset),
        index < RECORD_COUNT,
{
    window * WINDOW_SIZE + offset
}

/// The hash values of one database row, as its first 180000 bytes hold them.
pub open spec fn row_values(row: Seq<u8>, endian: Endian) -> Seq<i32> {
    entries_of(row.take(ROW_BYTES as int), endian)
}

/// The part of a database row that falls into the window of `width` columns
/// from column `start`.
pub open spec fn row_window(row: Seq<u8>, start: int, width: int, endian: Endian) -> Seq<i32> {
    row_values(row, endian).subrange(start, start + width)
}

/// The record at `offset` of a window: the hash values of that column, one
/// from each row.
pub open spec fn column_of(rows: Seq<Seq<i32>>, offset: int) -> Seq<i32> {
    Seq::new(rows.len(), |r: int| rows[r][offset])
}

/// The bytes of row `r` of a database.
pub open spec fn row_bytes(db: Seq<u8>, r: int) -> Seq<u8> {
    db.subrange(r * ROW_BYTES, r * ROW_BYTES + ROW_BYTES)
}

/// The window of `width` columns from column `start` over every complete
/// row of a database.
pub open spec fn window_of(db: Seq<u8>, start: int, width: int, endian: Endian) -> Seq<Seq<i32>> {
    Seq::new(
        db.len() / (ROW_BYTES as nat),
        |r: int| row_window(row_bytes(db, r), start, width, endian),
    )
}

/// A row of a row-major matrix lies within the matrix.
proof fn lemma_row_in_range(r: int, rows: int, width: int)
    by (nonlinear_arith)
    requires
        0 <= r < rows,
        0 <= width,
    ensures
        0 <= r * width,
        r * width + width <= rows * width,
        (r + 1) * width == r * width + width,
{
}

/// A window of the hash matrix: the columns `start .. start + width` of the
/// rows read so far, stored row after row.
#[derive(Debug)]
pub struct Window {
    start: usize,
    width: usize,
    rows: usize,
    data: Vec<i32>,
}

impl View for Window {
    type V = Seq<Seq<i32>>;

    /// The rows of the window, each `width` values long.
    closed spec fn view(&self) -> Seq<Seq<i32>> {
        Seq::new(
            self.rows as nat,
            |r: int| self.data@.subrange(r * self.width, r * self.width + self.width),
        )
    }
}

impl Window {
    /// The first column of the window.
    pub closed spec fn start(&self) -> int {
        self.start as int
    }

    /// The number of columns of the window.
    pub closed spec fn width(&self) -> int {
        self.width as int
    }

    /// The window lies within a row, and its storage holds exactly its rows.
    pub closed spec fn wf(&self) -> bool {
        &&& 1 <= self.width
        &&& self.start + self.width <= COLUMNS
        &&& self.data@.len() == self.rows * self.width
    }

    /// Every row of a well-formed window has the window's width.
    pub proof fn lemma_rows_have_width(&self)
        requires
            self.wf(),
        ensures
            forall|r: int| 0 <= r < self@.len() ==> (#[trigger] self@[r]).len() == self.width(),
    {
        assert forall|r: int| 0 <= r < self@.len() implies (#[trigger] self@[r]).len()
            == self.width() by {
            lemma_row_in_range(r, self.rows as int, self.width as int);
        }
    }

    /// An empty window over the columns `start .. start + width`, where these
    /// are at least one column and lie within a row.
    pub fn new(start: usize, width: usize) -> (window: Option<Window>)
        ensures
            window is Some <==> 1 <= width && start + width <= COLUMNS,
            window matches Some(w) ==> {
                &&& w.wf()
                &&& w.start() == start
                &&& w.width() == width
                &&& w@.len() == 0
            },
    {
        if width < 1 || start > COLUMNS || width > COLUMNS - start {
            return None;
        }
        let window = Window { start, width, rows: 0, data: Vec::new() };
        assert(window.data@.len() == window.rows * window.width) by (nonlinear_arith)
            requires
                window.rows == 0,
                window.data@.len() == 0,
        ;
        Some(window)
    }

    /// The number of rows read into the window so far.
    pub fn row_count(&self) -> (rows: usize)
        ensures
            rows == self@.len(),
    {
        self.rows
    }

    /// The number of columns of the window.
    pub fn column_count(&self) -> (width: usize)
        ensures
            width == self.width(),
    {
        self.width
    }

    /// Takes the window's columns out of one full row of the database and
    /// appends them as the window's next row. A buffer shorter than a full
    /// row is refused and leaves the window as it was.
    pub fn push_row(&mut self, row: &[u8], endian: Endian) -> (result: Result<(), ReadError>)
        requires
            old(self).wf(),
        ensures
            final(self).wf(),
            final(self).start() == old(self).start(),
            final(self).width() == old(self).width(),
            result is Ok <==> row@.len() >= ROW_BYTES,
            result is Ok ==> final(self)@ == old(self)@.push(
                row_window(row@, old(self).start(), old(self).width(), endian),
            ),
            result is Err ==> final(self)@ == old(self)@,
    {
        if row.len() < ROW_BYTES {
            return Err(ReadError::ShortRow);
        }
        let ghost before = self.data@;
        let ghost values = row_window(row@, self.start as int, self.width as int, endian);
        let mut c: usize = 0;
        while c < self.width
            invariant
                c <= self.width,
                self.start == old(self).start,
                self.width == old(self).width,
                self.rows == old(self).rows,
                1 <= self.width,
                self.start + self.width <= COLUMNS,
                row@.len() >= ROW_BYTES,
                values == row_window(row@, self.start as int, self.width as int, endian),
                before == old(self).data@,
                self.data@ == before + values.take(c as int),
            decreases self.width - c,
        {
            let column: usize = self.start + c;
            let entry = slice_subrange(row, 4 * column, 4 * column + 4);
            let value = decode_i32(entry, endian);
            proof {
                let prefix = row@.take(ROW_BYTES as int);
                assert(prefix.subrange(4 * column, 4 * column + 4) =~= entry@);
                assert(values[c as int] == value);
                assert(values.take(c + 1) =~= values.take(c as int).push(value));
            }
            self.data.push(value);
            c = c + 1;
        }
        proof {
            assert(values.take(self.width as int) =~= values);
            assert(self.data@.len() == self.data.len());
            let old_rows = old(self).rows as int;
            let width = self.width as int;
            assert((old_rows + 1) * width == old_rows * width + width && old_rows + 1 <= (old_rows
                + 1) * width) by (nonlinear_arith)
                requires
                    1 <= width,
                    0 <= old_rows,
            ;
        }
        self.rows = self.rows + 1;
        proof {
            let old_rows = old(self).rows as int;
            let width = self.width as int;
            assert forall|r: int| 0 <= r < old_rows + 1 implies #[trigger] self@[r] == old(
                self,
            )@.push(values)[r] by {
                if r < old_rows {
                    lemma_row_in_range(r, old_rows, width);
                    assert(self.data@.subrange(r * width, r * width + width) =~= before.subrange(
                        r * width,
                        r * width + width,
                    ));
                } else {
                    assert(self.data@.subrange(r * width, r * width + width) =~= values);
                }
            }
            assert(self@ =~= old(self)@.push(values));
        }
        Ok(())
    }

    /// The record at `offset`: the hash values of that column of the window,
    /// one from each row, in row order.
    pub fn record(&self, offset: usize) -> (hashes: Vec<i32>)
        requires
            self.wf(),
            offset < self.width(),
        ensures
            hashes@ == column_of(self@, offset as int),
    {
        let mut hashes: Vec<i32> = Vec::with_capacity(self.rows);
        let mut r: usize = 0;
        let mut base: usize = 0;
        while r < self.rows
            invariant
                self.wf(),
                offset < self.width,
                r <= self.rows,
                base == r * self.width,
                hashes@.len() == r,
                forall|k: int| 0 <= k < r ==> hashes@[k] == (#[trigger] self@[k])[offset as int],
            decreases self.rows - r,
        {
            proof {
                lemma_row_in_range(r as int, self.rows as int, self.width as int);
                assert(self.data@.len() == self.data.len());
            }
            hashes.push(self.data[base + offset]);
            base = base + self.width;
            r = r + 1;
        }
        assert(hashes@ =~= column_of(self@, offset as int));
        hashes
    }
}

/// Reads one window over every complete row of a database that is held in
/// memory. There is no window where the columns asked for are none or do
/// not lie within a row.
pub fn read_window(db: &[u8], start: usize, width: usize, endian: Endian) -> (window: Option<
    Window,
>)
    ensures
        window is Some <==> 1 <= width && start + width <= COLUMNS,
        window matches Some(w) ==> {
            &&& w.wf()
            &&& w.start() == start
            &&& w.width() == width
            &&& w@ == window_of(db@, start as int, width as int, endian)
        },
{
    let mut window = match Window::new(start, width) {
        Some(w) => w,
        None => {
            return None;
        },
    };
    let rows: usize = db.len() / ROW_BYTES;
    let mut r: usize = 0;
    while r < rows
        invariant
            rows == db@.len() / (ROW_BYTES as nat),
            db@.len() <= usize::MAX,
            r <= rows,
            window.wf(),
            window.start() == start,
            window.width() == width,
            window@ == window_of(db@, start as int, width as int, endian).take(r as int),
        decreases rows - r,
    {
        assert(r * ROW_BYTES + ROW_BYTES <= db@.len()) by (nonlinear_arith)
            requires
                r < rows,
                rows == db@.len() / (ROW_BYTES as nat),
                ROW_BYTES == 180000,
        ;
        let row = slice_subrange(db, r * ROW_BYTES, r * ROW_BYTES + ROW_BYTES);
        let ghost before = window@;
        let pushed = window.push_row(row, endian);
        proof {
            assert(pushed is Ok);
            let whole = window_of(db@, start as int, width as int, endian);
            assert(row@ == row_bytes(db@, r as int));
            assert(whole.take(r + 1) =~= whole.take(r as int).push(whole[r as int]));
        }
        r = r + 1;
    }
    proof {
        let whole = window_of(db@, start as int, width as int, endian);
        assert(whole.take(rows as int) =~= whole);
    }
    Some(window)
}

} // verus!
