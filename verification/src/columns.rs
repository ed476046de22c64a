//! The column layout engine: names are packed into rows of cells of one
//! shared width, as many to a row as the terminal has room for.

use crate::config::Config;
use crate::entry::{entry_views, EntryView, FormattedEntry};
use crate::terminal::{terminal_columns, terminal_width, width_or_default};
use crate::text::{
    byte_len, byte_length, lemma_byte_len_concat, lemma_byte_len_repeated, lemma_space_width,
    padded, repeated, string_pad, NEWLINE,
};
use vstd::prelude::*;
use vstd::string::*;

verus! {

/// The space between two columns.
pub const GUTTER_WIDTH: usize = 3;

/// The byte length of the longest raw name, 0 where there is no entry.
pub open spec fn longest_name(entries: Seq<EntryView>) -> nat
    decreases entries.len(),
{
    if entries.len() == 0 {
        0
    } else {
        let rest = longest_name(entries.drop_last());
        let last = byte_len(entries.last().raw);
        if last > rest {
            last
        } else {
            rest
        }
    }
}

/// The width of a column: the longest name and the gutter.
pub open spec fn column_width(entries: Seq<EntryView>) -> nat {
    longest_name(entries) + GUTTER_WIDTH as nat
}

/// The text that stands for an entry: the colored one where color is on.
pub open spec fn display_text(entry: EntryView, config: Config) -> Seq<char> {
    if config.show_color {
        entry.styled
    } else {
        entry.raw
    }
}

/// The visible width that a cell is padded to: the column width, but never
/// more than the terminal has.
pub open spec fn cell_width(column: nat, terminal: nat) -> nat {
    if terminal < column {
        terminal
    } else {
        column
    }
}

/// The number of spaces behind a name of `raw_len` bytes. A name that is
/// as wide as the cell or wider gets none.
pub open spec fn cell_padding(raw_len: nat, column: nat, terminal: nat) -> nat {
    if cell_width(column, terminal) > raw_len {
        (cell_width(column, terminal) - raw_len) as nat
    } else {
        0
    }
}

/// One cell: the display text and its padding. Only the raw name counts
/// toward the width, whatever escape sequences the display text holds.
pub open spec fn cell(entry: EntryView, config: Config, column: nat, terminal: nat) -> Seq<char> {
    display_text(entry, config) + repeated(' ', cell_padding(byte_len(entry.raw), column, terminal))
}

/// The cells of a grid, one for each entry.
pub open spec fn grid_cells(entries: Seq<EntryView>, config: Config, terminal: nat) -> Seq<
    Seq<char>,
> {
    entries.map_values(|e: EntryView| cell(e, config, column_width(entries), terminal))
}

/// How many columns go on a row: as many as fit, and one where not even one
/// fits.
pub open spec fn columns_per_row(column: nat, terminal: nat) -> nat {
    if column == 0 || terminal / column == 0 {
        1
    } else {
        terminal / column
    }
}

/// The cells in rows of `per_row`; the last row holds what is left.
pub open spec fn chunks(cells: Seq<Seq<char>>, per_row: nat) -> Seq<Seq<Seq<char>>>
    decreases cells.len(),
{
    if cells.len() == 0 {
        Seq::empty()
    } else if per_row == 0 || cells.len() <= per_row {
        seq![cells]
    } else {
        seq![cells.take(per_row as int)] + chunks(cells.skip(per_row as int), per_row)
    }
}

/// The rows of a listing. With one entry on each line, every row is one
/// unpadded display text; else the rows are those of the grid.
pub open spec fn listing_rows(entries: Seq<EntryView>, config: Config, terminal: nat) -> Seq<
    Seq<Seq<char>>,
> {
    if config.one_per_line {
        entries.map_values(|e: EntryView| seq![display_text(e, config)])
    } else {
        chunks(
            grid_cells(entries, config, terminal),
            columns_per_row(column_width(entries), terminal),
        )
    }
}

/// A row as text: its cells one after the other, and a newline.
pub open spec fn row_text(row: Seq<Seq<char>>) -> Seq<char> {
    row.flatten() + NEWLINE@
}

/// Rows as text.
pub open spec fn rows_text(rows: Seq<Seq<Seq<char>>>) -> Seq<char> {
    rows.map_values(|row: Seq<Seq<char>>| row_text(row)).flatten()
}

/// The whole output of a listing.
pub open spec fn listing_text(entries: Seq<EntryView>, config: Config, terminal: nat) -> Seq<
    char,
> {
    rows_text(listing_rows(entries, config, terminal))
}

/// The text of rows followed by one more row.
proof fn lemma_rows_text_push(rows: Seq<Seq<Seq<char>>>, row: Seq<Seq<char>>)
    ensures
        rows_text(rows.push(row)) == rows_text(rows) + row_text(row),
{
    let f = |row: Seq<Seq<char>>| row_text(row);
    assert(rows.push(row).map_values(f) =~= rows.map_values(f).push(row_text(row)));
    rows.map_values(f).lemma_flatten_push(row_text(row));
}

/// The text of one row followed by more rows.
proof fn lemma_rows_text_first(row: Seq<Seq<char>>, rest: Seq<Seq<Seq<char>>>)
    ensures
        rows_text(seq![row] + rest) == row_text(row) + rows_text(rest),
{
    let f = |row: Seq<Seq<char>>| row_text(row);
    let all = seq![row] + rest;
    assert(all.map_values(f).first() == row_text(row));
    assert(all.map_values(f).drop_first() =~= rest.map_values(f));
}

/// The byte length of the longest raw name.
pub fn longest_entry(entries: &Vec<FormattedEntry>) -> (longest: usize)
    ensures
        longest == longest_name(entry_views(entries@)),
{
    let ghost views = entry_views(entries@);
    let mut longest: usize = 0;
    let mut i: usize = 0;
    while i < entries.len()
        invariant
            views == entry_views(entries@),
            0 <= i <= entries@.len(),
            longest == longest_name(views.take(i as int)),
        decreases entries@.len() - i,
    {
        let len = byte_length(entries[i].raw_output.as_str());
        proof {
            assert(views.take(i + 1).drop_last() =~= views.take(i as int));
            assert(views.take(i + 1).last() == entries@[i as int]@);
        }
        if len > longest {
            longest = len;
        }
        i += 1;
    }
    proof {
        assert(views.take(entries@.len() as int) =~= views);
    }
    longest
}

/// A row is done after its `col + 1`-th cell exactly when the line then
/// holds more than the terminal has, or has no room for one more column.
proof fn lemma_row_ends(column: nat, terminal: nat, col: nat)
    requires
        column > 0,
        col < columns_per_row(column, terminal),
    ensures
        (terminal < (col + 1) * column || terminal - (col + 1) * column < column) <==> col + 1
            == columns_per_row(column, terminal),
{
    let c = column as int;
    let t = terminal as int;
    let q = t / c;
    let r = t % c;
    vstd::arithmetic::div_mod::lemma_fundamental_div_mod(t, c);
    vstd::arithmetic::div_mod::lemma_mod_bound(t, c);
    vstd::arithmetic::div_mod::lemma_div_pos_is_pos(t, c);
    assert(t == c * q + r);
    if col + 2 > q {
        assert((col + 2) * c > t) by (nonlinear_arith)
            requires
                col + 2 >= q + 1,
                t == c * q + r,
                0 <= r < c,
        ;
    } else {
        assert((col + 2) * c <= t) by (nonlinear_arith)
            requires
                col + 2 <= q,
                t == c * q + r,
                0 <= r < c,
                c > 0,
        ;
    }
    assert((col + 2) * c == (col + 1) * c + c) by (nonlinear_arith);
}

/// One entry on each line: the display text alone, no padding.
fn render_lines(entries: &Vec<FormattedEntry>, config: &Config) -> (out: String)
    requires
        config.one_per_line,
    ensures
        out@ == rows_text(listing_rows(entry_views(entries@), *config, 0)),
{
    let ghost views = entry_views(entries@);
    let ghost rows = listing_rows(views, *config, 0);
    let mut out = String::new();
    let mut i: usize = 0;
    proof {
        assert(rows.take(0) =~= Seq::<Seq<Seq<char>>>::empty());
        assert(rows_text(Seq::<Seq<Seq<char>>>::empty()) =~= Seq::<char>::empty());
    }
    while i < entries.len()
        invariant
            config.one_per_line,
            views == entry_views(entries@),
            rows == listing_rows(views, *config, 0),
            rows.len() == entries@.len(),
            0 <= i <= entries@.len(),
            out@ == rows_text(rows.take(i as int)),
        decreases entries@.len() - i,
    {
        let entry = &entries[i];
        let text = if config.show_color {
            &entry.colored_output
        } else {
            &entry.raw_output
        };
        proof {
            let row = rows[i as int];
            assert(row == seq![display_text(views[i as int], *config)]);
            assert(rows.take(i + 1) =~= rows.take(i as int).push(row));
            lemma_rows_text_push(rows.take(i as int), row);
            row.lemma_flatten_one_element();
            assert(text@ == display_text(views[i as int], *config));
        }
        out.append(text.as_str());
        out.append(NEWLINE);
        i += 1;
    }
    proof {
        assert(rows.take(entries@.len() as int) =~= rows);
    }
    out
}

/// The rows from `row_start` on begin with the full row that ends at `end`.
proof fn lemma_chunks_full_row(cells: Seq<Seq<char>>, per_row: nat, row_start: int, end: int)
    requires
        per_row > 0,
        0 <= row_start,
        end == row_start + per_row,
        end <= cells.len(),
    ensures
        rows_text(chunks(cells.skip(row_start), per_row)) == row_text(
            cells.subrange(row_start, end),
        ) + rows_text(chunks(cells.skip(end), per_row)),
{
    let row = cells.subrange(row_start, end);
    let left = cells.skip(row_start);
    let after = chunks(cells.skip(end), per_row);
    if left.len() <= per_row {
        assert(left =~= row);
        assert(cells.skip(end) =~= Seq::<Seq<char>>::empty());
        assert(chunks(left, per_row) =~= seq![row] + after);
    } else {
        assert(left.take(per_row as int) =~= row);
        assert(left.skip(per_row as int) =~= cells.skip(end));
    }
    assert(chunks(left, per_row) == seq![row] + after);
    lemma_rows_text_first(row, after);
}

/// What is left of the cells when less than a full row is left: one short
/// row, or nothing.
proof fn lemma_chunks_short_row(cells: Seq<Seq<char>>, per_row: nat, row_start: int)
    requires
        per_row > 0,
        0 <= row_start <= cells.len(),
        cells.len() - row_start < per_row,
    ensures
        rows_text(chunks(cells.skip(row_start), per_row)) == if row_start == cells.len() {
            Seq::<char>::empty()
        } else {
            row_text(cells.skip(row_start))
        },
{
    let left = cells.skip(row_start);
    let none = Seq::<Seq<Seq<char>>>::empty();
    assert(rows_text(none) =~= Seq::<char>::empty());
    if row_start < cells.len() {
        assert(chunks(left, per_row) =~= seq![left] + none);
        lemma_rows_text_first(left, none);
    }
}

/// One more cell on the row that began at `row_start`.
proof fn lemma_cell_added(
    cells: Seq<Seq<char>>,
    done: Seq<char>,
    row_start: int,
    i: int,
    before: Seq<char>,
    after: Seq<char>,
)
    requires
        0 <= row_start <= i < cells.len(),
        before == done + cells.subrange(row_start, i).flatten(),
        after == before + cells[i],
    ensures
        after == done + cells.subrange(row_start, i + 1).flatten(),
{
    let row = cells.subrange(row_start, i);
    assert(cells.subrange(row_start, i + 1) =~= row.push(cells[i]));
    row.lemma_flatten_push(cells[i]);
    assert(after =~= done + cells.subrange(row_start, i + 1).flatten());
}

/// The row that began at `row_start` is full with cell `i` and ends with a
/// newline: what is left to come are the rows from cell `i + 1` on.
proof fn lemma_row_closed(
    cells: Seq<Seq<char>>,
    per_row: nat,
    done: Seq<char>,
    row_start: int,
    i: int,
    after: Seq<char>,
)
    requires
        per_row > 0,
        0 <= row_start,
        i + 1 == row_start + per_row,
        i + 1 <= cells.len(),
        after == done + cells.subrange(row_start, i + 1).flatten() + NEWLINE@,
    ensures
        done + rows_text(chunks(cells.skip(row_start), per_row)) == after + rows_text(
            chunks(cells.skip(i + 1), per_row),
        ),
        after == after + cells.subrange(i + 1, i + 1).flatten(),
{
    lemma_chunks_full_row(cells, per_row, row_start, i + 1);
    let row = cells.subrange(row_start, i + 1);
    let rest = rows_text(chunks(cells.skip(i + 1), per_row));
    assert(after =~= done + row_text(row));
    assert(done + (row_text(row) + rest) =~= (done + row_text(row)) + rest);
    assert(cells.subrange(i + 1, i + 1) =~= Seq::<Seq<char>>::empty());
    assert(after + Seq::<Seq<char>>::empty().flatten() =~= after);
}

/// After the last cell: the row that began at `row_start`, if it holds a
/// cell, still lacks its newline.
proof fn lemma_last_row(
    cells: Seq<Seq<char>>,
    per_row: nat,
    done: Seq<char>,
    row_start: int,
    out: Seq<char>,
)
    requires
        per_row > 0,
        0 <= row_start <= cells.len(),
        cells.len() - row_start < per_row,
        out == done + cells.subrange(row_start, cells.len() as int).flatten(),
    ensures
        done + rows_text(chunks(cells.skip(row_start), per_row)) == if row_start == cells.len() {
            out
        } else {
            out + NEWLINE@
        },
{
    let left = cells.skip(row_start);
    assert(cells.subrange(row_start, cells.len() as int) =~= left);
    lemma_chunks_short_row(cells, per_row, row_start);
    if row_start == cells.len() {
        assert(left.flatten() =~= Seq::<char>::empty());
        assert(done + Seq::<char>::empty() =~= done);
        assert(out =~= done);
    } else {
        assert(done + (left.flatten() + NEWLINE@) =~= (done + left.flatten()) + NEWLINE@);
    }
}

/// The line holds no cell exactly when its length is 0, and one more cell
/// makes it one column longer.
proof fn lemma_line_length(col: int, column: nat)
    requires
        col >= 0,
        column > 0,
    ensures
        (col * column == 0) <==> col == 0,
        (col + 1) * column == col * column + column,
        0 * column == 0,
{
    assert((col * column == 0) <==> col == 0) by (nonlinear_arith)
        requires
            col >= 0,
            column > 0,
    ;
    assert((col + 1) * column == col * column + column) by (nonlinear_arith);
    assert(0 * column == 0) by (nonlinear_arith);
}

/// The spaces behind a name, as `string_pad` makes them from nothing.
proof fn lemma_padding(count: nat)
    ensures
        padded(Seq::<char>::empty(), count, ' ') == repeated(' ', count),
{
    lemma_space_width();
    assert(byte_len(Seq::<char>::empty()) == 0);
    assert(Seq::<char>::empty() + repeated(' ', count) =~= repeated(' ', count));
}

/// The grid: every name padded to the shared cell width, a newline after
/// the last cell of each row.
#[verifier::spinoff_prover]
fn render_grid(entries: &Vec<FormattedEntry>, config: &Config, term_width: u16) -> (out: String)
    requires
        !config.one_per_line,
    ensures
        out@ == rows_text(listing_rows(entry_views(entries@), *config, term_width as nat)),
{
    let ghost views = entry_views(entries@);
    let ghost column = column_width(views);
    let ghost per_row = columns_per_row(column, term_width as nat);
    let ghost cells = grid_cells(views, *config, term_width as nat);
    let ghost total = rows_text(chunks(cells, per_row));
    // the text of the rows that are done, and where the row at hand began
    let ghost done: Seq<char> = Seq::empty();
    let ghost row_start: int = 0;

    let longest = longest_entry(entries);
    // wide enough that no sum below overflows
    let col_width: u128 = longest as u128 + GUTTER_WIDTH as u128;
    let width: u128 = term_width as u128;
    let visible: u128 = if width < col_width {
        width
    } else {
        col_width
    };
    let mut line_length: u128 = 0;
    let mut out = String::new();
    let mut i: usize = 0;
    proof {
        assert(cells.skip(0) =~= cells);
        assert(cells.subrange(0, 0) =~= Seq::<Seq<char>>::empty());
        assert(done + cells.subrange(0, 0).flatten() =~= Seq::<char>::empty());
        assert(done + total =~= total);
        lemma_line_length(0, column);
    }
    while i < entries.len()
        invariant
            views == entry_views(entries@),
            cells == grid_cells(views, *config, term_width as nat),
            column == column_width(views),
            per_row == columns_per_row(column, term_width as nat),
            col_width == column,
            col_width <= usize::MAX + 3,
            width == term_width,
            visible == cell_width(column, term_width as nat),
            0 <= row_start <= i <= entries@.len(),
            i - row_start < per_row,
            line_length == (i - row_start) * column,
            line_length <= width,
            total == done + rows_text(chunks(cells.skip(row_start), per_row)),
            out@ == done + cells.subrange(row_start, i as int).flatten(),
        decreases entries@.len() - i,
    {
        let entry = &entries[i];
        let raw_len = byte_length(entry.raw_output.as_str()) as u128;
        let text = if config.show_color {
            &entry.colored_output
        } else {
            &entry.raw_output
        };
        let pad: usize = if visible > raw_len {
            (visible - raw_len) as usize
        } else {
            0
        };
        let padding = string_pad(String::new(), pad, ' ');
        let ghost before = out@;
        out.append(text.as_str());
        out.append(padding.as_str());
        proof {
            lemma_padding(pad as nat);
            assert(views[i as int] == entries@[i as int]@);
            assert(cells[i as int] == cell(views[i as int], *config, column, term_width as nat));
            assert(out@ =~= before + cells[i as int]);
            lemma_cell_added(cells, done, row_start, i as int, before, out@);
            lemma_row_ends(column, term_width as nat, (i - row_start) as nat);
            lemma_line_length(i - row_start, column);
        }
        line_length = line_length + col_width;
        if width < line_length || width - line_length < col_width {
            out.append(NEWLINE);
            line_length = 0;
            proof {
                lemma_row_closed(cells, per_row, done, row_start, i as int, out@);
                done = out@;
                row_start = i + 1;
                lemma_line_length(0, column);
            }
        }
        i += 1;
    }
    proof {
        lemma_last_row(cells, per_row, done, row_start, out@);
        lemma_line_length(i - row_start, column);
    }
    if line_length != 0 {
        out.append(NEWLINE);
    }
    out
}

/// Lays the entries out for a terminal of `term_width` columns: one on each
/// line where the configuration asks for it, else in a grid.
pub fn render_entries(entries: &Vec<FormattedEntry>, config: &Config, term_width: u16) -> (out:
    String)
    ensures
        out@ == listing_text(entry_views(entries@), *config, term_width as nat),
{
    if config.one_per_line {
        render_lines(entries, config)
    } else {
        render_grid(entries, config, term_width)
    }
}

/// Lays the entries out for the terminal behind standard output, or for 80
/// columns where its width cannot be had.
pub fn print_entries(entries: Vec<FormattedEntry>, config: Config) -> (out: String)
    ensures
        exists|columns: Option<u16>|
            out@ == listing_text(
                entry_views(entries@),
                config,
                #[trigger] width_or_default(columns) as nat,
            ),
{
    let columns = terminal_columns();
    let term_width = terminal_width(columns);
    render_entries(&entries, &config, term_width)
}

/// No raw name is longer than the longest.
pub proof fn lemma_longest_name_bounds(entries: Seq<EntryView>, i: int)
    requires
        0 <= i < entries.len(),
    ensures
        byte_len(entries[i].raw) <= longest_name(entries),
    decreases entries.len(),
{
    if i < entries.len() - 1 {
        lemma_longest_name_bounds(entries.drop_last(), i);
    }
}

/// The byte length of a cell without color: the cell width, or the length
/// of the name where the name is as long or longer.
pub proof fn lemma_cell_length(entry: EntryView, config: Config, column: nat, terminal: nat)
    requires
        !config.show_color,
    ensures
        byte_len(cell(entry, config, column, terminal)) == if byte_len(entry.raw) < cell_width(
            column,
            terminal,
        ) {
            cell_width(column, terminal)
        } else {
            byte_len(entry.raw)
        },
{
    let count = cell_padding(byte_len(entry.raw), column, terminal);
    lemma_byte_len_concat(entry.raw, repeated(' ', count));
    lemma_byte_len_repeated(' ', count);
    lemma_space_width();
    assert(count * 1 == count) by (nonlinear_arith);
}

/// Cells of one byte length, one after the other, take that length times
/// their number.
pub proof fn lemma_flatten_length(cells: Seq<Seq<char>>, width: nat)
    requires
        forall|i: int| 0 <= i < cells.len() ==> byte_len(#[trigger] cells[i]) == width,
    ensures
        byte_len(cells.flatten()) == cells.len() * width,
    decreases cells.len(),
{
    if cells.len() == 0 {
        assert(cells.flatten() =~= Seq::<char>::empty());
        assert(byte_len(Seq::<char>::empty()) == 0);
        assert(0 * width == 0) by (nonlinear_arith);
    } else {
        let front = cells.drop_last();
        assert forall|i: int| 0 <= i < front.len() implies byte_len(#[trigger] front[i])
            == width by {
            assert(front[i] == cells[i]);
        }
        lemma_flatten_length(front, width);
        assert(cells =~= front.push(cells.last()));
        front.lemma_flatten_push(cells.last());
        lemma_byte_len_concat(front.flatten(), cells.last());
        assert(cells.len() * width == front.len() * width + width) by (nonlinear_arith)
            requires
                cells.len() == front.len() + 1,
        ;
    }
}

/// The shape of the rows: every row but the last is full, the last holds
/// at least one cell, and cell `c` of row `r` is cell `r * per_row + c` of
/// the listing.
pub proof fn lemma_chunks_shape(cells: Seq<Seq<char>>, per_row: nat)
    requires
        per_row > 0,
    ensures
        forall|r: int|
            0 <= r < chunks(cells, per_row).len() ==> 1 <= (#[trigger] chunks(
                cells,
                per_row,
            )[r]).len() <= per_row,
        forall|r: int|
            0 <= r < chunks(cells, per_row).len() - 1 ==> (#[trigger] chunks(
                cells,
                per_row,
            )[r]).len() == per_row,
        forall|r: int|
            0 <= r < chunks(cells, per_row).len() ==> r * per_row + (#[trigger] chunks(
                cells,
                per_row,
            )[r]).len() <= cells.len(),
        forall|r: int, c: int|
            0 <= r < chunks(cells, per_row).len() && 0 <= c < chunks(cells, per_row)[r].len()
                ==> (#[trigger] chunks(cells, per_row)[r][c]) == cells[r * per_row + c],
    decreases cells.len(),
{
    let rows = chunks(cells, per_row);
    if cells.len() == 0 {
    } else if cells.len() <= per_row {
        assert(0 * per_row == 0) by (nonlinear_arith);
    } else {
        let rest = cells.skip(per_row as int);
        let below = chunks(rest, per_row);
        lemma_chunks_shape(rest, per_row);
        assert(rows == seq![cells.take(per_row as int)] + below);
        assert(0 * per_row == 0) by (nonlinear_arith);
        assert forall|r: int| 0 <= r < rows.len() implies 1 <= (#[trigger] rows[r]).len()
            <= per_row by {
            if r > 0 {
                assert(rows[r] == below[r - 1]);
            }
        }
        assert forall|r: int| 0 <= r < rows.len() - 1 implies (#[trigger] rows[r]).len()
            == per_row by {
            if r > 0 {
                assert(rows[r] == below[r - 1]);
            }
        }
        assert forall|r: int| 0 <= r < rows.len() implies r * per_row + (#[trigger] rows[r]).len()
            <= cells.len() by {
            if r > 0 {
                assert(rows[r] == below[r - 1]);
                assert(r * per_row == (r - 1) * per_row + per_row) by (nonlinear_arith);
            }
        }
        assert forall|r: int, c: int|
            0 <= r < rows.len() && 0 <= c < rows[r].len() implies (#[trigger] rows[r][c])
            == cells[r * per_row + c] by {
            if r > 0 {
                assert(rows[r] == below[r - 1]);
                assert(below[r - 1][c] == rest[(r - 1) * per_row + c]);
                assert(r * per_row == (r - 1) * per_row + per_row) by (nonlinear_arith);
            }
        }
    }
}

/// How many entries stand on a full row of a listing.
pub open spec fn entries_per_row(entries: Seq<EntryView>, config: Config, terminal: nat) -> nat {
    if config.one_per_line {
        1
    } else {
        columns_per_row(column_width(entries), terminal)
    }
}

/// A listing keeps its columns. Without color, every cell but the last of
/// its row is exactly one column wide, so that each line up to its last
/// cell is a whole number of columns long; and a cell is wider than the
/// terminal only where the name in it is. In a grid whose columns fit the
/// terminal at all, every cell is one column wide and no line is longer
/// than the terminal is wide.
pub proof fn lemma_listing_keeps_columns(entries: Seq<EntryView>, config: Config, terminal: nat)
    requires
        !config.show_color,
    ensures
        ({
            let rows = listing_rows(entries, config, terminal);
            let column = column_width(entries);
            let per_row = entries_per_row(entries, config, terminal);
            &&& forall|r: int, c: int|
                0 <= r < rows.len() && 0 <= c < rows[r].len() - 1 ==> byte_len(
                    #[trigger] rows[r][c],
                ) == column
            &&& forall|r: int|
                0 <= r < rows.len() ==> byte_len((#[trigger] rows[r]).drop_last().flatten()) == (
                rows[r].len() - 1) * column
            &&& forall|r: int|
                0 <= r < rows.len() ==> r * per_row + (#[trigger] rows[r]).len() <= entries.len()
            &&& forall|r: int, c: int|
                0 <= r < rows.len() && 0 <= c < rows[r].len() && byte_len(
                    entries[r * per_row + c].raw,
                ) <= terminal ==> byte_len(#[trigger] rows[r][c]) <= terminal
            &&& !config.one_per_line && column <= terminal ==> forall|r: int|
                0 <= r < rows.len() ==> byte_len((#[trigger] rows[r]).flatten()) == rows[r].len()
                    * column && byte_len(rows[r].flatten()) <= terminal
        }),
{
    let rows = listing_rows(entries, config, terminal);
    let column = column_width(entries);
    if config.one_per_line {
        assert forall|r: int| 0 <= r < rows.len() implies {
            &&& rows[r] == seq![entries[r].raw]
            &&& byte_len((#[trigger] rows[r]).drop_last().flatten()) == (rows[r].len() - 1)
                * column
            &&& r * 1 + rows[r].len() <= entries.len()
        } by {
            assert(rows[r].drop_last() =~= Seq::<Seq<char>>::empty());
            assert(rows[r].drop_last().flatten() =~= Seq::<char>::empty());
            assert(byte_len(Seq::<char>::empty()) == 0);
            assert(0 * column == 0) by (nonlinear_arith);
        }
        assert forall|r: int, c: int|
            0 <= r < rows.len() && 0 <= c < rows[r].len() && byte_len(entries[r * 1 + c].raw)
                <= terminal implies byte_len(#[trigger] rows[r][c]) <= terminal by {
            assert(rows[r] == seq![entries[r].raw]);
        }
    } else {
        let per_row = columns_per_row(column, terminal);
        let cells = grid_cells(entries, config, terminal);
        let rows = chunks(cells, per_row);
        assert(rows == listing_rows(entries, config, terminal));
        lemma_chunks_shape(cells, per_row);
        let t = terminal as int;
        let w = column as int;
        let q = t / w;
        vstd::arithmetic::div_mod::lemma_fundamental_div_mod(t, w);
        vstd::arithmetic::div_mod::lemma_mod_bound(t, w);
        vstd::arithmetic::div_mod::lemma_div_pos_is_pos(t, w);
        assert(q * w <= t) by (nonlinear_arith)
            requires
                t == w * q + t % w,
                0 <= t % w,
        ;
        // more than one cell on a row only where two columns fit the terminal
        assert(per_row >= 2 ==> w <= t) by (nonlinear_arith)
            requires
                per_row >= 2 ==> per_row == q,
                q * w <= t,
                w > 0,
        ;
        assert forall|r: int, c: int| 0 <= r < rows.len() && 0 <= c < rows[r].len() implies {
            &&& byte_len(#[trigger] rows[r][c]) == if byte_len(entries[r * per_row + c].raw)
                < cell_width(column, terminal) {
                cell_width(column, terminal)
            } else {
                byte_len(entries[r * per_row + c].raw)
            }
            &&& byte_len(entries[r * per_row + c].raw) < column
        } by {
            let i = r * per_row + c;
            assert(r * per_row + rows[r].len() <= cells.len());
            assert(rows[r][c] == cells[i]);
            lemma_cell_length(entries[i], config, column, terminal);
            lemma_longest_name_bounds(entries, i);
        }
        assert forall|r: int| 0 <= r < rows.len() implies byte_len(
            (#[trigger] rows[r]).drop_last().flatten(),
        ) == (rows[r].len() - 1) * column by {
            let front = rows[r].drop_last();
            assert forall|c: int| 0 <= c < front.len() implies byte_len(#[trigger] front[c])
                == column by {
                assert(front[c] == rows[r][c]);
            }
            lemma_flatten_length(front, column);
        }
        if column <= terminal {
            assert forall|r: int| 0 <= r < rows.len() implies byte_len(
                (#[trigger] rows[r]).flatten(),
            ) == rows[r].len() * column && byte_len(rows[r].flatten()) <= terminal by {
                assert forall|c: int| 0 <= c < rows[r].len() implies byte_len(
                    #[trigger] rows[r][c],
                ) == column by {}
                lemma_flatten_length(rows[r], column);
                assert(rows[r].len() * w <= t) by (nonlinear_arith)
                    requires
                        0 <= rows[r].len() <= per_row,
                        per_row == q,
                        q * w <= t,
                        w > 0,
                ;
            }
        }
    }
}

/// One entry on each line: the listing has as many lines as entries, and
/// line `i` holds the display text of entry `i` and nothing else.
pub proof fn lemma_one_per_line(entries: Seq<EntryView>, config: Config, terminal: nat)
    requires
        config.one_per_line,
    ensures
        listing_rows(entries, config, terminal).len() == entries.len(),
        forall|i: int|
            0 <= i < entries.len() ==> {
                &&& (#[trigger] listing_rows(entries, config, terminal)[i]) == seq![
                    display_text(entries[i], config),
                ]
                &&& row_text(listing_rows(entries, config, terminal)[i]) == display_text(
                    entries[i],
                    config,
                ) + NEWLINE@
            },
{
    assert forall|i: int| 0 <= i < entries.len() implies row_text(
        #[trigger] listing_rows(entries, config, terminal)[i],
    ) == display_text(entries[i], config) + NEWLINE@ by {
        listing_rows(entries, config, terminal)[i].lemma_flatten_one_element();
    }
}

/// Where there are no entries there is no output.
pub proof fn lemma_empty_listing(config: Config, terminal: nat)
    ensures
        listing_text(Seq::<EntryView>::empty(), config, terminal) == Seq::<char>::empty(),
{
    let entries = Seq::<EntryView>::empty();
    let rows = listing_rows(entries, config, terminal);
    assert(grid_cells(entries, config, terminal) =~= Seq::<Seq<char>>::empty());
    assert(rows =~= Seq::<Seq<Seq<char>>>::empty());
    assert(rows_text(rows) =~= Seq::<char>::empty());
}

} // verus!
