//! Tables drawn with Unicode box characters, each column padded to its widest cell.
use vstd::prelude::*;
use crate::style::{
    bold_code, lemma_sgr_invisible, lemma_sgr_is_code, lemma_style_codes, reset_code, BOLD, RESET,
};
use crate::text::{
    append_copies, code_scan, copies, is_escape, last_code, lemma_code_scan_concat,
    lemma_copies_quiet, lemma_quiet_code_scan, quiet, ScanState, lemma_copies_visible, lemma_plain_visible,
    lemma_visible_concat, lemma_visible_concat3,
    append_spaces, ends_in_escape, lemma_copies_char, lemma_spaces_visible, spaces, visible_len,
    visible_text,
};

verus! {

/// How the text of a table column sits inside its width.
#[derive(Clone, Copy, Debug, PartialEq, Eq)]
pub enum Alignment {
    /// No alignment given: the text starts at the left edge.
    Unspecified,
    Left,
    Center,
    Right,
}

/// `styled` padded with blanks to `width` visible characters: before it for `Right`, half
/// before and the rest after for `Center` (the odd blank goes after), after it otherwise.
/// Text already as wide as `width` is left as it is.
pub open spec fn padded(styled: Seq<char>, width: nat, alignment: Alignment) -> Seq<char> {
    let vis = visible_text(styled).len();
    if vis >= width {
        styled
    } else {
        let padding = (width - vis) as nat;
        match alignment {
            Alignment::Right => spaces(padding) + styled,
            Alignment::Center => spaces(padding / 2) + styled + spaces((padding - padding / 2) as nat),
            _ => styled + spaces(padding),
        }
    }
}

/// Pads a styled string to `width` visible characters according to `alignment`.
pub fn pad_cell(styled: &str, width: usize, alignment: &Alignment) -> (out: String)
    ensures
        out@ == padded(styled@, width as nat, *alignment),
{
    let vis = visible_len(styled);
    if vis >= width {
        return styled.to_owned();
    }
    let padding = width - vis;
    let mut out = String::new();
    match alignment {
        Alignment::Right => {
            append_spaces(&mut out, padding);
            out.append(styled);
        },
        Alignment::Center => {
            let left = padding / 2;
            let right = padding - left;
            append_spaces(&mut out, left);
            out.append(styled);
            append_spaces(&mut out, right);
        },
        _ => {
            out.append(styled);
            append_spaces(&mut out, padding);
        },
    }
    out
}

/// A padded cell shows exactly as many characters as the wider of its text and the column,
/// and padding leaves no escape sequence open that the text did not leave open. The text
/// must not itself end inside an escape sequence, or blanks put after it would not show.
pub proof fn lemma_padded_width(styled: Seq<char>, width: nat, alignment: Alignment)
    requires
        !ends_in_escape(styled),
    ensures
        visible_text(padded(styled, width, alignment)).len() == if visible_text(styled).len()
            >= width {
            visible_text(styled).len()
        } else {
            width
        },
        !ends_in_escape(padded(styled, width, alignment)),
{
    let vis = visible_text(styled).len();
    if vis < width {
        let p = (width - vis) as nat;
        lemma_spaces_visible(p);
        lemma_spaces_visible(p / 2);
        lemma_spaces_visible((p - p / 2) as nat);
        match alignment {
            Alignment::Right => {
                lemma_visible_concat(spaces(p), styled);
            },
            Alignment::Center => {
                lemma_visible_concat(spaces(p / 2), styled);
                lemma_visible_concat(spaces(p / 2) + styled, spaces((p - p / 2) as nat));
            },
            _ => {
                lemma_visible_concat(styled, spaces(p));
            },
        }
    }
}

/// A table being read: its column alignments, the rows finished so far (the header row
/// first), and the row and cell being filled.
pub struct TableState {
    pub alignments: Vec<Alignment>,
    pub rows: Vec<Vec<String>>,
    pub current_row: Vec<String>,
    pub current_cell: String,
}

/// A table as plain text values.
pub struct SpecTable {
    pub alignments: Seq<Alignment>,
    pub rows: Seq<Seq<Seq<char>>>,
    pub current_row: Seq<Seq<char>>,
    pub current_cell: Seq<char>,
}

/// The text of each cell.
pub open spec fn cells_view(cells: Seq<String>) -> Seq<Seq<char>> {
    cells.map_values(|c: String| c@)
}

/// The text of each cell of each row.
pub open spec fn rows_view(rows: Seq<Vec<String>>) -> Seq<Seq<Seq<char>>> {
    rows.map_values(|r: Vec<String>| cells_view(r@))
}

impl View for TableState {
    type V = SpecTable;

    open spec fn view(&self) -> SpecTable {
        SpecTable {
            alignments: self.alignments@,
            rows: rows_view(self.rows@),
            current_row: cells_view(self.current_row@),
            current_cell: self.current_cell@,
        }
    }
}

/// The width of column `i`: the most characters that any cell of it shows (0 when no row
/// reaches that column).
pub open spec fn column_width(rows: Seq<Seq<Seq<char>>>, i: int) -> nat
    decreases rows.len(),
{
    if rows.len() == 0 {
        0
    } else {
        let w = column_width(rows.drop_last(), i);
        let row = rows.last();
        if 0 <= i < row.len() && visible_text(row[i]).len() > w {
            visible_text(row[i]).len()
        } else {
            w
        }
    }
}

/// A run of `n` horizontal box lines.
pub open spec fn dashes(n: nat) -> Seq<char> {
    copies(seq!['─'], n)
}

/// The first `k` of `n` column segments of a border line: each column's dashes (two more
/// than its width) followed by `mid`, or by `right` after the last column.
pub open spec fn border_cells(
    rows: Seq<Seq<Seq<char>>>,
    n: nat,
    k: nat,
    mid: Seq<char>,
    right: Seq<char>,
) -> Seq<char>
    decreases k,
{
    if k == 0 {
        Seq::empty()
    } else {
        border_cells(rows, n, (k - 1) as nat, mid, right) + dashes(
            column_width(rows, k - 1) + 2,
        ) + if k < n {
            mid
        } else {
            right
        }
    }
}

/// A whole border line of a table with `n` columns, ended by a newline.
pub open spec fn border_line(
    rows: Seq<Seq<Seq<char>>>,
    n: nat,
    left: Seq<char>,
    mid: Seq<char>,
    right: Seq<char>,
) -> Seq<char> {
    left + border_cells(rows, n, n, mid, right) + seq!['\n']
}

/// Cell `i` of `row`, or nothing when the row is shorter.
pub open spec fn cell_at(row: Seq<Seq<char>>, i: int) -> Seq<char> {
    if 0 <= i < row.len() {
        row[i]
    } else {
        Seq::empty()
    }
}

/// Cell `i` of a row as drawn: the padded text between a blank and ` │`, in bold when the
/// row is the header.
pub open spec fn cell_text(
    alignments: Seq<Alignment>,
    rows: Seq<Seq<Seq<char>>>,
    row: Seq<Seq<char>>,
    i: int,
    header: bool,
) -> Seq<char> {
    let aligned = padded(cell_at(row, i), column_width(rows, i), alignments[i]);
    if header {
        seq![' '] + bold_code() + aligned + reset_code() + seq![' ', '│']
    } else {
        seq![' '] + aligned + seq![' ', '│']
    }
}

/// The first `k` cells of a row as drawn.
pub open spec fn row_cells(
    alignments: Seq<Alignment>,
    rows: Seq<Seq<Seq<char>>>,
    row: Seq<Seq<char>>,
    header: bool,
    k: nat,
) -> Seq<char>
    decreases k,
{
    if k == 0 {
        Seq::empty()
    } else {
        row_cells(alignments, rows, row, header, (k - 1) as nat) + cell_text(
            alignments,
            rows,
            row,
            k - 1,
            header,
        )
    }
}

/// One row of the table as a line: one cell per column, whatever the row's own length.
pub open spec fn row_line(
    alignments: Seq<Alignment>,
    rows: Seq<Seq<Seq<char>>>,
    row: Seq<Seq<char>>,
    header: bool,
) -> Seq<char> {
    seq!['│'] + row_cells(alignments, rows, row, header, alignments.len()) + seq!['\n']
}

/// The first `k` rows as drawn, with the separator line after the header row.
pub open spec fn rows_text(alignments: Seq<Alignment>, rows: Seq<Seq<Seq<char>>>, k: nat) -> Seq<
    char,
>
    decreases k,
{
    if k == 0 {
        Seq::empty()
    } else {
        let i = k - 1;
        rows_text(alignments, rows, (k - 1) as nat) + row_line(alignments, rows, rows[i], i == 0)
            + if i == 0 {
            border_line(rows, alignments.len(), seq!['├'], seq!['┼'], seq!['┤'])
        } else {
            Seq::empty()
        }
    }
}

/// The whole table: top border, rows, bottom border and a blank line.
pub open spec fn table_text(alignments: Seq<Alignment>, rows: Seq<Seq<Seq<char>>>) -> Seq<char> {
    border_line(rows, alignments.len(), seq!['┌'], seq!['┬'], seq!['┐']) + rows_text(
        alignments,
        rows,
        rows.len(),
    ) + border_line(rows, alignments.len(), seq!['└'], seq!['┴'], seq!['┘']) + seq!['\n']
}

/// The width of each of the first `num_cols` columns.
fn column_widths(rows: &Vec<Vec<String>>, num_cols: usize) -> (widths: Vec<usize>)
    ensures
        widths@.len() == num_cols,
        forall|j: int| 0 <= j < num_cols ==> widths@[j] == column_width(rows_view(rows@), j),
{
    let ghost all = rows_view(rows@);
    let mut widths: Vec<usize> = Vec::new();
    let mut j: usize = 0;
    while j < num_cols
        invariant
            j <= num_cols,
            widths@.len() == j,
            forall|m: int| 0 <= m < j ==> widths@[m] == 0,
        decreases num_cols - j,
    {
        widths.push(0);
        j = j + 1;
    }
    proof {
        assert(all.take(0) =~= Seq::<Seq<Seq<char>>>::empty());
    }
    let mut r: usize = 0;
    while r < rows.len()
        invariant
            all == rows_view(rows@),
            r <= rows.len(),
            widths@.len() == num_cols,
            forall|m: int| 0 <= m < num_cols ==> widths@[m] == column_width(all.take(r as int), m),
        decreases rows.len() - r,
    {
        let row = &rows[r];
        let ghost prev = all.take(r as int);
        let ghost cur = all.take(r + 1);
        proof {
            assert(cur.drop_last() =~= prev);
            assert(cur.last() == cells_view(row@));
        }
        let mut i: usize = 0;
        while i < row.len()
            invariant
                all == rows_view(rows@),
                r < rows.len(),
                row == rows@[r as int],
                prev == all.take(r as int),
                cur == all.take(r + 1),
                cur.drop_last() == prev,
                cur.last() == cells_view(row@),
                i <= row.len(),
                widths@.len() == num_cols,
                forall|m: int|
                    0 <= m < num_cols ==> widths@[m] == if m < i {
                        column_width(cur, m)
                    } else {
                        column_width(prev, m)
                    },
            decreases row.len() - i,
        {
            if i < num_cols {
                let w = visible_len(row[i].as_str());
                if w > widths[i] {
                    widths.set(i, w);
                }
            }
            i = i + 1;
        }
        r = r + 1;
    }
    proof {
        assert(all.take(rows.len() as int) =~= all);
    }
    widths
}

/// Appends a run of `width + 2` horizontal box lines.
fn append_dashes(out: &mut String, width: usize)
    ensures
        final(out)@ == old(out)@ + dashes((width + 2) as nat),
{
    proof {
        reveal_strlit("─");
        assert("─"@ =~= seq!['─']);
        reveal_with_fuel(copies, 3);
        assert(copies(seq!['─'], 2) =~= seq!['─', '─']);
    }
    let ghost start = out@;
    out.append("─");
    out.append("─");
    let mut k: usize = 0;
    while k < width
        invariant
            k <= width,
            "─"@ == seq!['─'],
            out@ == start + dashes((k + 2) as nat),
        decreases width - k,
    {
        out.append("─");
        k = k + 1;
    }
}

/// Appends a border line with the given corner and junction pieces.
fn append_border(
    out: &mut String,
    widths: &Vec<usize>,
    Ghost(rows): Ghost<Seq<Seq<Seq<char>>>>,
    left: &str,
    mid: &str,
    right: &str,
)
    requires
        forall|j: int| 0 <= j < widths@.len() ==> widths@[j] == column_width(rows, j),
    ensures
        final(out)@ == old(out)@ + border_line(rows, widths@.len() as nat, left@, mid@, right@),
{
    let ghost start = out@;
    let n = widths.len();
    out.append(left);
    let mut i: usize = 0;
    while i < n
        invariant
            n == widths@.len(),
            i <= n,
            forall|j: int| 0 <= j < widths@.len() ==> widths@[j] == column_width(rows, j),
            out@ == start + left@ + border_cells(rows, n as nat, i as nat, mid@, right@),
        decreases n - i,
    {
        append_dashes(out, widths[i]);
        if i + 1 < n {
            out.append(mid);
        } else {
            out.append(right);
        }
        i = i + 1;
    }
    proof {
        reveal_strlit("\n");
        assert("\n"@ =~= seq!['\n']);
    }
    out.append("\n");
}

/// Cell `i` of a row, drawn.
fn cell_piece(
    cell: &str,
    width: usize,
    alignment: &Alignment,
    header: bool,
) -> (piece: String)
    ensures
        piece@ == if header {
            seq![' '] + bold_code() + padded(cell@, width as nat, *alignment) + reset_code() + seq![
                ' ',
                '│',
            ]
        } else {
            seq![' '] + padded(cell@, width as nat, *alignment) + seq![' ', '│']
        },
{
    proof {
        lemma_style_codes();
        reveal_strlit(" ");
        reveal_strlit(" │");
    }
    let aligned = pad_cell(cell, width, alignment);
    let mut piece = String::new();
    piece.append(" ");
    if header {
        piece.append(BOLD);
        piece.append(aligned.as_str());
        piece.append(RESET);
    } else {
        piece.append(aligned.as_str());
    }
    piece.append(" │");
    proof {
        if header {
            assert(piece@ =~= seq![' '] + bold_code() + aligned@ + reset_code() + seq![' ', '│']);
        } else {
            assert(piece@ =~= seq![' '] + aligned@ + seq![' ', '│']);
        }
    }
    piece
}

/// Appends one row of the table as a line.
fn append_row(
    out: &mut String,
    alignments: &Vec<Alignment>,
    widths: &Vec<usize>,
    row: &Vec<String>,
    header: bool,
    Ghost(rows): Ghost<Seq<Seq<Seq<char>>>>,
)
    requires
        widths@.len() == alignments@.len(),
        forall|j: int| 0 <= j < widths@.len() ==> widths@[j] == column_width(rows, j),
    ensures
        final(out)@ == old(out)@ + row_line(alignments@, rows, cells_view(row@), header),
{
    proof {
        reveal_strlit("│");
        reveal_strlit("");
        reveal_strlit("\n");
    }
    let ghost start = out@;
    let ghost cells = cells_view(row@);
    let n = widths.len();
    let mut line = String::new();
    line.append("│");
    let mut i: usize = 0;
    while i < n
        invariant
            n == widths@.len(),
            n == alignments@.len(),
            i <= n,
            cells == cells_view(row@),
            forall|j: int| 0 <= j < widths@.len() ==> widths@[j] == column_width(rows, j),
            line@ == seq!['│'] + row_cells(alignments@, rows, cells, header, i as nat),
            ""@ == Seq::<char>::empty(),
        decreases n - i,
    {
        let cell: &str = if i < row.len() {
            row[i].as_str()
        } else {
            ""
        };
        assert(cell@ == cell_at(cells, i as int));
        let piece = cell_piece(cell, widths[i], &alignments[i], header);
        assert(piece@ == cell_text(alignments@, rows, cells, i as int, header));
        line.append(piece.as_str());
        proof {
            assert(row_cells(alignments@, rows, cells, header, (i + 1) as nat) == row_cells(
                alignments@,
                rows,
                cells,
                header,
                i as nat,
            ) + cell_text(alignments@, rows, cells, i as int, header));
            assert(line@ =~= seq!['│'] + row_cells(
                alignments@,
                rows,
                cells,
                header,
                (i + 1) as nat,
            ));
        }
        i = i + 1;
    }
    line.append("\n");
    out.append(line.as_str());
    proof {
        assert(out@ =~= start + row_line(alignments@, rows, cells, header));
    }
}

/// Draws a finished table: a top border, the header row in bold, a separator, the other
/// rows, a bottom border and a blank line. Every row gets one cell per alignment.
pub fn render_table(table: &TableState) -> (out: String)
    ensures
        out@ == table_text(table.alignments@, rows_view(table.rows@)),
{
    proof {
        reveal_strlit("┌");
        assert("┌"@ =~= seq!['┌']);
        reveal_strlit("┬");
        assert("┬"@ =~= seq!['┬']);
        reveal_strlit("┐");
        assert("┐"@ =~= seq!['┐']);
        reveal_strlit("├");
        assert("├"@ =~= seq!['├']);
        reveal_strlit("┼");
        assert("┼"@ =~= seq!['┼']);
        reveal_strlit("┤");
        assert("┤"@ =~= seq!['┤']);
    }
    let ghost rows = rows_view(table.rows@);
    let ghost aligns = table.alignments@;
    let num_cols = table.alignments.len();
    let widths = column_widths(&table.rows, num_cols);
    let mut out = String::new();
    append_border(&mut out, &widths, Ghost(rows), "┌", "┬", "┐");
    let ghost top = out@;
    assert(top =~= border_line(rows, aligns.len(), seq!['┌'], seq!['┬'], seq!['┐']));
    let mut r: usize = 0;
    while r < table.rows.len()
        invariant
            rows == rows_view(table.rows@),
            aligns == table.alignments@,
            r <= table.rows.len(),
            widths@.len() == num_cols,
            num_cols == aligns.len(),
            forall|j: int| 0 <= j < num_cols ==> widths@[j] == column_width(rows, j),
            out@ == top + rows_text(aligns, rows, r as nat),
            "├"@ == seq!['├'],
            "┼"@ == seq!['┼'],
            "┤"@ == seq!['┤'],
        decreases table.rows.len() - r,
    {
        append_row(&mut out, &table.alignments, &widths, &table.rows[r], r == 0, Ghost(rows));
        if r == 0 {
            append_border(&mut out, &widths, Ghost(rows), "├", "┼", "┤");
        }
        proof {
            let k = (r + 1) as nat;
            assert(rows[r as int] == cells_view(table.rows@[r as int]@));
            assert(rows_text(aligns, rows, k) == rows_text(aligns, rows, r as nat) + row_line(
                aligns,
                rows,
                rows[r as int],
                r == 0,
            ) + if r == 0 {
                border_line(rows, aligns.len(), seq!['├'], seq!['┼'], seq!['┤'])
            } else {
                Seq::empty()
            });
            assert(out@ =~= top + rows_text(aligns, rows, k));
        }
        r = r + 1;
    }
    let ghost body = out@;
    append_border(&mut out, &widths, Ghost(rows), "└", "┴", "┘");
    out.append("\n");
    proof {
        reveal_strlit("└");
        assert("└"@ =~= seq!['└']);
        reveal_strlit("┴");
        assert("┴"@ =~= seq!['┴']);
        reveal_strlit("┘");
        assert("┘"@ =~= seq!['┘']);
        reveal_strlit("\n");
        assert("\n"@ =~= seq!['\n']);
        assert(body == top + rows_text(aligns, rows, rows.len()));
        assert(top == border_line(rows, aligns.len(), seq!['┌'], seq!['┬'], seq!['┐']));
        assert(out@ =~= table_text(aligns, rows));
    }
    out
}

/// The visible width of the first `k` columns as drawn: each column is its width plus a
/// blank on either side plus one junction.
pub open spec fn columns_width(rows: Seq<Seq<Seq<char>>>, k: nat) -> nat
    decreases k,
{
    if k == 0 {
        0
    } else {
        columns_width(rows, (k - 1) as nat) + column_width(rows, k - 1) + 3
    }
}

/// No cell of any row ends inside an escape sequence.
pub open spec fn cells_closed(rows: Seq<Seq<Seq<char>>>) -> bool {
    forall|k: int, i: int|
        0 <= k < rows.len() && 0 <= i < rows[k].len() ==> !ends_in_escape(#[trigger] rows[k][i])
}

/// A single character that is not the escape character.
pub open spec fn is_box_piece(p: Seq<char>) -> bool {
    p.len() == 1 && !is_escape(p[0])
}

/// A column is at least as wide as each of its cells.
pub proof fn lemma_column_width_covers(rows: Seq<Seq<Seq<char>>>, k: int, i: int)
    requires
        0 <= k < rows.len(),
        0 <= i < rows[k].len(),
    ensures
        visible_text(rows[k][i]).len() <= column_width(rows, i),
    decreases rows.len(),
{
    if k < rows.len() - 1 {
        lemma_column_width_covers(rows.drop_last(), k, i);
    }
}

proof fn lemma_piece_visible(p: Seq<char>)
    requires
        is_box_piece(p),
    ensures
        visible_text(p).len() == 1,
        !ends_in_escape(p),
{
    lemma_plain_visible(p);
}

proof fn lemma_border_cells_width(
    rows: Seq<Seq<Seq<char>>>,
    n: nat,
    k: nat,
    mid: Seq<char>,
    right: Seq<char>,
)
    requires
        is_box_piece(mid),
        is_box_piece(right),
    ensures
        visible_text(border_cells(rows, n, k, mid, right)).len() == columns_width(rows, k),
        !ends_in_escape(border_cells(rows, n, k, mid, right)),
    decreases k,
{
    if k == 0 {
        lemma_plain_visible(Seq::<char>::empty());
    } else {
        let prev = border_cells(rows, n, (k - 1) as nat, mid, right);
        let d = dashes(column_width(rows, k - 1) + 2);
        let j = if k < n {
            mid
        } else {
            right
        };
        lemma_border_cells_width(rows, n, (k - 1) as nat, mid, right);
        lemma_copies_visible('─', column_width(rows, k - 1) + 2);
        lemma_piece_visible(j);
        lemma_visible_concat3(prev, d, j);
    }
}

proof fn lemma_cell_text_width(
    alignments: Seq<Alignment>,
    rows: Seq<Seq<Seq<char>>>,
    row: Seq<Seq<char>>,
    i: int,
    header: bool,
)
    requires
        0 <= i < alignments.len(),
        forall|j: int| 0 <= j < row.len() ==> !ends_in_escape(#[trigger] row[j]),
        forall|j: int|
            0 <= j < row.len() ==> visible_text(#[trigger] row[j]).len() <= column_width(rows, j),
    ensures
        visible_text(cell_text(alignments, rows, row, i, header)).len() == column_width(rows, i)
            + 3,
        !ends_in_escape(cell_text(alignments, rows, row, i, header)),
{
    let cell = cell_at(row, i);
    let w = column_width(rows, i);
    if !(0 <= i < row.len()) {
        lemma_plain_visible(cell);
    }
    lemma_padded_width(cell, w, alignments[i]);
    let aligned = padded(cell, w, alignments[i]);
    let blank = seq![' '];
    let tail = seq![' ', '│'];
    lemma_plain_visible(blank);
    lemma_plain_visible(tail);
    if header {
        lemma_sgr_invisible('1');
        lemma_sgr_invisible('0');
        lemma_visible_concat3(blank, bold_code(), aligned);
        lemma_visible_concat3(blank + bold_code() + aligned, reset_code(), tail);
    } else {
        lemma_visible_concat3(blank, aligned, tail);
    }
}

proof fn lemma_row_cells_width(
    alignments: Seq<Alignment>,
    rows: Seq<Seq<Seq<char>>>,
    row: Seq<Seq<char>>,
    header: bool,
    k: nat,
)
    requires
        k <= alignments.len(),
        forall|j: int| 0 <= j < row.len() ==> !ends_in_escape(#[trigger] row[j]),
        forall|j: int|
            0 <= j < row.len() ==> visible_text(#[trigger] row[j]).len() <= column_width(rows, j),
    ensures
        visible_text(row_cells(alignments, rows, row, header, k)).len() == columns_width(rows, k),
        !ends_in_escape(row_cells(alignments, rows, row, header, k)),
    decreases k,
{
    if k == 0 {
        lemma_plain_visible(Seq::<char>::empty());
    } else {
        lemma_row_cells_width(alignments, rows, row, header, (k - 1) as nat);
        lemma_cell_text_width(alignments, rows, row, k - 1, header);
        lemma_visible_concat(
            row_cells(alignments, rows, row, header, (k - 1) as nat),
            cell_text(alignments, rows, row, k - 1, header),
        );
    }
}

/// Every line that a table draws shows the same number of characters, whether or not the
/// table has rows: each border line, whatever box pieces it is made of, and each row,
/// whether drawn as the header or not, is one character for the left edge plus, for each
/// column, its width plus three, plus the newline. This needs the cells not to end inside an escape sequence: blanks padded
/// after such a cell would not show.
pub proof fn lemma_table_lines_equal_width(
    alignments: Seq<Alignment>,
    rows: Seq<Seq<Seq<char>>>,
    left: Seq<char>,
    mid: Seq<char>,
    right: Seq<char>,
)
    requires
        cells_closed(rows),
        is_box_piece(left),
        is_box_piece(mid),
        is_box_piece(right),
    ensures
        visible_text(border_line(rows, alignments.len(), left, mid, right)).len()
            == columns_width(rows, alignments.len()) + 2,
        forall|k: int, header: bool|
            0 <= k < rows.len() ==> visible_text(
                #[trigger] row_line(alignments, rows, rows[k], header),
            ).len() == columns_width(rows, alignments.len()) + 2,
{
    let n = alignments.len();
    let newline = seq!['\n'];
    lemma_plain_visible(newline);
    lemma_piece_visible(left);
    lemma_border_cells_width(rows, n, n, mid, right);
    lemma_visible_concat3(left, border_cells(rows, n, n, mid, right), newline);
    assert forall|k: int, header: bool| 0 <= k < rows.len() implies visible_text(
        #[trigger] row_line(alignments, rows, rows[k], header),
    ).len() == columns_width(rows, n) + 2 by {
        lemma_row_line_width(alignments, rows, k, header);
    }
}

proof fn lemma_row_line_width(
    alignments: Seq<Alignment>,
    rows: Seq<Seq<Seq<char>>>,
    k: int,
    header: bool,
)
    requires
        cells_closed(rows),
        0 <= k < rows.len(),
    ensures
        visible_text(row_line(alignments, rows, rows[k], header)).len() == columns_width(
            rows,
            alignments.len(),
        ) + 2,
{
    let n = alignments.len();
    let row = rows[k];
    assert forall|j: int| 0 <= j < row.len() implies visible_text(#[trigger] row[j]).len()
        <= column_width(rows, j) by {
        lemma_column_width_covers(rows, k, j);
    }
    assert forall|j: int| 0 <= j < row.len() implies !ends_in_escape(#[trigger] row[j]) by {
        assert(!ends_in_escape(rows[k][j]));
    }
    let edge = seq!['│'];
    let newline = seq!['\n'];
    lemma_plain_visible(edge);
    lemma_plain_visible(newline);
    lemma_row_cells_width(alignments, rows, row, header, n);
    lemma_visible_concat3(edge, row_cells(alignments, rows, row, header, n), newline);
}

/// `s` ends outside any escape sequence and leaves no style in force: it has no escape
/// sequence, or its last one is the reset code.
pub open spec fn closed_off(s: Seq<char>) -> bool {
    &&& code_scan(s).0 == ScanState::Plain
    &&& (last_code(s) is None || last_code(s) == Some(reset_code()))
}

/// Every cell of every row leaves no style in force.
pub open spec fn rows_closed_off(rows: Seq<Seq<Seq<char>>>) -> bool {
    forall|k: int, i: int|
        0 <= k < rows.len() && 0 <= i < rows[k].len() ==> closed_off(#[trigger] rows[k][i])
}

/// Two texts that leave no style in force, one after the other, leave none either.
pub proof fn lemma_closed_off_concat(a: Seq<char>, b: Seq<char>)
    requires
        closed_off(a),
        closed_off(b),
    ensures
        closed_off(a + b),
{
    lemma_code_scan_concat(a, b);
}

/// Text without escape characters leaves no style in force.
pub proof fn lemma_quiet_closed_off(s: Seq<char>)
    requires
        quiet(s),
    ensures
        closed_off(s),
{
    lemma_quiet_code_scan(s);
}

proof fn lemma_padded_closed_off(cell: Seq<char>, width: nat, alignment: Alignment)
    requires
        closed_off(cell),
    ensures
        closed_off(padded(cell, width, alignment)),
{
    let vis = visible_text(cell).len();
    if vis < width {
        let p = (width - vis) as nat;
        lemma_copies_char(' ', p);
        lemma_copies_char(' ', p / 2);
        lemma_copies_char(' ', (p - p / 2) as nat);
        lemma_quiet_closed_off(spaces(p));
        lemma_quiet_closed_off(spaces(p / 2));
        lemma_quiet_closed_off(spaces((p - p / 2) as nat));
        lemma_closed_off_concat(spaces(p), cell);
        lemma_closed_off_concat(cell, spaces(p));
        lemma_closed_off_concat(spaces(p / 2), cell);
        lemma_closed_off_concat(spaces(p / 2) + cell, spaces((p - p / 2) as nat));
    }
}

proof fn lemma_cell_text_closed_off(
    alignments: Seq<Alignment>,
    rows: Seq<Seq<Seq<char>>>,
    row: Seq<Seq<char>>,
    i: int,
    header: bool,
)
    requires
        forall|j: int| 0 <= j < row.len() ==> closed_off(#[trigger] row[j]),
    ensures
        closed_off(cell_text(alignments, rows, row, i, header)),
{
    let cell = cell_at(row, i);
    if !(0 <= i < row.len()) {
        assert(quiet(cell));
        lemma_quiet_closed_off(cell);
    }
    let aligned = padded(cell, column_width(rows, i), alignments[i]);
    lemma_padded_closed_off(cell, column_width(rows, i), alignments[i]);
    let blank = seq![' '];
    let tail = seq![' ', '│'];
    assert(quiet(blank));
    assert(quiet(tail));
    lemma_quiet_closed_off(blank);
    lemma_quiet_closed_off(tail);
    if header {
        lemma_sgr_is_code('1');
        lemma_sgr_is_code('0');
        lemma_code_scan_concat(blank, bold_code());
        lemma_code_scan_concat(blank + bold_code(), aligned);
        lemma_code_scan_concat(blank + bold_code() + aligned, reset_code());
        lemma_code_scan_concat(blank + bold_code() + aligned + reset_code(), tail);
    } else {
        lemma_closed_off_concat(blank, aligned);
        lemma_closed_off_concat(blank + aligned, tail);
    }
}

proof fn lemma_row_cells_closed_off(
    alignments: Seq<Alignment>,
    rows: Seq<Seq<Seq<char>>>,
    row: Seq<Seq<char>>,
    header: bool,
    k: nat,
)
    requires
        forall|j: int| 0 <= j < row.len() ==> closed_off(#[trigger] row[j]),
    ensures
        closed_off(row_cells(alignments, rows, row, header, k)),
    decreases k,
{
    if k == 0 {
        lemma_quiet_closed_off(Seq::<char>::empty());
    } else {
        lemma_row_cells_closed_off(alignments, rows, row, header, (k - 1) as nat);
        lemma_cell_text_closed_off(alignments, rows, row, k - 1, header);
        lemma_closed_off_concat(
            row_cells(alignments, rows, row, header, (k - 1) as nat),
            cell_text(alignments, rows, row, k - 1, header),
        );
    }
}

proof fn lemma_border_closed_off(
    rows: Seq<Seq<Seq<char>>>,
    n: nat,
    left: Seq<char>,
    mid: Seq<char>,
    right: Seq<char>,
)
    requires
        quiet(left),
        quiet(mid),
        quiet(right),
    ensures
        closed_off(border_line(rows, n, left, mid, right)),
{
    lemma_border_cells_closed_off(rows, n, n, mid, right);
    lemma_quiet_closed_off(left);
    assert(quiet(seq!['\n']));
    lemma_quiet_closed_off(seq!['\n']);
    lemma_closed_off_concat(left, border_cells(rows, n, n, mid, right));
    lemma_closed_off_concat(left + border_cells(rows, n, n, mid, right), seq!['\n']);
}

proof fn lemma_border_cells_closed_off(
    rows: Seq<Seq<Seq<char>>>,
    n: nat,
    k: nat,
    mid: Seq<char>,
    right: Seq<char>,
)
    requires
        quiet(mid),
        quiet(right),
    ensures
        closed_off(border_cells(rows, n, k, mid, right)),
    decreases k,
{
    if k == 0 {
        lemma_quiet_closed_off(Seq::<char>::empty());
    } else {
        lemma_border_cells_closed_off(rows, n, (k - 1) as nat, mid, right);
        let d = dashes(column_width(rows, k - 1) + 2);
        assert(quiet(seq!['─']));
        lemma_copies_quiet(seq!['─'], column_width(rows, k - 1) + 2);
        lemma_quiet_closed_off(d);
        let j = if k < n {
            mid
        } else {
            right
        };
        lemma_quiet_closed_off(j);
        lemma_closed_off_concat(border_cells(rows, n, (k - 1) as nat, mid, right), d);
        lemma_closed_off_concat(border_cells(rows, n, (k - 1) as nat, mid, right) + d, j);
    }
}

proof fn lemma_rows_text_closed_off(alignments: Seq<Alignment>, rows: Seq<Seq<Seq<char>>>, k: nat)
    requires
        rows_closed_off(rows),
        k <= rows.len(),
    ensures
        closed_off(rows_text(alignments, rows, k)),
    decreases k,
{
    if k == 0 {
        lemma_quiet_closed_off(Seq::<char>::empty());
    } else {
        let i = k - 1;
        lemma_rows_text_closed_off(alignments, rows, (k - 1) as nat);
        let row = rows[i];
        assert forall|j: int| 0 <= j < row.len() implies closed_off(#[trigger] row[j]) by {
            assert(closed_off(rows[i][j]));
        }
        lemma_row_cells_closed_off(alignments, rows, row, i == 0, alignments.len());
        let line = row_line(alignments, rows, row, i == 0);
        assert(quiet(seq!['│']));
        assert(quiet(seq!['\n']));
        lemma_quiet_closed_off(seq!['│']);
        lemma_quiet_closed_off(seq!['\n']);
        lemma_closed_off_concat(seq!['│'], row_cells(alignments, rows, row, i == 0, alignments.len()));
        lemma_closed_off_concat(
            seq!['│'] + row_cells(alignments, rows, row, i == 0, alignments.len()),
            seq!['\n'],
        );
        let sep = if i == 0 {
            border_line(rows, alignments.len(), seq!['├'], seq!['┼'], seq!['┤'])
        } else {
            Seq::empty()
        };
        assert(quiet(seq!['├']));
        assert(quiet(seq!['┼']));
        assert(quiet(seq!['┤']));
        lemma_border_closed_off(rows, alignments.len(), seq!['├'], seq!['┼'], seq!['┤']);
        lemma_quiet_closed_off(Seq::<char>::empty());
        lemma_closed_off_concat(rows_text(alignments, rows, (k - 1) as nat), line);
        lemma_closed_off_concat(rows_text(alignments, rows, (k - 1) as nat) + line, sep);
    }
}

/// A drawn table leaves no style in force when none of its cells does: the bold of the
/// header row is reset, and so is the style of every cell.
pub proof fn lemma_table_text_closed_off(alignments: Seq<Alignment>, rows: Seq<Seq<Seq<char>>>)
    requires
        rows_closed_off(rows),
    ensures
        closed_off(table_text(alignments, rows)),
{
    let n = alignments.len();
    assert(quiet(seq!['┌']));
    assert(quiet(seq!['┬']));
    assert(quiet(seq!['┐']));
    assert(quiet(seq!['└']));
    assert(quiet(seq!['┴']));
    assert(quiet(seq!['┘']));
    assert(quiet(seq!['\n']));
    lemma_border_closed_off(rows, n, seq!['┌'], seq!['┬'], seq!['┐']);
    lemma_border_closed_off(rows, n, seq!['└'], seq!['┴'], seq!['┘']);
    lemma_rows_text_closed_off(alignments, rows, rows.len());
    lemma_quiet_closed_off(seq!['\n']);
    let top = border_line(rows, n, seq!['┌'], seq!['┬'], seq!['┐']);
    let body = rows_text(alignments, rows, rows.len());
    let bottom = border_line(rows, n, seq!['└'], seq!['┴'], seq!['┘']);
    lemma_closed_off_concat(top, body);
    lemma_closed_off_concat(top + body, bottom);
    lemma_closed_off_concat(top + body + bottom, seq!['\n']);
}

} // verus!
