//! Asking the build database something: what kind of statement a query is, and how
//! its rows are laid out.

use crate::progress;
use crate::text;
use vstd::prelude::*;

verus! {

/// How many rows are shown.
pub const LIMIT: usize = 200;

/// How wide a column gets.
pub const WIDEST: usize = 48;

/// A text without the semicolons it ends in.
pub open spec fn unterminated(s: Seq<char>) -> Seq<char>
    decreases s.len(),
{
    if s.len() > 0 && s.last() == ';' {
        unterminated(s.drop_last())
    } else {
        s
    }
}

/// A statement without the white space around it and the semicolons it ends in.
pub open spec fn statement(query: Seq<char>) -> Seq<char> {
    text::trimmed(unterminated(text::trimmed(query)))
}

/// Cuts the white space and the final semicolons off a query; nothing is left of an
/// empty one.
pub fn clean(query: &str) -> (r: Option<String>)
    ensures
        text::text_of(r) == (if statement(query@).len() == 0 {
            None
        } else {
            Some(statement(query@))
        }),
{
    let t: Vec<char> = text::chars(text::trim(query).as_str());
    let mut n: usize = t.len();
    assert(t@.take(n as int) =~= t@);
    while n > 0 && t[n - 1] == ';'
        invariant
            n <= t@.len(),
            unterminated(t@) == unterminated(t@.take(n as int)),
        decreases n,
    {
        assert(t@.take(n as int).drop_last() =~= t@.take(n - 1));
        n = n - 1;
    }
    let bare: String = text::string_of(&t, 0, n);
    assert(bare@ =~= t@.take(n as int));
    let out: String = text::trim(bare.as_str());
    if text::chars(out.as_str()).len() == 0 {
        None
    } else {
        Some(out)
    }
}

/// The words that a statement which only reads begins with.
pub open spec fn is_reading_word(word: Seq<char>) -> bool {
    word == "select"@ || word == "with"@ || word == "from"@ || word == "describe"@ || word == "summarize"@ || word
        == "show"@ || word == "pragma"@ || word == "table"@ || word == "explain"@
}

/// Whether a statement only reads: its first word says so.
pub open spec fn reading(query: Seq<char>) -> bool {
    is_reading_word(text::first_word(query).map_values(|c: char| text::lower(c)))
}

/// Whether a statement only reads. One that does not returns no rows, and the
/// database has to be opened for writing to run it.
pub fn reads(query: &str) -> (r: bool)
    ensures
        r == reading(query@),
{
    let (first, _rest): (String, String) = text::next_word(query);
    let word: String = text::to_lower(first.as_str());
    let w: &str = word.as_str();
    text::same(w, "select") || text::same(w, "with") || text::same(w, "from") || text::same(w, "describe")
        || text::same(w, "summarize") || text::same(w, "show") || text::same(w, "pragma") || text::same(w, "table")
        || text::same(w, "explain")
}

/// The query with every column of its result as text.
pub fn as_text(query: &str) -> (out: String)
    ensures
        out@ == "SELECT CAST(COLUMNS(*) AS VARCHAR) FROM ("@ + query@ + ")"@,
{
    let mut out: String = "SELECT CAST(COLUMNS(*) AS VARCHAR) FROM (".to_owned();
    out.push_str(query);
    out.push_str(")");
    out
}

/// A row as texts.
pub open spec fn cells(row: Vec<String>) -> Seq<Seq<char>> {
    text::texts(row@)
}

/// The greater of two numbers.
pub open spec fn greater(a: nat, b: nat) -> nat {
    if a > b {
        a
    } else {
        b
    }
}

/// How wide a row's cell is; a cell that is not there takes no room.
pub open spec fn cell_width(row: Seq<Seq<char>>, column: int) -> nat {
    if column < row.len() {
        row[column].len()
    } else {
        0
    }
}

/// The widest cell of a column among the first `n` rows.
pub open spec fn column_width(rows: Seq<Vec<String>>, n: nat, column: int) -> nat
    decreases n,
{
    if n == 0 {
        0
    } else {
        greater(column_width(rows, (n - 1) as nat, column), cell_width(cells(rows[n - 1]), column))
    }
}

/// The most cells any of the first `n` rows has.
pub open spec fn columns(rows: Seq<Vec<String>>, n: nat) -> nat
    decreases n,
{
    if n == 0 {
        0
    } else {
        greater(columns(rows, (n - 1) as nat), rows[n - 1]@.len())
    }
}

/// How wide the columns are: as wide as the widest cell or the name on top, but no
/// wider than [`WIDEST`].
pub open spec fn widths_of(names: Seq<Seq<char>>, rows: Seq<Vec<String>>) -> Seq<usize> {
    Seq::new(
        greater(columns(rows, rows.len()), names.len()),
        |c: int|
            {
                let w = greater(column_width(rows, rows.len(), c), cell_width(names, c));
                if w < WIDEST {
                    w as usize
                } else {
                    WIDEST
                }
            },
    )
}

/// How wide a column is, and that every cell of it fits a machine number.
fn widest(rows: &Vec<Vec<String>>, names: &Vec<String>, column: usize) -> (w: usize)
    ensures
        w == greater(
            column_width(rows@, rows@.len(), column as int),
            cell_width(text::texts(names@), column as int),
        ),
{
    let mut best: usize = 0;
    let mut i: usize = 0;
    while i < rows.len()
        invariant
            i <= rows@.len(),
            best == column_width(rows@, i as nat, column as int),
        decreases rows@.len() - i,
    {
        if column < rows[i].len() {
            let n: usize = text::chars(rows[i][column].as_str()).len();
            assert(cells(rows@[i as int])[column as int] == rows@[i as int]@[column as int]@);
            if n > best {
                best = n;
            }
        }
        i = i + 1;
    }
    if column < names.len() {
        let n: usize = text::chars(names[column].as_str()).len();
        assert(text::texts(names@)[column as int] == names@[column as int]@);
        if n > best {
            best = n;
        }
    }
    best
}

/// How wide the columns are. A single runaway column does not push the others off
/// the screen.
pub fn widths(names: &Vec<String>, rows: &Vec<Vec<String>>) -> (out: Vec<usize>)
    ensures
        out@ == widths_of(text::texts(names@), rows@),
{
    let mut count: usize = 0;
    let mut i: usize = 0;
    while i < rows.len()
        invariant
            i <= rows@.len(),
            count == columns(rows@, i as nat),
        decreases rows@.len() - i,
    {
        if rows[i].len() > count {
            count = rows[i].len();
        }
        i = i + 1;
    }
    if names.len() > count {
        count = names.len();
    }
    let mut out: Vec<usize> = Vec::new();
    let mut c: usize = 0;
    while c < count
        invariant
            c <= count,
            count == greater(columns(rows@, rows@.len()), names@.len()),
            out@ =~= widths_of(text::texts(names@), rows@).take(c as int),
        decreases count - c,
    {
        let w: usize = widest(rows, names, c);
        out.push(if w < WIDEST {
            w
        } else {
            WIDEST
        });
        c = c + 1;
    }
    assert(widths_of(text::texts(names@), rows@).take(c as int) =~= widths_of(text::texts(names@), rows@));
    out
}

/// The width of a column; one that has none is empty.
pub open spec fn width_at(width: Seq<usize>, column: int) -> nat {
    if column < width.len() {
        width[column] as nat
    } else {
        0
    }
}

/// A cell on one line, cut to its column and filled up to it.
pub open spec fn padded(cell: Seq<char>, width: nat) -> Seq<char> {
    text::left(progress::clipped(text::replaced(cell, '\n', " "@), width), width)
}

/// A row's cells, each in its column.
pub open spec fn padded_cells(row: Seq<Seq<char>>, width: Seq<usize>) -> Seq<Seq<char>> {
    Seq::new(row.len(), |c: int| padded(row[c], width_at(width, c)))
}

/// A row as a line.
pub open spec fn row_line(row: Seq<Seq<char>>, width: Seq<usize>) -> Seq<char> {
    text::trimmed_end(text::joined(padded_cells(row, width), "  "@))
}

/// Lays a row out as a line.
pub fn pad(row: &Vec<String>, width: &Vec<usize>) -> (out: String)
    ensures
        out@ == row_line(text::texts(row@), width@),
{
    let mut parts: Vec<String> = Vec::new();
    let mut c: usize = 0;
    while c < row.len()
        invariant
            c <= row@.len(),
            text::texts(parts@) =~= padded_cells(text::texts(row@), width@).take(c as int),
        decreases row@.len() - c,
    {
        let w: usize = if c < width.len() {
            width[c]
        } else {
            0
        };
        let flat: String = text::replace(row[c].as_str(), '\n', " ");
        let cut: String = progress::clip(flat.as_str(), w);
        let mut part: String = String::new();
        text::put_left(&mut part, cut.as_str(), w);
        let ghost shown = part@;
        let ghost before = text::texts(parts@);
        assert(shown =~= padded(row@[c as int]@, w as nat));
        parts.push(part);
        assert(text::texts(parts@) =~= before.push(shown));
        c = c + 1;
    }
    assert(padded_cells(text::texts(row@), width@).take(c as int) =~= padded_cells(text::texts(row@), width@));
    let line: String = text::join(&parts, "  ");
    text::trim_end(line.as_str())
}

/// The line under the names.
pub open spec fn rule_line(width: Seq<usize>) -> Seq<char> {
    text::joined(width.map_values(|w: usize| text::repeated('-', w as nat)), "  "@)
}

/// The line under the names.
pub fn rule(width: &Vec<usize>) -> (out: String)
    ensures
        out@ == rule_line(width@),
{
    let mut parts: Vec<String> = Vec::new();
    let mut c: usize = 0;
    let ghost want = width@.map_values(|w: usize| text::repeated('-', w as nat));
    while c < width.len()
        invariant
            c <= width@.len(),
            want == width@.map_values(|w: usize| text::repeated('-', w as nat)),
            text::texts(parts@) =~= want.take(c as int),
        decreases width@.len() - c,
    {
        let mut part: String = String::new();
        text::put_repeated(&mut part, '-', width[c]);
        let ghost shown = part@;
        let ghost before = text::texts(parts@);
        assert(shown =~= want[c as int]);
        parts.push(part);
        assert(text::texts(parts@) =~= before.push(shown));
        c = c + 1;
    }
    assert(want.take(c as int) =~= want);
    text::join(&parts, "  ")
}

/// The lines of a table: the names, a rule, and the rows.
pub open spec fn table_lines(names: Seq<Seq<char>>, rows: Seq<Vec<String>>) -> Seq<Seq<char>> {
    let width = widths_of(names, rows);
    seq![row_line(names, width), rule_line(width)] + rows.map_values(|r: Vec<String>| row_line(cells(r), width))
}

/// Lays out a table.
pub fn table(names: &Vec<String>, rows: &Vec<Vec<String>>) -> (out: Vec<String>)
    ensures
        text::texts(out@) == table_lines(text::texts(names@), rows@),
{
    let width: Vec<usize> = widths(names, rows);
    let mut out: Vec<String> = Vec::new();
    out.push(pad(names, &width));
    out.push(rule(&width));
    let ghost top = text::texts(out@);
    let ghost want = rows@.map_values(|r: Vec<String>| row_line(cells(r), width@));
    let mut i: usize = 0;
    assert(top =~= seq![row_line(text::texts(names@), width@), rule_line(width@)]);
    while i < rows.len()
        invariant
            i <= rows@.len(),
            want == rows@.map_values(|r: Vec<String>| row_line(cells(r), width@)),
            text::texts(out@) =~= top + want.take(i as int),
        decreases rows@.len() - i,
    {
        let line: String = pad(&rows[i], &width);
        let ghost shown = line@;
        let ghost before = text::texts(out@);
        out.push(line);
        assert(text::texts(out@) =~= before.push(shown));
        i = i + 1;
    }
    assert(want.take(i as int) =~= want);
    out
}

/// The line under a table.
pub open spec fn summary_line(shown: nat, hidden: nat, took: Seq<char>) -> Seq<char> {
    "\n"@ + text::grouped(shown, ',') + " row"@ + (if shown == 1 {
        ""@
    } else {
        "s"@
    }) + (if hidden > 0 {
        ", "@ + text::grouped(hidden, ',') + " more not shown"@
    } else {
        ""@
    }) + "  ("@ + took + ")"@
}

/// The line under a table: how many rows there are, and how many are not shown.
pub fn summary(shown: u64, hidden: u64, took: &str) -> (out: String)
    ensures
        out@ == summary_line(shown as nat, hidden as nat, took@),
{
    let mut out: String = "\n".to_owned();
    text::put_grouped(&mut out, shown, ',');
    out.push_str(" row");
    out.push_str(if shown == 1 {
        ""
    } else {
        "s"
    });
    let mut more: String = "".to_owned();
    if hidden > 0 {
        more = ", ".to_owned();
        text::put_grouped(&mut more, hidden, ',');
        more.push_str(" more not shown");
    }
    out.push_str(more.as_str());
    out.push_str("  (");
    out.push_str(took);
    out.push_str(")");
    out
}

/// **Only semicolons are cut off the end of a statement**, and all of them.
pub proof fn law_final_semicolons_go(s: Seq<char>)
    ensures
        unterminated(s).len() <= s.len(),
        unterminated(s) == s.take(unterminated(s).len() as int),
        forall|i: int| unterminated(s).len() <= i < s.len() ==> #[trigger] s[i] == ';',
        unterminated(s).len() > 0 ==> unterminated(s).last() != ';',
    decreases s.len(),
{
    if s.len() > 0 && s.last() == ';' {
        let rest = s.drop_last();
        law_final_semicolons_go(rest);
        let n = unterminated(s).len();
        assert(unterminated(s) =~= s.take(n as int));
        assert forall|i: int| n <= i < s.len() implies #[trigger] s[i] == ';' by {
            if i < s.len() - 1 {
                assert(rest[i] == ';');
            }
        }
    } else {
        assert(s.take(s.len() as int) =~= s);
    }
}

/// **A column is as wide as its widest cell**: no cell is wider, and one is as wide unless
/// there is none. There are as many columns as the longest row has cells.
pub proof fn law_a_column_is_as_wide_as_its_widest_cell(rows: Seq<Vec<String>>, n: nat, column: int)
    requires
        n <= rows.len(),
    ensures
        forall|i: int|
            0 <= i < n ==> cell_width(cells(#[trigger] rows[i]), column) <= column_width(rows, n, column) && rows[i]@.len()
                <= columns(rows, n),
        n > 0 ==> exists|i: int|
            0 <= i < n && cell_width(cells(#[trigger] rows[i]), column) == column_width(rows, n, column),
        n > 0 ==> exists|i: int| 0 <= i < n && (#[trigger] rows[i])@.len() == columns(rows, n),
        n == 0 ==> column_width(rows, n, column) == 0 && columns(rows, n) == 0,
    decreases n,
{
    if n > 0 {
        let m = (n - 1) as nat;
        law_a_column_is_as_wide_as_its_widest_cell(rows, m, column);
        if m > 0 {
            let a = choose|i: int|
                0 <= i < m && cell_width(cells(#[trigger] rows[i]), column) == column_width(rows, m, column);
            let b = choose|i: int| 0 <= i < m && (#[trigger] rows[i])@.len() == columns(rows, m);
            assert(cell_width(cells(rows[a]), column) == column_width(rows, m, column));
            assert(rows[b]@.len() == columns(rows, m));
        }
        let last = rows[n - 1];
        assert(cell_width(cells(rows[n - 1]), column) == cell_width(cells(last), column));
        assert(rows[n - 1]@.len() == last@.len());
    }
}

/// **No column gets wider than the widest allowed**, and one that would not is as wide as
/// its name and its cells ask.
pub proof fn law_no_column_runs_away(names: Seq<Seq<char>>, rows: Seq<Vec<String>>, c: int)
    requires
        0 <= c < widths_of(names, rows).len(),
    ensures
        widths_of(names, rows).len() >= names.len(),
        widths_of(names, rows).len() >= columns(rows, rows.len()),
        widths_of(names, rows)[c] <= 48,
        widths_of(names, rows)[c] < 48 ==> cell_width(names, c) <= widths_of(names, rows)[c] && column_width(
            rows,
            rows.len(),
            c,
        ) <= widths_of(names, rows)[c] && (cell_width(names, c) == widths_of(names, rows)[c] || column_width(
            rows,
            rows.len(),
            c,
        ) == widths_of(names, rows)[c]),
{
}

} // verus!
