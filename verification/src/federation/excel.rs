//! Making a table of a spreadsheet that has been read.
//!
//! A spreadsheet has no declared types: the first row names the columns, and each
//! column's type is inferred from what is in it.

use crate::error::{Error, ErrorView};
use crate::model::{ColumnMeta, LogicalType};
use crate::text;
use vstd::prelude::*;
use vstd::string::*;

verus! {

/// A cell of a spreadsheet, as it was read.
#[derive(Debug, Clone)]
pub enum Cell {
    Empty,
    Text(String),
    Bool(bool),
    Int(i64),
    /// A floating-point number without a fraction.
    Whole(i64),
    /// A floating-point number with one, as it is written out.
    Fraction(String),
    /// A date, written out; nothing where it is outside the calendar.
    DateTime(Option<String>),
    DateTimeIso(String),
    DurationIso(String),
    /// The name of an error.
    Error(String),
}

/// A sheet, flattened: column metadata plus every cell already rendered as text.
pub struct Sheet {
    pub columns: Vec<ColumnMeta>,
    pub rows: Vec<Vec<Option<String>>>,
}

/// The type one cell suggests, if it suggests any.
pub open spec fn suggests(cell: Cell) -> Option<LogicalType> {
    match cell {
        Cell::Empty => None,
        Cell::Bool(_) => Some(LogicalType::Bool),
        Cell::Int(_) => Some(LogicalType::Int),
        Cell::Whole(_) => Some(LogicalType::Int),
        Cell::Fraction(_) => Some(LogicalType::Float),
        Cell::DateTime(_) => Some(LogicalType::Timestamp),
        Cell::DateTimeIso(_) => Some(LogicalType::Timestamp),
        Cell::DurationIso(_) => Some(LogicalType::Text),
        Cell::Text(_) | Cell::Error(_) => Some(LogicalType::Text),
    }
}

fn suggestion(cell: &Cell) -> (r: Option<LogicalType>)
    ensures
        r == suggests(*cell),
{
    match cell {
        Cell::Empty => None,
        Cell::Bool(_) => Some(LogicalType::Bool),
        Cell::Int(_) => Some(LogicalType::Int),
        Cell::Whole(_) => Some(LogicalType::Int),
        Cell::Fraction(_) => Some(LogicalType::Float),
        Cell::DateTime(_) => Some(LogicalType::Timestamp),
        Cell::DateTimeIso(_) => Some(LogicalType::Timestamp),
        Cell::DurationIso(_) => Some(LogicalType::Text),
        Cell::Text(_) | Cell::Error(_) => Some(LogicalType::Text),
    }
}

/// The type that holds both.
pub open spec fn wider(a: LogicalType, b: LogicalType) -> LogicalType {
    if a == b {
        a
    } else if (a is Int && b is Float) || (a is Float && b is Int) {
        LogicalType::Float
    } else {
        LogicalType::Text
    }
}

/// The type that holds both. Anything that disagrees ends up as text.
pub fn widen(a: LogicalType, b: LogicalType) -> (r: LogicalType)
    ensures
        r == wider(a, b),
{
    if a == b {
        a
    } else if (a == LogicalType::Int && b == LogicalType::Float) || (a == LogicalType::Float && b
        == LogicalType::Int) {
        LogicalType::Float
    } else {
        LogicalType::Text
    }
}

/// The narrowest type of the cells of column `c` in the first `n` rows, empty ones not
/// counted.
pub open spec fn inferred(rows: Seq<Vec<Cell>>, c: int, n: nat) -> Option<LogicalType>
    decreases n,
{
    if n == 0 {
        None
    } else {
        let before = inferred(rows, c, (n - 1) as nat);
        let row = rows[n - 1]@;
        if c >= row.len() {
            before
        } else {
            match suggests(row[c]) {
                None => before,
                Some(kind) => match before {
                    None => Some(kind),
                    Some(seen) => Some(wider(seen, kind)),
                },
            }
        }
    }
}

/// The narrowest type every non-empty cell in a column fits; text where there is none.
pub fn infer(rows: &Vec<Vec<Cell>>, c: usize) -> (r: LogicalType)
    ensures
        r == (match inferred(rows@, c as int, rows@.len()) {
            Some(kind) => kind,
            None => LogicalType::Text,
        }),
{
    let mut seen: Option<LogicalType> = None;
    let mut i: usize = 0;
    while i < rows.len()
        invariant
            i <= rows.len(),
            seen == inferred(rows@, c as int, i as nat),
        decreases rows.len() - i,
    {
        if c < rows[i].len() {
            if let Some(kind) = suggestion(&rows[i][c]) {
                seen = Some(
                    match seen {
                        None => kind,
                        Some(previous) => widen(previous, kind),
                    },
                );
            }
        }
        i = i + 1;
    }
    match seen {
        Some(kind) => kind,
        None => LogicalType::Text,
    }
}

/// The order of the rows does not matter to a column's type: widening is symmetric and
/// associative, a type widens to itself, and text takes in everything.
pub proof fn law_widening_does_not_depend_on_order(a: LogicalType, b: LogicalType, c: LogicalType)
    ensures
        wider(a, b) == wider(b, a),
        wider(a, a) == a,
        wider(a, LogicalType::Text) == LogicalType::Text,
        wider(wider(a, b), c) == wider(a, wider(b, c)),
{
}

/// A cell as text.
pub open spec fn cell_text(cell: Cell) -> Option<Seq<char>> {
    match cell {
        Cell::Empty => None,
        Cell::Text(t) => Some(t@),
        Cell::Whole(n) => Some(text::signed(n as int)),
        Cell::Fraction(t) => Some(t@),
        Cell::Int(n) => Some(text::signed(n as int)),
        Cell::Bool(b) => Some(text::truth(b)),
        Cell::DateTime(t) => text::opt(t),
        Cell::DateTimeIso(t) => Some(t@),
        Cell::DurationIso(t) => Some(t@),
        Cell::Error(t) => Some("#"@ + t@),
    }
}

pub fn text_of(cell: &Cell) -> (r: Option<String>)
    ensures
        text::opt(r) == cell_text(*cell),
{
    match cell {
        Cell::Empty => None,
        Cell::Text(t) => Some(t.clone()),
        Cell::Whole(n) => Some(text::signed_of(*n as i128)),
        Cell::Fraction(t) => Some(t.clone()),
        Cell::Int(n) => Some(text::signed_of(*n as i128)),
        Cell::Bool(b) => Some(text::truth_of(*b).to_owned()),
        Cell::DateTime(t) => text::clone_opt(t),
        Cell::DateTimeIso(t) => Some(t.clone()),
        Cell::DurationIso(t) => Some(t.clone()),
        Cell::Error(t) => Some("#".to_owned().concat(t)),
    }
}

/// The name of column `c`, counted from zero: what its header says, or a handle for
/// one that says nothing.
pub open spec fn column_name(cell: Cell, c: nat) -> Seq<char> {
    match cell_text(cell) {
        Some(label) => if text::trim(label).len() > 0 {
            text::trim(label)
        } else {
            "column"@ + text::decimal(c + 1)
        },
        None => "column"@ + text::decimal(c + 1),
    }
}

fn column_name_of(cell: &Cell, c: usize) -> (r: String)
    ensures
        r@ == column_name(*cell, c as nat),
{
    if let Some(label) = text_of(cell) {
        let name = text::trimmed(&label);
        if !name.as_str().is_empty() {
            return name;
        }
    }
    "column".to_owned().concat(&text::decimal_wide(c as u128 + 1))
}

/// The engine's word for an inferred type.
pub open spec fn type_word(logical: LogicalType) -> Seq<char> {
    "xlsx "@ + logical_word(logical)
}

/// A logical type in lower case.
pub open spec fn logical_word(logical: LogicalType) -> Seq<char> {
    match logical {
        LogicalType::Bool => "bool"@,
        LogicalType::Int => "int"@,
        LogicalType::Float => "float"@,
        LogicalType::Decimal => "decimal"@,
        LogicalType::Text => "text"@,
        LogicalType::Date => "date"@,
        LogicalType::Time => "time"@,
        LogicalType::Timestamp => "timestamp"@,
        LogicalType::TimestampTz => "timestamptz"@,
        LogicalType::Uuid => "uuid"@,
        LogicalType::Json => "json"@,
        LogicalType::Binary => "binary"@,
        LogicalType::Unknown => "unknown"@,
    }
}

pub fn logical_word_of(logical: LogicalType) -> (r: &'static str)
    ensures
        r@ == logical_word(logical),
{
    match logical {
        LogicalType::Bool => "bool",
        LogicalType::Int => "int",
        LogicalType::Float => "float",
        LogicalType::Decimal => "decimal",
        LogicalType::Text => "text",
        LogicalType::Date => "date",
        LogicalType::Time => "time",
        LogicalType::Timestamp => "timestamp",
        LogicalType::TimestampTz => "timestamptz",
        LogicalType::Uuid => "uuid",
        LogicalType::Json => "json",
        LogicalType::Binary => "binary",
        LogicalType::Unknown => "unknown",
    }
}

/// Those names as a list is shown: each quoted, in square brackets.
pub open spec fn shown_list(names: Seq<Seq<char>>) -> Seq<char> {
    "["@ + text::join(Seq::new(names.len(), |i: int| text::debug_text(names[i])), ", "@) + "]"@
}

fn show_list(names: &Vec<String>) -> (r: String)
    ensures
        r@ == shown_list(text::views(names@)),
{
    let mut out: Vec<String> = Vec::new();
    let mut i: usize = 0;
    while i < names.len()
        invariant
            i <= names.len(),
            out.len() == i,
            forall|j: int| 0 <= j < i ==> (#[trigger] out@[j])@ == text::debug_text(names@[j]@),
        decreases names.len() - i,
    {
        out.push(text::debug_of(&names[i]));
        i = i + 1;
    }
    proof {
        let all = text::views(names@);
        assert(text::views(out@) == Seq::new(all.len(), |j: int| text::debug_text(all[j])));
    }
    "[".to_owned().concat(&text::joined(&out, ", ")).concat("]")
}

/// Where a sheet of that name is, whatever its case, counted from the front.
pub open spec fn sheet_at(names: Seq<Seq<char>>, wanted: Seq<char>, from: nat) -> Option<nat>
    decreases names.len() - from,
{
    if from >= names.len() {
        None
    } else if text::same_but_case(names[from as int], wanted) {
        Some(from)
    } else {
        sheet_at(names, wanted, from + 1)
    }
}

/// Which sheet is meant: the one named, whatever its case, or the first.
pub open spec fn picked(names: Seq<Seq<char>>, wanted: Option<Seq<char>>, path: Seq<char>) -> Result<
    Seq<char>,
    Seq<char>,
> {
    match wanted {
        Some(w) => match sheet_at(names, w, 0) {
            Some(i) => Ok(names[i as int]),
            None => Err(
                "no sheet `"@ + w + "` in "@ + path + " — found "@ + shown_list(names),
            ),
        },
        None => if names.len() > 0 {
            Ok(names[0])
        } else {
            Err(path + " has no sheets"@)
        },
    }
}

/// Which sheet of a workbook to read. `path` is what the workbook is called in a
/// complaint.
pub fn pick_sheet(names: &Vec<String>, wanted: Option<&str>, path: &str) -> (r: Result<
    String,
    Error,
>)
    ensures
        match r {
            Ok(name) => picked(text::views(names@), text::opt_str(wanted), path@) == Ok::<
                Seq<char>,
                Seq<char>,
            >(name@),
            Err(e) => e matches Error::BadRequest(m) && picked(
                text::views(names@),
                text::opt_str(wanted),
                path@,
            ) == Err::<Seq<char>, Seq<char>>(m@),
        },
{
    let ghost all = text::views(names@);
    match wanted {
        Some(w) => {
            let mut i: usize = 0;
            while i < names.len()
                invariant
                    i <= names.len(),
                    all == text::views(names@),
                    text::opt_str(wanted) == Some(w@),
                    sheet_at(all, w@, 0) == sheet_at(all, w@, i as nat),
                decreases names.len() - i,
            {
                assert(all[i as int] == names@[i as int]@);
                if text::eq_ignore_case(&names[i], w) {
                    return Ok(names[i].clone());
                }
                i = i + 1;
            }
            Err(
                Error::BadRequest(
                    "no sheet `".to_owned().concat(w).concat("` in ").concat(path).concat(
                        " — found ",
                    ).concat(&show_list(names)),
                ),
            )
        },
        None => if names.len() > 0 {
            Ok(names[0].clone())
        } else {
            Err(Error::BadRequest(path.to_owned().concat(" has no sheets")))
        },
    }
}

/// A sheet's columns are what its rows say: the header names them, the body types
/// them, and every row is as wide as the header.
pub open spec fn reads_as(rows: Seq<Vec<Cell>>, sheet: &Sheet) -> bool {
    let header = rows[0]@;
    let body = rows.skip(1);
    &&& sheet.columns@.len() == header.len()
    &&& forall|c: int|
        0 <= c < header.len() ==> {
            let column = #[trigger] sheet.columns@[c];
            let logical = match inferred(body, c, body.len()) {
                Some(kind) => kind,
                None => LogicalType::Text,
            };
            &&& column.name@ == column_name(header[c], c as nat)
            &&& column.logical == logical
            &&& column.engine_type@ == type_word(logical)
        }
    &&& sheet.rows@.len() == body.len()
    &&& forall|i: int|
        0 <= i < body.len() ==> row_reads_as(body[i]@, header.len(), #[trigger] sheet.rows@[i]@)
}

/// A row, as wide as the header: what is missing is empty.
pub open spec fn row_reads_as(row: Seq<Cell>, width: nat, out: Seq<Option<String>>) -> bool {
    &&& out.len() == width
    &&& forall|c: int|
        0 <= c < width ==> text::opt(#[trigger] out[c]) == (if c < row.len() {
            cell_text(row[c])
        } else {
            None
        })
}

fn read_row(row: &Vec<Cell>, width: usize) -> (r: Vec<Option<String>>)
    ensures
        row_reads_as(row@, width as nat, r@),
{
    let mut out: Vec<Option<String>> = Vec::new();
    let mut c: usize = 0;
    while c < width
        invariant
            c <= width,
            out.len() == c,
            forall|j: int|
                0 <= j < c ==> text::opt(#[trigger] out@[j]) == (if j < row@.len() {
                    cell_text(row@[j])
                } else {
                    None
                }),
        decreases width - c,
    {
        if c < row.len() {
            out.push(text_of(&row[c]));
        } else {
            out.push(None);
        }
        c = c + 1;
    }
    out
}

/// Make a table of a sheet's rows. The first row is the header.
pub fn read(name: &str, rows: Vec<Vec<Cell>>) -> (r: Result<Sheet, Error>)
    ensures
        match r {
            Ok(sheet) => rows@.len() > 0 && reads_as(rows@, &sheet),
            Err(e) => rows@.len() == 0 && e@ == ErrorView::BadRequest(
                "sheet `"@ + name@ + "` is empty"@,
            ),
        },
{
    if rows.len() == 0 {
        return Err(
            Error::BadRequest("sheet `".to_owned().concat(name).concat("` is empty")),
        );
    }
    let ghost all = rows@;
    let mut body = rows;
    let header = body.remove(0);
    assert(body@ == all.skip(1));
    assert(header@ == all[0]@);
    let mut columns: Vec<ColumnMeta> = Vec::new();
    let mut c: usize = 0;
    while c < header.len()
        invariant
            c <= header.len(),
            columns.len() == c,
            forall|j: int|
                0 <= j < c ==> {
                    let column = #[trigger] columns@[j];
                    let logical = match inferred(body@, j, body@.len()) {
                        Some(kind) => kind,
                        None => LogicalType::Text,
                    };
                    &&& column.name@ == column_name(header@[j], j as nat)
                    &&& column.logical == logical
                    &&& column.engine_type@ == type_word(logical)
                },
        decreases header.len() - c,
    {
        let logical = infer(&body, c);
        columns.push(
            ColumnMeta {
                name: column_name_of(&header[c], c),
                engine_type: "xlsx ".to_owned().concat(logical_word_of(logical)),
                logical,
            },
        );
        c = c + 1;
    }
    let mut out: Vec<Vec<Option<String>>> = Vec::new();
    let mut i: usize = 0;
    while i < body.len()
        invariant
            i <= body.len(),
            out.len() == i,
            forall|j: int|
                0 <= j < i ==> row_reads_as(body@[j]@, header@.len(), #[trigger] out@[j]@),
        decreases body.len() - i,
    {
        out.push(read_row(&body[i], header.len()));
        i = i + 1;
    }
    Ok(Sheet { columns, rows: out })
}

/// What a cell of a column suggests, where the row reaches that far.
pub open spec fn cell_suggests(rows: Seq<Vec<Cell>>, c: int, i: int) -> Option<LogicalType> {
    if c < rows[i]@.len() {
        suggests(rows[i]@[c])
    } else {
        None
    }
}

/// A column has a type exactly where it has a cell that is not empty; the type is the one
/// all of those cells agree on, a floating-point number where they are numbers and one of
/// them has a fraction, and text otherwise.
pub proof fn law_a_column_has_the_type_its_cells_agree_on(rows: Seq<Vec<Cell>>, c: int, n: nat)
    requires
        0 <= c,
        n <= rows.len(),
    ensures
        inferred(rows, c, n) is None <==> forall|i: int|
            0 <= i < n ==> (#[trigger] cell_suggests(rows, c, i)) is None,
        forall|kind: LogicalType|
            !(kind is Float) && !(kind is Text) ==> (#[trigger] is_all(rows, c, n, kind)
                <==> inferred(rows, c, n) == Some(kind)),
        inferred(rows, c, n) == Some(LogicalType::Float) <==> {
            &&& forall|i: int|
                0 <= i < n ==> {
                    let kind = #[trigger] cell_suggests(rows, c, i);
                    kind is None || kind == Some(LogicalType::Int) || kind == Some(
                        LogicalType::Float,
                    )
                }
            &&& exists|i: int|
                0 <= i < n && #[trigger] cell_suggests(rows, c, i) == Some(LogicalType::Float)
        },
    decreases n,
{
    if n > 0 {
        let m = (n - 1) as nat;
        law_a_column_has_the_type_its_cells_agree_on(rows, c, m);
        let here = cell_suggests(rows, c, n - 1);
        assert(inferred(rows, c, n) == match here {
            None => inferred(rows, c, m),
            Some(kind) => match inferred(rows, c, m) {
                None => Some(kind),
                Some(seen) => Some(wider(seen, kind)),
            },
        });
        assert forall|kind: LogicalType| !(kind is Float) && !(kind is Text) implies (
        #[trigger] is_all(rows, c, n, kind) <==> inferred(rows, c, n) == Some(kind)) by {
            lemma_is_all(rows, c, n, kind);
        }
        if here == Some(LogicalType::Float) {
            assert(0 <= n - 1 < n && cell_suggests(rows, c, n - 1) == Some(LogicalType::Float));
        }
        if inferred(rows, c, m) == Some(LogicalType::Int) {
            assert(is_all(rows, c, m, LogicalType::Int));
        }
        lemma_numbers(rows, c, m);
        lemma_numbers(rows, c, n);
    }
}

/// There is a cell that is not empty, and all of those suggest one type.
pub open spec fn is_all(rows: Seq<Vec<Cell>>, c: int, n: nat, kind: LogicalType) -> bool {
    &&& exists|i: int| 0 <= i < n && (#[trigger] cell_suggests(rows, c, i)) is Some
    &&& forall|i: int|
        0 <= i < n ==> {
            let here = #[trigger] cell_suggests(rows, c, i);
            here is None || here == Some(kind)
        }
}

proof fn lemma_is_all(rows: Seq<Vec<Cell>>, c: int, n: nat, kind: LogicalType)
    requires
        n > 0,
        0 <= c,
        !(kind is Float),
        !(kind is Text),
        is_all(rows, c, (n - 1) as nat, kind) <==> inferred(rows, c, (n - 1) as nat) == Some(kind),
        inferred(rows, c, (n - 1) as nat) is None <==> forall|i: int|
            0 <= i < n - 1 ==> (#[trigger] cell_suggests(rows, c, i)) is None,
    ensures
        is_all(rows, c, n, kind) <==> inferred(rows, c, n) == Some(kind),
{
    let m = (n - 1) as nat;
    let here = cell_suggests(rows, c, n - 1);
    if is_all(rows, c, n, kind) {
        if inferred(rows, c, m) is Some {
            let i = choose|i: int| 0 <= i < m && (#[trigger] cell_suggests(rows, c, i)) is Some;
            assert(is_all(rows, c, m, kind));
        } else {
            let i = choose|i: int| 0 <= i < n && (#[trigger] cell_suggests(rows, c, i)) is Some;
            assert(i == n - 1);
        }
    }
    if inferred(rows, c, n) == Some(kind) {
        if inferred(rows, c, m) == Some(kind) {
            let i = choose|i: int| 0 <= i < m && (#[trigger] cell_suggests(rows, c, i)) is Some;
            assert(0 <= i < n && cell_suggests(rows, c, i) is Some);
        } else {
            assert(inferred(rows, c, m) is None);
            assert(here == Some(kind));
        }
    }
}

/// A column of whole numbers and others only has an inferred type that is a number.
proof fn lemma_numbers(rows: Seq<Vec<Cell>>, c: int, n: nat)
    requires
        0 <= c,
    ensures
        ((forall|i: int|
            0 <= i < n ==> {
                let kind = #[trigger] cell_suggests(rows, c, i);
                kind is None || kind == Some(LogicalType::Int) || kind == Some(LogicalType::Float)
            }) <==> (inferred(rows, c, n) is None || inferred(rows, c, n) == Some(LogicalType::Int)
            || inferred(rows, c, n) == Some(LogicalType::Float))),
    decreases n,
{
    if n > 0 {
        let m = (n - 1) as nat;
        lemma_numbers(rows, c, m);
        let here = cell_suggests(rows, c, n - 1);
        assert(inferred(rows, c, n) == match here {
            None => inferred(rows, c, m),
            Some(kind) => match inferred(rows, c, m) {
                None => Some(kind),
                Some(seen) => Some(wider(seen, kind)),
            },
        });
        if inferred(rows, c, n) is None || inferred(rows, c, n) == Some(LogicalType::Int)
            || inferred(rows, c, n) == Some(LogicalType::Float) {
            assert forall|i: int| 0 <= i < n implies {
                let kind = #[trigger] cell_suggests(rows, c, i);
                kind is None || kind == Some(LogicalType::Int) || kind == Some(LogicalType::Float)
            } by {
                if i == n - 1 {
                }
            }
        }
    }
}

/// What a cell suggests is what it holds: a number without a fraction is whole however it
/// was stored, and what is neither number, truth nor moment is text.
pub proof fn law_a_cell_suggests_what_it_holds(cell: Cell)
    ensures
        suggests(cell) is None <==> cell is Empty,
        suggests(cell) == Some(LogicalType::Bool) <==> cell is Bool,
        suggests(cell) == Some(LogicalType::Int) <==> cell is Int || cell is Whole,
        suggests(cell) == Some(LogicalType::Float) <==> cell is Fraction,
        suggests(cell) == Some(LogicalType::Timestamp) <==> cell is DateTime
            || cell is DateTimeIso,
        suggests(cell) == Some(LogicalType::Text) <==> cell is Text || cell is Error
            || cell is DurationIso,
{
}

/// A cell is read as what it holds: a text as it is, a number in its digits, and nothing
/// only where it is empty or a date outside the calendar.
pub proof fn law_a_cell_is_read_as_it_is(cell: Cell)
    ensures
        cell_text(cell) is None <==> cell is Empty || cell matches Cell::DateTime(None),
        match cell {
            Cell::Text(t) => cell_text(cell) == Some(t@),
            Cell::Fraction(t) => cell_text(cell) == Some(t@),
            Cell::DateTimeIso(t) => cell_text(cell) == Some(t@),
            Cell::DurationIso(t) => cell_text(cell) == Some(t@),
            Cell::DateTime(Some(t)) => cell_text(cell) == Some(t@),
            Cell::Error(t) => cell_text(cell) == Some("#"@ + t@),
            Cell::Bool(true) => cell_text(cell) == Some("true"@),
            Cell::Bool(false) => cell_text(cell) == Some("false"@),
            Cell::Int(n) => cell_text(cell) is Some && text::is_number(
                cell_text(cell)->Some_0,
                n as int,
            ),
            Cell::Whole(n) => cell_text(cell) is Some && text::is_number(
                cell_text(cell)->Some_0,
                n as int,
            ),
            _ => true,
        },
{
    match cell {
        Cell::Int(n) => {
            text::law_a_number_is_written_in_its_digits(n as int);
        },
        Cell::Whole(n) => {
            text::law_a_number_is_written_in_its_digits(n as int);
        },
        _ => {},
    }
}

/// A column has the name its header gives it, without the white space around; one whose
/// header says nothing has a name of its own, and no two such columns have the same.
pub proof fn law_a_column_always_has_a_name(cell: Cell, c: nat, other: Cell, d: nat)
    ensures
        column_name(cell, c).len() > 0,
        cell_text(cell) matches Some(t) ==> text::trim(t).len() > 0 ==> column_name(cell, c)
            == text::trim(t),
        cell_text(cell) is None || text::trim(cell_text(cell)->Some_0).len() == 0 ==> column_name(
            cell,
            c,
        ) == "column"@ + text::decimal(c + 1),
        cell is Empty && other is Empty && c != d ==> column_name(cell, c) != column_name(
            other,
            d,
        ),
{
    text::lemma_decimal(c + 1);
    text::lemma_decimal(d + 1);
    let a = "column"@ + text::decimal(c + 1);
    let b = "column"@ + text::decimal(d + 1);
    let n = "column"@.len() as int;
    assert(a.skip(n) == text::decimal(c + 1));
    assert(b.skip(n) == text::decimal(d + 1));
}

/// The sheet that is picked is the first that goes by the name, or the first of all where
/// none is named; it is refused only where there is none.
pub proof fn law_the_first_sheet_of_that_name_is_picked(
    names: Seq<Seq<char>>,
    wanted: Option<Seq<char>>,
    path: Seq<char>,
)
    ensures
        wanted is None && names.len() > 0 ==> picked(names, wanted, path) == Ok::<
            Seq<char>,
            Seq<char>,
        >(names[0]),
        wanted is None && names.len() == 0 ==> picked(names, wanted, path) is Err,
        wanted matches Some(w) ==> match picked(names, wanted, path) {
            Ok(name) => exists|i: int|
                {
                    &&& 0 <= i < names.len()
                    &&& name == #[trigger] names[i]
                    &&& text::same_but_case(names[i], w)
                    &&& forall|j: int| 0 <= j < i ==> !text::same_but_case(names[j], w)
                },
            Err(_) => forall|i: int|
                0 <= i < names.len() ==> !text::same_but_case(#[trigger] names[i], w),
        },
{
    if wanted is Some {
        lemma_sheet_at(names, wanted->Some_0, 0);
        if sheet_at(names, wanted->Some_0, 0) is Some {
            let i = sheet_at(names, wanted->Some_0, 0)->Some_0 as int;
            assert(picked(names, wanted, path) == Ok::<Seq<char>, Seq<char>>(names[i]));
        }
    }
}

proof fn lemma_sheet_at(names: Seq<Seq<char>>, wanted: Seq<char>, from: nat)
    ensures
        match sheet_at(names, wanted, from) {
            Some(i) => {
                &&& from <= i < names.len()
                &&& text::same_but_case(names[i as int], wanted)
                &&& forall|j: int| from <= j < i ==> !text::same_but_case(names[j], wanted)
            },
            None => forall|i: int|
                from <= i < names.len() ==> !text::same_but_case(#[trigger] names[i], wanted),
        },
    decreases names.len() - from,
{
    if from < names.len() && !text::same_but_case(names[from as int], wanted) {
        lemma_sheet_at(names, wanted, from + 1);
    }
}

/// The word for a type is that type's own.
pub proof fn law_a_type_has_its_own_word(logical: LogicalType)
    ensures
        type_word(logical) == "xlsx "@ + logical_word(logical),
        logical is Bool ==> logical_word(logical) == "bool"@,
        logical is Int ==> logical_word(logical) == "int"@,
        logical is Float ==> logical_word(logical) == "float"@,
        logical is Decimal ==> logical_word(logical) == "decimal"@,
        logical is Text ==> logical_word(logical) == "text"@,
        logical is Date ==> logical_word(logical) == "date"@,
        logical is Time ==> logical_word(logical) == "time"@,
        logical is Timestamp ==> logical_word(logical) == "timestamp"@,
        logical is TimestampTz ==> logical_word(logical) == "timestamptz"@,
        logical is Uuid ==> logical_word(logical) == "uuid"@,
        logical is Json ==> logical_word(logical) == "json"@,
        logical is Binary ==> logical_word(logical) == "binary"@,
        logical is Unknown ==> logical_word(logical) == "unknown"@,
{
}

/// A sheet that was read is its rows: the first gives one column each, every other is a row,
/// in order and as wide as the first, with each cell read where it stood.
pub proof fn law_a_sheet_keeps_every_cell(rows: Seq<Vec<Cell>>, sheet: &Sheet)
    requires
        rows.len() > 0,
        reads_as(rows, sheet),
    ensures
        sheet.columns@.len() == rows[0]@.len(),
        sheet.rows@.len() == rows.len() - 1,
        forall|c: int|
            0 <= c < rows[0]@.len() ==> (#[trigger] sheet.columns@[c]).name@ == column_name(
                rows[0]@[c],
                c as nat,
            ),
        forall|i: int|
            0 <= i < sheet.rows@.len() ==> (#[trigger] sheet.rows@[i])@.len() == rows[0]@.len(),
        forall|i: int, c: int|
            #![trigger sheet.rows@[i]@[c]]
            0 <= i < sheet.rows@.len() && 0 <= c < rows[0]@.len() ==> {
                let row = rows[i + 1]@;
                text::opt(sheet.rows@[i]@[c]) == if c < row.len() {
                    cell_text(row[c])
                } else {
                    None
                }
            },
{
    assert forall|i: int| 0 <= i < sheet.rows@.len() implies row_reads_as(
        rows[i + 1]@,
        rows[0]@.len(),
        (#[trigger] sheet.rows@[i])@,
    ) by {
        assert(rows.skip(1)[i] == rows[i + 1]);
    }
}

} // verus!
