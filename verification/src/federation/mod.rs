//! Queries that reach across sources.
//!
//! There are two ways in. An import runs your SQL on the source, in the source's own
//! dialect, and streams the answer in. An attachment hands the engine the live server.
//! Neither has a row cap unless one is asked for: rows go into the engine as they
//! arrive, and the engine writes to disk what will not fit in memory.

pub mod attach;
pub mod cells;
pub mod excel;
pub mod program;
pub mod quote;
pub mod session;

use crate::connectors::files;
use crate::error::{Error, ErrorView};
use crate::federation::attach::Attachment;
use crate::federation::cells::Kind;
use crate::federation::excel::Sheet;
use crate::federation::program::Import;
use crate::federation::session::{Sandbox, SandboxView};
use crate::json::{self, Json, JsonView};
use crate::model::{self, ColumnMeta, ColumnMetaView, LogicalType, RowBatch, SourceKind};
use crate::paths;
use crate::text;
use crate::tree;
use vstd::prelude::*;
use vstd::string::*;

verus! {

/// Bounds on a federated run.
#[derive(Debug, Clone, Copy)]
pub struct Limits {
    /// How many rows a single import may pull. There is no cap unless one is set, for a
    /// shared machine where a mistyped import should fail rather than fill a disk.
    /// Exceeding it is an error and never a truncation.
    pub max_import_rows: Option<usize>,
}

impl Default for Limits {
    fn default() -> (r: Limits)
        ensures
            r.max_import_rows is None,
    {
        Limits { max_import_rows: None }
    }
}

impl Limits {
    /// What `ALKYON_IMPORT_MAX_ROWS` says, where it says a number.
    pub fn from_env(setting: Option<&str>) -> (r: Limits)
        ensures
            r.max_import_rows == (match setting {
                Some(value) => match text::number(value@) {
                    Some(n) => if n <= usize::MAX {
                        Some(n as usize)
                    } else {
                        None
                    },
                    None => None,
                },
                None => None,
            }),
    {
        let max_import_rows: Option<usize> = match setting {
            Some(value) => match text::parse_u64(value) {
                Some(n) => if n <= usize::MAX as u64 {
                    Some(n as usize)
                } else {
                    None
                },
                None => None,
            },
            None => None,
        };
        Limits { max_import_rows }
    }
}

// -------------------------------------------------------------------------- types

/// The type a column of the engine gets. A decimal has a fixed scale: the metadata of a
/// result gives none. Bytes arrive as text, and so does what could not be decoded.
pub open spec fn engine_type(logical: LogicalType) -> Seq<char> {
    match logical {
        LogicalType::Bool => "BOOLEAN"@,
        LogicalType::Int => "BIGINT"@,
        LogicalType::Float => "DOUBLE"@,
        LogicalType::Decimal => "DECIMAL(38,9)"@,
        LogicalType::Date => "DATE"@,
        LogicalType::Time => "TIME"@,
        LogicalType::Timestamp => "TIMESTAMP"@,
        LogicalType::TimestampTz => "TIMESTAMPTZ"@,
        LogicalType::Uuid => "UUID"@,
        LogicalType::Json => "JSON"@,
        LogicalType::Text | LogicalType::Binary | LogicalType::Unknown => "VARCHAR"@,
    }
}

pub fn duckdb_type(logical: LogicalType) -> (r: &'static str)
    ensures
        r@ == engine_type(logical),
{
    match logical {
        LogicalType::Bool => "BOOLEAN",
        LogicalType::Int => "BIGINT",
        LogicalType::Float => "DOUBLE",
        LogicalType::Decimal => "DECIMAL(38,9)",
        LogicalType::Date => "DATE",
        LogicalType::Time => "TIME",
        LogicalType::Timestamp => "TIMESTAMP",
        LogicalType::TimestampTz => "TIMESTAMPTZ",
        LogicalType::Uuid => "UUID",
        LogicalType::Json => "JSON",
        LogicalType::Text | LogicalType::Binary | LogicalType::Unknown => "VARCHAR",
    }
}

/// A column of a result, from its name, the engine's spelling of its type, and its kind.
pub fn result_column(name: &str, spelled: &str, kind: Kind) -> (r: ColumnMeta)
    ensures
        r@ == (ColumnMetaView {
            name: name@,
            engine_type: text::lowercase(spelled@),
            logical: cells::holds(kind),
        }),
{
    ColumnMeta {
        name: name.to_owned(),
        engine_type: text::to_lowercase(spelled),
        logical: cells::logical_of(kind),
    }
}

/// A table held in memory, ready to be handed to the engine.
pub struct Materialised {
    pub alias: String,
    pub columns: Vec<ColumnMeta>,
    /// Every cell as text; the engine does the casting.
    pub rows: Vec<Vec<Option<String>>>,
}

// ------------------------------------------------------------------------- imports

/// One instruction for whoever holds the engine's session.
pub enum Step {
    /// A view over files the engine reads for itself.
    Scan { alias: String, expression: String },
    /// Start a table.
    Begin { alias: String, columns: Vec<ColumnMeta> },
    /// Rows for the table most recently begun.
    Rows(Vec<Vec<Option<String>>>),
    /// That table is complete.
    Seal,
    /// A source failed, and the query must not run against a half-filled session.
    Stop,
}

/// An import whose rows are arriving.
pub struct Importing {
    pub alias: String,
    /// Whether the columns have arrived.
    pub began: bool,
    /// The ceiling, if there is one, and how many rows have arrived under it. Without a
    /// ceiling they are not counted.
    pub cap: Option<usize>,
    pub rows: usize,
}

pub open spec fn batch_view(rows: Seq<Vec<Json>>) -> Seq<Seq<Option<Seq<char>>>> {
    Seq::new(
        rows.len(),
        |i: int| Seq::new(rows[i]@.len(), |j: int| json::plain(rows[i]@[j]@)),
    )
}

pub open spec fn too_many(alias: Seq<char>, cap: nat) -> Seq<char> {
    "@import "@ + alias + ": more than "@ + text::decimal(cap)
        + " rows, which is the ceiling ALKYON_IMPORT_MAX_ROWS sets. Narrow the import, or raise it — there is no cap unless one is asked for."@
}

fn cells_of(row: &Vec<Json>) -> (r: Vec<Option<String>>)
    ensures
        r@.len() == row@.len(),
        forall|j: int|
            0 <= j < r@.len() ==> text::opt(#[trigger] r@[j]) == json::plain(row@[j]@),
{
    let mut out: Vec<Option<String>> = Vec::new();
    let mut i: usize = 0;
    while i < row.len()
        invariant
            i <= row.len(),
            out.len() == i,
            forall|j: int|
                0 <= j < i ==> text::opt(#[trigger] out@[j]) == json::plain(row@[j]@),
        decreases row.len() - i,
    {
        out.push(json::as_text(&row[i]));
        i = i + 1;
    }
    out
}

/// Rows as text, cell by cell.
pub fn rows_as_text(rows: &Vec<Vec<Json>>) -> (r: Vec<Vec<Option<String>>>)
    ensures
        model::rows_view(r@) == batch_view(rows@),
{
    let mut out: Vec<Vec<Option<String>>> = Vec::new();
    let mut i: usize = 0;
    while i < rows.len()
        invariant
            i <= rows.len(),
            out.len() == i,
            forall|k: int|
                0 <= k < i ==> {
                    &&& (#[trigger] out@[k])@.len() == rows@[k]@.len()
                    &&& forall|j: int|
                        0 <= j < out@[k]@.len() ==> text::opt(#[trigger] out@[k]@[j])
                            == json::plain(rows@[k]@[j]@)
                },
        decreases rows.len() - i,
    {
        out.push(cells_of(&rows[i]));
        i = i + 1;
    }
    proof {
        let a = model::rows_view(out@);
        let b = batch_view(rows@);
        assert forall|k: int| 0 <= k < a.len() implies a[k] =~= b[k] by {
            assert(out@[k]@.len() == rows@[k]@.len());
        }
        assert(a =~= b);
    }
    out
}

impl Importing {
    /// Under a ceiling, no more rows were let through than it allows.
    pub open spec fn wf(&self) -> bool {
        self.cap matches Some(cap) ==> self.rows <= cap
    }

    pub fn new(alias: &str, limits: Limits) -> (r: Importing)
        ensures
            r.wf(),
            r.alias@ == alias@,
            !r.began,
            r.cap == limits.max_import_rows,
            r.rows == 0,
    {
        Importing { alias: alias.to_owned(), began: false, cap: limits.max_import_rows, rows: 0 }
    }

    /// What a batch from the source comes to. A batch of several statements has no
    /// single shape to import, and a ceiling that is exceeded is an error.
    pub fn take(&mut self, batch: RowBatch) -> (r: Result<Option<Step>, Error>)
        requires
            old(self).wf(),
        ensures
            final(self).wf(),
            final(self).alias == old(self).alias,
            final(self).cap == old(self).cap,
            match batch {
                RowBatch::Columns(columns) => if old(self).began {
                    &&& *final(self) == *old(self)
                    &&& r matches Err(e) && e@ == ErrorView::BadRequest(
                        "@import "@ + old(self).alias@
                            + ": the SQL returned more than one result set"@,
                    )
                } else {
                    &&& final(self).began
                    &&& final(self).rows == old(self).rows
                    &&& r matches Ok(Some(Step::Begin { alias, columns: sent })) && alias@ == old(
                        self,
                    ).alias@ && model::columns_view(sent@) == model::columns_view(columns@)
                },
                RowBatch::Rows(rows) => if old(self).cap matches Some(cap) && old(self).rows
                    + rows@.len() > cap {
                    &&& *final(self) == *old(self)
                    &&& r matches Err(e) && e@ == ErrorView::BadRequest(
                        too_many(old(self).alias@, old(self).cap->0 as nat),
                    )
                } else {
                    &&& final(self).began == old(self).began
                    &&& old(self).cap is Some ==> final(self).rows == old(self).rows + rows@.len()
                    &&& r matches Ok(Some(Step::Rows(sent))) && model::rows_view(sent@)
                        == batch_view(rows@)
                },
                RowBatch::Affected(_) => *final(self) == *old(self) && r matches Ok(None),
            },
    {
        match batch {
            RowBatch::Columns(columns) => {
                if self.began {
                    return Err(
                        Error::BadRequest(
                            "@import ".to_owned().concat(&self.alias).concat(
                                ": the SQL returned more than one result set",
                            ),
                        ),
                    );
                }
                self.began = true;
                Ok(
                    Some(
                        Step::Begin {
                            alias: self.alias.clone(),
                            columns: clone_columns(&columns),
                        },
                    ),
                )
            },
            RowBatch::Rows(rows) => {
                if let Some(cap) = self.cap {
                    if rows.len() > cap - self.rows {
                        return Err(
                            Error::BadRequest(
                                "@import ".to_owned().concat(&self.alias).concat(
                                    ": more than ",
                                ).concat(&text::decimal_of(cap as u64)).concat(
                                    " rows, which is the ceiling ALKYON_IMPORT_MAX_ROWS sets. Narrow the import, or raise it — there is no cap unless one is asked for.",
                                ),
                            ),
                        );
                    }
                    self.rows = self.rows + rows.len();
                }
                Ok(Some(Step::Rows(rows_as_text(&rows))))
            },
            RowBatch::Affected(_) => Ok(None),
        }
    }

    /// The source has nothing more. One that returned no result set at all has nothing
    /// to import.
    pub fn finish(&self) -> (r: Result<Step, Error>)
        ensures
            match r {
                Ok(step) => self.began && step is Seal,
                Err(e) => !self.began && e@ == ErrorView::BadRequest(
                    "@import "@ + self.alias@ + ": the SQL returned no result set"@,
                ),
            },
    {
        if self.began {
            Ok(Step::Seal)
        } else {
            Err(
                Error::BadRequest(
                    "@import ".to_owned().concat(&self.alias).concat(
                        ": the SQL returned no result set",
                    ),
                ),
            )
        }
    }
}

/// A copy of those columns.
pub fn clone_columns(columns: &Vec<ColumnMeta>) -> (r: Vec<ColumnMeta>)
    ensures
        model::columns_view(r@) == model::columns_view(columns@),
{
    let mut out: Vec<ColumnMeta> = Vec::new();
    let mut i: usize = 0;
    while i < columns.len()
        invariant
            i <= columns.len(),
            out.len() == i,
            forall|j: int| 0 <= j < i ==> (#[trigger] out@[j])@ == columns@[j]@,
        decreases columns.len() - i,
    {
        out.push(
            ColumnMeta {
                name: columns[i].name.clone(),
                engine_type: columns[i].engine_type.clone(),
                logical: columns[i].logical,
            },
        );
        i = i + 1;
    }
    assert(model::columns_view(out@) =~= model::columns_view(columns@));
    out
}

/// What a spreadsheet comes to: it is read whole before it can name a column, so there
/// is nothing to stream.
pub fn sheet_steps(table: Materialised) -> (r: (Step, Step, Step))
    ensures
        r.0 matches Step::Begin { alias, columns } && alias@ == table.alias@ && columns
            == table.columns,
        r.1 matches Step::Rows(rows) && rows == table.rows,
        r.2 is Seal,
{
    let Materialised { alias, columns, rows } = table;
    (Step::Begin { alias, columns }, Step::Rows(rows), Step::Seal)
}

/// Which of the declarations are fed to the session, in the order they stand: the ones
/// with rows to bring. The others were settled before it opened.
pub open spec fn fed(imports: Seq<Import>) -> Seq<int>
    decreases imports.len(),
{
    if imports.len() == 0 {
        Seq::empty()
    } else {
        let before = fed(imports.drop_last());
        if imports.last() is Query || imports.last() is Excel {
            before.push(imports.len() - 1)
        } else {
            before
        }
    }
}

pub fn feed(imports: &Vec<Import>) -> (r: Vec<usize>)
    ensures
        Seq::new(r@.len(), |i: int| r@[i] as int) == fed(imports@),
        forall|i: int| 0 <= i < r@.len() ==> (#[trigger] r@[i]) < imports@.len(),
{
    let mut out: Vec<usize> = Vec::new();
    let mut i: usize = 0;
    assert(Seq::new(out@.len(), |k: int| out@[k] as int) =~= fed(imports@.take(0)));
    while i < imports.len()
        invariant
            i <= imports.len(),
            Seq::new(out@.len(), |k: int| out@[k] as int) == fed(imports@.take(i as int)),
            forall|k: int| 0 <= k < out@.len() ==> (#[trigger] out@[k]) < i,
        decreases imports.len() - i,
    {
        let ghost before = Seq::new(out@.len(), |k: int| out@[k] as int);
        assert(imports@.take(i as int + 1).drop_last() == imports@.take(i as int));
        match &imports[i] {
            Import::Query { .. } | Import::Excel { .. } => {
                out.push(i);
                assert(Seq::new(out@.len(), |k: int| out@[k] as int) =~= before.push(i as int));
            },
            _ => {},
        }
        i = i + 1;
    }
    assert(imports@.take(i as int) == imports@);
    out
}

/// What has to be settled before the session opens: its grants and its attachments
/// cannot be changed once it is locked.
pub struct Settled {
    pub sandbox: Sandbox,
    pub scans: Vec<Step>,
    pub attachments: Vec<Attachment>,
}

impl Settled {
    /// Nothing but the open folder, if there is one.
    pub fn new(root: Option<&str>) -> (r: Settled)
        ensures
            r.scans@.len() == 0,
            r.attachments@.len() == 0,
            r.sandbox@ == (match root {
                Some(root) => SandboxView { directories: seq![root@], files: Seq::empty() },
                None => SandboxView { directories: Seq::empty(), files: Seq::empty() },
            }),
    {
        let sandbox = match root {
            Some(root) => Sandbox::directory(root.to_owned()),
            None => {
                let none = Sandbox::default();
                assert(none@.directories =~= Seq::empty());
                assert(none@.files =~= Seq::empty());
                none
            },
        };
        Settled { sandbox, scans: Vec::new(), attachments: Vec::new() }
    }

    /// A scan, and what it has to be granted.
    pub fn scan(&mut self, alias: &str, expression: String, grant: Sandbox)
        ensures
            final(self).sandbox@.directories == session::absorbed(
                old(self).sandbox@.directories,
                grant@.directories,
            ),
            final(self).sandbox@.files == session::absorbed(
                old(self).sandbox@.files,
                grant@.files,
            ),
            final(self).attachments == old(self).attachments,
            final(self).scans@.len() == old(self).scans@.len() + 1,
            final(self).scans@.drop_last() == old(self).scans@,
            final(self).scans@.last() matches Step::Scan { alias: a, expression: e } && a@
                == alias@ && e@ == expression@,
    {
        self.sandbox.absorb(grant);
        self.scans.push(Step::Scan { alias: alias.to_owned(), expression });
        assert(self.scans@.drop_last() =~= old(self).scans@);
    }

    pub fn attach(&mut self, attachment: Attachment)
        ensures
            final(self).sandbox == old(self).sandbox,
            final(self).scans == old(self).scans,
            final(self).attachments@ == old(self).attachments@.push(attachment),
    {
        self.attachments.push(attachment);
    }
}

// --------------------------------------------------------------------------- scans

pub open spec fn kind_word(kind: SourceKind) -> Seq<char> {
    match kind {
        SourceKind::Postgres => "Postgres"@,
        SourceKind::MsSql => "MsSql"@,
        SourceKind::Fabric => "Fabric"@,
        SourceKind::MySql => "MySql"@,
        SourceKind::Mongo => "Mongo"@,
        SourceKind::Folder => "Folder"@,
        SourceKind::File => "File"@,
        SourceKind::Adls => "Adls"@,
    }
}

fn kind_word_of(kind: SourceKind) -> (r: &'static str)
    ensures
        r@ == kind_word(kind),
{
    match kind {
        SourceKind::Postgres => "Postgres",
        SourceKind::MsSql => "MsSql",
        SourceKind::Fabric => "Fabric",
        SourceKind::MySql => "MySql",
        SourceKind::Mongo => "Mongo",
        SourceKind::Folder => "Folder",
        SourceKind::File => "File",
        SourceKind::Adls => "Adls",
    }
}

/// Only a folder or file source can be imported by path: everything else has SQL to
/// run.
pub fn check_scan(alias: &str, source: &str, kind: SourceKind) -> (r: Result<(), Error>)
    ensures
        match r {
            Ok(_) => kind.local_files(),
            Err(e) => !kind.local_files() && e@ == ErrorView::BadRequest(
                "@import "@ + alias@ + ": `"@ + source@ + "` is a "@ + kind_word(kind)
                    + " source, so it needs SQL to run — write `@import "@ + alias@ + " = "@
                    + source@
                    + " : <sql>`. Only a folder or file source can be imported by path."@,
            ),
        },
{
    if kind.is_local_files() {
        Ok(())
    } else {
        Err(
            Error::BadRequest(
                "@import ".to_owned().concat(alias).concat(": `").concat(source).concat(
                    "` is a ",
                ).concat(kind_word_of(kind)).concat(
                    " source, so it needs SQL to run — write `@import ",
                ).concat(alias).concat(" = ").concat(source).concat(
                    " : <sql>`. Only a folder or file source can be imported by path.",
                ),
            ),
        )
    }
}

/// The path a scan reads: the file a source is, or a pattern below the folder it is.
pub open spec fn scanned(pattern: Seq<char>, root: Seq<char>) -> Seq<char> {
    if pattern.len() == 0 {
        tree::slashed(root)
    } else {
        tree::slashed(root) + "/"@ + pattern
    }
}

/// What a scan of a source comes to, and what it has to be granted, or why it comes to
/// nothing.
pub open spec fn scan_of(
    alias: Seq<char>,
    source: Seq<char>,
    pattern: Seq<char>,
    root: Seq<char>,
    is_dir: bool,
    windows: bool,
) -> Result<(Seq<char>, SandboxView), Seq<char>> {
    if pattern.len() == 0 && is_dir {
        Err(
            "@import "@ + alias + ": `"@ + source + "` is a folder, so say which files — `"@
                + source + "/*.parquet`"@,
        )
    } else {
        let target = scanned(pattern, root);
        match files::reads_path(target, windows) {
            Some(reader) => Ok(
                (
                    reader + "("@ + quote::literal(target) + ")"@,
                    if is_dir {
                        SandboxView { directories: seq![root], files: Seq::empty() }
                    } else {
                        SandboxView { directories: Seq::empty(), files: seq![root] }
                    },
                ),
            ),
            None => Err(
                "@import "@ + alias + ": `"@ + pattern + "` names no format alkyon reads ("@
                    + files::readable() + "). A spreadsheet goes through `@excel`."@,
            ),
        }
    }
}

/// Turn a pattern of a folder source into a scan the engine can bind. `root` is where
/// the source's path leads.
///
/// The reader comes from the pattern's own extension. A folder source grants its
/// folder, for a pattern has to be listed before it can be opened; a file source grants
/// only that file.
pub fn prepare_scan(
    alias: &str,
    source: &str,
    pattern: &str,
    root: &str,
    is_dir: bool,
    windows: bool,
) -> (r: Result<(String, Sandbox), Error>)
    ensures
        match r {
            Ok((expression, grant)) => scan_of(alias@, source@, pattern@, root@, is_dir, windows) == Ok::<
                (Seq<char>, SandboxView),
                Seq<char>,
            >((expression@, grant@)),
            Err(e) => e matches Error::BadRequest(m) && scan_of(
                alias@,
                source@,
                pattern@,
                root@,
                is_dir,
                windows,
            ) == Err::<(Seq<char>, SandboxView), Seq<char>>(m@),
        },
{
    if pattern.is_empty() && is_dir {
        return Err(
            Error::BadRequest(
                "@import ".to_owned().concat(alias).concat(": `").concat(source).concat(
                    "` is a folder, so say which files — `",
                ).concat(source).concat("/*.parquet`"),
            ),
        );
    }
    let target = if pattern.is_empty() {
        tree::slash(root)
    } else {
        tree::slash(root).concat("/").concat(pattern)
    };
    match files::reader_for(&target, windows) {
        Some(reader) => {
            let grant = if is_dir {
                Sandbox::directory(root.to_owned())
            } else {
                Sandbox::file(root.to_owned())
            };
            Ok(
                (
                    reader.to_owned().concat("(").concat(&quote::quote_literal(&target)).concat(
                        ")",
                    ),
                    grant,
                ),
            )
        },
        None => Err(
            Error::BadRequest(
                "@import ".to_owned().concat(alias).concat(": `").concat(pattern).concat(
                    "` names no format alkyon reads (",
                ).concat(&files::readable_extensions()).concat(
                    "). A spreadsheet goes through `@excel`.",
                ),
            ),
        ),
    }
}

// -------------------------------------------------------------------- spreadsheets

/// The folder a spreadsheet is looked for in: the open one, if there is one.
pub fn excel_root<'a>(alias: &str, root: Option<&'a str>, path: &str) -> (r: Result<
    &'a str,
    Error,
>)
    ensures
        match r {
            Ok(found) => root matches Some(root) && found@ == root@,
            Err(e) => root is None && e@ == ErrorView::BadRequest(
                "@excel "@ + alias@ + ": no folder is open, so `"@ + path@
                    + "` cannot be resolved"@,
            ),
        },
{
    match root {
        Some(root) => Ok(root),
        None => Err(
            Error::BadRequest(
                "@excel ".to_owned().concat(alias).concat(": no folder is open, so `").concat(
                    path,
                ).concat("` cannot be resolved"),
            ),
        ),
    }
}

/// Whether a data file may be looked for at all: by a plain relative path.
pub fn check_data_file(relative: &str, windows: bool) -> (r: Result<(), Error>)
    ensures
        match r {
            Ok(_) => paths::plain(relative@, windows),
            Err(e) => !paths::plain(relative@, windows) && e@ == ErrorView::BadRequest(
                "`"@ + relative@ + "` must be a plain relative path inside the open folder"@,
            ),
        },
{
    if paths::is_plain(relative, windows) {
        Ok(())
    } else {
        Err(
            Error::BadRequest(
                "`".to_owned().concat(relative).concat(
                    "` must be a plain relative path inside the open folder",
                ),
            ),
        )
    }
}

/// A data file inside `root`, given where it really is. Anything that leaves the folder
/// is refused.
pub fn resolve_data_file(root: &str, relative: &str, actual: &str, windows: bool) -> (r: Result<
    String,
    Error,
>)
    ensures
        match r {
            Ok(path) => {
                &&& paths::plain(relative@, windows)
                &&& paths::within(root@, actual@, windows)
                &&& path@ == actual@
            },
            Err(e) => if !paths::plain(relative@, windows) {
                e@ == ErrorView::BadRequest(
                    "`"@ + relative@ + "` must be a plain relative path inside the open folder"@,
                )
            } else {
                &&& !paths::within(root@, actual@, windows)
                &&& e@ == ErrorView::BadRequest(
                    "`"@ + relative@ + "` is outside the open folder"@,
                )
            },
        },
{
    match check_data_file(relative, windows) {
        Err(e) => Err(e),
        Ok(_) => if paths::is_within(root, actual, windows) {
            Ok(actual.to_owned())
        } else {
            Err(
                Error::BadRequest(
                    "`".to_owned().concat(relative).concat("` is outside the open folder"),
                ),
            )
        },
    }
}

/// A sheet that was read, as a table.
pub fn materialise_excel(alias: &str, sheet: Sheet) -> (r: Materialised)
    ensures
        r.alias@ == alias@,
        r.columns == sheet.columns,
        r.rows == sheet.rows,
{
    let Sheet { columns, rows } = sheet;
    Materialised { alias: alias.to_owned(), columns, rows }
}

// --------------------------------------------------------------------- the folder

/// The token that stands for the open folder inside a path literal.
pub const FOLDER_TOKEN: &'static str = "${folder}";

/// A path as it goes inside a literal: forward slashes, so that it reads the same on
/// every platform, and doubled quotes, so that it cannot end the literal.
pub open spec fn inside_literal(path: Seq<char>) -> Seq<char> {
    text::replace_char(tree::slashed(path), '\'', "''"@)
}

/// Expand the token to the open folder's path. It is how every file is addressed.
pub fn substitute(sql: &str, root: Option<&str>) -> (r: Result<String, Error>)
    ensures
        match r {
            Ok(expanded) => if text::contains(sql@, FOLDER_TOKEN@) {
                root matches Some(root) && expanded@ == text::replace_all(
                    sql@,
                    FOLDER_TOKEN@,
                    inside_literal(root@),
                )
            } else {
                expanded@ == sql@
            },
            Err(e) => {
                &&& text::contains(sql@, FOLDER_TOKEN@)
                &&& root is None
                &&& e@ == ErrorView::BadRequest(FOLDER_TOKEN@ + " needs a folder to be open"@)
            },
        },
{
    if !text::holds(sql, FOLDER_TOKEN) {
        return Ok(sql.to_owned());
    }
    match root {
        Some(root) => {
            proof {
                reveal_strlit("${folder}");
            }
            let path = text::replaced(&tree::slash(root), '\'', "''");
            Ok(text::replaced_all(sql, FOLDER_TOKEN, &path))
        },
        None => Err(
            Error::BadRequest(FOLDER_TOKEN.to_owned().concat(" needs a folder to be open")),
        ),
    }
}

// -------------------------------------------------------------------------- staging

/// Where the rows of an import land before they are cast: every column as text.
pub open spec fn staging(alias: Seq<char>) -> Seq<char> {
    alias + "__alkyon_raw"@
}

pub fn staging_table(alias: &str) -> (r: String)
    ensures
        r@ == staging(alias@),
{
    alias.to_owned().concat("__alkyon_raw")
}

pub open spec fn placeholders(n: nat) -> Seq<Seq<char>> {
    Seq::new(n, |i: int| "c"@ + text::decimal(i as nat) + " VARCHAR"@)
}

pub open spec fn begin_sql(alias: Seq<char>, columns: nat) -> Seq<char> {
    "CREATE TABLE main."@ + quote::identifier(staging(alias)) + " ("@ + text::join(
        placeholders(columns),
        ", "@,
    ) + ");"@
}

/// What creates the staging table.
pub fn begin(alias: &str, columns: &Vec<ColumnMeta>) -> (r: String)
    ensures
        r@ == begin_sql(alias@, columns@.len()),
{
    let mut parts: Vec<String> = Vec::new();
    let mut i: usize = 0;
    while i < columns.len()
        invariant
            i <= columns.len(),
            parts.len() == i,
            forall|j: int|
                0 <= j < i ==> (#[trigger] parts@[j])@ == "c"@ + text::decimal(j as nat)
                    + " VARCHAR"@,
        decreases columns.len() - i,
    {
        parts.push("c".to_owned().concat(&text::decimal_of(i as u64)).concat(" VARCHAR"));
        i = i + 1;
    }
    assert(text::views(parts@) =~= placeholders(columns@.len()));
    "CREATE TABLE main.".to_owned().concat(&quote::quote_identifier(&staging_table(alias))).concat(
        " (",
    ).concat(&text::joined(&parts, ", ")).concat(");")
}

/// A staged column as the query will see it: cast, unless it stays text.
pub open spec fn projected(column: ColumnMetaView, i: nat) -> Seq<char> {
    if engine_type(column.logical) == "VARCHAR"@ {
        "c"@ + text::decimal(i) + " AS "@ + quote::identifier(column.name)
    } else {
        "CAST(c"@ + text::decimal(i) + " AS "@ + engine_type(column.logical) + ") AS "@
            + quote::identifier(column.name)
    }
}

pub open spec fn projection(columns: Seq<ColumnMetaView>) -> Seq<Seq<char>> {
    Seq::new(columns.len(), |i: int| projected(columns[i], i as nat))
}

pub open spec fn seal_sql(alias: Seq<char>, columns: Seq<ColumnMetaView>) -> Seq<char> {
    "CREATE TABLE "@ + quote::identifier(alias) + " AS SELECT "@ + text::join(
        projection(columns),
        ", "@,
    ) + " FROM main."@ + quote::identifier(staging(alias)) + ";\nDROP TABLE main."@
        + quote::identifier(staging(alias)) + ";"@
}

/// What types the staged rows into the table the query will see, and drops the staging.
/// The engine parses the text, so a decimal keeps its digits.
pub fn seal(alias: &str, columns: &Vec<ColumnMeta>) -> (r: String)
    ensures
        r@ == seal_sql(alias@, model::columns_view(columns@)),
{
    let ghost all = model::columns_view(columns@);
    let mut parts: Vec<String> = Vec::new();
    let mut i: usize = 0;
    while i < columns.len()
        invariant
            i <= columns.len(),
            all == model::columns_view(columns@),
            parts.len() == i,
            forall|j: int| 0 <= j < i ==> (#[trigger] parts@[j])@ == projected(all[j], j as nat),
        decreases columns.len() - i,
    {
        let target = duckdb_type(columns[i].logical);
        let number = text::decimal_of(i as u64);
        let name = quote::quote_identifier(&columns[i].name);
        if text::same(target, "VARCHAR") {
            parts.push("c".to_owned().concat(&number).concat(" AS ").concat(&name));
        } else {
            parts.push(
                "CAST(c".to_owned().concat(&number).concat(" AS ").concat(target).concat(
                    ") AS ",
                ).concat(&name),
            );
        }
        i = i + 1;
    }
    assert(text::views(parts@) =~= projection(all));
    let raw = quote::quote_identifier(&staging_table(alias));
    "CREATE TABLE ".to_owned().concat(&quote::quote_identifier(alias)).concat(
        " AS SELECT ",
    ).concat(&text::joined(&parts, ", ")).concat(" FROM main.").concat(&raw).concat(
        ";\nDROP TABLE main.",
    ).concat(&raw).concat(";")
}

/// A table being filled.
pub struct Staging {
    pub alias: String,
    pub columns: Vec<ColumnMeta>,
}

/// What to do to the session, one step at a time.
pub enum Deed {
    /// Run it; what fails is reported behind `blame`.
    Run { sql: String, blame: String },
    /// Create the table, and append to it from here on.
    Open { sql: String, table: String },
    /// Append those rows.
    Append(Vec<Vec<Option<String>>>),
    /// Nothing more is appended; then run it.
    Close { sql: String, blame: String },
    /// Nothing to do.
    Nothing,
    /// Do not answer.
    Stop,
}

/// A session being built from the steps that arrive.
pub struct Building {
    pub open: Option<Staging>,
}

pub open spec fn building(open: Option<Staging>) -> Option<(Seq<char>, Seq<ColumnMetaView>)> {
    match open {
        Some(staging) => Some((staging.alias@, model::columns_view(staging.columns@))),
        None => None,
    }
}

impl Building {
    pub fn new() -> (r: Building)
        ensures
            building(r.open) is None,
    {
        Building { open: None }
    }

    /// What a step comes to. Rows that arrive before the table they belong to are an
    /// error.
    pub fn step(&mut self, step: Step) -> (r: Result<Deed, Error>)
        ensures
            match step {
                Step::Scan { alias, expression } => {
                    &&& final(self).open == old(self).open
                    &&& r matches Ok(Deed::Run { sql, blame }) && sql@ == "CREATE VIEW "@
                        + quote::identifier(alias@) + " AS SELECT * FROM "@ + expression@ + ";"@
                        && blame@ == "@import "@ + alias@ + ": "@
                },
                Step::Begin { alias, columns } => {
                    &&& building(final(self).open) == Some(
                        (alias@, model::columns_view(columns@)),
                    )
                    &&& r matches Ok(Deed::Open { sql, table }) && sql@ == begin_sql(
                        alias@,
                        columns@.len(),
                    ) && table@ == staging(alias@)
                },
                Step::Rows(rows) => {
                    &&& final(self).open == old(self).open
                    &&& if building(old(self).open) is None {
                        r matches Err(e) && e@ == ErrorView::Federated(
                            "rows arrived before the table they belong to"@,
                        )
                    } else {
                        r matches Ok(Deed::Append(sent)) && sent == rows
                    }
                },
                Step::Seal => {
                    &&& building(final(self).open) is None
                    &&& match building(old(self).open) {
                        Some((alias, columns)) => r matches Ok(Deed::Close { sql, blame }) && sql@
                            == seal_sql(alias, columns) && blame@ == "@import "@ + alias
                            + ": could not type the imported rows: "@,
                        None => r matches Ok(Deed::Nothing),
                    }
                },
                Step::Stop => final(self).open == old(self).open && r matches Ok(Deed::Stop),
            },
    {
        match step {
            Step::Scan { alias, expression } => {
                let sql = "CREATE VIEW ".to_owned().concat(
                    &quote::quote_identifier(&alias),
                ).concat(" AS SELECT * FROM ").concat(&expression).concat(";");
                Ok(Deed::Run { sql, blame: "@import ".to_owned().concat(&alias).concat(": ") })
            },
            Step::Begin { alias, columns } => {
                let sql = begin(&alias, &columns);
                let table = staging_table(&alias);
                self.open = Some(Staging { alias, columns });
                Ok(Deed::Open { sql, table })
            },
            Step::Rows(rows) => match &self.open {
                Some(_) => Ok(Deed::Append(rows)),
                None => Err(
                    Error::Federated("rows arrived before the table they belong to".to_owned()),
                ),
            },
            Step::Seal => {
                let deed = match &self.open {
                    Some(staging) => Deed::Close {
                        sql: seal(&staging.alias, &staging.columns),
                        blame: "@import ".to_owned().concat(&staging.alias).concat(
                            ": could not type the imported rows: ",
                        ),
                    },
                    None => Deed::Nothing,
                };
                self.open = None;
                Ok(deed)
            },
            Step::Stop => Ok(Deed::Stop),
        }
    }
}

// ---------------------------------------------------------------------------- laws

/// How many rows batches of those sizes bring in all.
pub open spec fn total(sizes: Seq<nat>) -> nat
    decreases sizes.len(),
{
    if sizes.len() == 0 {
        0
    } else {
        total(sizes.drop_last()) + sizes.last()
    }
}

/// How many rows have arrived after batches of those sizes, taken one by one under a
/// ceiling; nothing where one of them was refused.
pub open spec fn arrived(sizes: Seq<nat>, cap: nat) -> Option<nat>
    decreases sizes.len(),
{
    if sizes.len() == 0 {
        Some(0)
    } else {
        match arrived(sizes.drop_last(), cap) {
            Some(rows) => if rows + sizes.last() > cap {
                None
            } else {
                Some(rows + sizes.last())
            },
            None => None,
        }
    }
}

/// A ceiling fails an import and never truncates it: every row arrives where there are
/// no more than it allows, and a batch is refused exactly where there are.
pub proof fn law_a_ceiling_fails_and_never_truncates(sizes: Seq<nat>, cap: nat)
    ensures
        arrived(sizes, cap) == if total(sizes) <= cap {
            Some(total(sizes))
        } else {
            None
        },
    decreases sizes.len(),
{
    if sizes.len() > 0 {
        law_a_ceiling_fails_and_never_truncates(sizes.drop_last(), cap);
    }
}

/// A path in a literal does not end it: however many quotes the path of the open folder
/// has, the literal around it is read back as one.
pub proof fn law_a_folder_path_cannot_end_its_literal(path: Seq<char>, rest: Seq<char>)
    requires
        rest.len() == 0 || rest[0] != '\'',
    ensures
        quote::unquote(inside_literal(path) + seq!['\''] + rest, '\'') == Some(
            (tree::slashed(path), rest),
        ),
{
    reveal_strlit("''");
    assert("''"@ =~= seq!['\'', '\'']);
    let value = tree::slashed(path);
    quote::law_quoting_is_read_back_whole(value, '\'', rest);
    assert(quote::quoted(value, '\'').skip(1) + rest =~= inside_literal(path) + seq!['\''] + rest);
}

/// The type each kind of column is given in the engine. What is no number, truth or time
/// stays the text it arrives as.
pub proof fn law_a_column_gets_the_type_of_what_it_holds()
    ensures
        engine_type(LogicalType::Bool) == "BOOLEAN"@,
        engine_type(LogicalType::Int) == "BIGINT"@,
        engine_type(LogicalType::Float) == "DOUBLE"@,
        engine_type(LogicalType::Decimal) == "DECIMAL(38,9)"@,
        engine_type(LogicalType::Date) == "DATE"@,
        engine_type(LogicalType::Time) == "TIME"@,
        engine_type(LogicalType::Timestamp) == "TIMESTAMP"@,
        engine_type(LogicalType::TimestampTz) == "TIMESTAMPTZ"@,
        engine_type(LogicalType::Uuid) == "UUID"@,
        engine_type(LogicalType::Json) == "JSON"@,
        engine_type(LogicalType::Text) == "VARCHAR"@,
        engine_type(LogicalType::Binary) == "VARCHAR"@,
        engine_type(LogicalType::Unknown) == "VARCHAR"@,
{
}

/// An item of a select list that reads one column, under another name: as it is where that
/// is text, and cast otherwise.
pub open spec fn reads_column(
    item: Seq<char>,
    staged: Seq<char>,
    column: ColumnMetaView,
) -> bool {
    if column.logical is Text || column.logical is Binary || column.logical is Unknown {
        item == staged + " AS "@ + quote::identifier(column.name)
    } else {
        item == "CAST("@ + staged + " AS "@ + engine_type(column.logical) + ") AS "@
            + quote::identifier(column.name)
    }
}

/// The two statements of an import speak of the same columns: what is staged in a column is
/// read back from that very column, each column from one of its own, under the name and in
/// the type the result gave it. The staging table goes when the table is there.
pub open spec fn moves_every_column(
    begun: Seq<char>,
    sealed: Seq<char>,
    alias: Seq<char>,
    columns: Seq<ColumnMetaView>,
    staged: Seq<Seq<char>>,
    declared: Seq<Seq<char>>,
    items: Seq<Seq<char>>,
) -> bool {
    let raw = "main."@ + quote::identifier(alias + "__alkyon_raw"@);
    &&& staged.len() == columns.len()
    &&& declared.len() == columns.len()
    &&& items.len() == columns.len()
    &&& forall|i: int, j: int|
        0 <= i < j < staged.len() ==> #[trigger] staged[i] != #[trigger] staged[j]
    &&& forall|i: int|
        0 <= i < columns.len() ==> #[trigger] declared[i] == staged[i] + " VARCHAR"@
    &&& forall|i: int|
        0 <= i < columns.len() ==> reads_column(#[trigger] items[i], staged[i], columns[i])
    &&& begun == "CREATE TABLE "@ + raw + " ("@ + text::join(declared, ", "@) + ");"@
    &&& sealed == "CREATE TABLE "@ + quote::identifier(alias) + " AS SELECT "@ + text::join(
        items,
        ", "@,
    ) + " FROM "@ + raw + ";\nDROP TABLE "@ + raw + ";"@
}

proof fn lemma_staged_apart(i: nat, j: nat)
    requires
        i != j,
    ensures
        "c"@ + text::decimal(i) != "c"@ + text::decimal(j),
{
    reveal_strlit("c");
    text::lemma_decimal(i);
    text::lemma_decimal(j);
    let a = "c"@ + text::decimal(i);
    let b = "c"@ + text::decimal(j);
    assert(a.skip(1) == text::decimal(i));
    assert(b.skip(1) == text::decimal(j));
}

/// Every column of an import is filled from the column it was staged in, and no two from
/// the same one.
pub proof fn law_every_column_is_filled_from_its_own(
    alias: Seq<char>,
    columns: Seq<ColumnMetaView>,
)
    ensures
        exists|staged: Seq<Seq<char>>, declared: Seq<Seq<char>>, items: Seq<Seq<char>>| #[trigger]
            moves_every_column(
                begin_sql(alias, columns.len()),
                seal_sql(alias, columns),
                alias,
                columns,
                staged,
                declared,
                items,
            ),
{
    let staged = Seq::new(columns.len(), |i: int| "c"@ + text::decimal(i as nat));
    let declared = placeholders(columns.len());
    let items = projection(columns);
    assert forall|i: int, j: int| 0 <= i < j < staged.len() implies #[trigger] staged[i]
        != #[trigger] staged[j] by {
        lemma_staged_apart(i as nat, j as nat);
    }
    assert forall|i: int| 0 <= i < columns.len() implies reads_column(
        #[trigger] items[i],
        staged[i],
        columns[i],
    ) by {
        lemma_projected(columns[i], i as nat);
    }
    lemma_statements(alias, columns);
    assert(moves_every_column(
        begin_sql(alias, columns.len()),
        seal_sql(alias, columns),
        alias,
        columns,
        staged,
        declared,
        items,
    ));
}

proof fn lemma_projected(column: ColumnMetaView, i: nat)
    ensures
        reads_column(projected(column, i), "c"@ + text::decimal(i), column),
{
    reveal_strlit("VARCHAR");
    reveal_strlit("BOOLEAN");
    reveal_strlit("BIGINT");
    reveal_strlit("DOUBLE");
    reveal_strlit("DECIMAL(38,9)");
    reveal_strlit("DATE");
    reveal_strlit("TIME");
    reveal_strlit("TIMESTAMP");
    reveal_strlit("TIMESTAMPTZ");
    reveal_strlit("UUID");
    reveal_strlit("JSON");
    reveal_strlit("CAST(c");
    reveal_strlit("CAST(");
    reveal_strlit("c");
    assert("BOOLEAN"@[0] != "VARCHAR"@[0]);
    assert("CAST(c"@ == "CAST("@ + "c"@);
    let staged = "c"@ + text::decimal(i);
    let name = quote::identifier(column.name);
    assert("CAST(c"@ + text::decimal(i) + " AS "@ + engine_type(column.logical) + ") AS "@ + name
        == "CAST("@ + staged + " AS "@ + engine_type(column.logical) + ") AS "@ + name);
    assert(engine_type(column.logical) == "VARCHAR"@ <==> (column.logical is Text
        || column.logical is Binary || column.logical is Unknown)) by {
        assert("VARCHAR"@[0] == 'V');
        if !(column.logical is Text || column.logical is Binary || column.logical is Unknown) {
            assert(engine_type(column.logical)[0] != 'V');
        }
    }
}

proof fn lemma_statements(alias: Seq<char>, columns: Seq<ColumnMetaView>)
    ensures
        ({
            let raw = "main."@ + quote::identifier(alias + "__alkyon_raw"@);
            &&& begin_sql(alias, columns.len()) == "CREATE TABLE "@ + raw + " ("@ + text::join(
                placeholders(columns.len()),
                ", "@,
            ) + ");"@
            &&& seal_sql(alias, columns) == "CREATE TABLE "@ + quote::identifier(alias)
                + " AS SELECT "@ + text::join(projection(columns), ", "@) + " FROM "@ + raw
                + ";\nDROP TABLE "@ + raw + ";"@
        }),
{
    reveal_strlit("CREATE TABLE main.");
    reveal_strlit("CREATE TABLE ");
    reveal_strlit("main.");
    reveal_strlit(" FROM main.");
    reveal_strlit(" FROM ");
    reveal_strlit(";\nDROP TABLE main.");
    reveal_strlit(";\nDROP TABLE ");
    assert("CREATE TABLE main."@ == "CREATE TABLE "@ + "main."@);
    assert(" FROM main."@ == " FROM "@ + "main."@);
    assert(";\nDROP TABLE main."@ == ";\nDROP TABLE "@ + "main."@);
    let id = quote::identifier(alias + "__alkyon_raw"@);
    let raw = "main."@ + id;
    let list = text::join(placeholders(columns.len()), ", "@);
    assert("CREATE TABLE main."@ + id + " ("@ + list + ");"@ == "CREATE TABLE "@ + raw + " ("@
        + list + ");"@);
    let items = text::join(projection(columns), ", "@);
    let head = "CREATE TABLE "@ + quote::identifier(alias) + " AS SELECT "@ + items;
    assert(head + " FROM main."@ + id + ";\nDROP TABLE main."@ + id + ";"@ == head + " FROM "@ + raw
        + ";\nDROP TABLE "@ + raw + ";"@);
}

/// Rows on their way into a table keep their number, their order and every cell: a text as
/// it is, a number as its digits, and nothing as nothing.
pub proof fn law_rows_arrive_whole(rows: Seq<Vec<Json>>)
    ensures
        batch_view(rows).len() == rows.len(),
        forall|i: int|
            0 <= i < rows.len() ==> (#[trigger] batch_view(rows)[i]).len() == rows[i]@.len(),
        forall|i: int, j: int|
            #![trigger batch_view(rows)[i][j]]
            0 <= i < rows.len() && 0 <= j < rows[i]@.len() ==> {
                let cell = batch_view(rows)[i][j];
                &&& cell is None <==> rows[i]@[j]@ is Null
                &&& rows[i]@[j]@ matches JsonView::Text(t) ==> cell == Some(t)
                &&& rows[i]@[j]@ matches JsonView::Number(n) ==> cell == Some(n)
                &&& rows[i]@[j]@ == JsonView::Bool(true) ==> cell == Some("true"@)
                &&& rows[i]@[j]@ == JsonView::Bool(false) ==> cell == Some("false"@)
            },
{
}

/// The statements an import is begun and sealed with move every column: what is staged in a
/// column is read from that very column, and no two columns read the same one.
pub proof fn law_an_import_moves_every_column(
    alias: &str,
    columns: &Vec<ColumnMeta>,
    begun: String,
    sealed: String,
)
    requires
        call_ensures(begin, (alias, columns), begun),
        call_ensures(seal, (alias, columns), sealed),
    ensures
        exists|staged: Seq<Seq<char>>, declared: Seq<Seq<char>>, items: Seq<Seq<char>>| #[trigger]
            moves_every_column(
                begun@,
                sealed@,
                alias@,
                model::columns_view(columns@),
                staged,
                declared,
                items,
            ),
{
    law_every_column_is_filled_from_its_own(alias@, model::columns_view(columns@));
}

/// The folder token stands for the open folder wherever it is written, and a statement
/// without it is left alone.
pub proof fn law_a_statement_without_the_token_is_left_alone(
    sql: &str,
    root: Option<&str>,
    r: Result<String, Error>,
)
    requires
        call_ensures(substitute, (sql, root), r),
    ensures
        !text::contains(sql@, FOLDER_TOKEN@) ==> (r matches Ok(t) && t@ == sql@),
        text::contains(sql@, FOLDER_TOKEN@) && root is None ==> r is Err,
        text::contains(sql@, FOLDER_TOKEN@) && root is Some ==> (r matches Ok(t) && t@
            == text::replace_all(sql@, FOLDER_TOKEN@, inside_literal(root->Some_0@))),
{
}

/// A file is read only where it lies inside the open folder, and it is that file.
pub proof fn law_a_data_file_lies_inside_the_open_folder(
    root: &str,
    relative: &str,
    actual: &str,
    windows: bool,
    r: Result<String, Error>,
)
    requires
        call_ensures(resolve_data_file, (root, relative, actual, windows), r),
    ensures
        r is Ok <==> paths::plain(relative@, windows) && paths::within(root@, actual@, windows),
        r matches Ok(path) ==> path@ == actual@,
{
}

/// Files that are imported by path are read by the function for their extension, from the
/// folder of the source, which is all the session is granted.
pub proof fn law_a_scan_reads_below_its_source(
    alias: Seq<char>,
    source: Seq<char>,
    pattern: Seq<char>,
    root: Seq<char>,
    is_dir: bool,
    windows: bool,
)
    ensures
        scan_of(alias, source, pattern, root, is_dir, windows) matches Ok((expression, grant)) ==> {
            let target = if pattern.len() == 0 {
                tree::slashed(root)
            } else {
                tree::slashed(root) + "/"@ + pattern
            };
            &&& files::reads_path(target, windows) matches Some(reader)
            &&& expression == files::reads_path(target, windows)->Some_0 + "("@ + quote::literal(
                target,
            ) + ")"@
            &&& is_dir ==> grant.directories == seq![root] && grant.files.len() == 0
            &&& !is_dir ==> grant.files == seq![root] && grant.directories.len() == 0
        },
        scan_of(alias, source, pattern, root, is_dir, windows) is Err <==> (pattern.len() == 0
            && is_dir) || files::reads_path(scanned(pattern, root), windows) is None,
{
}

/// Every import that brings rows in is fed, in order, and no other.
pub proof fn law_every_import_that_brings_rows_is_fed(imports: Seq<Import>, i: int)
    requires
        0 <= i < imports.len(),
    ensures
        fed(imports).contains(i) <==> imports[i] is Query || imports[i] is Excel,
        forall|k: int| 0 <= k < fed(imports).len() ==> 0 <= #[trigger] fed(imports)[k] < imports.len(),
    decreases imports.len(),
{
    lemma_fed_bounds(imports);
    lemma_fed_bounds(imports.drop_last());
    let before = fed(imports.drop_last());
    let all = fed(imports);
    let last = imports.len() - 1;
    if i < last {
        law_every_import_that_brings_rows_is_fed(imports.drop_last(), i);
        assert(imports.drop_last()[i] == imports[i]);
        if before.contains(i) {
            let k = before.index_of(i);
            assert(all[k] == i);
        }
        if all.contains(i) {
            let k = all.index_of(i);
            assert(before[k] == i);
        }
    } else {
        if imports[i] is Query || imports[i] is Excel {
            assert(all[all.len() - 1] == i);
        } else if all.contains(i) {
            let k = all.index_of(i);
            assert(before[k] == i);
        }
    }
}

proof fn lemma_fed_bounds(imports: Seq<Import>)
    ensures
        forall|k: int| 0 <= k < fed(imports).len() ==> 0 <= #[trigger] fed(imports)[k] < imports.len(),
    decreases imports.len(),
{
    if imports.len() > 0 {
        lemma_fed_bounds(imports.drop_last());
        let before = fed(imports.drop_last());
        let all = fed(imports);
        assert forall|k: int| 0 <= k < all.len() implies 0 <= #[trigger] all[k] < imports.len() by {
            if k < before.len() {
                assert(all[k] == before[k]);
            }
        }
    }
}

/// A scan becomes a view of everything its expression reads, under its own name.
pub proof fn law_a_scan_becomes_a_view_of_everything(
    building: &mut Building,
    alias: String,
    expression: String,
    r: Result<Deed, Error>,
)
    requires
        call_ensures(Building::step, (building, Step::Scan { alias, expression }), r),
    ensures
        r matches Ok(Deed::Run { sql, .. }) && sql@ == "CREATE VIEW "@ + quote::identifier(alias@)
            + " AS SELECT * FROM "@ + expression@ + ";"@,
{
}

/// A batch of rows goes on whole, every cell of it, or the import fails: it is never cut.
pub proof fn law_a_batch_goes_on_whole_or_fails(
    importing: &mut Importing,
    rows: Vec<Vec<Json>>,
    r: Result<Option<Step>, Error>,
)
    requires
        call_ensures(Importing::take, (importing, RowBatch::Rows(rows)), r),
    ensures
        r matches Ok(step) ==> (step matches Some(Step::Rows(sent)) && model::rows_view(sent@)
            == batch_view(rows@)),
{
}

} // verus!
