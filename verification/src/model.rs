//! What a source is: how it is reached, how it signs in, what it is asked.

use crate::azure::entra::Resource;
use crate::error::{Error, ErrorView};
use crate::json::Json;
use crate::paths;
use crate::text;
use std::sync::Arc;
use vstd::prelude::*;
use vstd::string::*;

verus! {

/// The SQL dialect a source speaks. Nothing is ever translated between these: the
/// text that was typed goes to the engine that understands it.
#[derive(Debug, Clone, Copy, PartialEq, Eq, Structural)]
pub enum Dialect {
    TSql,
    PgSql,
    MySql,
    DuckDb,
}

impl Dialect {
    pub open spec fn mime_text(self) -> Seq<char> {
        match self {
            Dialect::TSql => "text/x-mssql"@,
            Dialect::PgSql => "text/x-pgsql"@,
            Dialect::MySql => "text/x-mysql"@,
            Dialect::DuckDb => "text/x-sql"@,
        }
    }

    /// The MIME type the editor should use for this dialect.
    pub fn mime(self) -> (r: &'static str)
        ensures
            r@ == self.mime_text(),
    {
        match self {
            Dialect::TSql => "text/x-mssql",
            Dialect::PgSql => "text/x-pgsql",
            Dialect::MySql => "text/x-mysql",
            Dialect::DuckDb => "text/x-sql",
        }
    }
}

#[derive(Debug, Clone, Copy, PartialEq, Eq, Structural)]
pub enum SourceKind {
    Postgres,
    MsSql,
    /// A SQL Server reached through DuckDB's `mssql` extension, which follows the
    /// routing a Fabric endpoint answers with. The dialect is still T-SQL.
    Fabric,
    MySql,
    /// A MongoDB deployment: reached like a server, queried in DuckDB SQL.
    Mongo,
    /// A folder of data files. It has a `path` instead of a host, and no credential.
    Folder,
    /// One data file.
    File,
    /// A folder in Azure storage: reached over the network, read like a folder.
    Adls,
}

impl SourceKind {
    /// Reached over the network and queried there.
    pub open spec fn server(self) -> bool {
        !(self is Folder || self is File || self is Adls)
    }

    pub open spec fn local_files(self) -> bool {
        self is Folder || self is File
    }

    pub open spec fn host_needed(self) -> bool {
        self.server() || self is Adls
    }

    pub open spec fn port_by_default(self) -> u16 {
        match self {
            SourceKind::Postgres => 5432,
            SourceKind::MsSql | SourceKind::Fabric => 1433,
            SourceKind::MySql => 3306,
            SourceKind::Mongo => 27017,
            SourceKind::Folder | SourceKind::File | SourceKind::Adls => 0,
        }
    }

    pub open spec fn schema_by_default(self) -> Seq<char> {
        match self {
            SourceKind::Postgres => "public"@,
            SourceKind::MsSql | SourceKind::Fabric => "dbo"@,
            SourceKind::MySql | SourceKind::Mongo => ""@,
            SourceKind::Folder | SourceKind::File | SourceKind::Adls => "public"@,
        }
    }

    pub open spec fn database_by_default(self) -> Seq<char> {
        match self {
            SourceKind::Postgres => "postgres"@,
            SourceKind::MsSql | SourceKind::Fabric => "master"@,
            SourceKind::MySql => "information_schema"@,
            SourceKind::Mongo => "admin"@,
            SourceKind::Folder | SourceKind::File | SourceKind::Adls => "memory"@,
        }
    }

    pub open spec fn resource(self) -> Option<Resource> {
        match self {
            SourceKind::MsSql | SourceKind::Fabric => Some(Resource::AzureSql),
            SourceKind::Adls => Some(Resource::Storage),
            _ => None,
        }
    }

    /// Whether this kind is reached over the network. The false case is what makes
    /// `host`, `port`, encryption and authentication meaningless.
    pub fn is_server(self) -> (r: bool)
        ensures
            r == self.server(),
    {
        !matches!(self, SourceKind::Folder | SourceKind::File | SourceKind::Adls)
    }

    /// Whether this kind is read as data files rather than queried on a server.
    pub fn is_files(self) -> (r: bool)
        ensures
            r == !self.server(),
    {
        !self.is_server()
    }

    /// Whether the source's `path` names somewhere on this machine.
    pub fn is_local_files(self) -> (r: bool)
        ensures
            r == self.local_files(),
    {
        matches!(self, SourceKind::Folder | SourceKind::File)
    }

    /// Whether a host is required.
    pub fn needs_host(self) -> (r: bool)
        ensures
            r == self.host_needed(),
    {
        self.is_server() || self == SourceKind::Adls
    }

    pub fn default_port(self) -> (r: u16)
        ensures
            r == self.port_by_default(),
    {
        match self {
            SourceKind::Postgres => 5432,
            SourceKind::MsSql | SourceKind::Fabric => 1433,
            SourceKind::MySql => 3306,
            SourceKind::Mongo => 27017,
            // Not a port at all.
            SourceKind::Folder | SourceKind::File | SourceKind::Adls => 0,
        }
    }

    pub fn default_schema(self) -> (r: &'static str)
        ensures
            r@ == self.schema_by_default(),
    {
        match self {
            SourceKind::Postgres => "public",
            SourceKind::MsSql | SourceKind::Fabric => "dbo",
            // Neither has a schema layer: a database holds tables, or collections.
            SourceKind::MySql | SourceKind::Mongo => "",
            SourceKind::Folder | SourceKind::File | SourceKind::Adls => "public",
        }
    }

    /// Which Entra resource a token for this kind has to be minted for.
    pub fn entra_resource(self) -> (r: Option<Resource>)
        ensures
            r == self.resource(),
    {
        match self {
            SourceKind::MsSql | SourceKind::Fabric => Some(Resource::AzureSql),
            SourceKind::Adls => Some(Resource::Storage),
            _ => None,
        }
    }

    /// Where to connect when no database was given.
    pub fn default_database(self) -> (r: &'static str)
        ensures
            r@ == self.database_by_default(),
    {
        match self {
            SourceKind::Postgres => "postgres",
            SourceKind::MsSql | SourceKind::Fabric => "master",
            SourceKind::MySql => "information_schema",
            SourceKind::Mongo => "admin",
            SourceKind::Folder | SourceKind::File | SourceKind::Adls => "memory",
        }
    }
}

/// The catalogue a folder or file source shows where a server shows a database: the
/// name of the folder, and for a file the folder it is in.
pub open spec fn catalogue(kind: SourceKind, path: Seq<char>, windows: bool) -> Seq<char> {
    let name = if kind is File {
        paths::parent_name(path, windows)
    } else {
        paths::file_name(path, windows)
    };
    match name {
        Some(t) => if t.len() > 0 {
            t
        } else {
            kind.database_by_default()
        },
        None => kind.database_by_default(),
    }
}

pub fn catalogue_name(kind: SourceKind, path: &str, windows: bool) -> (r: String)
    ensures
        r@ == catalogue(kind, path@, windows),
{
    let name = if kind == SourceKind::File {
        paths::parent_name_of(path, windows)
    } else {
        paths::file_name_of(path, windows)
    };
    match name {
        Some(t) => if t.as_str().is_empty() {
            kind.default_database().to_owned()
        } else {
            t
        },
        None => kind.default_database().to_owned(),
    }
}

/// What a data file holds, and therefore which reader opens it.
#[derive(Debug, Clone, Copy, PartialEq, Eq, Structural)]
pub enum FileFormat {
    Csv,
    Parquet,
    /// A JSON document, or an array of them.
    Json,
    /// One JSON document per line.
    JsonLines,
    /// A spreadsheet. One table per sheet.
    Excel,
    /// A Delta table: a directory of parquet and a log saying which files are live.
    /// It is found by the log rather than by a name.
    Delta,
}

impl FileFormat {
    /// The extensions that mean this format.
    pub open spec fn extension_list(self) -> Seq<Seq<char>> {
        match self {
            FileFormat::Csv => seq!["csv"@, "tsv"@, "txt"@],
            FileFormat::Parquet => seq!["parquet"@],
            FileFormat::Json => seq!["json"@],
            FileFormat::JsonLines => seq!["jsonl"@, "ndjson"@],
            FileFormat::Excel => seq!["xlsx"@, "xlsm"@, "xlsb"@, "xls"@],
            FileFormat::Delta => Seq::empty(),
        }
    }

    /// The format an extension implies, whatever its case.
    pub open spec fn for_extension(extension: Seq<char>) -> Option<FileFormat> {
        let lower = text::ascii_lower(extension);
        if FileFormat::Csv.extension_list().contains(lower) {
            Some(FileFormat::Csv)
        } else if FileFormat::Parquet.extension_list().contains(lower) {
            Some(FileFormat::Parquet)
        } else if FileFormat::Json.extension_list().contains(lower) {
            Some(FileFormat::Json)
        } else if FileFormat::JsonLines.extension_list().contains(lower) {
            Some(FileFormat::JsonLines)
        } else if FileFormat::Excel.extension_list().contains(lower) {
            Some(FileFormat::Excel)
        } else {
            None
        }
    }

    /// The extensions that mean this format when nothing was declared.
    pub fn extensions(self) -> (r: Vec<&'static str>)
        ensures
            Seq::new(r@.len(), |i: int| r@[i]@) == self.extension_list(),
    {
        let r: Vec<&'static str> = match self {
            FileFormat::Csv => vec!["csv", "tsv", "txt"],
            FileFormat::Parquet => vec!["parquet"],
            FileFormat::Json => vec!["json"],
            FileFormat::JsonLines => vec!["jsonl", "ndjson"],
            FileFormat::Excel => vec!["xlsx", "xlsm", "xlsb", "xls"],
            // A Delta table is a directory: nothing is read as Delta for its name.
            FileFormat::Delta => Vec::new(),
        };
        assert(Seq::new(r@.len(), |i: int| r@[i]@) =~= self.extension_list());
        r
    }

    /// Every format there is.
    pub fn all() -> (r: Vec<FileFormat>)
        ensures
            r@ == seq![
                FileFormat::Csv,
                FileFormat::Parquet,
                FileFormat::Json,
                FileFormat::JsonLines,
                FileFormat::Excel,
                FileFormat::Delta,
            ],
    {
        vec![
            FileFormat::Csv,
            FileFormat::Parquet,
            FileFormat::Json,
            FileFormat::JsonLines,
            FileFormat::Excel,
            FileFormat::Delta,
        ]
    }

    /// Whether an extension, already in lower case, is one of this format's.
    pub fn has(self, lower: &str) -> (r: bool)
        ensures
            r == self.extension_list().contains(lower@),
    {
        let all = self.extensions();
        let ghost list = self.extension_list();
        let mut i: usize = 0;
        while i < all.len()
            invariant
                i <= all.len(),
                list == self.extension_list(),
                list == Seq::new(all@.len(), |j: int| all@[j]@),
                forall|j: int| 0 <= j < i ==> list[j] != lower@,
            decreases all.len() - i,
        {
            if text::same(all[i], lower) {
                assert(list[i as int] == lower@);
                return true;
            }
            i = i + 1;
        }
        false
    }

    /// The format an extension implies, or `None` for one that is not read.
    pub fn from_extension(extension: &str) -> (r: Option<FileFormat>)
        ensures
            r == FileFormat::for_extension(extension@),
    {
        let lower = text::to_ascii_lower(extension);
        let all = FileFormat::all();
        if all[0].has(&lower) {
            Some(all[0])
        } else if all[1].has(&lower) {
            Some(all[1])
        } else if all[2].has(&lower) {
            Some(all[2])
        } else if all[3].has(&lower) {
            Some(all[3])
        } else if all[4].has(&lower) {
            Some(all[4])
        } else {
            None
        }
    }

    /// Whether the format is read in-process rather than by DuckDB.
    pub fn is_excel(self) -> (r: bool)
        ensures
            r == self is Excel,
    {
        matches!(self, FileFormat::Excel)
    }

    /// Whether one table is a directory rather than a file or a group of them.
    pub fn is_delta(self) -> (r: bool)
        ensures
            r == self is Delta,
    {
        matches!(self, FileFormat::Delta)
    }

    /// The DuckDB extension this format needs installed, if any.
    pub fn extension(self) -> (r: Option<&'static str>)
        ensures
            match r {
                Some(t) => self is Delta && t@ == "delta"@,
                None => !(self is Delta),
            },
    {
        match self {
            FileFormat::Delta => Some("delta"),
            _ => None,
        }
    }
}

/// Every extension a format lists is read as that format, in any mixture of cases.
pub proof fn law_extensions_mean_their_format(format: FileFormat, extension: Seq<char>)
    ensures
        FileFormat::for_extension(extension) == Some(format)
            <==> format.extension_list().contains(text::ascii_lower(extension)),
{
    reveal_strlit("csv");
    reveal_strlit("tsv");
    reveal_strlit("txt");
    reveal_strlit("parquet");
    reveal_strlit("json");
    reveal_strlit("jsonl");
    reveal_strlit("ndjson");
    reveal_strlit("xlsx");
    reveal_strlit("xlsm");
    reveal_strlit("xlsb");
    reveal_strlit("xls");
    let lower = text::ascii_lower(extension);
    assert(FileFormat::Csv.extension_list().contains(lower) ==> lower.len() == 3 && lower[0] != 'x');
    assert(FileFormat::Parquet.extension_list().contains(lower) ==> lower.len() == 7);
    assert(FileFormat::Json.extension_list().contains(lower) ==> lower.len() == 4 && lower[0]
        == 'j');
    assert(FileFormat::JsonLines.extension_list().contains(lower) ==> lower.len() == 5
        || lower.len() == 6);
    assert(FileFormat::Excel.extension_list().contains(lower) ==> (lower.len() == 3 || lower.len()
        == 4) && lower[0] == 'x');
}

/// How to read a CSV, for the times its shape is not what a sniffer would guess.
/// Every absent field means "work it out".
#[derive(Debug, Default, PartialEq, Eq)]
pub struct CsvOptions {
    pub delimiter: Option<String>,
    pub quote: Option<String>,
    pub escape: Option<String>,
    /// `false` names the columns `column0`, `column1`, …
    pub header: Option<bool>,
    /// `,` for `1 234,56`.
    pub decimal: Option<String>,
    pub encoding: Option<String>,
    /// The text that means NULL, beyond an empty field.
    pub null_string: Option<String>,
    /// Lines to drop before the header.
    pub skip: Option<u64>,
    pub date_format: Option<String>,
    pub timestamp_format: Option<String>,
    /// Keep going past a row that will not parse.
    pub ignore_errors: Option<bool>,
    /// How many rows are read before deciding the types. `-1` is all of them.
    pub sample_size: Option<i64>,
    /// Read every column as text.
    pub all_varchar: Option<bool>,
}

/// The value of [`CsvOptions`].
pub struct CsvOptionsView {
    pub delimiter: Option<Seq<char>>,
    pub quote: Option<Seq<char>>,
    pub escape: Option<Seq<char>>,
    pub header: Option<bool>,
    pub decimal: Option<Seq<char>>,
    pub encoding: Option<Seq<char>>,
    pub null_string: Option<Seq<char>>,
    pub skip: Option<u64>,
    pub date_format: Option<Seq<char>>,
    pub timestamp_format: Option<Seq<char>>,
    pub ignore_errors: Option<bool>,
    pub sample_size: Option<i64>,
    pub all_varchar: Option<bool>,
}

impl View for CsvOptions {
    type V = CsvOptionsView;

    open spec fn view(&self) -> CsvOptionsView {
        CsvOptionsView {
            delimiter: text::opt(self.delimiter),
            quote: text::opt(self.quote),
            escape: text::opt(self.escape),
            header: self.header,
            decimal: text::opt(self.decimal),
            encoding: text::opt(self.encoding),
            null_string: text::opt(self.null_string),
            skip: self.skip,
            date_format: text::opt(self.date_format),
            timestamp_format: text::opt(self.timestamp_format),
            ignore_errors: self.ignore_errors,
            sample_size: self.sample_size,
            all_varchar: self.all_varchar,
        }
    }
}

impl CsvOptionsView {
    /// Nothing said.
    pub open spec fn empty() -> CsvOptionsView {
        CsvOptionsView {
            delimiter: None,
            quote: None,
            escape: None,
            header: None,
            decimal: None,
            encoding: None,
            null_string: None,
            skip: None,
            date_format: None,
            timestamp_format: None,
            ignore_errors: None,
            sample_size: None,
            all_varchar: None,
        }
    }
}

impl Clone for CsvOptions {
    fn clone(&self) -> (r: Self)
        ensures
            r@ == self@,
    {
        CsvOptions {
            delimiter: text::clone_opt(&self.delimiter),
            quote: text::clone_opt(&self.quote),
            escape: text::clone_opt(&self.escape),
            header: self.header,
            decimal: text::clone_opt(&self.decimal),
            encoding: text::clone_opt(&self.encoding),
            null_string: text::clone_opt(&self.null_string),
            skip: self.skip,
            date_format: text::clone_opt(&self.date_format),
            timestamp_format: text::clone_opt(&self.timestamp_format),
            ignore_errors: self.ignore_errors,
            sample_size: self.sample_size,
            all_varchar: self.all_varchar,
        }
    }
}

impl CsvOptions {
    /// Whether nothing was said.
    pub fn is_empty(&self) -> (r: bool)
        ensures
            r == (self@ == CsvOptionsView::empty()),
    {
        self.delimiter.is_none() && self.quote.is_none() && self.escape.is_none()
            && self.header.is_none() && self.decimal.is_none() && self.encoding.is_none()
            && self.null_string.is_none() && self.skip.is_none() && self.date_format.is_none()
            && self.timestamp_format.is_none() && self.ignore_errors.is_none()
            && self.sample_size.is_none() && self.all_varchar.is_none()
    }
}

/// How to read a spreadsheet.
#[derive(Debug, Default, PartialEq, Eq)]
pub struct ExcelOptions {
    /// Only this sheet, rather than one table per sheet.
    pub sheet: Option<String>,
}

/// The format half of a folder or file source.
#[derive(Debug, Default, PartialEq, Eq)]
pub struct FileOptions {
    /// What the files hold. A folder source must declare it, and a file source may.
    pub format: Option<FileFormat>,
    /// Files to leave out, relative to the folder and with forward slashes.
    pub exclude: Vec<String>,
    pub csv: CsvOptions,
    pub excel: ExcelOptions,
}

/// The value of [`FileOptions`].
pub struct FileOptionsView {
    pub format: Option<FileFormat>,
    pub exclude: Seq<Seq<char>>,
    pub csv: CsvOptionsView,
    pub sheet: Option<Seq<char>>,
}

impl View for FileOptions {
    type V = FileOptionsView;

    open spec fn view(&self) -> FileOptionsView {
        FileOptionsView {
            format: self.format,
            exclude: text::views(self.exclude@),
            csv: self.csv@,
            sheet: text::opt(self.excel.sheet),
        }
    }
}

impl FileOptionsView {
    pub open spec fn empty() -> FileOptionsView {
        FileOptionsView {
            format: None,
            exclude: Seq::empty(),
            csv: CsvOptionsView::empty(),
            sheet: None,
        }
    }

    /// The format for a file with this extension: what was declared, or what the
    /// extension says.
    pub open spec fn format_for(self, extension: Option<Seq<char>>) -> Option<FileFormat> {
        match self.format {
            Some(format) => Some(format),
            None => match extension {
                Some(t) => FileFormat::for_extension(t),
                None => None,
            },
        }
    }
}

impl Clone for FileOptions {
    fn clone(&self) -> (r: Self)
        ensures
            r@ == self@,
    {
        FileOptions {
            format: self.format,
            exclude: text::clone_all(&self.exclude),
            csv: self.csv.clone(),
            excel: ExcelOptions { sheet: text::clone_opt(&self.excel.sheet) },
        }
    }
}

impl FileOptions {
    /// Whether nothing was said about any format.
    pub fn is_empty(&self) -> (r: bool)
        ensures
            r == (self@ == FileOptionsView::empty()),
    {
        let r = self.format.is_none() && self.exclude.len() == 0 && self.csv.is_empty()
            && self.excel.sheet.is_none();
        proof {
            if self.exclude.len() == 0 {
                assert(text::views(self.exclude@) =~= Seq::<Seq<char>>::empty());
            } else {
                assert(text::views(self.exclude@).len() != 0);
            }
        }
        r
    }

    /// The format for a file with this extension: what was declared, or what the
    /// extension says.
    pub fn format_for(&self, extension: Option<&str>) -> (r: Option<FileFormat>)
        ensures
            r == self@.format_for(
                match extension {
                    Some(t) => Some(t@),
                    None => None,
                },
            ),
    {
        match self.format {
            Some(format) => Some(format),
            None => match extension {
                Some(t) => FileFormat::from_extension(t),
                None => None,
            },
        }
    }
}

#[derive(Debug, Clone, Copy, Default, PartialEq, Eq, Hash, Structural)]
pub enum TlsMode {
    /// No encryption.
    Disable,
    /// Encrypt if the server offers it, without validating its certificate.
    #[default]
    Prefer,
    /// Require encryption and validate the certificate.
    Require,
    /// Require encryption but accept any certificate.
    TrustCertificate,
}

/// How to authenticate, secret included. Deliberately without `Debug`: what may be
/// shown of it is [`AuthConfig::redacted`].
pub enum AuthConfig {
    /// SQL Server login, or PostgreSQL password authentication.
    Password { username: String, password: String },
    /// Windows integrated authentication.
    Integrated,
    /// An Entra access token. Also what every other Entra method turns into by the
    /// time a connector sees it.
    AadToken { token: String },
    /// Signed in through the browser. What is kept is the refresh token.
    Entra {
        tenant: String,
        client_id: String,
        /// A just-finished sign-in, quoted by the dialogue.
        ticket: Option<String>,
        /// Filled in when the ticket is redeemed or the vault is read.
        refresh_token: Option<String>,
        /// Who signed in. Display only.
        account: String,
    },
    /// Nothing to authenticate.
    NoAuth,
}

/// The value of an [`AuthConfig`].
pub enum AuthConfigView {
    Password { username: Seq<char>, password: Seq<char> },
    Integrated,
    AadToken { token: Seq<char> },
    Entra {
        tenant: Seq<char>,
        client_id: Seq<char>,
        ticket: Option<Seq<char>>,
        refresh_token: Option<Seq<char>>,
        account: Seq<char>,
    },
    NoAuth,
}

impl View for AuthConfig {
    type V = AuthConfigView;

    open spec fn view(&self) -> AuthConfigView {
        match *self {
            AuthConfig::Password { username, password } => AuthConfigView::Password {
                username: username@,
                password: password@,
            },
            AuthConfig::Integrated => AuthConfigView::Integrated,
            AuthConfig::AadToken { token } => AuthConfigView::AadToken { token: token@ },
            AuthConfig::Entra { tenant, client_id, ticket, refresh_token, account } => {
                AuthConfigView::Entra {
                    tenant: tenant@,
                    client_id: client_id@,
                    ticket: text::opt(ticket),
                    refresh_token: text::opt(refresh_token),
                    account: account@,
                }
            },
            AuthConfig::NoAuth => AuthConfigView::NoAuth,
        }
    }
}

impl AuthConfigView {
    pub open spec fn method(self) -> Seq<char> {
        match self {
            AuthConfigView::Password { .. } => "password"@,
            AuthConfigView::Integrated => "integrated"@,
            AuthConfigView::AadToken { .. } => "aad_token"@,
            AuthConfigView::Entra { .. } => "entra"@,
            AuthConfigView::NoAuth => "none"@,
        }
    }

    pub open spec fn ticket(self) -> Option<Seq<char>> {
        match self {
            AuthConfigView::Entra { ticket, .. } => ticket,
            _ => None,
        }
    }

    /// A sign-in put in place; any other method is left alone.
    pub open spec fn with_tokens(self, token: Option<Seq<char>>, account: Seq<char>) -> Self {
        match self {
            AuthConfigView::Entra { tenant, client_id, .. } => AuthConfigView::Entra {
                tenant,
                client_id,
                ticket: None,
                refresh_token: token,
                account,
            },
            other => other,
        }
    }

    /// The part that is safe to write down.
    pub open spec fn kind(self) -> AuthKindView {
        match self {
            AuthConfigView::Password { username, .. } => AuthKindView::Password { username },
            AuthConfigView::Integrated => AuthKindView::Integrated,
            AuthConfigView::AadToken { .. } => AuthKindView::AadToken,
            AuthConfigView::Entra { tenant, client_id, account, .. } => AuthKindView::Entra {
                tenant,
                client_id,
                account,
            },
            AuthConfigView::NoAuth => AuthKindView::NoAuth,
        }
    }

    /// The part that is not.
    pub open spec fn secret(self) -> Option<Seq<char>> {
        match self {
            AuthConfigView::Password { password, .. } => Some(password),
            AuthConfigView::AadToken { token } => Some(token),
            AuthConfigView::Entra { refresh_token, .. } => refresh_token,
            AuthConfigView::Integrated | AuthConfigView::NoAuth => None,
        }
    }
}

impl AuthKindView {
    /// What may be shown of a sign-in: its method and the names on it, with a mark
    /// where the secret would stand.
    pub open spec fn redacted(self) -> Seq<char> {
        match self {
            AuthKindView::Password { username } => "Password { username: "@ + text::debug_text(
                username,
            ) + ", password: \"<redacted>\" }"@,
            AuthKindView::Integrated => "Integrated"@,
            AuthKindView::AadToken => "AadToken { token: \"<redacted>\" }"@,
            AuthKindView::Entra { tenant, client_id, account } => "Entra { tenant: "@
                + text::debug_text(tenant) + ", client_id: "@ + text::debug_text(client_id)
                + ", account: "@ + text::debug_text(account)
                + ", refresh_token: \"<redacted>\" }"@,
            AuthKindView::NoAuth => "None"@,
        }
    }
}

impl Clone for AuthConfig {
    fn clone(&self) -> (r: Self)
        ensures
            r@ == self@,
    {
        match self {
            AuthConfig::Password { username, password } => AuthConfig::Password {
                username: username.clone(),
                password: password.clone(),
            },
            AuthConfig::Integrated => AuthConfig::Integrated,
            AuthConfig::AadToken { token } => AuthConfig::AadToken { token: token.clone() },
            AuthConfig::Entra { tenant, client_id, ticket, refresh_token, account } => {
                AuthConfig::Entra {
                    tenant: tenant.clone(),
                    client_id: client_id.clone(),
                    ticket: text::clone_opt(ticket),
                    refresh_token: text::clone_opt(refresh_token),
                    account: account.clone(),
                }
            },
            AuthConfig::NoAuth => AuthConfig::NoAuth,
        }
    }
}

impl AuthConfig {
    pub fn method(&self) -> (r: &'static str)
        ensures
            r@ == self@.method(),
    {
        match self {
            AuthConfig::Password { .. } => "password",
            AuthConfig::Integrated => "integrated",
            AuthConfig::AadToken { .. } => "aad_token",
            AuthConfig::Entra { .. } => "entra",
            AuthConfig::NoAuth => "none",
        }
    }

    /// The sign-in this credential is waiting to be given, if any.
    pub fn ticket(&self) -> (r: Option<&str>)
        ensures
            text::opt_str(r) == self@.ticket(),
    {
        match self {
            AuthConfig::Entra { ticket: Some(t), .. } => Some(t.as_str()),
            _ => None,
        }
    }

    /// Put a redeemed sign-in, or one read back out of the vault, in place.
    pub fn with_entra_tokens(self, token: Option<String>, signed_in_as: String) -> (r: AuthConfig)
        ensures
            r@ == self@.with_tokens(text::opt(token), signed_in_as@),
    {
        match self {
            AuthConfig::Entra { tenant, client_id, .. } => AuthConfig::Entra {
                tenant,
                client_id,
                ticket: None,
                refresh_token: token,
                account: signed_in_as,
            },
            other => other,
        }
    }

    /// What may be shown: everything but the secret.
    pub fn redacted(&self) -> (r: String)
        ensures
            r@ == self@.kind().redacted(),
    {
        match self {
            AuthConfig::Password { username, .. } => "Password { username: ".to_owned().concat(
                &text::debug_of(username),
            ).concat(", password: \"<redacted>\" }"),
            AuthConfig::Integrated => "Integrated".to_owned(),
            AuthConfig::AadToken { .. } => "AadToken { token: \"<redacted>\" }".to_owned(),
            AuthConfig::Entra { tenant, client_id, account, .. } => "Entra { tenant: ".to_owned(

            ).concat(&text::debug_of(tenant)).concat(", client_id: ").concat(
                &text::debug_of(client_id),
            ).concat(", account: ").concat(&text::debug_of(account)).concat(
                ", refresh_token: \"<redacted>\" }",
            ),
            AuthConfig::NoAuth => "None".to_owned(),
        }
    }
}

/// Where a source is defined. Ids only have to be unique within a scope.
#[derive(Debug, Clone, Copy, Default, PartialEq, Eq, Structural)]
pub enum Scope {
    /// The user's own registry.
    #[default]
    User,
    /// The registry of the open folder, which holds no credentials.
    Project,
}

impl Scope {
    pub open spec fn prefix_text(self) -> Seq<char> {
        match self {
            Scope::User => "user"@,
            Scope::Project => "project"@,
        }
    }

    pub fn prefix(self) -> (r: &'static str)
        ensures
            r@ == self.prefix_text(),
    {
        match self {
            Scope::User => "user",
            Scope::Project => "project",
        }
    }
}

/// The non-secret half of an auth method.
#[derive(Debug, PartialEq, Eq)]
pub enum AuthKind {
    Password { username: String },
    Integrated,
    AadToken,
    /// The tenant and application the sign-in was made against, and the account.
    Entra { tenant: String, client_id: String, account: String },
    NoAuth,
}

/// The value of an [`AuthKind`].
pub enum AuthKindView {
    Password { username: Seq<char> },
    Integrated,
    AadToken,
    Entra { tenant: Seq<char>, client_id: Seq<char>, account: Seq<char> },
    NoAuth,
}

impl View for AuthKind {
    type V = AuthKindView;

    open spec fn view(&self) -> AuthKindView {
        match *self {
            AuthKind::Password { username } => AuthKindView::Password { username: username@ },
            AuthKind::Integrated => AuthKindView::Integrated,
            AuthKind::AadToken => AuthKindView::AadToken,
            AuthKind::Entra { tenant, client_id, account } => AuthKindView::Entra {
                tenant: tenant@,
                client_id: client_id@,
                account: account@,
            },
            AuthKind::NoAuth => AuthKindView::NoAuth,
        }
    }
}

impl AuthKindView {
    pub open spec fn method(self) -> Seq<char> {
        match self {
            AuthKindView::Password { .. } => "password"@,
            AuthKindView::Integrated => "integrated"@,
            AuthKindView::AadToken => "aad_token"@,
            AuthKindView::Entra { .. } => "entra"@,
            AuthKindView::NoAuth => "none"@,
        }
    }

    pub open spec fn needs_secret(self) -> bool {
        !(self is Integrated || self is NoAuth)
    }

    pub open spec fn account(self) -> Option<Seq<char>> {
        match self {
            AuthKindView::Entra { account, .. } => if account.len() > 0 {
                Some(account)
            } else {
                None
            },
            _ => None,
        }
    }

    pub open spec fn username(self) -> Option<Seq<char>> {
        match self {
            AuthKindView::Password { username } => Some(username),
            _ => None,
        }
    }

    pub open spec fn entra(self) -> Option<(Seq<char>, Seq<char>)> {
        match self {
            AuthKindView::Entra { tenant, client_id, .. } => Some((tenant, client_id)),
            _ => None,
        }
    }

    /// The credential this method and that secret make, or nothing where the method
    /// needs a secret and there is none.
    pub open spec fn with_secret(self, secret: Option<Seq<char>>) -> Option<AuthConfigView> {
        match self {
            AuthKindView::Integrated => Some(AuthConfigView::Integrated),
            AuthKindView::NoAuth => Some(AuthConfigView::NoAuth),
            AuthKindView::Password { username } => match secret {
                Some(password) => Some(AuthConfigView::Password { username, password }),
                None => None,
            },
            AuthKindView::AadToken => match secret {
                Some(token) => Some(AuthConfigView::AadToken { token }),
                None => None,
            },
            AuthKindView::Entra { tenant, client_id, account } => match secret {
                Some(token) => Some(
                    AuthConfigView::Entra {
                        tenant,
                        client_id,
                        ticket: None,
                        refresh_token: Some(token),
                        account,
                    },
                ),
                None => None,
            },
        }
    }
}

impl Clone for AuthKind {
    fn clone(&self) -> (r: Self)
        ensures
            r@ == self@,
    {
        match self {
            AuthKind::Password { username } => AuthKind::Password { username: username.clone() },
            AuthKind::Integrated => AuthKind::Integrated,
            AuthKind::AadToken => AuthKind::AadToken,
            AuthKind::Entra { tenant, client_id, account } => AuthKind::Entra {
                tenant: tenant.clone(),
                client_id: client_id.clone(),
                account: account.clone(),
            },
            AuthKind::NoAuth => AuthKind::NoAuth,
        }
    }
}

impl AuthKind {
    pub fn method(&self) -> (r: &'static str)
        ensures
            r@ == self@.method(),
    {
        match self {
            AuthKind::Password { .. } => "password",
            AuthKind::Integrated => "integrated",
            AuthKind::AadToken => "aad_token",
            AuthKind::Entra { .. } => "entra",
            AuthKind::NoAuth => "none",
        }
    }

    /// Whether using this source needs a secret from the vault.
    pub fn needs_secret(&self) -> (r: bool)
        ensures
            r == self@.needs_secret(),
    {
        !matches!(self, AuthKind::Integrated | AuthKind::NoAuth)
    }

    /// The account a signed-in source is signed in as.
    pub fn account(&self) -> (r: Option<&str>)
        ensures
            text::opt_str(r) == self@.account(),
    {
        match self {
            AuthKind::Entra { account, .. } => if account.as_str().is_empty() {
                None
            } else {
                Some(account.as_str())
            },
            _ => None,
        }
    }

    /// The login name. Not a secret; the password is.
    pub fn username(&self) -> (r: Option<&str>)
        ensures
            text::opt_str(r) == self@.username(),
    {
        match self {
            AuthKind::Password { username } => Some(username.as_str()),
            _ => None,
        }
    }

    /// The Entra tenant and application this source signs in through.
    pub fn entra(&self) -> (r: Option<(&str, &str)>)
        ensures
            match r {
                Some((tenant, client)) => self@.entra() == Some((tenant@, client@)),
                None => self@.entra() is None,
            },
    {
        match self {
            AuthKind::Entra { tenant, client_id, .. } => Some(
                (tenant.as_str(), client_id.as_str()),
            ),
            _ => None,
        }
    }
}

/// A registered source, as persisted and as served: everything about how to reach a
/// server except the credential.
#[derive(Debug)]
pub struct SourceRecord {
    pub id: String,
    pub kind: SourceKind,
    /// Empty for a folder or file source, which has a `path` instead.
    pub host: String,
    /// The folder or file, as typed.
    pub path: Option<String>,
    /// How to read those files. Empty for a server source.
    pub options: FileOptions,
    pub port: Option<u16>,
    pub instance: Option<String>,
    /// Omitted means the engine's always-present database.
    pub database: Option<String>,
    pub auth: AuthKind,
    pub tls: TlsMode,
    /// The registry it was loaded from.
    pub scope: Scope,
}

/// The value of a [`SourceRecord`].
pub struct SourceRecordView {
    pub id: Seq<char>,
    pub kind: SourceKind,
    pub host: Seq<char>,
    pub path: Option<Seq<char>>,
    pub options: FileOptionsView,
    pub port: Option<u16>,
    pub instance: Option<Seq<char>>,
    pub database: Option<Seq<char>>,
    pub auth: AuthKindView,
    pub tls: TlsMode,
    pub scope: Scope,
}

impl View for SourceRecord {
    type V = SourceRecordView;

    open spec fn view(&self) -> SourceRecordView {
        SourceRecordView {
            id: self.id@,
            kind: self.kind,
            host: self.host@,
            path: text::opt(self.path),
            options: self.options@,
            port: self.port,
            instance: text::opt(self.instance),
            database: text::opt(self.database),
            auth: self.auth@,
            tls: self.tls,
            scope: self.scope,
        }
    }
}

impl SourceRecordView {
    pub open spec fn port_used(self) -> u16 {
        match self.port {
            Some(port) => port,
            None => self.kind.port_by_default(),
        }
    }

    /// The registry key: the scope and the id, since two scopes may each define the
    /// same bare id.
    pub open spec fn key(self) -> Seq<char> {
        self.scope.prefix_text() + ":"@ + self.id
    }

    /// The database this source answers about.
    pub open spec fn database_used(self, windows: bool) -> Seq<char> {
        if self.database is Some && self.database->0.len() > 0 {
            self.database->0
        } else if self.path is Some && !self.kind.server() {
            catalogue(self.kind, self.path->0, windows)
        } else {
            self.kind.database_by_default()
        }
    }

    /// The secret-free view of the source.
    pub open spec fn summary(self, dialect: Dialect, windows: bool) -> SourceSummaryView {
        SourceSummaryView {
            key: self.key(),
            scope: self.scope,
            id: self.id,
            kind: self.kind,
            dialect,
            host: self.host,
            path: self.path,
            options: self.options,
            port: self.port_used(),
            instance: self.instance,
            database: self.database_used(windows),
            auth_method: self.auth.method(),
            account: self.auth.account(),
            username: self.auth.username(),
            tenant: match self.auth.entra() {
                Some((tenant, _)) => Some(tenant),
                None => None,
            },
            client_id: match self.auth.entra() {
                Some((_, client)) => Some(client),
                None => None,
            },
            tls: self.tls,
            editor_mime: dialect.mime_text(),
        }
    }

    /// The record rejoined with a secret.
    pub open spec fn with_secret(self, secret: Option<Seq<char>>) -> Result<
        SourceConfigView,
        ErrorView,
    > {
        match self.auth.with_secret(secret) {
            None => Err(ErrorView::MissingSecret(self.id)),
            Some(auth) => Ok(
                SourceConfigView {
                    id: self.id,
                    scope: self.scope,
                    kind: self.kind,
                    host: self.host,
                    path: self.path,
                    options: self.options,
                    port: self.port,
                    instance: self.instance,
                    database: self.database,
                    auth,
                    tls: self.tls,
                },
            ),
        }
    }
}

impl Clone for SourceRecord {
    fn clone(&self) -> (r: Self)
        ensures
            r@ == self@,
    {
        SourceRecord {
            id: self.id.clone(),
            kind: self.kind,
            host: self.host.clone(),
            path: text::clone_opt(&self.path),
            options: self.options.clone(),
            port: self.port,
            instance: text::clone_opt(&self.instance),
            database: text::clone_opt(&self.database),
            auth: self.auth.clone(),
            tls: self.tls,
            scope: self.scope,
        }
    }
}

impl SourceRecord {
    pub fn port(&self) -> (r: u16)
        ensures
            r == self@.port_used(),
    {
        match self.port {
            Some(port) => port,
            None => self.kind.default_port(),
        }
    }

    /// The registry key, and the id every route takes.
    pub fn key(&self) -> (r: String)
        ensures
            r@ == self@.key(),
    {
        self.scope.prefix().to_owned().concat(":").concat(&self.id)
    }

    /// The database this source answers about: what was given, or for files the
    /// catalogue named after their folder, or the engine's own default.
    pub fn database(&self, windows: bool) -> (r: String)
        ensures
            r@ == self@.database_used(windows),
    {
        if let Some(database) = &self.database {
            if !database.as_str().is_empty() {
                return database.clone();
            }
        }
        if self.kind.is_files() {
            if let Some(path) = &self.path {
                return catalogue_name(self.kind, path, windows);
            }
        }
        self.kind.default_database().to_owned()
    }

    pub fn summary(&self, dialect: Dialect, windows: bool) -> (r: SourceSummary)
        ensures
            r@ == self@.summary(dialect, windows),
    {
        let (tenant, client_id) = match self.auth.entra() {
            Some((tenant, client)) => (Some(tenant.to_owned()), Some(client.to_owned())),
            None => (None, None),
        };
        SourceSummary {
            key: self.key(),
            scope: self.scope,
            id: self.id.clone(),
            kind: self.kind,
            dialect,
            host: self.host.clone(),
            path: text::clone_opt(&self.path),
            options: self.options.clone(),
            port: self.port(),
            instance: text::clone_opt(&self.instance),
            database: self.database(windows),
            auth_method: self.auth.method(),
            account: text::own_opt(self.auth.account()),
            username: text::own_opt(self.auth.username()),
            tenant,
            client_id,
            tls: self.tls,
            editor_mime: dialect.mime(),
        }
    }

    /// Rejoin the record with the secret the vault gave back.
    pub fn with_secret(&self, secret: Option<String>) -> (r: Result<SourceConfig, Error>)
        ensures
            match r {
                Ok(config) => self@.with_secret(text::opt(secret)) == Ok::<
                    SourceConfigView,
                    ErrorView,
                >(config@),
                Err(e) => self@.with_secret(text::opt(secret)) == Err::<
                    SourceConfigView,
                    ErrorView,
                >(e@),
            },
    {
        let auth = match (&self.auth, secret) {
            (AuthKind::Integrated, _) => AuthConfig::Integrated,
            (AuthKind::NoAuth, _) => AuthConfig::NoAuth,
            (AuthKind::Password { username }, Some(password)) => AuthConfig::Password {
                username: username.clone(),
                password,
            },
            (AuthKind::AadToken, Some(token)) => AuthConfig::AadToken { token },
            (AuthKind::Entra { tenant, client_id, account }, Some(token)) => AuthConfig::Entra {
                tenant: tenant.clone(),
                client_id: client_id.clone(),
                ticket: None,
                refresh_token: Some(token),
                account: account.clone(),
            },
            (_, None) => return Err(Error::MissingSecret(self.id.clone())),
        };
        Ok(
            SourceConfig {
                id: self.id.clone(),
                scope: self.scope,
                kind: self.kind,
                host: self.host.clone(),
                path: text::clone_opt(&self.path),
                options: self.options.clone(),
                port: self.port,
                instance: text::clone_opt(&self.instance),
                database: text::clone_opt(&self.database),
                auth,
                tls: self.tls,
            },
        )
    }
}

/// Everything needed to reach one database, credential included. Never stored.
pub struct SourceConfig {
    pub id: String,
    pub scope: Scope,
    pub kind: SourceKind,
    pub host: String,
    pub path: Option<String>,
    pub options: FileOptions,
    pub port: Option<u16>,
    /// SQL Server named instance. Mutually exclusive with `port`.
    pub instance: Option<String>,
    pub database: Option<String>,
    pub auth: AuthConfig,
    pub tls: TlsMode,
}

/// The value of a [`SourceConfig`].
pub struct SourceConfigView {
    pub id: Seq<char>,
    pub scope: Scope,
    pub kind: SourceKind,
    pub host: Seq<char>,
    pub path: Option<Seq<char>>,
    pub options: FileOptionsView,
    pub port: Option<u16>,
    pub instance: Option<Seq<char>>,
    pub database: Option<Seq<char>>,
    pub auth: AuthConfigView,
    pub tls: TlsMode,
}

impl View for SourceConfig {
    type V = SourceConfigView;

    open spec fn view(&self) -> SourceConfigView {
        SourceConfigView {
            id: self.id@,
            scope: self.scope,
            kind: self.kind,
            host: self.host@,
            path: text::opt(self.path),
            options: self.options@,
            port: self.port,
            instance: text::opt(self.instance),
            database: text::opt(self.database),
            auth: self.auth@,
            tls: self.tls,
        }
    }
}

impl SourceConfigView {
    pub open spec fn port_used(self) -> u16 {
        match self.port {
            Some(port) => port,
            None => self.kind.port_by_default(),
        }
    }

    pub open spec fn database_used(self) -> Seq<char> {
        match self.database {
            Some(database) => database,
            None => self.kind.database_by_default(),
        }
    }

    /// The part that is safe to write down.
    pub open spec fn record(self) -> SourceRecordView {
        SourceRecordView {
            id: self.id,
            kind: self.kind,
            host: self.host,
            path: self.path,
            options: self.options,
            port: self.port,
            instance: self.instance,
            database: self.database,
            auth: self.auth.kind(),
            tls: self.tls,
            scope: self.scope,
        }
    }

    /// The same source with another credential.
    pub open spec fn with_auth(self, auth: AuthConfigView) -> SourceConfigView {
        SourceConfigView {
            id: self.id,
            scope: self.scope,
            kind: self.kind,
            host: self.host,
            path: self.path,
            options: self.options,
            port: self.port,
            instance: self.instance,
            database: self.database,
            auth,
            tls: self.tls,
        }
    }
}

impl Clone for SourceConfig {
    fn clone(&self) -> (r: Self)
        ensures
            r@ == self@,
    {
        SourceConfig {
            id: self.id.clone(),
            scope: self.scope,
            kind: self.kind,
            host: self.host.clone(),
            path: text::clone_opt(&self.path),
            options: self.options.clone(),
            port: self.port,
            instance: text::clone_opt(&self.instance),
            database: text::clone_opt(&self.database),
            auth: self.auth.clone(),
            tls: self.tls,
        }
    }
}

impl SourceConfig {
    pub fn port(&self) -> (r: u16)
        ensures
            r == self@.port_used(),
    {
        match self.port {
            Some(port) => port,
            None => self.kind.default_port(),
        }
    }

    pub fn database(&self) -> (r: &str)
        ensures
            r@ == self@.database_used(),
    {
        match &self.database {
            Some(database) => database.as_str(),
            None => self.kind.default_database(),
        }
    }

    /// Peel the credential off, leaving the part that is safe to write down.
    pub fn split(self) -> (r: (SourceRecord, Option<String>))
        ensures
            r.0@ == self@.record(),
            text::opt(r.1) == self@.auth.secret(),
    {
        let (auth, secret) = match self.auth {
            AuthConfig::Password { username, password } => (
                AuthKind::Password { username },
                Some(password),
            ),
            AuthConfig::Integrated => (AuthKind::Integrated, None),
            AuthConfig::AadToken { token } => (AuthKind::AadToken, Some(token)),
            AuthConfig::Entra { tenant, client_id, refresh_token, account, .. } => (
                AuthKind::Entra { tenant, client_id, account },
                refresh_token,
            ),
            AuthConfig::NoAuth => (AuthKind::NoAuth, None),
        };
        let record = SourceRecord {
            id: self.id,
            scope: self.scope,
            kind: self.kind,
            host: self.host,
            path: self.path,
            options: self.options,
            port: self.port,
            instance: self.instance,
            database: self.database,
            auth,
            tls: self.tls,
        };
        (record, secret)
    }
}

/// Splitting and rejoining gives the source back, but for a quoted ticket, which is
/// spent; and a method whose secret is missing is refused by name.
pub proof fn law_split_and_rejoin(config: SourceConfigView)
    ensures
        config.record().with_secret(config.auth.secret()) == (if config.record().auth.needs_secret()
            && config.auth.secret() is None {
            Err::<SourceConfigView, ErrorView>(ErrorView::MissingSecret(config.id))
        } else {
            Ok::<SourceConfigView, ErrorView>(
                config.with_auth(
                    match config.auth {
                        AuthConfigView::Entra {
                            tenant,
                            client_id,
                            refresh_token,
                            account,
                            ..
                        } => AuthConfigView::Entra {
                            tenant,
                            client_id,
                            ticket: None,
                            refresh_token,
                            account,
                        },
                        other => other,
                    },
                ),
            )
        }),
{
}

/// A record rejoined with a secret splits into the same record and, where the method
/// needs one, the same secret.
pub proof fn law_rejoin_and_split(record: SourceRecordView, secret: Option<Seq<char>>)
    ensures
        record.with_secret(secret) matches Ok(config) ==> {
            &&& config.record() == record
            &&& record.auth.needs_secret() ==> config.auth.secret() == secret
            &&& !record.auth.needs_secret() ==> config.auth.secret() is None
        },
{
}

/// What is written down, and what is shown, says nothing about the secret: two
/// credentials that differ in nothing else leave the same record, the same summary
/// and the same redacted text.
pub proof fn law_the_record_holds_no_secret(
    config: SourceConfigView,
    other: AuthConfigView,
    dialect: Dialect,
    windows: bool,
)
    requires
        config.auth.kind() == other.kind(),
    ensures
        config.with_auth(other).record() == config.record(),
        config.with_auth(other).record().summary(dialect, windows) == config.record().summary(
            dialect,
            windows,
        ),
        other.kind().redacted() == config.auth.kind().redacted(),
{
}

/// A record's method is its credential's.
pub proof fn law_the_method_survives_the_split(auth: AuthConfigView)
    ensures
        auth.kind().method() == auth.method(),
{
}

/// Two records in one registry collide only where both the scope and the id agree.
pub proof fn law_keys_tell_scopes_apart(a: SourceRecordView, b: SourceRecordView)
    ensures
        a.key() == b.key() <==> a.scope == b.scope && a.id == b.id,
{
    reveal_strlit("user");
    reveal_strlit("project");
    reveal_strlit(":");
    let p = a.scope.prefix_text();
    let q = b.scope.prefix_text();
    if a.key() == b.key() {
        if a.scope != b.scope {
            assert(a.key()[0] == p[0] && b.key()[0] == q[0]);
        } else {
            let n = p.len() + 1;
            assert(a.id == a.key().skip(n as int));
            assert(b.id == b.key().skip(n as int));
        }
    }
}

/// The secret-free view of a source, safe to hand out.
#[derive(Debug)]
pub struct SourceSummary {
    /// `user:<id>` or `project:<id>`.
    pub key: String,
    pub scope: Scope,
    pub id: String,
    pub kind: SourceKind,
    pub dialect: Dialect,
    pub host: String,
    pub path: Option<String>,
    pub options: FileOptions,
    pub port: u16,
    pub instance: Option<String>,
    pub database: String,
    pub auth_method: &'static str,
    pub account: Option<String>,
    pub username: Option<String>,
    pub tenant: Option<String>,
    pub client_id: Option<String>,
    pub tls: TlsMode,
    pub editor_mime: &'static str,
}

/// The value of a [`SourceSummary`].
pub struct SourceSummaryView {
    pub key: Seq<char>,
    pub scope: Scope,
    pub id: Seq<char>,
    pub kind: SourceKind,
    pub dialect: Dialect,
    pub host: Seq<char>,
    pub path: Option<Seq<char>>,
    pub options: FileOptionsView,
    pub port: u16,
    pub instance: Option<Seq<char>>,
    pub database: Seq<char>,
    pub auth_method: Seq<char>,
    pub account: Option<Seq<char>>,
    pub username: Option<Seq<char>>,
    pub tenant: Option<Seq<char>>,
    pub client_id: Option<Seq<char>>,
    pub tls: TlsMode,
    pub editor_mime: Seq<char>,
}

impl View for SourceSummary {
    type V = SourceSummaryView;

    open spec fn view(&self) -> SourceSummaryView {
        SourceSummaryView {
            key: self.key@,
            scope: self.scope,
            id: self.id@,
            kind: self.kind,
            dialect: self.dialect,
            host: self.host@,
            path: text::opt(self.path),
            options: self.options@,
            port: self.port,
            instance: text::opt(self.instance),
            database: self.database@,
            auth_method: self.auth_method@,
            account: text::opt(self.account),
            username: text::opt(self.username),
            tenant: text::opt(self.tenant),
            client_id: text::opt(self.client_id),
            tls: self.tls,
            editor_mime: self.editor_mime@,
        }
    }
}

#[derive(Debug, Clone, Copy, PartialEq, Eq, Structural)]
pub enum TableKind {
    Table,
    View,
}

#[derive(Debug, Clone, PartialEq, Eq)]
pub struct TableInfo {
    pub schema: String,
    pub name: String,
    pub kind: TableKind,
}

#[derive(Debug, Clone, PartialEq, Eq)]
pub struct ColumnInfo {
    pub name: String,
    pub ordinal: i32,
    /// The engine's own type spelling.
    pub data_type: String,
    pub nullable: bool,
    pub is_primary_key: bool,
    pub default: Option<String>,
}

/// What a [`ColumnInfo`] says.
#[verifier::ext_equal]
pub struct ColumnInfoView {
    pub name: Seq<char>,
    pub ordinal: i32,
    pub data_type: Seq<char>,
    pub nullable: bool,
    pub is_primary_key: bool,
    pub default: Option<Seq<char>>,
}

impl View for ColumnInfo {
    type V = ColumnInfoView;

    open spec fn view(&self) -> ColumnInfoView {
        ColumnInfoView {
            name: self.name@,
            ordinal: self.ordinal,
            data_type: self.data_type@,
            nullable: self.nullable,
            is_primary_key: self.is_primary_key,
            default: text::opt(self.default),
        }
    }
}

pub open spec fn infos_view(columns: Seq<ColumnInfo>) -> Seq<ColumnInfoView> {
    Seq::new(columns.len(), |i: int| columns[i]@)
}

/// A table with its columns: one entry of a schema snapshot.
#[derive(Debug, Clone, PartialEq, Eq)]
pub struct TableSchema {
    pub schema: String,
    pub name: String,
    pub kind: TableKind,
    pub columns: Vec<ColumnInfo>,
}

/// What a [`TableSchema`] says.
#[verifier::ext_equal]
pub struct TableSchemaView {
    pub schema: Seq<char>,
    pub name: Seq<char>,
    pub kind: TableKind,
    pub columns: Seq<ColumnInfoView>,
}

impl View for TableSchema {
    type V = TableSchemaView;

    open spec fn view(&self) -> TableSchemaView {
        TableSchemaView {
            schema: self.schema@,
            name: self.name@,
            kind: self.kind,
            columns: infos_view(self.columns@),
        }
    }
}

pub open spec fn schemas_view(tables: Seq<TableSchema>) -> Seq<TableSchemaView> {
    Seq::new(tables.len(), |i: int| tables[i]@)
}

impl TableSchema {
    pub open spec fn qualified_name(&self) -> Seq<char> {
        self.schema@ + "."@ + self.name@
    }

    pub fn qualified(&self) -> (r: String)
        ensures
            r@ == self.qualified_name(),
    {
        self.schema.clone().concat(".").concat(&self.name)
    }
}

/// What a result column holds, whichever engine answered.
#[derive(Debug, Clone, Copy, PartialEq, Eq, Structural)]
pub enum LogicalType {
    Bool,
    Int,
    Float,
    /// Arrives as a string; exact digits preserved.
    Decimal,
    Text,
    Date,
    Time,
    Timestamp,
    TimestampTz,
    Uuid,
    Json,
    /// Arrives as a hex string.
    Binary,
    Unknown,
}

/// A column of a result set, as opposed to a column of a table.
#[derive(Debug, Clone)]
pub struct ColumnMeta {
    pub name: String,
    /// The engine's own spelling.
    pub engine_type: String,
    pub logical: LogicalType,
}

/// What a [`ColumnMeta`] says.
#[verifier::ext_equal]
pub struct ColumnMetaView {
    pub name: Seq<char>,
    pub engine_type: Seq<char>,
    pub logical: LogicalType,
}

impl View for ColumnMeta {
    type V = ColumnMetaView;

    open spec fn view(&self) -> ColumnMetaView {
        ColumnMetaView {
            name: self.name@,
            engine_type: self.engine_type@,
            logical: self.logical,
        }
    }
}

pub open spec fn columns_view(columns: Seq<ColumnMeta>) -> Seq<ColumnMetaView> {
    Seq::new(columns.len(), |i: int| columns[i]@)
}

/// Rows of text, where a cell may be empty.
pub open spec fn rows_view(rows: Seq<Vec<Option<String>>>) -> Seq<Seq<Option<Seq<char>>>> {
    Seq::new(
        rows.len(),
        |i: int| Seq::new(rows[i]@.len(), |j: int| text::opt(rows[i]@[j])),
    )
}

/// One item of a streamed result: the columns once, then rows repeatedly, or the
/// number of rows a statement affected.
#[derive(Debug)]
pub enum RowBatch {
    Columns(Arc<Vec<ColumnMeta>>),
    Rows(Vec<Vec<Json>>),
    Affected(u64),
}

/// Rows accumulated before a batch is pushed to the client.
pub const BATCH_ROWS: usize = 500;

/// What each kind of source is reached by where nothing else was said.
pub proof fn law_a_kind_has_its_own_defaults()
    ensures
        SourceKind::Postgres.port_by_default() == 5432,
        SourceKind::MsSql.port_by_default() == 1433 && SourceKind::Fabric.port_by_default() == 1433,
        SourceKind::MySql.port_by_default() == 3306,
        SourceKind::Mongo.port_by_default() == 27017,
        SourceKind::Postgres.schema_by_default() == "public"@,
        SourceKind::MsSql.schema_by_default() == "dbo"@ && SourceKind::Fabric.schema_by_default()
            == "dbo"@,
        SourceKind::MySql.schema_by_default() == ""@ && SourceKind::Mongo.schema_by_default()
            == ""@,
        SourceKind::Folder.schema_by_default() == "public"@ && SourceKind::File.schema_by_default()
            == "public"@ && SourceKind::Adls.schema_by_default() == "public"@,
        SourceKind::Postgres.database_by_default() == "postgres"@,
        SourceKind::MsSql.database_by_default() == "master"@
            && SourceKind::Fabric.database_by_default() == "master"@,
        SourceKind::MySql.database_by_default() == "information_schema"@,
        SourceKind::Mongo.database_by_default() == "admin"@,
        SourceKind::Folder.database_by_default() == "memory"@
            && SourceKind::File.database_by_default() == "memory"@
            && SourceKind::Adls.database_by_default() == "memory"@,
        Dialect::TSql.mime_text() == "text/x-mssql"@,
        Dialect::PgSql.mime_text() == "text/x-pgsql"@,
        Dialect::MySql.mime_text() == "text/x-mysql"@,
        Dialect::DuckDb.mime_text() == "text/x-sql"@,
{
}

/// Which kinds are servers, which are files on this machine, and which an Entra sign-in
/// reaches.
pub proof fn law_a_kind_is_a_server_or_files(kind: SourceKind)
    ensures
        kind.server() <==> kind is Postgres || kind is MsSql || kind is Fabric || kind is MySql
            || kind is Mongo,
        kind.local_files() <==> kind is Folder || kind is File,
        kind.host_needed() <==> !kind.local_files(),
        kind.resource() == Some(Resource::AzureSql) <==> kind is MsSql || kind is Fabric,
        kind.resource() == Some(Resource::Storage) <==> kind is Adls,
        kind.resource() is None <==> !(kind is MsSql || kind is Fabric || kind is Adls),
{
}

/// A port or a database that was given is the one that is used.
pub proof fn law_what_was_given_is_used(config: SourceConfigView, record: SourceRecordView, windows: bool)
    ensures
        config.port matches Some(p) ==> config.port_used() == p,
        config.port is None ==> config.port_used() == config.kind.port_by_default(),
        config.database matches Some(d) ==> config.database_used() == d,
        config.database is None ==> config.database_used() == config.kind.database_by_default(),
        record.port matches Some(p) ==> record.port_used() == p,
        record.port is None ==> record.port_used() == record.kind.port_by_default(),
        record.database matches Some(d) ==> d.len() > 0 ==> record.database_used(windows) == d,
        (record.database is None || record.database->Some_0.len() == 0) && (record.kind.server()
            || record.path is None) ==> record.database_used(windows)
            == record.kind.database_by_default(),
{
}

/// What is shown of a source is what it says: nothing of it is changed on the way.
pub proof fn law_a_summary_says_what_the_source_does(
    record: SourceRecordView,
    dialect: Dialect,
    windows: bool,
)
    ensures
        ({
            let s = record.summary(dialect, windows);
            &&& s.id == record.id
            &&& s.scope == record.scope
            &&& s.key == (if record.scope is User {
                "user"@
            } else {
                "project"@
            }) + ":"@ + record.id
            &&& s.kind == record.kind
            &&& s.dialect == dialect
            &&& s.editor_mime == dialect.mime_text()
            &&& s.host == record.host
            &&& s.path == record.path
            &&& s.options == record.options
            &&& s.port == record.port_used()
            &&& s.instance == record.instance
            &&& s.database == record.database_used(windows)
            &&& s.tls == record.tls
            &&& match record.auth {
                AuthKindView::Password { username } => s.auth_method == "password"@ && s.username
                    == Some(username) && s.account is None && s.tenant is None
                    && s.client_id is None,
                AuthKindView::Entra { tenant, client_id, account } => s.auth_method == "entra"@
                    && s.username is None && s.tenant == Some(tenant) && s.client_id == Some(
                    client_id,
                ) && s.account == (if account.len() > 0 {
                    Some(account)
                } else {
                    None
                }),
                AuthKindView::Integrated => s.auth_method == "integrated"@ && s.username is None
                    && s.account is None,
                AuthKindView::AadToken => s.auth_method == "aad_token"@ && s.username is None
                    && s.account is None,
                AuthKindView::NoAuth => s.auth_method == "none"@ && s.username is None
                    && s.account is None,
            }
        }),
{
}

/// A record is its source without the credential, and nothing else of it is lost.
pub proof fn law_a_record_says_what_the_source_does(config: SourceConfigView)
    ensures
        ({
            let r = config.record();
            &&& r.id == config.id && r.scope == config.scope && r.kind == config.kind
            &&& r.host == config.host && r.path == config.path && r.options == config.options
            &&& r.port == config.port && r.instance == config.instance
            &&& r.database == config.database && r.tls == config.tls
            &&& match config.auth {
                AuthConfigView::Password { username, password } => r.auth
                    == (AuthKindView::Password { username }) && config.auth.secret() == Some(
                    password,
                ),
                AuthConfigView::AadToken { token } => r.auth is AadToken && config.auth.secret()
                    == Some(token),
                AuthConfigView::Entra { tenant, client_id, account, refresh_token, .. } => r.auth
                    == (AuthKindView::Entra { tenant, client_id, account }) && config.auth.secret()
                    == refresh_token,
                AuthConfigView::Integrated => r.auth is Integrated && config.auth.secret() is None,
                AuthConfigView::NoAuth => r.auth is NoAuth && config.auth.secret() is None,
            }
        }),
{
}

/// A format that was declared is the one that is used, whatever the file is called.
pub proof fn law_a_declared_format_wins(options: FileOptionsView, extension: Seq<char>)
    ensures
        options.format is Some ==> options.format_for(Some(extension)) == options.format
            && options.format_for(None) == options.format,
        options.format is None ==> options.format_for(None) is None && options.format_for(
            Some(extension),
        ) == FileFormat::for_extension(extension),
{
}

/// The extensions that are read, and the format each of them means.
pub proof fn law_these_extensions_are_read()
    ensures
        FileFormat::Csv.extension_list() == seq!["csv"@, "tsv"@, "txt"@],
        FileFormat::Parquet.extension_list() == seq!["parquet"@],
        FileFormat::Json.extension_list() == seq!["json"@],
        FileFormat::JsonLines.extension_list() == seq!["jsonl"@, "ndjson"@],
        FileFormat::Excel.extension_list() == seq!["xlsx"@, "xlsm"@, "xlsb"@, "xls"@],
        FileFormat::Delta.extension_list() == Seq::<Seq<char>>::empty(),
{
}

/// Signing in gives a source its token and account, and keeps the rest of its sign-in.
pub proof fn law_a_sign_in_adds_its_tokens(
    auth: AuthConfigView,
    token: Option<Seq<char>>,
    account: Seq<char>,
)
    ensures
        auth matches AuthConfigView::Entra { tenant, client_id, .. } ==> auth.with_tokens(
            token,
            account,
        ) == (AuthConfigView::Entra {
            tenant,
            client_id,
            ticket: None,
            refresh_token: token,
            account,
        }),
        !(auth is Entra) ==> auth.with_tokens(token, account) == auth,
{
}

} // verus!
