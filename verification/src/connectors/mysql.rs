//! MySQL and MariaDB.
//!
//! MySQL has no schema layer: a schema is a database. Tables therefore come back with
//! their database as their schema, which is also how one is qualified in SQL.

use crate::connectors::pools;
use crate::connectors::rows::{self, Raw};
use crate::error::{Error, ErrorView};
use crate::json::{Json, JsonView};
use crate::model::{
    AuthConfig, AuthConfigView, ColumnInfo, ColumnInfoView, Dialect, LogicalType, SourceConfig,
    TableKind, TlsMode,
};
use crate::text;
use vstd::prelude::*;
use vstd::string::*;

verus! {

/// The fingerprint of a connection, credential included: what tells a pool that may
/// answer for it from one that may not.
pub fn fingerprint(config: &SourceConfig, db: &str) -> (r: u64)
    ensures
        r == pools::hashed(pools::password_identity(config@, db@)),
{
    pools::hash_of(&pools::password_identity_of(config, db))
}

// ------------------------------------------------------------------------ options

/// How strictly a connection is encrypted.
#[derive(Debug, Clone, Copy, PartialEq, Eq, Structural)]
pub enum SslMode {
    Disabled,
    Preferred,
    /// Encrypted, certificate not checked.
    Required,
    /// Encrypted, certificate and name checked.
    VerifyIdentity,
}

/// What a connection is opened with.
pub struct Options {
    pub host: String,
    pub port: u16,
    pub username: String,
    pub password: String,
    pub database: String,
    pub ssl_mode: SslMode,
}

pub open spec fn ssl_for(tls: TlsMode) -> SslMode {
    match tls {
        TlsMode::Disable => SslMode::Disabled,
        TlsMode::Prefer => SslMode::Preferred,
        TlsMode::Require => SslMode::VerifyIdentity,
        TlsMode::TrustCertificate => SslMode::Required,
    }
}

/// What a connection to `db` is opened with.
pub fn options(config: &SourceConfig, db: &str) -> (r: Result<Options, Error>)
    ensures
        match r {
            Ok(o) => {
                &&& config@.auth matches AuthConfigView::Password { username, password }
                    && o.username@ == username && o.password@ == password
                &&& o.host@ == config@.host
                &&& o.port == config@.port_used()
                &&& o.database@ == db@
                &&& o.ssl_mode == ssl_for(config@.tls)
            },
            Err(e) => {
                &&& !(config@.auth is Password)
                &&& e@ == ErrorView::Unsupported(
                    "MySQL sources need password authentication, got `"@ + config@.auth.method()
                        + "`"@,
                )
            },
        },
{
    match &config.auth {
        AuthConfig::Password { username, password } => Ok(
            Options {
                host: config.host.clone(),
                port: config.port(),
                username: username.clone(),
                password: password.clone(),
                database: db.to_owned(),
                ssl_mode: match config.tls {
                    TlsMode::Disable => SslMode::Disabled,
                    TlsMode::Prefer => SslMode::Preferred,
                    TlsMode::Require => SslMode::VerifyIdentity,
                    TlsMode::TrustCertificate => SslMode::Required,
                },
            },
        ),
        _ => Err(
            Error::Unsupported(
                "MySQL sources need password authentication, got `".to_owned().concat(
                    config.auth.method(),
                ).concat("`"),
            ),
        ),
    }
}

/// MySQL and MariaDB sources.
pub struct MySqlConnector;

impl MySqlConnector {
    pub fn dialect(&self) -> (r: Dialect)
        ensures
            r == Dialect::MySql,
    {
        Dialect::MySql
    }
}

// ---------------------------------------------------------------------- catalogue

/// Instrumentation is left out; it would be the loudest thing in the tree.
pub const LIST_DATABASES: &'static str = "SELECT CAST(schema_name AS CHAR) AS name\nFROM information_schema.schemata\nWHERE schema_name NOT IN ('performance_schema', 'sys')\nORDER BY schema_name";

/// Every column of the catalogue is cast: its declared types differ between servers.
pub const LIST_TABLES: &'static str = "SELECT CAST(table_name AS CHAR) AS name,\n       CAST(table_type AS CHAR) AS kind\nFROM information_schema.tables\nWHERE table_schema = ?\nORDER BY table_name";

pub const LIST_COLUMNS: &'static str = "SELECT CAST(column_name AS CHAR)      AS name,\n       CAST(ordinal_position AS SIGNED) AS ordinal,\n       CAST(column_type AS CHAR)      AS data_type,\n       CAST(is_nullable AS CHAR)      AS nullable,\n       CAST(column_default AS CHAR)   AS default_expr,\n       CAST(column_key AS CHAR)       AS column_key\nFROM information_schema.columns\nWHERE table_schema = ? AND table_name = ?\nORDER BY ordinal_position";

/// [`LIST_COLUMNS`] widened to the whole database, so that a snapshot is one question.
pub const SNAPSHOT: &'static str = "SELECT CAST(c.table_name AS CHAR)         AS table_name,\n       CAST(t.table_type AS CHAR)         AS kind,\n       CAST(c.column_name AS CHAR)        AS name,\n       CAST(c.ordinal_position AS SIGNED) AS ordinal,\n       CAST(c.column_type AS CHAR)        AS data_type,\n       CAST(c.is_nullable AS CHAR)        AS nullable,\n       CAST(c.column_default AS CHAR)     AS default_expr,\n       CAST(c.column_key AS CHAR)         AS column_key\nFROM information_schema.columns c\nJOIN information_schema.tables t\n  ON t.table_schema = c.table_schema AND t.table_name = c.table_name\nWHERE c.table_schema = ?\nORDER BY c.table_name, c.ordinal_position";

/// What a relation is, by the words the catalogue has for it.
pub fn table_kind(kind: &str) -> (r: TableKind)
    ensures
        r == if kind@ == "VIEW"@ || kind@ == "SYSTEM VIEW"@ {
            TableKind::View
        } else {
            TableKind::Table
        },
{
    if text::same(kind, "VIEW") || text::same(kind, "SYSTEM VIEW") {
        TableKind::View
    } else {
        TableKind::Table
    }
}

/// One row of [`LIST_COLUMNS`] or [`SNAPSHOT`].
pub struct ColumnRow {
    pub name: String,
    pub ordinal: i32,
    pub data_type: String,
    pub nullable: String,
    pub default: Option<String>,
    pub column_key: String,
}

/// A column, as the catalogue spells it: `YES` for one that may be null, `PRI` for a
/// part of the primary key.
pub fn column_info(row: ColumnRow) -> (r: ColumnInfo)
    ensures
        r@ == (ColumnInfoView {
            name: row.name@,
            ordinal: row.ordinal,
            data_type: row.data_type@,
            nullable: row.nullable@ == "YES"@,
            is_primary_key: row.column_key@ == "PRI"@,
            default: text::opt(row.default),
        }),
{
    let nullable = text::same(&row.nullable, "YES");
    let is_primary_key = text::same(&row.column_key, "PRI");
    ColumnInfo {
        name: row.name,
        ordinal: row.ordinal,
        data_type: row.data_type,
        nullable,
        is_primary_key,
        default: row.default,
    }
}

/// MySQL has no schema below a database, so an empty schema means the database the call
/// is about.
pub fn schema_of<'a>(db: &'a str, schema: &'a str) -> (r: &'a str)
    ensures
        r@ == if schema@.len() == 0 {
            db@
        } else {
            schema@
        },
{
    if schema.is_empty() {
        db
    } else {
        schema
    }
}

// -------------------------------------------------------------------------- cells

/// How a cell is read out of a row.
#[derive(Debug, Clone, Copy, PartialEq, Eq, Structural)]
pub enum Decoder {
    /// There is no boolean: this is `tinyint(1)`.
    Bool,
    Int8,
    Int16,
    Int32,
    Int64,
    UInt8,
    UInt16,
    UInt32,
    UInt64,
    Year,
    Bit,
    Float,
    Double,
    /// Exact digits, as text.
    Decimal,
    Text,
    Date,
    Time,
    /// Without a time zone, whatever the column: a `timestamp` comes in the session's.
    DateTime,
    Json,
    Bytes,
}

/// How a type of that name is read, if it is.
pub open spec fn decoder_for(name: Seq<char>) -> Option<Decoder> {
    if name == "BOOLEAN"@ {
        Some(Decoder::Bool)
    } else if name == "TINYINT"@ {
        Some(Decoder::Int8)
    } else if name == "SMALLINT"@ {
        Some(Decoder::Int16)
    } else if name == "MEDIUMINT"@ || name == "INT"@ {
        Some(Decoder::Int32)
    } else if name == "BIGINT"@ {
        Some(Decoder::Int64)
    } else if name == "TINYINT UNSIGNED"@ {
        Some(Decoder::UInt8)
    } else if name == "SMALLINT UNSIGNED"@ {
        Some(Decoder::UInt16)
    } else if name == "MEDIUMINT UNSIGNED"@ || name == "INT UNSIGNED"@ {
        Some(Decoder::UInt32)
    } else if name == "BIGINT UNSIGNED"@ {
        Some(Decoder::UInt64)
    } else if name == "YEAR"@ {
        Some(Decoder::Year)
    } else if name == "BIT"@ {
        Some(Decoder::Bit)
    } else if name == "FLOAT"@ {
        Some(Decoder::Float)
    } else if name == "DOUBLE"@ {
        Some(Decoder::Double)
    } else if name == "DECIMAL"@ {
        Some(Decoder::Decimal)
    } else if name == "CHAR"@ || name == "VARCHAR"@ || name == "TEXT"@ || name == "TINYTEXT"@ || name == "MEDIUMTEXT"@ || name == "LONGTEXT"@ || name == "ENUM"@ || name == "SET"@ {
        Some(Decoder::Text)
    } else if name == "DATE"@ {
        Some(Decoder::Date)
    } else if name == "TIME"@ {
        Some(Decoder::Time)
    } else if name == "DATETIME"@ || name == "TIMESTAMP"@ {
        Some(Decoder::DateTime)
    } else if name == "JSON"@ {
        Some(Decoder::Json)
    } else if name == "BINARY"@ || name == "VARBINARY"@ || name == "BLOB"@ || name == "TINYBLOB"@ || name == "MEDIUMBLOB"@ || name == "LONGBLOB"@ {
        Some(Decoder::Bytes)
    } else {
        None
    }
}

/// How a type of that name is read.
pub fn decoder(name: &str) -> (r: Option<Decoder>)
    ensures
        r == decoder_for(name@),
{
    if text::same(name, "BOOLEAN") {
        Some(Decoder::Bool)
    } else if text::same(name, "TINYINT") {
        Some(Decoder::Int8)
    } else if text::same(name, "SMALLINT") {
        Some(Decoder::Int16)
    } else if text::same(name, "MEDIUMINT") || text::same(name, "INT") {
        Some(Decoder::Int32)
    } else if text::same(name, "BIGINT") {
        Some(Decoder::Int64)
    } else if text::same(name, "TINYINT UNSIGNED") {
        Some(Decoder::UInt8)
    } else if text::same(name, "SMALLINT UNSIGNED") {
        Some(Decoder::UInt16)
    } else if text::same(name, "MEDIUMINT UNSIGNED") || text::same(name, "INT UNSIGNED") {
        Some(Decoder::UInt32)
    } else if text::same(name, "BIGINT UNSIGNED") {
        Some(Decoder::UInt64)
    } else if text::same(name, "YEAR") {
        Some(Decoder::Year)
    } else if text::same(name, "BIT") {
        Some(Decoder::Bit)
    } else if text::same(name, "FLOAT") {
        Some(Decoder::Float)
    } else if text::same(name, "DOUBLE") {
        Some(Decoder::Double)
    } else if text::same(name, "DECIMAL") {
        Some(Decoder::Decimal)
    } else if text::same(name, "CHAR") || text::same(name, "VARCHAR") || text::same(name, "TEXT") || text::same(name, "TINYTEXT") || text::same(name, "MEDIUMTEXT") || text::same(name, "LONGTEXT") || text::same(name, "ENUM") || text::same(name, "SET") {
        Some(Decoder::Text)
    } else if text::same(name, "DATE") {
        Some(Decoder::Date)
    } else if text::same(name, "TIME") {
        Some(Decoder::Time)
    } else if text::same(name, "DATETIME") || text::same(name, "TIMESTAMP") {
        Some(Decoder::DateTime)
    } else if text::same(name, "JSON") {
        Some(Decoder::Json)
    } else if text::same(name, "BINARY") || text::same(name, "VARBINARY") || text::same(name, "BLOB") || text::same(name, "TINYBLOB") || text::same(name, "MEDIUMBLOB") || text::same(name, "LONGBLOB") {
        Some(Decoder::Bytes)
    } else {
        None
    }
}

/// What a type of that name holds.
pub open spec fn type_holds(name: Seq<char>) -> LogicalType {
    if name == "BOOLEAN"@ {
        LogicalType::Bool
    } else if name == "TINYINT"@ || name == "SMALLINT"@ || name == "MEDIUMINT"@ || name == "INT"@ || name == "BIGINT"@ || name == "TINYINT UNSIGNED"@ || name == "SMALLINT UNSIGNED"@ || name == "MEDIUMINT UNSIGNED"@ || name == "INT UNSIGNED"@ || name == "BIGINT UNSIGNED"@ || name == "YEAR"@ || name == "BIT"@ {
        LogicalType::Int
    } else if name == "FLOAT"@ || name == "DOUBLE"@ {
        LogicalType::Float
    } else if name == "DECIMAL"@ {
        LogicalType::Decimal
    } else if name == "CHAR"@ || name == "VARCHAR"@ || name == "TEXT"@ || name == "TINYTEXT"@ || name == "MEDIUMTEXT"@ || name == "LONGTEXT"@ || name == "ENUM"@ || name == "SET"@ {
        LogicalType::Text
    } else if name == "DATE"@ {
        LogicalType::Date
    } else if name == "TIME"@ {
        LogicalType::Time
    } else if name == "DATETIME"@ || name == "TIMESTAMP"@ {
        LogicalType::Timestamp
    } else if name == "JSON"@ {
        LogicalType::Json
    } else if name == "BINARY"@ || name == "VARBINARY"@ || name == "BLOB"@ || name == "TINYBLOB"@ || name == "MEDIUMBLOB"@ || name == "LONGBLOB"@ {
        LogicalType::Binary
    } else {
        LogicalType::Unknown
    }
}

/// What a type of that name holds.
pub fn logical_type(name: &str) -> (r: LogicalType)
    ensures
        r == type_holds(name@),
{
    if text::same(name, "BOOLEAN") {
        LogicalType::Bool
    } else if text::same(name, "TINYINT") || text::same(name, "SMALLINT") || text::same(name, "MEDIUMINT") || text::same(name, "INT") || text::same(name, "BIGINT") || text::same(name, "TINYINT UNSIGNED") || text::same(name, "SMALLINT UNSIGNED") || text::same(name, "MEDIUMINT UNSIGNED") || text::same(name, "INT UNSIGNED") || text::same(name, "BIGINT UNSIGNED") || text::same(name, "YEAR") || text::same(name, "BIT") {
        LogicalType::Int
    } else if text::same(name, "FLOAT") || text::same(name, "DOUBLE") {
        LogicalType::Float
    } else if text::same(name, "DECIMAL") {
        LogicalType::Decimal
    } else if text::same(name, "CHAR") || text::same(name, "VARCHAR") || text::same(name, "TEXT") || text::same(name, "TINYTEXT") || text::same(name, "MEDIUMTEXT") || text::same(name, "LONGTEXT") || text::same(name, "ENUM") || text::same(name, "SET") {
        LogicalType::Text
    } else if text::same(name, "DATE") {
        LogicalType::Date
    } else if text::same(name, "TIME") {
        LogicalType::Time
    } else if text::same(name, "DATETIME") || text::same(name, "TIMESTAMP") {
        LogicalType::Timestamp
    } else if text::same(name, "JSON") {
        LogicalType::Json
    } else if text::same(name, "BINARY") || text::same(name, "VARBINARY") || text::same(name, "BLOB") || text::same(name, "TINYBLOB") || text::same(name, "MEDIUMBLOB") || text::same(name, "LONGBLOB") {
        LogicalType::Binary
    } else {
        LogicalType::Unknown
    }
}

/// What a cell read by a decoder holds.
pub open spec fn decoded_as(decoder: Decoder) -> LogicalType {
    match decoder {
        Decoder::Bool => LogicalType::Bool,
        Decoder::Int8 | Decoder::Int16 | Decoder::Int32 | Decoder::Int64 => LogicalType::Int,
        Decoder::UInt8 | Decoder::UInt16 | Decoder::UInt32 | Decoder::UInt64 => LogicalType::Int,
        Decoder::Year | Decoder::Bit => LogicalType::Int,
        Decoder::Float | Decoder::Double => LogicalType::Float,
        Decoder::Decimal => LogicalType::Decimal,
        Decoder::Text => LogicalType::Text,
        Decoder::Date => LogicalType::Date,
        Decoder::Time => LogicalType::Time,
        Decoder::DateTime => LogicalType::Timestamp,
        Decoder::Json => LogicalType::Json,
        Decoder::Bytes => LogicalType::Binary,
    }
}

/// A column is named after what its cells are read as: the type that is reported of it
/// is the one its decoder gives, and nothing is promised of one that has none.
pub proof fn law_a_column_is_named_for_how_it_is_read(name: Seq<char>)
    ensures
        type_holds(name) == (match decoder_for(name) {
            Some(decoder) => decoded_as(decoder),
            None => LogicalType::Unknown,
        }),
{
}

/// A cell as JSON, by the type it is of: null stays null, one that would not decode
/// says why, and one whose type has no decoder says so.
pub open spec fn cell(name: Seq<char>, raw: Raw) -> JsonView {
    match raw {
        Raw::Null | Raw::Unreadable(_) => rows::shown(raw, "0x"@, false),
        _ => if decoder_for(name) is None {
            JsonView::Text(rows::no_decoder(name))
        } else {
            rows::shown(raw, "0x"@, false)
        },
    }
}

/// A cell as JSON, by the type it is of. `raw` is what its decoder read.
pub fn value_at(name: &str, raw: Raw) -> (r: Json)
    ensures
        r@ == cell(name@, raw),
{
    match raw {
        Raw::Null => rows::show(raw, "0x", false),
        Raw::Unreadable(_) => rows::show(raw, "0x", false),
        _ => if decoder(name).is_none() {
            rows::unsupported(name)
        } else {
            rows::show(raw, "0x", false)
        },
    }
}

/// Bytes in hexadecimal, as MySQL writes them.
pub fn hex(bytes: &[u8]) -> (r: String)
    ensures
        r@ == "0x"@ + text::hex(bytes@),
{
    rows::marked_hex(bytes, "0x", false)
}

/// A name is read by a decoder only where it is a name that decoder is for.
pub open spec fn is_for(decoder: Decoder, name: Seq<char>) -> bool {
    match decoder {
        Decoder::Bool => name == "BOOLEAN"@,
        Decoder::Int8 => name == "TINYINT"@,
        Decoder::Int16 => name == "SMALLINT"@,
        Decoder::Int32 => name == "MEDIUMINT"@ || name == "INT"@,
        Decoder::Int64 => name == "BIGINT"@,
        Decoder::UInt8 => name == "TINYINT UNSIGNED"@,
        Decoder::UInt16 => name == "SMALLINT UNSIGNED"@,
        Decoder::UInt32 => name == "MEDIUMINT UNSIGNED"@ || name == "INT UNSIGNED"@,
        Decoder::UInt64 => name == "BIGINT UNSIGNED"@,
        Decoder::Year => name == "YEAR"@,
        Decoder::Bit => name == "BIT"@,
        Decoder::Float => name == "FLOAT"@,
        Decoder::Double => name == "DOUBLE"@,
        Decoder::Decimal => name == "DECIMAL"@,
        Decoder::Text => name == "CHAR"@ || name == "VARCHAR"@ || name == "TEXT"@ || name
            == "TINYTEXT"@ || name == "MEDIUMTEXT"@ || name == "LONGTEXT"@ || name == "ENUM"@
            || name == "SET"@,
        Decoder::Date => name == "DATE"@,
        Decoder::Time => name == "TIME"@,
        Decoder::DateTime => name == "DATETIME"@ || name == "TIMESTAMP"@,
        Decoder::Json => name == "JSON"@,
        Decoder::Bytes => name == "BINARY"@ || name == "VARBINARY"@ || name == "BLOB"@ || name
            == "TINYBLOB"@ || name == "MEDIUMBLOB"@ || name == "LONGBLOB"@,
    }
}

/// Every type that some decoder is for is read, and by one that is for it; no other type is
/// read at all.
pub proof fn law_every_type_is_read_by_its_own_decoder(name: Seq<char>)
    ensures
        match decoder_for(name) {
            Some(decoder) => is_for(decoder, name),
            None => forall|decoder: Decoder| !#[trigger] is_for(decoder, name),
        },
{
}

/// A cell is shown as it was read. Only a type that nothing decodes is shown as such, and
/// even then null stays null and a failure says why.
pub proof fn law_a_cell_is_shown_as_it_was_read(name: Seq<char>, raw: Raw)
    ensures
        match raw {
            Raw::Null => cell(name, raw) is Null,
            Raw::Unreadable(why) => cell(name, raw) == JsonView::Text(
                "<decode error: "@ + why@ + ">"@,
            ),
            Raw::Json(json) => cell(name, raw) == if decoder_for(name) is Some {
                json@
            } else {
                JsonView::Text("<unsupported type "@ + name + ">"@)
            },
            Raw::Bytes(bytes) => cell(name, raw) == JsonView::Text(
                if decoder_for(name) is Some {
                    "0x"@ + text::hex(bytes@)
                } else {
                    "<unsupported type "@ + name + ">"@
                },
            ),
        },
{
}

/// How a connection is encrypted is what the source asked for: a certificate that must be
/// valid is checked, one that is trusted is not but the connection is still encrypted.
pub proof fn law_a_connection_is_encrypted_as_asked(tls: TlsMode)
    ensures
        ssl_for(tls) is Disabled <==> tls is Disable,
        ssl_for(tls) is Preferred <==> tls is Prefer,
        ssl_for(tls) is VerifyIdentity <==> tls is Require,
        ssl_for(tls) is Required <==> tls is TrustCertificate,
{
}

/// A connection is opened as its source says: to its host and port and the database that was
/// asked for, as its user, with its password; and one without a password is not opened.
pub proof fn law_a_connection_is_opened_as_its_source_says(
    config: &SourceConfig,
    db: &str,
    r: Result<Options, Error>,
)
    requires
        call_ensures(options, (config, db), r),
    ensures
        r is Ok <==> config@.auth is Password,
        r matches Ok(o) ==> {
            &&& o.host@ == config@.host
            &&& config@.port matches Some(p) ==> o.port == p
            &&& config@.port is None ==> o.port == config@.kind.port_by_default()
            &&& o.database@ == db@
            &&& config@.auth == (AuthConfigView::Password {
                username: o.username@,
                password: o.password@,
            })
            &&& o.ssl_mode is VerifyIdentity <==> config@.tls is Require
            &&& o.ssl_mode is Disabled <==> config@.tls is Disable
        },
{
}

/// A column is what its row of the catalogue says.
pub proof fn law_a_column_is_what_the_catalogue_says(row: ColumnRow, r: ColumnInfo)
    requires
        call_ensures(column_info, (row,), r),
    ensures
        r.name@ == row.name@,
        r.ordinal == row.ordinal,
        r.data_type@ == row.data_type@,
        text::opt(r.default) == text::opt(row.default),
        row.nullable@ == "YES"@ <==> r.nullable,
        row.column_key@ == "PRI"@ <==> r.is_primary_key,
{
    assert(r@.name == r.name@);
    assert(r@.data_type == r.data_type@);
    assert(r@.default == text::opt(r.default));
}

/// A relation is a view where the catalogue says so, and a table otherwise.
pub proof fn law_a_view_is_one_by_its_word(kind: &str, r: TableKind)
    requires
        call_ensures(table_kind, (kind,), r),
    ensures
        r is View <==> kind@ == "VIEW"@ || kind@ == "SYSTEM VIEW"@,
{
}

/// Without a schema the database is meant.
pub proof fn law_a_schema_is_the_database_where_there_is_none(db: &str, schema: &str, r: &str)
    requires
        call_ensures(schema_of, (db, schema), r),
    ensures
        schema@.len() == 0 ==> r@ == db@,
        schema@.len() > 0 ==> r@ == schema@,
{
}

} // verus!
