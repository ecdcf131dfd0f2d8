//! PostgreSQL.

use crate::connectors::pools;
use crate::connectors::rows::{self, Raw};
use crate::error::{Error, ErrorView};
use crate::json::{Json, JsonView};
use crate::model::{
    AuthConfig, AuthConfigView, Dialect, LogicalType, SourceConfig, TableKind,
    TlsMode,
};
use crate::text;
use vstd::prelude::*;
use vstd::string::*;

verus! {

/// The fingerprint of a connection, credential included: what tells a pool that may
/// answer for it from one that may not.
pub fn fingerprint(config: &SourceConfig, db: &str) -> (r: u64)
    ensures
        r == pools::hashed(pools::identity(config@, db@)),
{
    pools::hash_of(&pools::identity_of(config, db))
}

// ------------------------------------------------------------------------ options

/// How strictly a connection is encrypted.
#[derive(Debug, Clone, Copy, PartialEq, Eq, Structural)]
pub enum SslMode {
    Disable,
    Prefer,
    /// Encrypted, certificate not checked.
    Require,
    /// Encrypted, certificate and name checked.
    VerifyFull,
}

/// What a connection is opened with.
pub struct Options {
    pub host: String,
    pub port: u16,
    pub username: String,
    pub password: String,
    pub database: String,
    pub application_name: String,
    pub ssl_mode: SslMode,
}

pub open spec fn ssl_for(tls: TlsMode) -> SslMode {
    match tls {
        TlsMode::Disable => SslMode::Disable,
        TlsMode::Prefer => SslMode::Prefer,
        TlsMode::Require => SslMode::VerifyFull,
        TlsMode::TrustCertificate => SslMode::Require,
    }
}

/// What a connection to `db` is opened with.
pub fn options(config: &SourceConfig, db: &str) -> (r: Result<Options, Error>)
    ensures
        match r {
            Ok(o) => {
                &&& config@.auth matches AuthConfigView::Password { username, password }
                    && o.username@ == username && o.password@ == password
                &&& o.host@ == config@.host
                &&& o.port == config@.port_used()
                &&& o.database@ == db@
                &&& o.application_name@ == "alkyon"@
                &&& o.ssl_mode == ssl_for(config@.tls)
            },
            Err(e) => {
                &&& !(config@.auth is Password)
                &&& e@ == ErrorView::Unsupported(
                    "PostgreSQL sources need password authentication, got `"@
                        + config@.auth.method() + "`"@,
                )
            },
        },
{
    match &config.auth {
        AuthConfig::Password { username, password } => Ok(
            Options {
                host: config.host.clone(),
                port: config.port(),
                username: username.clone(),
                password: password.clone(),
                database: db.to_owned(),
                application_name: "alkyon".to_owned(),
                ssl_mode: match config.tls {
                    TlsMode::Disable => SslMode::Disable,
                    TlsMode::Prefer => SslMode::Prefer,
                    TlsMode::Require => SslMode::VerifyFull,
                    TlsMode::TrustCertificate => SslMode::Require,
                },
            },
        ),
        _ => Err(
            Error::Unsupported(
                "PostgreSQL sources need password authentication, got `".to_owned().concat(
                    config.auth.method(),
                ).concat("`"),
            ),
        ),
    }
}

/// PostgreSQL sources.
pub struct PgConnector;

impl PgConnector {
    pub fn dialect(&self) -> (r: Dialect)
        ensures
            r == Dialect::PgSql,
    {
        Dialect::PgSql
    }
}

// ---------------------------------------------------------------------- catalogue

pub const LIST_DATABASES: &'static str = "SELECT datname\nFROM pg_catalog.pg_database\nWHERE NOT datistemplate\n  AND has_database_privilege(datname, 'CONNECT')\nORDER BY datname";

pub const LIST_TABLES: &'static str = "SELECT n.nspname AS schema, c.relname AS name, c.relkind AS kind\nFROM pg_catalog.pg_class c\nJOIN pg_catalog.pg_namespace n ON n.oid = c.relnamespace\nWHERE c.relkind IN ('r', 'p', 'v', 'm', 'f')\n  AND n.nspname NOT IN ('pg_catalog', 'information_schema')\n  AND n.nspname NOT LIKE 'pg_toast%'\nORDER BY n.nspname, c.relname";

pub const LIST_COLUMNS: &'static str = "SELECT a.attname                            AS name,\n       a.attnum                             AS ordinal,\n       format_type(a.atttypid, a.atttypmod) AS data_type,\n       NOT a.attnotnull                     AS nullable,\n       pg_get_expr(d.adbin, d.adrelid)      AS default_expr,\n       COALESCE(i.indisprimary, false)      AS is_primary_key\nFROM pg_catalog.pg_attribute a\nJOIN pg_catalog.pg_class c        ON c.oid = a.attrelid\nJOIN pg_catalog.pg_namespace n    ON n.oid = c.relnamespace\nLEFT JOIN pg_catalog.pg_attrdef d ON d.adrelid = a.attrelid AND d.adnum = a.attnum\nLEFT JOIN pg_catalog.pg_index i   ON i.indrelid = a.attrelid\n                                 AND i.indisprimary\n                                 AND a.attnum = ANY (i.indkey)\nWHERE n.nspname = $1\n  AND c.relname = $2\n  AND a.attnum > 0\n  AND NOT a.attisdropped\nORDER BY a.attnum";

/// [`LIST_COLUMNS`] widened to the whole database, so that a snapshot is one question.
pub const SNAPSHOT: &'static str = "SELECT n.nspname                            AS schema,\n       c.relname                            AS table_name,\n       c.relkind                            AS kind,\n       a.attname                            AS name,\n       a.attnum                             AS ordinal,\n       format_type(a.atttypid, a.atttypmod) AS data_type,\n       NOT a.attnotnull                     AS nullable,\n       pg_get_expr(d.adbin, d.adrelid)      AS default_expr,\n       COALESCE(i.indisprimary, false)      AS is_primary_key\nFROM pg_catalog.pg_attribute a\nJOIN pg_catalog.pg_class c        ON c.oid = a.attrelid\nJOIN pg_catalog.pg_namespace n    ON n.oid = c.relnamespace\nLEFT JOIN pg_catalog.pg_attrdef d ON d.adrelid = a.attrelid AND d.adnum = a.attnum\nLEFT JOIN pg_catalog.pg_index i   ON i.indrelid = a.attrelid\n                                 AND i.indisprimary\n                                 AND a.attnum = ANY (i.indkey)\nWHERE c.relkind IN ('r', 'p', 'v', 'm', 'f')\n  AND n.nspname NOT IN ('pg_catalog', 'information_schema')\n  AND n.nspname NOT LIKE 'pg_toast%'\n  AND a.attnum > 0\n  AND NOT a.attisdropped\nORDER BY n.nspname, c.relname, a.attnum";

/// What a relation is, by the letter the catalogue has for it: `v` for a view and `m`
/// for a materialised one; everything else that is listed is a table of some sort.
pub fn table_kind(letter: u8) -> (r: TableKind)
    ensures
        r == if letter == 0x76 || letter == 0x6d {
            TableKind::View
        } else {
            TableKind::Table
        },
{
    if letter == 0x76 || letter == 0x6d {
        TableKind::View
    } else {
        TableKind::Table
    }
}

// -------------------------------------------------------------------------- cells

/// How a cell is read out of a row.
#[derive(Debug, Clone, Copy, PartialEq, Eq, Structural)]
pub enum Decoder {
    Bool,
    Int2,
    Int4,
    Int8,
    Oid,
    Float4,
    Float8,
    /// Exact digits, as text.
    Decimal,
    Text,
    /// The one-byte type, as the text of its number.
    Byte,
    Uuid,
    Date,
    Time,
    Timestamp,
    TimestampTz,
    Json,
    Bytes,
    BoolList,
    Int2List,
    Int4List,
    Int8List,
    Float4List,
    Float8List,
    TextList,
    UuidList,
    JsonList,
}

/// How a type of that name is read, if it is.
pub open spec fn decoder_for(name: Seq<char>) -> Option<Decoder> {
    if name == "BOOL"@ {
        Some(Decoder::Bool)
    } else if name == "INT2"@ {
        Some(Decoder::Int2)
    } else if name == "INT4"@ {
        Some(Decoder::Int4)
    } else if name == "INT8"@ {
        Some(Decoder::Int8)
    } else if name == "OID"@ {
        Some(Decoder::Oid)
    } else if name == "FLOAT4"@ {
        Some(Decoder::Float4)
    } else if name == "FLOAT8"@ {
        Some(Decoder::Float8)
    } else if name == "NUMERIC"@ {
        Some(Decoder::Decimal)
    } else if name == "TEXT"@ || name == "VARCHAR"@ || name == "CHAR"@ || name == "NAME"@ || name
        == "CITEXT"@ || name == "XML"@ || name == "UNKNOWN"@ {
        Some(Decoder::Text)
    } else if name == "\"CHAR\""@ {
        Some(Decoder::Byte)
    } else if name == "UUID"@ {
        Some(Decoder::Uuid)
    } else if name == "DATE"@ {
        Some(Decoder::Date)
    } else if name == "TIME"@ {
        Some(Decoder::Time)
    } else if name == "TIMESTAMP"@ {
        Some(Decoder::Timestamp)
    } else if name == "TIMESTAMPTZ"@ {
        Some(Decoder::TimestampTz)
    } else if name == "JSON"@ || name == "JSONB"@ {
        Some(Decoder::Json)
    } else if name == "BYTEA"@ {
        Some(Decoder::Bytes)
    } else if name == "BOOL[]"@ {
        Some(Decoder::BoolList)
    } else if name == "INT2[]"@ {
        Some(Decoder::Int2List)
    } else if name == "INT4[]"@ {
        Some(Decoder::Int4List)
    } else if name == "INT8[]"@ {
        Some(Decoder::Int8List)
    } else if name == "FLOAT4[]"@ {
        Some(Decoder::Float4List)
    } else if name == "FLOAT8[]"@ {
        Some(Decoder::Float8List)
    } else if name == "TEXT[]"@ || name == "VARCHAR[]"@ {
        Some(Decoder::TextList)
    } else if name == "UUID[]"@ {
        Some(Decoder::UuidList)
    } else if name == "JSON[]"@ || name == "JSONB[]"@ {
        Some(Decoder::JsonList)
    } else {
        None
    }
}

/// How a type of that name is read.
///
/// `CHAR` and `"CHAR"` are two different types: the first is the blank-padded one, the
/// second, quotes included, the one-byte one.
pub fn decoder(name: &str) -> (r: Option<Decoder>)
    ensures
        r == decoder_for(name@),
{
    if text::same(name, "BOOL") {
        Some(Decoder::Bool)
    } else if text::same(name, "INT2") {
        Some(Decoder::Int2)
    } else if text::same(name, "INT4") {
        Some(Decoder::Int4)
    } else if text::same(name, "INT8") {
        Some(Decoder::Int8)
    } else if text::same(name, "OID") {
        Some(Decoder::Oid)
    } else if text::same(name, "FLOAT4") {
        Some(Decoder::Float4)
    } else if text::same(name, "FLOAT8") {
        Some(Decoder::Float8)
    } else if text::same(name, "NUMERIC") {
        Some(Decoder::Decimal)
    } else if text::same(name, "TEXT") || text::same(name, "VARCHAR") || text::same(name, "CHAR")
        || text::same(name, "NAME") || text::same(name, "CITEXT") || text::same(name, "XML")
        || text::same(name, "UNKNOWN") {
        Some(Decoder::Text)
    } else if text::same(name, "\"CHAR\"") {
        Some(Decoder::Byte)
    } else if text::same(name, "UUID") {
        Some(Decoder::Uuid)
    } else if text::same(name, "DATE") {
        Some(Decoder::Date)
    } else if text::same(name, "TIME") {
        Some(Decoder::Time)
    } else if text::same(name, "TIMESTAMP") {
        Some(Decoder::Timestamp)
    } else if text::same(name, "TIMESTAMPTZ") {
        Some(Decoder::TimestampTz)
    } else if text::same(name, "JSON") || text::same(name, "JSONB") {
        Some(Decoder::Json)
    } else if text::same(name, "BYTEA") {
        Some(Decoder::Bytes)
    } else if text::same(name, "BOOL[]") {
        Some(Decoder::BoolList)
    } else if text::same(name, "INT2[]") {
        Some(Decoder::Int2List)
    } else if text::same(name, "INT4[]") {
        Some(Decoder::Int4List)
    } else if text::same(name, "INT8[]") {
        Some(Decoder::Int8List)
    } else if text::same(name, "FLOAT4[]") {
        Some(Decoder::Float4List)
    } else if text::same(name, "FLOAT8[]") {
        Some(Decoder::Float8List)
    } else if text::same(name, "TEXT[]") || text::same(name, "VARCHAR[]") {
        Some(Decoder::TextList)
    } else if text::same(name, "UUID[]") {
        Some(Decoder::UuidList)
    } else if text::same(name, "JSON[]") || text::same(name, "JSONB[]") {
        Some(Decoder::JsonList)
    } else {
        None
    }
}

/// What a type of that name holds.
pub open spec fn type_holds(name: Seq<char>) -> LogicalType {
    if name == "BOOL"@ {
        LogicalType::Bool
    } else if name == "INT2"@ || name == "INT4"@ || name == "INT8"@ || name == "OID"@ {
        LogicalType::Int
    } else if name == "FLOAT4"@ || name == "FLOAT8"@ {
        LogicalType::Float
    } else if name == "NUMERIC"@ {
        LogicalType::Decimal
    } else if name == "TEXT"@ || name == "VARCHAR"@ || name == "CHAR"@ || name == "NAME"@ || name
        == "CITEXT"@ || name == "XML"@ || name == "UNKNOWN"@ || name == "\"CHAR\""@ {
        LogicalType::Text
    } else if name == "UUID"@ {
        LogicalType::Uuid
    } else if name == "DATE"@ {
        LogicalType::Date
    } else if name == "TIME"@ {
        LogicalType::Time
    } else if name == "TIMESTAMP"@ {
        LogicalType::Timestamp
    } else if name == "TIMESTAMPTZ"@ {
        LogicalType::TimestampTz
    } else if name == "JSON"@ || name == "JSONB"@ {
        LogicalType::Json
    } else if name == "BYTEA"@ {
        LogicalType::Binary
    } else {
        LogicalType::Unknown
    }
}

/// What a type of that name holds. Lists, and everything with no decoder, have no type
/// to promise.
pub fn logical_type(name: &str) -> (r: LogicalType)
    ensures
        r == type_holds(name@),
{
    if text::same(name, "BOOL") {
        LogicalType::Bool
    } else if text::same(name, "INT2") || text::same(name, "INT4") || text::same(name, "INT8")
        || text::same(name, "OID") {
        LogicalType::Int
    } else if text::same(name, "FLOAT4") || text::same(name, "FLOAT8") {
        LogicalType::Float
    } else if text::same(name, "NUMERIC") {
        LogicalType::Decimal
    } else if text::same(name, "TEXT") || text::same(name, "VARCHAR") || text::same(name, "CHAR")
        || text::same(name, "NAME") || text::same(name, "CITEXT") || text::same(name, "XML")
        || text::same(name, "UNKNOWN") || text::same(name, "\"CHAR\"") {
        LogicalType::Text
    } else if text::same(name, "UUID") {
        LogicalType::Uuid
    } else if text::same(name, "DATE") {
        LogicalType::Date
    } else if text::same(name, "TIME") {
        LogicalType::Time
    } else if text::same(name, "TIMESTAMP") {
        LogicalType::Timestamp
    } else if text::same(name, "TIMESTAMPTZ") {
        LogicalType::TimestampTz
    } else if text::same(name, "JSON") || text::same(name, "JSONB") {
        LogicalType::Json
    } else if text::same(name, "BYTEA") {
        LogicalType::Binary
    } else {
        LogicalType::Unknown
    }
}

/// What a cell read by a decoder holds, where that is a scalar.
pub open spec fn decoded_as(decoder: Decoder) -> LogicalType {
    match decoder {
        Decoder::Bool => LogicalType::Bool,
        Decoder::Int2 | Decoder::Int4 | Decoder::Int8 | Decoder::Oid => LogicalType::Int,
        Decoder::Float4 | Decoder::Float8 => LogicalType::Float,
        Decoder::Decimal => LogicalType::Decimal,
        Decoder::Text | Decoder::Byte => LogicalType::Text,
        Decoder::Uuid => LogicalType::Uuid,
        Decoder::Date => LogicalType::Date,
        Decoder::Time => LogicalType::Time,
        Decoder::Timestamp => LogicalType::Timestamp,
        Decoder::TimestampTz => LogicalType::TimestampTz,
        Decoder::Json => LogicalType::Json,
        Decoder::Bytes => LogicalType::Binary,
        _ => LogicalType::Unknown,
    }
}

/// A column is named after what its cells are read as: the type that is reported of it
/// is the one its decoder gives, and nothing is promised of one that has none.
pub proof fn law_a_column_is_named_for_how_it_is_read(name: Seq<char>)
    ensures
        type_holds(name) == (match decoder_for(name) {
            Some(decoder) => decoded_as(decoder),
            None => LogicalType::Unknown,
        }),
{
}

/// A cell as JSON, by the type it is of: null stays null, one that would not decode
/// says why, and one whose type has no decoder says so.
pub open spec fn cell(name: Seq<char>, raw: Raw) -> JsonView {
    match raw {
        Raw::Null | Raw::Unreadable(_) => rows::shown(raw, "\\x"@, false),
        _ => if decoder_for(name) is None {
            JsonView::Text(rows::no_decoder(name))
        } else {
            rows::shown(raw, "\\x"@, false)
        },
    }
}

/// A cell as JSON, by the type it is of. `raw` is what its decoder read.
pub fn value_at(name: &str, raw: Raw) -> (r: Json)
    ensures
        r@ == cell(name@, raw),
{
    match raw {
        Raw::Null => rows::show(raw, "\\x", false),
        Raw::Unreadable(_) => rows::show(raw, "\\x", false),
        _ => if decoder(name).is_none() {
            rows::unsupported(name)
        } else {
            rows::show(raw, "\\x", false)
        },
    }
}

/// Bytes in hexadecimal, as PostgreSQL writes them.
pub fn hex(bytes: &[u8]) -> (r: String)
    ensures
        r@ == "\\x"@ + text::hex(bytes@),
{
    rows::marked_hex(bytes, "\\x", false)
}

/// A name is read by a decoder only where it is a name that decoder is for.
pub open spec fn is_for(decoder: Decoder, name: Seq<char>) -> bool {
    match decoder {
        Decoder::Bool => name == "BOOL"@,
        Decoder::Int2 => name == "INT2"@,
        Decoder::Int4 => name == "INT4"@,
        Decoder::Int8 => name == "INT8"@,
        Decoder::Oid => name == "OID"@,
        Decoder::Float4 => name == "FLOAT4"@,
        Decoder::Float8 => name == "FLOAT8"@,
        Decoder::Decimal => name == "NUMERIC"@,
        Decoder::Text => name == "TEXT"@ || name == "VARCHAR"@ || name == "CHAR"@ || name
            == "NAME"@ || name == "CITEXT"@ || name == "XML"@ || name == "UNKNOWN"@,
        Decoder::Byte => name == "\"CHAR\""@,
        Decoder::Uuid => name == "UUID"@,
        Decoder::Date => name == "DATE"@,
        Decoder::Time => name == "TIME"@,
        Decoder::Timestamp => name == "TIMESTAMP"@,
        Decoder::TimestampTz => name == "TIMESTAMPTZ"@,
        Decoder::Json => name == "JSON"@ || name == "JSONB"@,
        Decoder::Bytes => name == "BYTEA"@,
        Decoder::BoolList => name == "BOOL[]"@,
        Decoder::Int2List => name == "INT2[]"@,
        Decoder::Int4List => name == "INT4[]"@,
        Decoder::Int8List => name == "INT8[]"@,
        Decoder::Float4List => name == "FLOAT4[]"@,
        Decoder::Float8List => name == "FLOAT8[]"@,
        Decoder::TextList => name == "TEXT[]"@ || name == "VARCHAR[]"@,
        Decoder::UuidList => name == "UUID[]"@,
        Decoder::JsonList => name == "JSON[]"@ || name == "JSONB[]"@,
    }
}

/// Every type that some decoder is for is read, and by one that is for it; no other type is
/// read at all.
pub proof fn law_every_type_is_read_by_its_own_decoder(name: Seq<char>)
    ensures
        match decoder_for(name) {
            Some(decoder) => is_for(decoder, name),
            None => forall|decoder: Decoder| !#[trigger] is_for(decoder, name),
        },
{
}

/// A cell is shown as it was read. Only a type that nothing decodes is shown as such, and
/// even then null stays null and a failure says why.
pub proof fn law_a_cell_is_shown_as_it_was_read(name: Seq<char>, raw: Raw)
    ensures
        match raw {
            Raw::Null => cell(name, raw) is Null,
            Raw::Unreadable(why) => cell(name, raw) == JsonView::Text(
                "<decode error: "@ + why@ + ">"@,
            ),
            Raw::Json(json) => cell(name, raw) == if decoder_for(name) is Some {
                json@
            } else {
                JsonView::Text("<unsupported type "@ + name + ">"@)
            },
            Raw::Bytes(bytes) => cell(name, raw) == JsonView::Text(
                if decoder_for(name) is Some {
                    "\\x"@ + text::hex(bytes@)
                } else {
                    "<unsupported type "@ + name + ">"@
                },
            ),
        },
{
}

/// How a connection is encrypted is what the source asked for: a certificate that must be
/// valid is checked, one that is trusted is not but the connection is still encrypted.
pub proof fn law_a_connection_is_encrypted_as_asked(tls: TlsMode)
    ensures
        ssl_for(tls) is Disable <==> tls is Disable,
        ssl_for(tls) is Prefer <==> tls is Prefer,
        ssl_for(tls) is VerifyFull <==> tls is Require,
        ssl_for(tls) is Require <==> tls is TrustCertificate,
{
}

/// A connection is opened as its source says: to its host and port and the database that was
/// asked for, as its user, with its password; and one without a password is not opened.
pub proof fn law_a_connection_is_opened_as_its_source_says(
    config: &SourceConfig,
    db: &str,
    r: Result<Options, Error>,
)
    requires
        call_ensures(options, (config, db), r),
    ensures
        r is Ok <==> config@.auth is Password,
        r matches Ok(o) ==> {
            &&& o.host@ == config@.host
            &&& config@.port matches Some(p) ==> o.port == p
            &&& config@.port is None ==> o.port == config@.kind.port_by_default()
            &&& o.database@ == db@
            &&& config@.auth == (AuthConfigView::Password {
                username: o.username@,
                password: o.password@,
            })
            &&& o.ssl_mode is VerifyFull <==> config@.tls is Require
            &&& o.ssl_mode is Disable <==> config@.tls is Disable
        },
{
}

/// A relation is a view where the catalogue's letter says so, and a table otherwise.
pub proof fn law_a_view_is_one_by_its_letter(letter: u8, r: TableKind)
    requires
        call_ensures(table_kind, (letter,), r),
    ensures
        r is View <==> letter as char == 'v' || letter as char == 'm',
{
}

} // verus!
