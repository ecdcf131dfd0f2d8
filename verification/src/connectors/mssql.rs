//! SQL Server, Azure SQL and Fabric.

use crate::connectors::rows::{self, Raw};
use crate::error::{Error, ErrorView};
use crate::json::{Json, JsonView};
use crate::model::{
    AuthConfig, AuthConfigView, ColumnInfo, ColumnInfoView, Dialect, LogicalType, SourceConfig,
    SourceConfigView, TableKind, TlsMode,
};
use crate::text;
use vstd::prelude::*;
use vstd::string::*;

verus! {

// -------------------------------------------------------------------------- login

/// How strictly a connection is encrypted.
#[derive(Debug, Clone, Copy, PartialEq, Eq, Structural)]
pub enum Encryption {
    NotSupported,
    On,
    Required,
}

/// Who logs in.
pub enum Identity {
    SqlServer { username: String, password: String },
    Token { token: String },
    Integrated,
}

#[verifier::ext_equal]
pub enum IdentityView {
    SqlServer { username: Seq<char>, password: Seq<char> },
    Token { token: Seq<char> },
    Integrated,
}

impl View for Identity {
    type V = IdentityView;

    open spec fn view(&self) -> IdentityView {
        match *self {
            Identity::SqlServer { username, password } => IdentityView::SqlServer {
                username: username@,
                password: password@,
            },
            Identity::Token { token } => IdentityView::Token { token: token@ },
            Identity::Integrated => IdentityView::Integrated,
        }
    }
}

/// What a session is opened with.
pub struct Login {
    /// The name the certificate is checked against, and the one the login carries.
    pub host: String,
    pub database: String,
    pub application_name: String,
    /// Resolved to a port by the SQL Browser service. Where there is one there is no
    /// port.
    pub instance: Option<String>,
    pub port: Option<u16>,
    pub encryption: Encryption,
    /// Whether any certificate will do.
    pub trust: bool,
    pub identity: Identity,
}

#[verifier::ext_equal]
pub struct LoginView {
    pub host: Seq<char>,
    pub database: Seq<char>,
    pub application_name: Seq<char>,
    pub instance: Option<Seq<char>>,
    pub port: Option<u16>,
    pub encryption: Encryption,
    pub trust: bool,
    pub identity: IdentityView,
}

impl View for Login {
    type V = LoginView;

    open spec fn view(&self) -> LoginView {
        LoginView {
            host: self.host@,
            database: self.database@,
            application_name: self.application_name@,
            instance: text::opt(self.instance),
            port: self.port,
            encryption: self.encryption,
            trust: self.trust,
            identity: self.identity@,
        }
    }
}

/// The instance a source names, if it names one.
pub open spec fn instance_named(config: SourceConfigView) -> Option<Seq<char>> {
    match config.instance {
        Some(instance) => if text::trim(instance).len() > 0 {
            Some(text::trim(instance))
        } else {
            None
        },
        None => None,
    }
}

/// Whether what was given as an instance is a host.
pub open spec fn is_host(instance: Seq<char>) -> bool {
    instance.contains('.') || instance.contains('\\')
}

pub open spec fn not_an_instance(instance: Seq<char>) -> Seq<char> {
    "`"@ + instance
        + "` is a hostname, not a named instance. An instance is a bare name like `SQLEXPRESS`, resolved by the SQL Browser service on a local network. Azure SQL and Fabric are reached by hostname on port 1433 — put it in Host and leave Named instance empty."@
}

pub open spec fn encryption_for(tls: TlsMode) -> Encryption {
    match tls {
        TlsMode::Disable => Encryption::NotSupported,
        TlsMode::Prefer => Encryption::On,
        TlsMode::Require => Encryption::Required,
        TlsMode::TrustCertificate => Encryption::Required,
    }
}

pub open spec fn trusting(tls: TlsMode) -> bool {
    tls is Prefer || tls is TrustCertificate
}

/// Who logs in, or why nobody can.
pub open spec fn identity_for(auth: AuthConfigView, windows: bool) -> Result<
    IdentityView,
    Seq<char>,
> {
    match auth {
        AuthConfigView::Password { username, password } => Ok(
            IdentityView::SqlServer { username, password },
        ),
        AuthConfigView::AadToken { token } => Ok(IdentityView::Token { token }),
        AuthConfigView::Integrated => if windows {
            Ok(IdentityView::Integrated)
        } else {
            Err("Windows integrated authentication is only available on Windows hosts"@)
        },
        AuthConfigView::Entra { .. } => Err(
            "the Entra sign-in was not exchanged for an access token"@,
        ),
        AuthConfigView::NoAuth => Err(
            "SQL Server needs a login, Windows integrated authentication or an Entra ID token"@,
        ),
    }
}

/// What a session on `db` is opened with, or why it cannot be.
pub open spec fn login_for(config: SourceConfigView, db: Seq<char>, windows: bool) -> Result<
    LoginView,
    ErrorView,
> {
    let instance = instance_named(config);
    if instance is Some && is_host(instance->0) {
        Err(ErrorView::BadRequest(not_an_instance(instance->0)))
    } else {
        match identity_for(config.auth, windows) {
            Ok(identity) => Ok(
                LoginView {
                    host: config.host,
                    database: db,
                    application_name: "alkyon"@,
                    instance,
                    port: if instance is Some {
                        None
                    } else {
                        Some(config.port_used())
                    },
                    encryption: encryption_for(config.tls),
                    trust: trusting(config.tls),
                    identity,
                },
            ),
            Err(why) => Err(ErrorView::Unsupported(why)),
        }
    }
}

fn identify(auth: &AuthConfig, windows: bool) -> (r: Result<Identity, Error>)
    ensures
        match r {
            Ok(identity) => identity_for(auth@, windows) == Ok::<IdentityView, Seq<char>>(
                identity@,
            ),
            Err(e) => e matches Error::Unsupported(m) && identity_for(auth@, windows) == Err::<
                IdentityView,
                Seq<char>,
            >(m@),
        },
{
    match auth {
        AuthConfig::Password { username, password } => Ok(
            Identity::SqlServer { username: username.clone(), password: password.clone() },
        ),
        AuthConfig::AadToken { token } => Ok(Identity::Token { token: token.clone() }),
        AuthConfig::Integrated => if windows {
            Ok(Identity::Integrated)
        } else {
            Err(
                Error::Unsupported(
                    "Windows integrated authentication is only available on Windows hosts".to_owned(),
                ),
            )
        },
        // A sign-in is exchanged for an access token before a connection is opened.
        AuthConfig::Entra { .. } => Err(
            Error::Unsupported(
                "the Entra sign-in was not exchanged for an access token".to_owned(),
            ),
        ),
        AuthConfig::NoAuth => Err(
            Error::Unsupported(
                "SQL Server needs a login, Windows integrated authentication or an Entra ID token".to_owned(),
            ),
        ),
    }
}

/// What a session on `db` is opened with.
///
/// A host given as an instance is refused: naming an instance sends the connection to
/// the SQL Browser service, which no cloud endpoint runs.
pub fn config_for(config: &SourceConfig, db: &str, windows: bool) -> (r: Result<Login, Error>)
    ensures
        match r {
            Ok(login) => login_for(config@, db@, windows) == Ok::<LoginView, ErrorView>(login@),
            Err(e) => login_for(config@, db@, windows) == Err::<LoginView, ErrorView>(e@),
        },
{
    let instance: Option<String> = match &config.instance {
        Some(instance) => {
            let instance = text::trimmed(instance);
            if instance.as_str().is_empty() {
                None
            } else {
                Some(instance)
            }
        },
        None => None,
    };
    if let Some(instance) = &instance {
        if text::holds_char(instance, '.') || text::holds_char(instance, '\\') {
            return Err(
                Error::BadRequest(
                    "`".to_owned().concat(instance).concat(
                        "` is a hostname, not a named instance. An instance is a bare name like `SQLEXPRESS`, resolved by the SQL Browser service on a local network. Azure SQL and Fabric are reached by hostname on port 1433 — put it in Host and leave Named instance empty.",
                    ),
                ),
            );
        }
    }
    let identity = match identify(&config.auth, windows) {
        Ok(identity) => identity,
        Err(e) => {
            return Err(e);
        },
    };
    let port: Option<u16> = if instance.is_some() {
        None
    } else {
        Some(config.port())
    };
    Ok(
        Login {
            host: config.host.clone(),
            database: db.to_owned(),
            application_name: "alkyon".to_owned(),
            instance,
            port,
            encryption: match config.tls {
                TlsMode::Disable => Encryption::NotSupported,
                TlsMode::Prefer => Encryption::On,
                TlsMode::Require => Encryption::Required,
                TlsMode::TrustCertificate => Encryption::Required,
            },
            trust: match config.tls {
                TlsMode::Prefer | TlsMode::TrustCertificate => true,
                _ => false,
            },
            identity,
        },
    )
}

/// A source that asks for its certificate to be checked has it checked, and its
/// connection encrypted, wherever it is opened.
pub proof fn law_a_required_certificate_is_checked(
    config: SourceConfigView,
    db: Seq<char>,
    windows: bool,
)
    requires
        config.tls is Require,
    ensures
        login_for(config, db, windows) matches Ok(login) ==> login.encryption is Required
            && !login.trust,
{
}

// ------------------------------------------------------------------------ routing

/// Where a login dials: its host and port, a dot standing for this machine.
pub open spec fn address(login: LoginView) -> Seq<char> {
    (if login.host == "."@ {
        "localhost"@
    } else {
        login.host
    }) + ":"@ + text::decimal(
        match login.port {
            Some(port) => port as nat,
            None => if login.instance is Some {
                1434
            } else {
                1433
            },
        },
    )
}

impl Login {
    /// Where this dials. An instance is resolved by the browser service, on its own
    /// port.
    pub fn get_addr(&self) -> (r: String)
        ensures
            r@ == address(self@),
    {
        let host = if text::same(&self.host, ".") {
            "localhost".to_owned()
        } else {
            self.host.clone()
        };
        let port: u64 = match self.port {
            Some(port) => port as u64,
            None => if self.instance.is_some() {
                1434
            } else {
                1433
            },
        };
        host.concat(":").concat(&text::decimal_of(port))
    }
}

/// Where a redirect sends a connection.
pub struct Routed {
    pub addr: String,
    pub config: Login,
}

/// The host and the instance of a routed name.
pub open spec fn halves(alternative: Seq<char>) -> (Seq<char>, Seq<char>) {
    match text::split_once(alternative, '\\') {
        Some((host, instance)) => (host, instance),
        None => (alternative, Seq::empty()),
    }
}

/// The login to follow a redirect with, or why it cannot be followed.
///
/// The part of a routed name before the backslash is the host; the whole name is what
/// the login would have to carry, and one name serves for both. So a redirect that
/// carries an instance is refused with a sentence.
pub open spec fn routed(
    config: SourceConfigView,
    db: Seq<char>,
    alternative: Seq<char>,
    port: u16,
    windows: bool,
) -> Result<LoginView, ErrorView> {
    let (host, instance) = halves(alternative);
    if host.len() == 0 {
        Err(
            ErrorView::BadRequest(
                "the server redirected this connection to `"@ + alternative
                    + "`, which is not an address that can be connected to"@,
            ),
        )
    } else if instance.len() > 0 {
        Err(
            ErrorView::Unsupported(
                "`"@ + config.host + "` redirects this connection to `"@ + alternative
                    + "`, and the login would have to carry that whole name — instance included — for the server to know which database is meant. The driver alkyon uses takes one name for both the login and the certificate, so it cannot send it. This is why a Microsoft Fabric SQL endpoint does not connect; the guide says more. Azure SQL is unaffected."@,
            ),
        )
    } else {
        login_for(
            SourceConfigView { host, port: Some(port), instance: None, ..config },
            db,
            windows,
        )
    }
}

/// The connection the server asked for instead of the one that was made.
pub fn routed_config(
    config: &SourceConfig,
    db: &str,
    alternative: &str,
    port: u16,
    windows: bool,
) -> (r: Result<Routed, Error>)
    ensures
        match r {
            Ok(to) => {
                &&& routed(config@, db@, alternative@, port, windows) == Ok::<
                    LoginView,
                    ErrorView,
                >(to.config@)
                &&& to.addr@ == address(to.config@)
            },
            Err(e) => routed(config@, db@, alternative@, port, windows) == Err::<
                LoginView,
                ErrorView,
            >(e@),
        },
{
    let (host, instance) = match text::split_first(alternative, '\\') {
        Some((host, instance)) => (host, instance),
        None => (alternative.to_owned(), String::new()),
    };
    if host.as_str().is_empty() {
        return Err(
            Error::BadRequest(
                "the server redirected this connection to `".to_owned().concat(
                    alternative,
                ).concat("`, which is not an address that can be connected to"),
            ),
        );
    }
    if !instance.as_str().is_empty() {
        return Err(
            Error::Unsupported(
                "`".to_owned().concat(&config.host).concat("` redirects this connection to `").concat(
                    alternative,
                ).concat(
                    "`, and the login would have to carry that whole name — instance included — for the server to know which database is meant. The driver alkyon uses takes one name for both the login and the certificate, so it cannot send it. This is why a Microsoft Fabric SQL endpoint does not connect; the guide says more. Azure SQL is unaffected.",
                ),
            ),
        );
    }
    let mut moved = config.clone();
    moved.host = host;
    moved.port = Some(port);
    moved.instance = None;
    match config_for(&moved, db, windows) {
        Ok(login) => Ok(Routed { addr: login.get_addr(), config: login }),
        Err(e) => Err(e),
    }
}

/// Following a redirect does not cost the certificate check, nor change who logs in or
/// to which database.
pub proof fn law_a_redirect_changes_the_address_alone(
    config: SourceConfigView,
    db: Seq<char>,
    alternative: Seq<char>,
    port: u16,
    windows: bool,
)
    ensures
        (login_for(config, db, windows) is Ok && routed(
            config,
            db,
            alternative,
            port,
            windows,
        ) is Ok) ==> {
            let here = login_for(config, db, windows)->Ok_0;
            let there = routed(config, db, alternative, port, windows)->Ok_0;
            &&& there.encryption == here.encryption
            &&& there.trust == here.trust
            &&& there.identity == here.identity
            &&& there.database == here.database
            &&& there.host == halves(alternative).0
            &&& there.port == Some(port)
        },
{
}

/// What to say of the second leg of a redirect that failed: which leg gave way is the
/// question.
pub fn unreachable_route(config: &SourceConfig, addr: &str, why: &str) -> (e: Error)
    ensures
        e@ == ErrorView::BadRequest(
            "`"@ + config@.host + "` redirected this connection to `"@ + addr@
                + "`, which cannot be reached: "@ + why@,
        ),
{
    Error::BadRequest(
        "`".to_owned().concat(&config.host).concat("` redirected this connection to `").concat(
            addr,
        ).concat("`, which cannot be reached: ").concat(why),
    )
}

/// [`unreachable_route`], of one that was reached and refused.
pub fn refused_route(config: &SourceConfig, addr: &str, why: &Error) -> (e: Error)
    ensures
        e@ == ErrorView::BadRequest(
            "`"@ + config@.host + "` redirected this connection to `"@ + addr@
                + "`, which then refused it: "@ + why@.message(),
        ),
{
    Error::BadRequest(
        "`".to_owned().concat(&config.host).concat("` redirected this connection to `").concat(
            addr,
        ).concat("`, which then refused it: ").concat(&why.message()),
    )
}

/// The number the server gives to a database it will not open.
pub const CANNOT_OPEN: u32 = 4060;

/// What the most misread error means: the server says the login failed where the
/// database is not there. `code` is the server's own number, where it gave one.
pub fn explain(code: Option<u32>, message: &str, db: &str) -> (e: Error)
    ensures
        e@ == if code == Some(CANNOT_OPEN) {
            ErrorView::BadRequest(
                "cannot open database `"@ + db@
                    + "` — it does not exist on this server, or this login may not open it. SQL Server reports both the same way, as a login failure."@,
            )
        } else {
            ErrorView::MsSql(message@)
        },
{
    if let Some(code) = code {
        if code == CANNOT_OPEN {
            return Error::BadRequest(
                "cannot open database `".to_owned().concat(db).concat(
                    "` — it does not exist on this server, or this login may not open it. SQL Server reports both the same way, as a login failure.",
                ),
            );
        }
    }
    Error::MsSql(message.to_owned())
}

/// SQL Server sources.
pub struct MssqlConnector;

impl MssqlConnector {
    pub fn dialect(&self) -> (r: Dialect)
        ensures
            r == Dialect::TSql,
    {
        Dialect::TSql
    }
}

// ---------------------------------------------------------------------- catalogue

pub const LIST_DATABASES: &'static str = "SELECT name\nFROM sys.databases\nWHERE state = 0 AND HAS_DBACCESS(name) = 1\nORDER BY name";

pub const LIST_TABLES: &'static str = "SELECT s.name AS [schema], o.name AS [name], o.type AS [kind]\nFROM sys.objects o\nJOIN sys.schemas s ON s.schema_id = o.schema_id\nWHERE o.type IN ('U', 'V')\nORDER BY s.name, o.name";

pub const LIST_COLUMNS: &'static str = "SELECT c.name        AS [name],\n       c.column_id   AS [ordinal],\n       t.name        AS [type_name],\n       c.max_length  AS [max_length],\n       c.precision   AS [precision],\n       c.scale       AS [scale],\n       c.is_nullable AS [nullable],\n       dc.definition AS [default_expr],\n       CAST(CASE WHEN EXISTS (\n           SELECT 1\n           FROM sys.index_columns ic\n           JOIN sys.indexes ix ON ix.object_id = ic.object_id AND ix.index_id = ic.index_id\n           WHERE ic.object_id = c.object_id\n             AND ic.column_id = c.column_id\n             AND ix.is_primary_key = 1\n       ) THEN 1 ELSE 0 END AS bit) AS [is_primary_key]\nFROM sys.columns c\nJOIN sys.objects o ON o.object_id = c.object_id\nJOIN sys.schemas s ON s.schema_id = o.schema_id\nJOIN sys.types t   ON t.user_type_id = c.user_type_id\nLEFT JOIN sys.default_constraints dc ON dc.object_id = c.default_object_id\nWHERE s.name = @P1 AND o.name = @P2\nORDER BY c.column_id";

/// [`LIST_COLUMNS`] widened to the whole database, so that a snapshot is one question.
pub const SNAPSHOT: &'static str = "SELECT s.name        AS [schema],\n       o.name        AS [table_name],\n       o.type        AS [kind],\n       c.name        AS [name],\n       c.column_id   AS [ordinal],\n       t.name        AS [type_name],\n       c.max_length  AS [max_length],\n       c.precision   AS [precision],\n       c.scale       AS [scale],\n       c.is_nullable AS [nullable],\n       dc.definition AS [default_expr],\n       CAST(CASE WHEN EXISTS (\n           SELECT 1\n           FROM sys.index_columns ic\n           JOIN sys.indexes ix ON ix.object_id = ic.object_id AND ix.index_id = ic.index_id\n           WHERE ic.object_id = c.object_id\n             AND ic.column_id = c.column_id\n             AND ix.is_primary_key = 1\n       ) THEN 1 ELSE 0 END AS bit) AS [is_primary_key]\nFROM sys.columns c\nJOIN sys.objects o ON o.object_id = c.object_id\nJOIN sys.schemas s ON s.schema_id = o.schema_id\nJOIN sys.types t   ON t.user_type_id = c.user_type_id\nLEFT JOIN sys.default_constraints dc ON dc.object_id = c.default_object_id\nWHERE o.type IN ('U', 'V')\nORDER BY s.name, o.name, c.column_id";

/// What an object is, by the letter the catalogue has for it.
pub fn table_kind(kind: Option<&str>) -> (r: TableKind)
    ensures
        r == (match kind {
            Some(kind) => if text::trim(kind@) == "V"@ {
                TableKind::View
            } else {
                TableKind::Table
            },
            None => TableKind::Table,
        }),
{
    match kind {
        Some(kind) => if text::same(&text::trimmed(kind), "V") {
            TableKind::View
        } else {
            TableKind::Table
        },
        None => TableKind::Table,
    }
}

/// A length, as a type says it. Half of it, for a type of two bytes a character.
pub open spec fn length(max_length: int, halved: bool) -> Seq<char> {
    if max_length < 0 {
        "max"@
    } else if halved {
        text::signed(max_length / 2)
    } else {
        text::signed(max_length)
    }
}

/// A type as a T-SQL author would write it.
pub open spec fn spelled(name: Seq<char>, max_length: int, precision: nat, scale: nat) -> Seq<char> {
    if name == "nvarchar"@ || name == "nchar"@ {
        name + "("@ + length(max_length, true) + ")"@
    } else if name == "varchar"@ || name == "char"@ || name == "varbinary"@ || name == "binary"@ {
        name + "("@ + length(max_length, false) + ")"@
    } else if name == "decimal"@ || name == "numeric"@ {
        name + "("@ + text::decimal(precision) + ","@ + text::decimal(scale) + ")"@
    } else if name == "datetime2"@ || name == "datetimeoffset"@ || name == "time"@ {
        name + "("@ + text::decimal(scale) + ")"@
    } else {
        name
    }
}

fn length_of(max_length: i16, halved: bool) -> (r: String)
    ensures
        r@ == length(max_length as int, halved),
{
    if max_length < 0 {
        "max".to_owned()
    } else if halved {
        text::signed_of((max_length as u16 / 2) as i128)
    } else {
        text::signed_of(max_length as i128)
    }
}

/// Rebuild a type as a T-SQL author would write it: `nvarchar(50)`, `decimal(18,2)`,
/// `varbinary(max)`.
pub fn spell_type(name: &str, max_length: i16, precision: u8, scale: u8) -> (r: String)
    ensures
        r@ == spelled(name@, max_length as int, precision as nat, scale as nat),
{
    if text::same(name, "nvarchar") || text::same(name, "nchar") {
        name.to_owned().concat("(").concat(&length_of(max_length, true)).concat(")")
    } else if text::same(name, "varchar") || text::same(name, "char") || text::same(
        name,
        "varbinary",
    ) || text::same(name, "binary") {
        name.to_owned().concat("(").concat(&length_of(max_length, false)).concat(")")
    } else if text::same(name, "decimal") || text::same(name, "numeric") {
        name.to_owned().concat("(").concat(&text::decimal_of(precision as u64)).concat(",").concat(
            &text::decimal_of(scale as u64),
        ).concat(")")
    } else if text::same(name, "datetime2") || text::same(name, "datetimeoffset") || text::same(
        name,
        "time",
    ) {
        name.to_owned().concat("(").concat(&text::decimal_of(scale as u64)).concat(")")
    } else {
        name.to_owned()
    }
}

/// One row of [`LIST_COLUMNS`] or [`SNAPSHOT`], any part of which may be missing.
pub struct ColumnRow {
    pub name: Option<String>,
    pub ordinal: Option<i32>,
    pub kind: Option<String>,
    pub max_length: Option<i16>,
    pub precision: Option<u8>,
    pub scale: Option<u8>,
    pub nullable: Option<bool>,
    pub is_primary_key: Option<bool>,
    pub default: Option<String>,
}

pub open spec fn or_nothing(o: Option<String>) -> Seq<char> {
    match o {
        Some(t) => t@,
        None => ""@,
    }
}

/// A column of a table.
pub fn column_from(row: ColumnRow) -> (r: ColumnInfo)
    ensures
        r@ == (ColumnInfoView {
            name: or_nothing(row.name),
            ordinal: match row.ordinal {
                Some(n) => n,
                None => 0,
            },
            data_type: spelled(
                or_nothing(row.kind),
                match row.max_length {
                    Some(n) => n as int,
                    None => 0,
                },
                match row.precision {
                    Some(n) => n as nat,
                    None => 0,
                },
                match row.scale {
                    Some(n) => n as nat,
                    None => 0,
                },
            ),
            nullable: match row.nullable {
                Some(b) => b,
                None => true,
            },
            is_primary_key: match row.is_primary_key {
                Some(b) => b,
                None => false,
            },
            default: text::opt(row.default),
        }),
{
    let kind = match row.kind {
        Some(kind) => kind,
        None => "".to_owned(),
    };
    let max_length: i16 = match row.max_length {
        Some(n) => n,
        None => 0,
    };
    let precision: u8 = match row.precision {
        Some(n) => n,
        None => 0,
    };
    let scale: u8 = match row.scale {
        Some(n) => n,
        None => 0,
    };
    ColumnInfo {
        name: match row.name {
            Some(name) => name,
            None => "".to_owned(),
        },
        ordinal: match row.ordinal {
            Some(n) => n,
            None => 0,
        },
        data_type: spell_type(&kind, max_length, precision, scale),
        nullable: match row.nullable {
            Some(b) => b,
            None => true,
        },
        is_primary_key: match row.is_primary_key {
            Some(b) => b,
            None => false,
        },
        default: row.default,
    }
}

// -------------------------------------------------------------------------- cells

/// The type of a result column.
#[derive(Debug, Clone, Copy, PartialEq, Eq, Structural)]
pub enum ColumnType {
    Null,
    Bit,
    Int1,
    Int2,
    Int4,
    Int8,
    Datetime4,
    Float4,
    Float8,
    Money,
    Datetime,
    Money4,
    Guid,
    Intn,
    Bitn,
    Decimaln,
    Numericn,
    Floatn,
    Datetimen,
    Daten,
    Timen,
    Datetime2,
    DatetimeOffsetn,
    BigVarBin,
    BigVarChar,
    BigBinary,
    BigChar,
    NVarchar,
    NChar,
    Xml,
    Udt,
    Text,
    Image,
    NText,
    SSVariant,
}

/// How a cell is read out of a row.
#[derive(Debug, Clone, Copy, PartialEq, Eq, Structural)]
pub enum Decoder {
    /// Always null.
    Null,
    Bool,
    UInt8,
    Int16,
    Int32,
    Int64,
    /// Any width of integer; see [`first_readable`].
    AnyInt,
    Float32,
    Float64,
    /// Either width of floating point; see [`first_readable`].
    AnyFloat,
    /// Exact digits, as text.
    Decimal,
    Uuid,
    Date,
    Time,
    DateTime,
    DateTimeOffset,
    Text,
    Bytes,
}

/// How a cell of that type is read, if it is.
pub open spec fn decoder_for(kind: ColumnType) -> Option<Decoder> {
    match kind {
        ColumnType::Null => Some(Decoder::Null),
        ColumnType::Bit | ColumnType::Bitn => Some(Decoder::Bool),
        ColumnType::Int1 => Some(Decoder::UInt8),
        ColumnType::Int2 => Some(Decoder::Int16),
        ColumnType::Int4 => Some(Decoder::Int32),
        ColumnType::Int8 => Some(Decoder::Int64),
        ColumnType::Intn => Some(Decoder::AnyInt),
        ColumnType::Float4 => Some(Decoder::Float32),
        ColumnType::Float8 | ColumnType::Money | ColumnType::Money4 => Some(Decoder::Float64),
        ColumnType::Floatn => Some(Decoder::AnyFloat),
        ColumnType::Decimaln | ColumnType::Numericn => Some(Decoder::Decimal),
        ColumnType::Guid => Some(Decoder::Uuid),
        ColumnType::Daten => Some(Decoder::Date),
        ColumnType::Timen => Some(Decoder::Time),
        ColumnType::Datetime | ColumnType::Datetime2 | ColumnType::Datetime4
        | ColumnType::Datetimen => Some(Decoder::DateTime),
        ColumnType::DatetimeOffsetn => Some(Decoder::DateTimeOffset),
        ColumnType::BigVarChar | ColumnType::BigChar | ColumnType::NVarchar | ColumnType::NChar
        | ColumnType::Text | ColumnType::NText | ColumnType::Xml => Some(Decoder::Text),
        ColumnType::BigVarBin | ColumnType::BigBinary | ColumnType::Image => Some(Decoder::Bytes),
        ColumnType::Udt | ColumnType::SSVariant => None,
    }
}

/// How a cell of that type is read.
pub fn decoder(kind: ColumnType) -> (r: Option<Decoder>)
    ensures
        r == decoder_for(kind),
{
    match kind {
        ColumnType::Null => Some(Decoder::Null),
        ColumnType::Bit | ColumnType::Bitn => Some(Decoder::Bool),
        ColumnType::Int1 => Some(Decoder::UInt8),
        ColumnType::Int2 => Some(Decoder::Int16),
        ColumnType::Int4 => Some(Decoder::Int32),
        ColumnType::Int8 => Some(Decoder::Int64),
        ColumnType::Intn => Some(Decoder::AnyInt),
        ColumnType::Float4 => Some(Decoder::Float32),
        ColumnType::Float8 | ColumnType::Money | ColumnType::Money4 => Some(Decoder::Float64),
        ColumnType::Floatn => Some(Decoder::AnyFloat),
        ColumnType::Decimaln | ColumnType::Numericn => Some(Decoder::Decimal),
        ColumnType::Guid => Some(Decoder::Uuid),
        ColumnType::Daten => Some(Decoder::Date),
        ColumnType::Timen => Some(Decoder::Time),
        ColumnType::Datetime | ColumnType::Datetime2 | ColumnType::Datetime4
        | ColumnType::Datetimen => Some(Decoder::DateTime),
        ColumnType::DatetimeOffsetn => Some(Decoder::DateTimeOffset),
        ColumnType::BigVarChar | ColumnType::BigChar | ColumnType::NVarchar | ColumnType::NChar
        | ColumnType::Text | ColumnType::NText | ColumnType::Xml => Some(Decoder::Text),
        ColumnType::BigVarBin | ColumnType::BigBinary | ColumnType::Image => Some(Decoder::Bytes),
        ColumnType::Udt | ColumnType::SSVariant => None,
    }
}

/// What a column of that type holds.
pub open spec fn type_holds(kind: ColumnType) -> LogicalType {
    match kind {
        ColumnType::Null => LogicalType::Unknown,
        ColumnType::Bit | ColumnType::Bitn => LogicalType::Bool,
        ColumnType::Int1 | ColumnType::Int2 | ColumnType::Int4 | ColumnType::Int8
        | ColumnType::Intn => LogicalType::Int,
        ColumnType::Float4 | ColumnType::Float8 | ColumnType::Floatn => LogicalType::Float,
        ColumnType::Money | ColumnType::Money4 => LogicalType::Float,
        ColumnType::Decimaln | ColumnType::Numericn => LogicalType::Decimal,
        ColumnType::Guid => LogicalType::Uuid,
        ColumnType::Daten => LogicalType::Date,
        ColumnType::Timen => LogicalType::Time,
        ColumnType::Datetime | ColumnType::Datetime2 | ColumnType::Datetime4
        | ColumnType::Datetimen => LogicalType::Timestamp,
        ColumnType::DatetimeOffsetn => LogicalType::TimestampTz,
        ColumnType::BigVarChar | ColumnType::BigChar | ColumnType::NVarchar | ColumnType::NChar
        | ColumnType::Text | ColumnType::NText | ColumnType::Xml => LogicalType::Text,
        ColumnType::BigVarBin | ColumnType::BigBinary | ColumnType::Image => LogicalType::Binary,
        ColumnType::Udt | ColumnType::SSVariant => LogicalType::Unknown,
    }
}

/// What a column of that type holds.
pub fn logical_type(kind: ColumnType) -> (r: LogicalType)
    ensures
        r == type_holds(kind),
{
    match kind {
        ColumnType::Null => LogicalType::Unknown,
        ColumnType::Bit | ColumnType::Bitn => LogicalType::Bool,
        ColumnType::Int1 | ColumnType::Int2 | ColumnType::Int4 | ColumnType::Int8
        | ColumnType::Intn => LogicalType::Int,
        ColumnType::Float4 | ColumnType::Float8 | ColumnType::Floatn => LogicalType::Float,
        // Fixed-scale, but it is handed over as a floating-point number.
        ColumnType::Money | ColumnType::Money4 => LogicalType::Float,
        ColumnType::Decimaln | ColumnType::Numericn => LogicalType::Decimal,
        ColumnType::Guid => LogicalType::Uuid,
        ColumnType::Daten => LogicalType::Date,
        ColumnType::Timen => LogicalType::Time,
        ColumnType::Datetime | ColumnType::Datetime2 | ColumnType::Datetime4
        | ColumnType::Datetimen => LogicalType::Timestamp,
        ColumnType::DatetimeOffsetn => LogicalType::TimestampTz,
        ColumnType::BigVarChar | ColumnType::BigChar | ColumnType::NVarchar | ColumnType::NChar
        | ColumnType::Text | ColumnType::NText | ColumnType::Xml => LogicalType::Text,
        ColumnType::BigVarBin | ColumnType::BigBinary | ColumnType::Image => LogicalType::Binary,
        ColumnType::Udt | ColumnType::SSVariant => LogicalType::Unknown,
    }
}

/// What a cell read by a decoder holds.
pub open spec fn decoded_as(decoder: Decoder) -> LogicalType {
    match decoder {
        Decoder::Null => LogicalType::Unknown,
        Decoder::Bool => LogicalType::Bool,
        Decoder::UInt8 | Decoder::Int16 | Decoder::Int32 | Decoder::Int64
        | Decoder::AnyInt => LogicalType::Int,
        Decoder::Float32 | Decoder::Float64 | Decoder::AnyFloat => LogicalType::Float,
        Decoder::Decimal => LogicalType::Decimal,
        Decoder::Uuid => LogicalType::Uuid,
        Decoder::Date => LogicalType::Date,
        Decoder::Time => LogicalType::Time,
        Decoder::DateTime => LogicalType::Timestamp,
        Decoder::DateTimeOffset => LogicalType::TimestampTz,
        Decoder::Text => LogicalType::Text,
        Decoder::Bytes => LogicalType::Binary,
    }
}

/// A column is named after what its cells are read as: the type that is reported of it
/// is the one its decoder gives, and nothing is promised of one that has none.
pub proof fn law_a_column_is_named_for_how_it_is_read(kind: ColumnType)
    ensures
        type_holds(kind) == (match decoder_for(kind) {
            Some(decoder) => decoded_as(decoder),
            None => LogicalType::Unknown,
        }),
{
}

/// The first of those that was readable, or the last of them where none was.
pub open spec fn first_read(raws: Seq<Raw>) -> Raw
    decreases raws.len(),
{
    if raws.len() <= 1 || !(raws[0] is Unreadable) {
        raws[0]
    } else {
        first_read(raws.skip(1))
    }
}

/// The first reading that worked, or the last where none did. A type that comes in
/// several widths is read as each in turn.
pub fn first_readable(raws: Vec<Raw>) -> (r: Raw)
    requires
        raws@.len() > 0,
    ensures
        r == first_read(raws@),
{
    let mut left = raws;
    let ghost all = raws@;
    while left.len() > 1
        invariant
            left@.len() > 0,
            all == raws@,
            first_read(left@) == first_read(all),
        decreases left.len(),
    {
        let ghost before = left@;
        let first = left.remove(0);
        assert(left@ == before.skip(1));
        match first {
            Raw::Unreadable(_) => {},
            _ => {
                return first;
            },
        }
    }
    left.remove(0)
}

/// What a type with no decoder is called.
pub open spec fn type_called(kind: ColumnType) -> Seq<char> {
    if kind is Udt {
        "Udt"@
    } else {
        "SSVariant"@
    }
}

/// A cell as JSON, by the type it is of.
pub open spec fn cell(kind: ColumnType, raw: Raw) -> JsonView {
    if kind is Null {
        JsonView::Null
    } else if decoder_for(kind) is None {
        JsonView::Text(rows::no_decoder(type_called(kind)))
    } else {
        rows::shown(raw, "0x"@, true)
    }
}

/// A cell as JSON, by the type it is of. `raw` is what its decoder read.
pub fn value_at(kind: ColumnType, raw: Raw) -> (r: Json)
    ensures
        r@ == cell(kind, raw),
{
    match kind {
        ColumnType::Null => Json::Null,
        ColumnType::Udt => rows::unsupported("Udt"),
        ColumnType::SSVariant => rows::unsupported("SSVariant"),
        _ => rows::show(raw, "0x", true),
    }
}

/// Bytes in hexadecimal, as SQL Server writes them.
pub fn hex(bytes: &[u8]) -> (r: String)
    ensures
        r@ == "0x"@ + rows::digits(bytes@, true),
{
    rows::marked_hex(bytes, "0x", true)
}

/// A session is opened as its source says: the same host and database, the port unless an
/// instance is named, in which case the instance; encrypted as asked; and as the login the
/// source has.
pub proof fn law_a_login_is_what_its_source_says(
    config: SourceConfigView,
    db: Seq<char>,
    windows: bool,
)
    ensures
        login_for(config, db, windows) matches Ok(login) ==> {
            &&& login.host == config.host
            &&& login.database == db
            &&& login.application_name == "alkyon"@
            &&& login.instance is Some <==> login.port is None
            &&& login.port is Some ==> login.port == Some(config.port_used())
            &&& config.instance is None ==> login.instance is None
            &&& config.instance matches Some(given) ==> (if text::trim(given).len() == 0 {
                login.instance is None
            } else {
                login.instance == Some(text::trim(given))
            })
            &&& login.encryption is NotSupported <==> config.tls is Disable
            &&& login.encryption is On <==> config.tls is Prefer
            &&& login.trust <==> config.tls is Prefer || config.tls is TrustCertificate
            &&& match config.auth {
                AuthConfigView::Password { username, password } => login.identity
                    == (IdentityView::SqlServer { username, password }),
                AuthConfigView::AadToken { token } => login.identity == (IdentityView::Token {
                    token,
                }),
                AuthConfigView::Integrated => windows && login.identity is Integrated,
                _ => false,
            }
        },
{
}

/// Who may log in: one with a password or a token always, this machine's own account only
/// where there is such a thing. What is given as an instance must not be a host, which it is
/// taken for exactly where it holds a dot or a backslash.
pub proof fn law_a_session_is_refused_only_for_a_reason(
    config: SourceConfigView,
    db: Seq<char>,
    windows: bool,
)
    ensures
        login_for(config, db, windows) is Ok <==> {
            &&& config.auth is Password || config.auth is AadToken || (config.auth is Integrated
                && windows)
            &&& config.instance matches Some(given) ==> !text::trim(given).contains('.')
                && !text::trim(given).contains('\\')
        },
        login_for(config, db, windows) matches Err(e) ==> (e is BadRequest <==> (
        config.instance is Some && (text::trim(config.instance->Some_0).contains('.')
            || text::trim(config.instance->Some_0).contains('\\')))),
{
    if config.instance is Some {
        let given = text::trim(config.instance->Some_0);
        if given.len() == 0 {
            assert(!given.contains('.'));
            assert(!given.contains('\\'));
        }
    }
}

/// Where a login dials.
pub proof fn law_a_login_dials_its_host(login: LoginView)
    ensures
        login.host != "."@ && login.port is Some ==> address(login) == login.host + ":"@
            + text::decimal(login.port->Some_0 as nat),
        login.host == "."@ && login.port is Some ==> address(login) == "localhost"@ + ":"@
            + text::decimal(login.port->Some_0 as nat),
        login.host != "."@ && login.port is None && login.instance is Some ==> address(login)
            == login.host + ":"@ + text::decimal(1434),
        login.host != "."@ && login.port is None && login.instance is None ==> address(login)
            == login.host + ":"@ + text::decimal(1433),
{
}

/// A redirect is followed to the host it names, and to no other.
pub proof fn law_a_redirect_is_followed_where_it_leads(
    config: SourceConfigView,
    db: Seq<char>,
    host: Seq<char>,
    port: u16,
    windows: bool,
)
    requires
        host.len() > 0,
        !host.contains('\\'),
        login_for(SourceConfigView { instance: None, ..config }, db, windows) is Ok,
    ensures
        routed(config, db, host, port, windows) is Ok,
        routed(config, db, host, port, windows)->Ok_0.host == host,
        routed(config, db, host, port, windows)->Ok_0.port == Some(port),
        routed(config, db, host, port, windows)->Ok_0.database == db,
        routed(config, db, host, port, windows)->Ok_0.instance is None,
        forall|instance: Seq<char>|
            instance.len() > 0 ==> (#[trigger] routed(
                config,
                db,
                host + seq!['\\'] + instance,
                port,
                windows,
            )) is Err,
{
    text::law_a_cut_takes_one_character(host, '\\');
    assert(halves(host) == (host, Seq::<char>::empty()));
    assert forall|instance: Seq<char>| instance.len() > 0 implies (#[trigger] routed(
        config,
        db,
        host + seq!['\\'] + instance,
        port,
        windows,
    )) is Err by {
        let s = host + seq!['\\'] + instance;
        let f = text::other_than('\\');
        assert forall|i: int| 0 <= i < host.len() implies f(#[trigger] s[i]) by {
            assert(s[i] == host[i]);
            assert(host.contains(host[i]));
        }
        text::lemma_run_is(s, f, host.len() as int);
        assert(s.take(host.len() as int) == host);
        assert(s.skip(host.len() as int + 1) == instance);
    }
}

/// A type is spelled as its author would have: a length in characters, `max` where there is
/// none, digits and places where it has them, and nothing added otherwise.
pub proof fn law_a_type_is_spelled_as_its_author_would(
    name: Seq<char>,
    chars: nat,
    precision: nat,
    scale: nat,
)
    ensures
        name == "nvarchar"@ || name == "nchar"@ ==> spelled(
            name,
            2 * chars as int,
            precision,
            scale,
        ) == name + "("@ + text::decimal(chars) + ")"@,
        name == "varchar"@ || name == "char"@ || name == "varbinary"@ || name == "binary"@
            ==> spelled(name, chars as int, precision, scale) == name + "("@ + text::decimal(chars)
            + ")"@,
        name == "nvarchar"@ || name == "nchar"@ || name == "varchar"@ || name == "char"@ || name
            == "varbinary"@ || name == "binary"@ ==> spelled(name, -1, precision, scale) == name
            + "("@ + "max"@ + ")"@,
{
    reveal_strlit("nvarchar");
    reveal_strlit("nchar");
    reveal_strlit("varchar");
    reveal_strlit("char");
    reveal_strlit("varbinary");
    reveal_strlit("binary");
}

/// What the numbers of a type that has them are, and that any other name stands alone.
pub proof fn law_a_type_keeps_its_digits_and_places(
    name: Seq<char>,
    max_length: int,
    precision: nat,
    scale: nat,
)
    requires
        !(name == "nvarchar"@ || name == "nchar"@ || name == "varchar"@ || name == "char"@ || name
            == "varbinary"@ || name == "binary"@),
    ensures
        name == "decimal"@ || name == "numeric"@ ==> spelled(name, max_length, precision, scale)
            == name + "("@ + text::decimal(precision) + ","@ + text::decimal(scale) + ")"@,
        name == "datetime2"@ || name == "datetimeoffset"@ || name == "time"@ ==> spelled(
            name,
            max_length,
            precision,
            scale,
        ) == name + "("@ + text::decimal(scale) + ")"@,
        !(name == "decimal"@ || name == "numeric"@ || name == "datetime2"@ || name
            == "datetimeoffset"@ || name == "time"@) ==> spelled(
            name,
            max_length,
            precision,
            scale,
        ) == name,
{
    reveal_strlit("numeric");
    reveal_strlit("decimal");
    reveal_strlit("datetime2");
    reveal_strlit("datetimeoffset");
    reveal_strlit("time");
}

/// A type that is read in several widths is the first that could be read; where none could,
/// the last says why.
pub proof fn law_the_first_reading_that_works_counts(raws: Seq<Raw>)
    requires
        raws.len() > 0,
    ensures
        exists|i: int|
            {
                &&& 0 <= i < raws.len()
                &&& #[trigger] raws[i] == first_read(raws)
                &&& forall|j: int| 0 <= j < i ==> raws[j] is Unreadable
                &&& i < raws.len() - 1 ==> !(raws[i] is Unreadable)
            },
    decreases raws.len(),
{
    if raws.len() <= 1 || !(raws[0] is Unreadable) {
        assert(raws[0] == first_read(raws));
    } else {
        let rest = raws.skip(1);
        law_the_first_reading_that_works_counts(rest);
        let i = choose|i: int|
            {
                &&& 0 <= i < rest.len()
                &&& #[trigger] rest[i] == first_read(rest)
                &&& forall|j: int| 0 <= j < i ==> rest[j] is Unreadable
                &&& i < rest.len() - 1 ==> !(rest[i] is Unreadable)
            };
        assert(raws[i + 1] == first_read(raws));
        assert forall|j: int| 0 <= j < i + 1 implies raws[j] is Unreadable by {
            if j > 0 {
                assert(rest[j - 1] == raws[j]);
            }
        }
    }
}

/// A cell is shown as it was read, and one whose type nothing decodes says which type.
pub proof fn law_a_cell_is_shown_as_it_was_read(kind: ColumnType, raw: Raw)
    ensures
        kind is Null ==> cell(kind, raw) is Null,
        kind is Udt ==> cell(kind, raw) == JsonView::Text("<unsupported type "@ + "Udt"@ + ">"@),
        kind is SSVariant ==> cell(kind, raw) == JsonView::Text(
            "<unsupported type "@ + "SSVariant"@ + ">"@,
        ),
        !(kind is Null || kind is Udt || kind is SSVariant) ==> match raw {
            Raw::Null => cell(kind, raw) is Null,
            Raw::Json(json) => cell(kind, raw) == json@,
            Raw::Bytes(bytes) => cell(kind, raw) == JsonView::Text(
                "0x"@ + rows::digits(bytes@, true),
            ),
            Raw::Unreadable(why) => cell(kind, raw) == JsonView::Text(
                "<decode error: "@ + why@ + ">"@,
            ),
        },
{
}

/// Every kind of column is read as what it is, at its own width where that is known.
pub proof fn law_every_type_is_read_by_its_own_decoder(kind: ColumnType)
    ensures
        match decoder_for(kind) {
            None => kind is Udt || kind is SSVariant,
            Some(Decoder::Null) => kind is Null,
            Some(Decoder::Bool) => kind is Bit || kind is Bitn,
            Some(Decoder::UInt8) => kind is Int1,
            Some(Decoder::Int16) => kind is Int2,
            Some(Decoder::Int32) => kind is Int4,
            Some(Decoder::Int64) => kind is Int8,
            Some(Decoder::AnyInt) => kind is Intn,
            Some(Decoder::Float32) => kind is Float4,
            Some(Decoder::Float64) => kind is Float8 || kind is Money || kind is Money4,
            Some(Decoder::AnyFloat) => kind is Floatn,
            Some(Decoder::Decimal) => kind is Decimaln || kind is Numericn,
            Some(Decoder::Uuid) => kind is Guid,
            Some(Decoder::Date) => kind is Daten,
            Some(Decoder::Time) => kind is Timen,
            Some(Decoder::DateTime) => kind is Datetime || kind is Datetime2 || kind is Datetime4
                || kind is Datetimen,
            Some(Decoder::DateTimeOffset) => kind is DatetimeOffsetn,
            Some(Decoder::Text) => kind is BigVarChar || kind is BigChar || kind is NVarchar
                || kind is NChar || kind is Text || kind is NText || kind is Xml,
            Some(Decoder::Bytes) => kind is BigVarBin || kind is BigBinary || kind is Image,
        },
        decoder_for(kind) is None <==> kind is Udt || kind is SSVariant,
{
}

/// A column is what its row of the catalogue says, and where the row says nothing it may be
/// null and is no key.
pub proof fn law_a_column_is_what_the_catalogue_says(row: ColumnRow, r: ColumnInfo)
    requires
        call_ensures(column_from, (row,), r),
    ensures
        row.name matches Some(t) ==> r.name@ == t@,
        row.ordinal matches Some(n) ==> r.ordinal == n,
        row.nullable matches Some(b) ==> r.nullable == b,
        row.nullable is None ==> r.nullable,
        row.is_primary_key matches Some(b) ==> r.is_primary_key == b,
        row.is_primary_key is None ==> !r.is_primary_key,
        text::opt(r.default) == text::opt(row.default),
        row.kind is Some && row.max_length is Some && row.precision is Some && row.scale is Some
            ==> r.data_type@ == spelled(
            row.kind->Some_0@,
            row.max_length->Some_0 as int,
            row.precision->Some_0 as nat,
            row.scale->Some_0 as nat,
        ),
{
    assert(r@.name == r.name@);
    assert(r@.data_type == r.data_type@);
    assert(r@.default == text::opt(r.default));
}

/// An object is a view where the catalogue's letter says so, whatever the white space round
/// it, and a table otherwise.
pub proof fn law_a_view_is_one_by_its_letter(kind: Option<&str>, r: TableKind)
    requires
        call_ensures(table_kind, (kind,), r),
    ensures
        r is View <==> (kind is Some && text::trim(kind->Some_0@) == "V"@),
{
}

} // verus!
