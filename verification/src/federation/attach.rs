//! Attaching a live server to the federated session, so that DuckDB plans the remote
//! read.
//!
//! PostgreSQL and MySQL are attached through DuckDB's core extensions. SQL Server is
//! attached through a community one, which is third-party native code.

use crate::error::{Error, ErrorView};
use crate::federation::quote::{self, quote_identifier, quote_literal};
use crate::model::{
    AuthConfig, AuthConfigView, SourceConfig, SourceConfigView, SourceKind, TlsMode,
};
use crate::text;
use vstd::prelude::*;
use vstd::string::*;

verus! {

/// Whether a setting turns community extensions off.
pub open spec fn says_off(setting: Option<Seq<char>>) -> bool {
    match setting {
        Some(t) => {
            let said = text::lowercase(text::trim(t));
            said == "off"@ || said == "false"@ || said == "0"@
        },
        None => false,
    }
}

/// Whether DuckDB community extensions may be loaded: on by default, off when
/// `setting`, the value of `ALKYON_COMMUNITY_EXTENSIONS`, says so.
pub fn community_allowed(setting: Option<&str>) -> (r: bool)
    ensures
        r == !says_off(text::opt_str(setting)),
{
    match setting {
        Some(t) => {
            let said = text::to_lowercase(&text::trimmed(t));
            !(text::same(&said, "off") || text::same(&said, "false") || text::same(&said, "0"))
        },
        None => true,
    }
}

/// An engine DuckDB can attach.
#[derive(Debug, Clone, Copy, PartialEq, Eq, Structural)]
pub enum Engine {
    Postgres,
    MySql,
    MsSql,
}

impl Engine {
    pub open spec fn for_kind(kind: SourceKind) -> Option<Engine> {
        match kind {
            SourceKind::Postgres => Some(Engine::Postgres),
            SourceKind::MySql => Some(Engine::MySql),
            SourceKind::MsSql => Some(Engine::MsSql),
            _ => None,
        }
    }

    pub open spec fn extension_name(self) -> Seq<char> {
        match self {
            Engine::Postgres => "postgres"@,
            Engine::MySql => "mysql"@,
            Engine::MsSql => "mssql"@,
        }
    }

    /// Third-party code.
    pub open spec fn from_community(self) -> bool {
        self is MsSql
    }

    /// The variant's own name.
    pub open spec fn name(self) -> Seq<char> {
        match self {
            Engine::Postgres => "Postgres"@,
            Engine::MySql => "MySql"@,
            Engine::MsSql => "MsSql"@,
        }
    }

    /// How this engine spells an encryption choice, or that it cannot keep it.
    pub open spec fn tls_words(self, mode: TlsMode) -> Option<Seq<char>> {
        match self {
            Engine::Postgres => Some(
                "SSLMODE "@ + quote::literal(
                    match mode {
                        TlsMode::Disable => "disable"@,
                        TlsMode::Prefer => "prefer"@,
                        TlsMode::Require => "verify-full"@,
                        TlsMode::TrustCertificate => "require"@,
                    },
                ),
            ),
            Engine::MySql => Some(
                "SSL_MODE "@ + quote::literal(
                    match mode {
                        TlsMode::Disable => "disabled"@,
                        TlsMode::Prefer => "preferred"@,
                        TlsMode::Require => "verify_identity"@,
                        TlsMode::TrustCertificate => "required"@,
                    },
                ),
            ),
            Engine::MsSql => match mode {
                TlsMode::Disable => Some("USE_ENCRYPT false"@),
                TlsMode::Prefer | TlsMode::TrustCertificate => Some("USE_ENCRYPT true"@),
                TlsMode::Require => None,
            },
        }
    }

    /// The credential as secret parameters, where the engine takes it.
    pub open spec fn credential_words(self, auth: AuthConfigView) -> Option<Seq<char>> {
        match auth {
            AuthConfigView::Password { username, password } => Some(
                "USER "@ + quote::literal(username) + ", PASSWORD "@ + quote::literal(password),
            ),
            AuthConfigView::AadToken { token } => if self is MsSql {
                Some("ACCESS_TOKEN "@ + quote::literal(token))
            } else {
                None
            },
            _ => None,
        }
    }

    /// Which source kinds can be attached at all.
    pub fn of(kind: SourceKind) -> (r: Option<Engine>)
        ensures
            r == Engine::for_kind(kind),
    {
        match kind {
            SourceKind::Postgres => Some(Engine::Postgres),
            SourceKind::MySql => Some(Engine::MySql),
            SourceKind::MsSql => Some(Engine::MsSql),
            _ => None,
        }
    }

    /// The DuckDB extension, which is also the `TYPE` the ATTACH takes.
    pub fn extension(self) -> (r: &'static str)
        ensures
            r@ == self.extension_name(),
    {
        match self {
            Engine::Postgres => "postgres",
            Engine::MySql => "mysql",
            Engine::MsSql => "mssql",
        }
    }

    /// Where the extension comes from. `community` means third-party code.
    pub fn repository(self) -> (r: Option<&'static str>)
        ensures
            match r {
                Some(t) => self.from_community() && t@ == "community"@,
                None => !self.from_community(),
            },
    {
        match self {
            Engine::Postgres | Engine::MySql => None,
            Engine::MsSql => Some("community"),
        }
    }

    /// How this engine spells the encryption choice, as secret parameters.
    ///
    /// The vocabularies do not line up by name: libpq's `require` encrypts without
    /// checking the certificate, and MySQL's `required` is the same trap. SQL Server's
    /// extension encrypts and never validates, so a choice that promises validation is
    /// refused instead of being quietly weakened.
    pub fn tls(self, mode: TlsMode, alias: &str) -> (r: Result<String, Error>)
        ensures
            match r {
                Ok(t) => self.tls_words(mode) == Some(t@),
                Err(e) => self.tls_words(mode) is None && e@ == ErrorView::BadRequest(
                    tls_refusal(alias@),
                ),
            },
    {
        match self {
            Engine::Postgres => {
                let word = match mode {
                    TlsMode::Disable => "disable",
                    TlsMode::Prefer => "prefer",
                    TlsMode::Require => "verify-full",
                    TlsMode::TrustCertificate => "require",
                };
                Ok("SSLMODE ".to_owned().concat(&quote_literal(word)))
            },
            Engine::MySql => {
                let word = match mode {
                    TlsMode::Disable => "disabled",
                    TlsMode::Prefer => "preferred",
                    TlsMode::Require => "verify_identity",
                    TlsMode::TrustCertificate => "required",
                };
                Ok("SSL_MODE ".to_owned().concat(&quote_literal(word)))
            },
            Engine::MsSql => match mode {
                TlsMode::Disable => Ok("USE_ENCRYPT false".to_owned()),
                TlsMode::Prefer | TlsMode::TrustCertificate => Ok("USE_ENCRYPT true".to_owned()),
                TlsMode::Require => Err(
                    Error::BadRequest(
                        "@attach ".to_owned().concat(alias).concat(
                            ": this source is set to *Require*, which means validate the certificate — and DuckDB's `mssql` extension encrypts without ever checking one. Rather than quietly hand you a weaker connection than you asked for: import it with `@import`, which connects the way alkyon does, or set the source to *Trust certificate* if that is genuinely acceptable here.",
                        ),
                    ),
                ),
            },
        }
    }

    /// The credential, as secret parameters. Not every engine takes every method.
    pub fn credential(self, auth: &AuthConfig, alias: &str) -> (r: Result<String, Error>)
        ensures
            match r {
                Ok(t) => self.credential_words(auth@) == Some(t@),
                Err(e) => self.credential_words(auth@) is None && e@ == ErrorView::BadRequest(
                    credential_refusal(alias@, self, auth@.method()),
                ),
            },
    {
        match auth {
            AuthConfig::Password { username, password } => Ok(
                "USER ".to_owned().concat(&quote_literal(username)).concat(", PASSWORD ").concat(
                    &quote_literal(password),
                ),
            ),
            AuthConfig::AadToken { token } if matches!(self, Engine::MsSql) => Ok(
                "ACCESS_TOKEN ".to_owned().concat(&quote_literal(token)),
            ),
            other => Err(
                Error::BadRequest(
                    "@attach ".to_owned().concat(alias).concat(
                        ": DuckDB opens its own connection, and its ",
                    ).concat(self.extension()).concat(" extension cannot use `").concat(
                        other.method(),
                    ).concat(
                        "`. Import the source instead: `@import` connects the way alkyon does.",
                    ),
                ),
            ),
        }
    }
}

pub open spec fn tls_refusal(alias: Seq<char>) -> Seq<char> {
    "@attach "@ + alias
        + ": this source is set to *Require*, which means validate the certificate — and DuckDB's `mssql` extension encrypts without ever checking one. Rather than quietly hand you a weaker connection than you asked for: import it with `@import`, which connects the way alkyon does, or set the source to *Trust certificate* if that is genuinely acceptable here."@
}

pub open spec fn credential_refusal(
    alias: Seq<char>,
    engine: Engine,
    method: Seq<char>,
) -> Seq<char> {
    "@attach "@ + alias + ": DuckDB opens its own connection, and its "@ + engine.extension_name()
        + " extension cannot use `"@ + method
        + "`. Import the source instead: `@import` connects the way alkyon does."@
}

/// Why a kind cannot be attached.
pub open spec fn reason_against(kind: SourceKind) -> Seq<char> {
    match kind {
        SourceKind::Mongo => {
            "the community `mongo` extension is not published for this DuckDB build"@
        },
        SourceKind::Folder | SourceKind::File => "it is a folder of files, not a server"@,
        SourceKind::Adls => "it is storage, not a server"@,
        _ => "DuckDB has no extension for it"@,
    }
}

/// Why a kind cannot be attached, for the error that says to import it instead.
pub fn unattachable(kind: SourceKind) -> (r: &'static str)
    ensures
        r@ == reason_against(kind),
{
    match kind {
        SourceKind::Mongo => {
            "the community `mongo` extension is not published for this DuckDB build"
        },
        SourceKind::Folder | SourceKind::File => "it is a folder of files, not a server",
        SourceKind::Adls => "it is storage, not a server",
        _ => "DuckDB has no extension for it",
    }
}

/// The statements that attach a catalogue.
pub struct Statements {
    /// `CREATE SECRET …`. Never to be logged.
    secret: String,
    /// `ATTACH '' AS … (TYPE …, SECRET …, READ_ONLY)`.
    attach: String,
}

impl Statements {
    pub closed spec fn secret_text(&self) -> Seq<char> {
        self.secret@
    }

    pub closed spec fn attach_text(&self) -> Seq<char> {
        self.attach@
    }
}

/// One attached catalogue, as the statements that create it. Held as SQL because the
/// secret is in it; what may be shown of it is [`Attachment::redacted`].
pub struct Attachment {
    /// The catalogue name inside DuckDB.
    pub alias: String,
    pub engine: Engine,
    pub sql: Statements,
}

/// The value of an [`Attachment`].
pub struct AttachmentView {
    pub alias: Seq<char>,
    pub engine: Engine,
    pub secret: Seq<char>,
    pub attach: Seq<char>,
}

impl View for Attachment {
    type V = AttachmentView;

    open spec fn view(&self) -> AttachmentView {
        AttachmentView {
            alias: self.alias@,
            engine: self.engine,
            secret: self.sql.secret_text(),
            attach: self.sql.attach_text(),
        }
    }
}

impl Attachment {
    /// The two statements, in the order they must run.
    pub fn statements(&self) -> (r: [&str; 2])
        ensures
            r[0]@ == self@.secret,
            r[1]@ == self@.attach,
    {
        [self.sql.secret.as_str(), self.sql.attach.as_str()]
    }

    /// What may be shown: the name and the engine, never the secret.
    pub fn redacted(&self) -> (r: String)
        ensures
            r@ == "Attachment { alias: "@ + text::debug_text(self@.alias) + ", engine: "@
                + self@.engine.name() + ", secret: \"<redacted>\" }"@,
    {
        let engine = match self.engine {
            Engine::Postgres => "Postgres",
            Engine::MySql => "MySql",
            Engine::MsSql => "MsSql",
        };
        "Attachment { alias: ".to_owned().concat(&text::debug_of(&self.alias)).concat(
            ", engine: ",
        ).concat(engine).concat(", secret: \"<redacted>\" }")
    }
}

/// The name the credential of an attachment goes by inside DuckDB.
pub open spec fn secret_name(alias: Seq<char>) -> Seq<char> {
    "alkyon_attach_"@ + alias
}

/// The statement that creates the credential.
pub open spec fn secret_statement(
    alias: Seq<char>,
    engine: Engine,
    config: SourceConfigView,
    credential: Seq<char>,
    tls: Seq<char>,
) -> Seq<char> {
    "CREATE OR REPLACE SECRET "@ + quote::identifier(secret_name(alias)) + " (TYPE "@
        + engine.extension_name() + ", HOST "@ + quote::literal(config.host) + ", PORT "@
        + text::decimal(config.port_used() as nat) + ", DATABASE "@ + quote::literal(
        config.database_used(),
    ) + ", "@ + credential + ", "@ + tls + ");"@
}

/// The statement that attaches the server, for reading only.
pub open spec fn attach_statement(alias: Seq<char>, engine: Engine) -> Seq<char> {
    "ATTACH '' AS "@ + quote::identifier(alias) + " (TYPE "@ + engine.extension_name()
        + ", SECRET "@ + quote::identifier(secret_name(alias)) + ", READ_ONLY);"@
}

/// The attachment a resolved source makes, or why it makes none. `community` says
/// whether third-party extensions may be loaded.
pub open spec fn attachment_of(
    alias: Seq<char>,
    config: SourceConfigView,
    community: bool,
) -> Result<AttachmentView, Seq<char>> {
    match Engine::for_kind(config.kind) {
        None => Err(
            "@attach "@ + alias + ": this source cannot be attached — "@ + reason_against(
                config.kind,
            ) + ". Import it instead: `@import "@ + alias
                + " = … : <sql>` runs your SQL on the source and brings back the answer."@,
        ),
        Some(engine) => if engine.from_community() && !community {
            Err(
                "@attach "@ + alias + ": attaching "@ + engine.extension_name()
                    + " needs DuckDB's community `"@ + engine.extension_name()
                    + "` extension, and ALKYON_COMMUNITY_EXTENSIONS is off — community extensions are third-party code running inside alkyon. Unset it to allow them, or use `@import`."@,
            )
        } else {
            match engine.credential_words(config.auth) {
                None => Err(credential_refusal(alias, engine, config.auth.method())),
                Some(credential) => match engine.tls_words(config.tls) {
                    None => Err(tls_refusal(alias)),
                    Some(tls) => Ok(
                        AttachmentView {
                            alias,
                            engine,
                            secret: secret_statement(alias, engine, config, credential, tls),
                            attach: attach_statement(alias, engine),
                        },
                    ),
                },
            }
        },
    }
}

/// Turn a resolved source into the statements that attach it.
///
/// A secret rather than a connection string: the credential then lives in one
/// statement that is never echoed. Read-only without an opt-out: a federated buffer is
/// for reading.
pub fn plan(alias: &str, config: &SourceConfig, community: bool) -> (r: Result<Attachment, Error>)
    ensures
        match r {
            Ok(a) => attachment_of(alias@, config@, community) == Ok::<
                AttachmentView,
                Seq<char>,
            >(a@),
            Err(e) => e matches Error::BadRequest(m) && attachment_of(alias@, config@, community)
                == Err::<AttachmentView, Seq<char>>(m@),
        },
{
    let engine = match Engine::of(config.kind) {
        Some(engine) => engine,
        None => return Err(
            Error::BadRequest(
                "@attach ".to_owned().concat(alias).concat(
                    ": this source cannot be attached — ",
                ).concat(unattachable(config.kind)).concat(
                    ". Import it instead: `@import ",
                ).concat(alias).concat(
                    " = … : <sql>` runs your SQL on the source and brings back the answer.",
                ),
            ),
        ),
    };
    if engine.repository().is_some() && !community {
        return Err(
            Error::BadRequest(
                "@attach ".to_owned().concat(alias).concat(": attaching ").concat(
                    engine.extension(),
                ).concat(" needs DuckDB's community `").concat(engine.extension()).concat(
                    "` extension, and ALKYON_COMMUNITY_EXTENSIONS is off — community extensions are third-party code running inside alkyon. Unset it to allow them, or use `@import`.",
                ),
            ),
        );
    }
    let credential = match engine.credential(&config.auth, alias) {
        Ok(t) => t,
        Err(Error::BadRequest(m)) => return Err(Error::BadRequest(m)),
        Err(e) => return Err(e),
    };
    let tls = match engine.tls(config.tls, alias) {
        Ok(t) => t,
        Err(Error::BadRequest(m)) => return Err(Error::BadRequest(m)),
        Err(e) => return Err(e),
    };
    let name = "alkyon_attach_".to_owned().concat(alias);
    let secret = "CREATE OR REPLACE SECRET ".to_owned().concat(&quote_identifier(&name)).concat(
        " (TYPE ",
    ).concat(engine.extension()).concat(", HOST ").concat(&quote_literal(&config.host)).concat(
        ", PORT ",
    ).concat(&text::decimal_of(config.port() as u64)).concat(", DATABASE ").concat(
        &quote_literal(config.database()),
    ).concat(", ").concat(&credential).concat(", ").concat(&tls).concat(");");
    let attach = "ATTACH '' AS ".to_owned().concat(&quote_identifier(alias)).concat(
        " (TYPE ",
    ).concat(engine.extension()).concat(", SECRET ").concat(&quote_identifier(&name)).concat(
        ", READ_ONLY);",
    );
    Ok(Attachment { alias: alias.to_owned(), engine, sql: Statements { secret, attach } })
}

/// A choice that promises a checked certificate is never weakened: it is spelled with
/// the word that checks one, or refused.
pub proof fn law_require_is_never_weakened(engine: Engine)
    ensures
        engine is Postgres ==> engine.tls_words(TlsMode::Require) == Some(
            "SSLMODE "@ + quote::literal("verify-full"@),
        ),
        engine is MySql ==> engine.tls_words(TlsMode::Require) == Some(
            "SSL_MODE "@ + quote::literal("verify_identity"@),
        ),
        engine is MsSql ==> engine.tls_words(TlsMode::Require) is None,
{
}

/// What attaches, and what may be shown of it, says nothing of the credential: two
/// sources that differ in nothing else attach by the same statement.
pub proof fn law_the_attach_statement_holds_no_secret(
    alias: Seq<char>,
    config: SourceConfigView,
    other: AuthConfigView,
    community: bool,
)
    ensures
        attachment_of(alias, config, community) matches Ok(a) ==> (attachment_of(
            alias,
            config.with_auth(other),
            community,
        ) matches Ok(b) ==> a.attach == b.attach && a.alias == b.alias && a.engine == b.engine),
{
}

/// A server is attached exactly where its engine has an extension that may be loaded and
/// takes the credential, and the encryption that was asked for can be kept.
pub proof fn law_what_can_be_attached(alias: Seq<char>, config: SourceConfigView, community: bool)
    ensures
        attachment_of(alias, config, community) is Ok <==> {
            ||| (config.kind is Postgres || config.kind is MySql) && config.auth is Password
            ||| config.kind is MsSql && community && (config.auth is Password
                || config.auth is AadToken) && !(config.tls is Require)
        },
{
}

/// An attachment goes to the server the source names, as the login it has, encrypted as it
/// asked, under the alias, and for reading only: the attaching statement uses the very
/// credential that was created for it.
pub proof fn law_an_attachment_goes_where_its_source_says(
    alias: Seq<char>,
    config: SourceConfigView,
    community: bool,
)
    ensures
        attachment_of(alias, config, community) matches Ok(a) ==> {
            let secret = quote::identifier("alkyon_attach_"@ + alias);
            let kind = if config.kind is Postgres {
                "postgres"@
            } else if config.kind is MySql {
                "mysql"@
            } else {
                "mssql"@
            };
            let tls = match config.kind {
                SourceKind::Postgres => "SSLMODE "@ + quote::literal(
                    match config.tls {
                        TlsMode::Disable => "disable"@,
                        TlsMode::Prefer => "prefer"@,
                        TlsMode::Require => "verify-full"@,
                        TlsMode::TrustCertificate => "require"@,
                    },
                ),
                SourceKind::MySql => "SSL_MODE "@ + quote::literal(
                    match config.tls {
                        TlsMode::Disable => "disabled"@,
                        TlsMode::Prefer => "preferred"@,
                        TlsMode::Require => "verify_identity"@,
                        TlsMode::TrustCertificate => "required"@,
                    },
                ),
                _ => if config.tls is Disable {
                    "USE_ENCRYPT false"@
                } else {
                    "USE_ENCRYPT true"@
                },
            };
            let login = match config.auth {
                AuthConfigView::Password { username, password } => "USER "@ + quote::literal(
                    username,
                ) + ", PASSWORD "@ + quote::literal(password),
                AuthConfigView::AadToken { token } => "ACCESS_TOKEN "@ + quote::literal(token),
                _ => Seq::empty(),
            };
            &&& a.alias == alias
            &&& a.engine.extension_name() == kind
            &&& a.secret == "CREATE OR REPLACE SECRET "@ + secret + " (TYPE "@ + kind + ", HOST "@
                + quote::literal(config.host) + ", PORT "@ + text::decimal(
                config.port_used() as nat,
            ) + ", DATABASE "@ + quote::literal(config.database_used()) + ", "@ + login + ", "@
                + tls + ");"@
            &&& a.attach == "ATTACH '' AS "@ + quote::identifier(alias) + " (TYPE "@ + kind
                + ", SECRET "@ + secret + ", READ_ONLY);"@
        },
{
}

/// Community extensions are allowed unless the setting says off, in one of three words,
/// whatever the white space around it.
pub proof fn law_only_three_words_turn_extensions_off(setting: Option<Seq<char>>)
    ensures
        setting is None ==> !says_off(setting),
        says_off(setting) ==> {
            let said = text::lowercase(text::trim(setting->Some_0));
            setting is Some && (said == "off"@ || said == "false"@ || said == "0"@)
        },
        setting matches Some(t) ==> (text::lowercase(text::trim(t)) == "off"@ || text::lowercase(
            text::trim(t),
        ) == "false"@ || text::lowercase(text::trim(t)) == "0"@) ==> says_off(setting),
{
}

} // verus!
