//! Everything that can go wrong, and what is said about it.

use vstd::prelude::*;
use vstd::string::*;

verus! {

/// What went wrong. The variants that report another system's failure carry that
/// system's own words.
#[derive(Debug)]
pub enum Error {
    UnknownSource(String),
    DuplicateSource(String),
    BadRequest(String),
    Unsupported(String),
    MissingSecret(String),
    Vault(String),
    Terminal(String),
    Federated(String),
    /// Whatever a PostgreSQL or MySQL driver reports. Not named after an engine,
    /// because the driver's error does not say which one it came from.
    Sqlx(String),
    MsSql(String),
    /// What a server reached through another engine said.
    Remote(String),
    Mongo(String),
    Io(String),
    Json(String),
    WebSocket(String),
}

/// The value of an [`Error`]: which kind it is and the text it carries.
pub enum ErrorView {
    UnknownSource(Seq<char>),
    DuplicateSource(Seq<char>),
    BadRequest(Seq<char>),
    Unsupported(Seq<char>),
    MissingSecret(Seq<char>),
    Vault(Seq<char>),
    Terminal(Seq<char>),
    Federated(Seq<char>),
    Sqlx(Seq<char>),
    MsSql(Seq<char>),
    Remote(Seq<char>),
    Mongo(Seq<char>),
    Io(Seq<char>),
    Json(Seq<char>),
    WebSocket(Seq<char>),
}

impl View for Error {
    type V = ErrorView;

    open spec fn view(&self) -> ErrorView {
        match *self {
            Error::UnknownSource(t) => ErrorView::UnknownSource(t@),
            Error::DuplicateSource(t) => ErrorView::DuplicateSource(t@),
            Error::BadRequest(t) => ErrorView::BadRequest(t@),
            Error::Unsupported(t) => ErrorView::Unsupported(t@),
            Error::MissingSecret(t) => ErrorView::MissingSecret(t@),
            Error::Vault(t) => ErrorView::Vault(t@),
            Error::Terminal(t) => ErrorView::Terminal(t@),
            Error::Federated(t) => ErrorView::Federated(t@),
            Error::Sqlx(t) => ErrorView::Sqlx(t@),
            Error::MsSql(t) => ErrorView::MsSql(t@),
            Error::Remote(t) => ErrorView::Remote(t@),
            Error::Mongo(t) => ErrorView::Mongo(t@),
            Error::Io(t) => ErrorView::Io(t@),
            Error::Json(t) => ErrorView::Json(t@),
            Error::WebSocket(t) => ErrorView::WebSocket(t@),
        }
    }
}

impl ErrorView {
    /// What is shown to whoever caused it.
    pub open spec fn message(self) -> Seq<char> {
        match self {
            ErrorView::UnknownSource(t) => "unknown source `"@ + t + "`"@,
            ErrorView::DuplicateSource(t) => "source `"@ + t + "` already exists"@,
            ErrorView::BadRequest(t) => t,
            ErrorView::Unsupported(t) => t,
            ErrorView::MissingSecret(t) => "no credential for source `"@ + t
                + "` in the vault — register it again to store one"@,
            ErrorView::Vault(t) => "vault: "@ + t,
            ErrorView::Terminal(t) => "terminal: "@ + t,
            ErrorView::Federated(t) => "duckdb: "@ + t,
            ErrorView::Sqlx(t) => "database: "@ + t,
            ErrorView::MsSql(t) => "sql server: "@ + t,
            ErrorView::Remote(t) => t,
            ErrorView::Mongo(t) => "mongodb: "@ + t,
            ErrorView::Io(t) => "io: "@ + t,
            ErrorView::Json(t) => "json: "@ + t,
            ErrorView::WebSocket(t) => "websocket: "@ + t,
        }
    }

    /// The HTTP status it is answered with.
    pub open spec fn status(self) -> u16 {
        match self {
            ErrorView::UnknownSource(_) => 404,
            ErrorView::DuplicateSource(_) => 409,
            ErrorView::BadRequest(_) | ErrorView::Unsupported(_) => 400,
            ErrorView::MissingSecret(_) => 412,
            ErrorView::Sqlx(_) | ErrorView::MsSql(_) | ErrorView::Remote(_)
            | ErrorView::Mongo(_) => 502,
            ErrorView::Federated(_) => 400,
            ErrorView::Io(_) | ErrorView::Json(_) | ErrorView::WebSocket(_)
            | ErrorView::Vault(_) | ErrorView::Terminal(_) => 500,
        }
    }
}

impl Error {
    /// What is shown to whoever caused it.
    pub fn message(&self) -> (r: String)
        ensures
            r@ == self@.message(),
    {
        match self {
            Error::UnknownSource(t) => "unknown source `".to_owned().concat(t).concat("`"),
            Error::DuplicateSource(t) => "source `".to_owned().concat(t).concat(
                "` already exists",
            ),
            Error::BadRequest(t) => t.clone(),
            Error::Unsupported(t) => t.clone(),
            Error::MissingSecret(t) => "no credential for source `".to_owned().concat(t).concat(
                "` in the vault — register it again to store one",
            ),
            Error::Vault(t) => "vault: ".to_owned().concat(t),
            Error::Terminal(t) => "terminal: ".to_owned().concat(t),
            Error::Federated(t) => "duckdb: ".to_owned().concat(t),
            Error::Sqlx(t) => "database: ".to_owned().concat(t),
            Error::MsSql(t) => "sql server: ".to_owned().concat(t),
            Error::Remote(t) => t.clone(),
            Error::Mongo(t) => "mongodb: ".to_owned().concat(t),
            Error::Io(t) => "io: ".to_owned().concat(t),
            Error::Json(t) => "json: ".to_owned().concat(t),
            Error::WebSocket(t) => "websocket: ".to_owned().concat(t),
        }
    }

    /// The HTTP status it is answered with. A federated failure is usually the
    /// user's SQL rather than a broken server, so it counts as a bad request.
    pub fn status(&self) -> (r: u16)
        ensures
            r == self@.status(),
    {
        match self {
            Error::UnknownSource(_) => 404,
            Error::DuplicateSource(_) => 409,
            Error::BadRequest(_) | Error::Unsupported(_) => 400,
            Error::MissingSecret(_) => 412,
            Error::Sqlx(_) | Error::MsSql(_) | Error::Remote(_) | Error::Mongo(_) => 502,
            Error::Federated(_) => 400,
            Error::Io(_) | Error::Json(_) | Error::WebSocket(_) | Error::Vault(_)
            | Error::Terminal(_) => 500,
        }
    }
}

/// Each failure is answered with the code that says whose it was.
pub proof fn law_a_failure_is_answered_with_its_own_code(e: ErrorView)
    ensures
        e.status() == 404 <==> e is UnknownSource,
        e.status() == 409 <==> e is DuplicateSource,
        e.status() == 412 <==> e is MissingSecret,
        e.status() == 400 <==> e is BadRequest || e is Unsupported || e is Federated,
        e.status() == 502 <==> e is Sqlx || e is MsSql || e is Remote || e is Mongo,
        e.status() == 500 <==> e is Io || e is Json || e is WebSocket || e is Vault || e is Terminal,
{
}

/// A failure says what it is about: what was said of it is in its message whole.
pub proof fn law_a_message_says_what_went_wrong(e: ErrorView)
    ensures
        match e {
            ErrorView::UnknownSource(t) => e.message() == "unknown source `"@ + t + "`"@,
            ErrorView::DuplicateSource(t) => e.message() == "source `"@ + t + "` already exists"@,
            ErrorView::MissingSecret(t) => e.message() == "no credential for source `"@ + t
                + "` in the vault — register it again to store one"@,
            ErrorView::BadRequest(t) => e.message() == t,
            ErrorView::Unsupported(t) => e.message() == t,
            ErrorView::Remote(t) => e.message() == t,
            ErrorView::Vault(t) => e.message() == "vault: "@ + t,
            ErrorView::Terminal(t) => e.message() == "terminal: "@ + t,
            ErrorView::Federated(t) => e.message() == "duckdb: "@ + t,
            ErrorView::Sqlx(t) => e.message() == "database: "@ + t,
            ErrorView::MsSql(t) => e.message() == "sql server: "@ + t,
            ErrorView::Mongo(t) => e.message() == "mongodb: "@ + t,
            ErrorView::Io(t) => e.message() == "io: "@ + t,
            ErrorView::Json(t) => e.message() == "json: "@ + t,
            ErrorView::WebSocket(t) => e.message() == "websocket: "@ + t,
        },
{
}

} // verus!
