//! Everything the wire format cannot say about itself.

use crate::azure::entra::{self, Credential, Resource};
use crate::error::{Error, ErrorView};
use crate::model::{FileOptionsView, SourceConfig, SourceConfigView, SourceKind, SourceRecord};
use crate::text;
use vstd::prelude::*;
use vstd::string::*;

verus! {

/// How many hits a search answers with where nobody says.
pub const DEFAULT_HITS: usize = 50;

/// Why a source is refused before anything is tried, if it is.
pub open spec fn refusal(config: SourceConfigView) -> Option<Seq<char>> {
    if text::is_blank(config.id) {
        Some("source id must not be empty"@)
    } else if config.instance is Some && config.port is Some {
        Some("set either `port` or `instance`, not both"@)
    } else if config.kind.host_needed() && text::is_blank(config.host) {
        Some("source needs a host"@)
    } else if config.kind.server() && config.options != FileOptionsView::empty() {
        Some("format options only apply to a folder or file source"@)
    } else {
        None
    }
}

pub fn check(config: &SourceConfig) -> (r: Result<(), Error>)
    ensures
        match r {
            Ok(()) => refusal(config@) is None,
            Err(e) => refusal(config@) matches Some(m) && e@ == ErrorView::BadRequest(m),
        },
{
    if text::blank(&config.id) {
        return Err(Error::BadRequest("source id must not be empty".to_owned()));
    }
    if config.instance.is_some() && config.port.is_some() {
        return Err(Error::BadRequest("set either `port` or `instance`, not both".to_owned()));
    }
    if config.kind.needs_host() && text::blank(&config.host) {
        return Err(Error::BadRequest("source needs a host".to_owned()));
    }
    if config.kind.is_server() && !config.options.is_empty() {
        return Err(
            Error::BadRequest(
                "format options only apply to a folder or file source".to_owned(),
            ),
        );
    }
    Ok(())
}

/// What was given, unless it is blank or nothing was.
pub open spec fn given(value: Option<Seq<char>>, default: Seq<char>) -> Seq<char> {
    match value {
        Some(s) => if text::is_blank(s) {
            default
        } else {
            s
        },
        None => default,
    }
}

fn give(value: Option<String>, default: &str) -> (r: String)
    ensures
        r@ == given(text::opt(value), default@),
{
    match value {
        Some(s) => if text::blank(&s) {
            default.to_owned()
        } else {
            s
        },
        None => default.to_owned(),
    }
}

/// Which application, in which tenant, a sign-in is made against, and for which resource:
/// tokens are minted per resource, so signing in to Azure as such does not exist.
pub fn start_sign_in(kind: SourceKind, tenant: Option<String>, client_id: Option<String>) -> (r:
    Result<(Credential, Resource), Error>)
    ensures
        ({
            let t = entra::plain_id(
                given(text::opt(tenant), entra::DEFAULT_TENANT@),
                "tenant"@,
            );
            let c = entra::plain_id(
                given(text::opt(client_id), entra::AZURE_CLI_CLIENT_ID@),
                "application id"@,
            );
            match kind.resource() {
                None => r matches Err(e) && e@ == ErrorView::BadRequest(
                    "this kind of source is not reached through Entra"@,
                ),
                Some(resource) => match (t, c) {
                    (Ok(t), Ok(c)) => r matches Ok((credential, wanted)) && wanted == resource
                        && credential.tenant@ == t && credential.client_id@ == c,
                    (Err(m), _) => r matches Err(e) && e@ == ErrorView::BadRequest(m),
                    (Ok(_), Err(m)) => r matches Err(e) && e@ == ErrorView::BadRequest(m),
                },
            }
        }),
{
    let resource = match kind.entra_resource() {
        Some(resource) => resource,
        None => return Err(
            Error::BadRequest("this kind of source is not reached through Entra".to_owned()),
        ),
    };
    let credential = Credential {
        tenant: give(tenant, entra::DEFAULT_TENANT),
        client_id: give(client_id, entra::AZURE_CLI_CLIENT_ID),
    };
    match credential.validated() {
        Ok(credential) => Ok((credential, resource)),
        Err(e) => Err(e),
    }
}

/// The database and the schema a request about columns means: what it names, and otherwise
/// the source's own.
pub fn columns_of(
    record: &SourceRecord,
    database: Option<String>,
    schema: Option<String>,
    windows: bool,
) -> (r: (String, String))
    ensures
        r.0@ == (match text::opt(database) {
            Some(name) => name,
            None => record@.database_used(windows),
        }),
        r.1@ == (match text::opt(schema) {
            Some(name) => name,
            None => record@.kind.schema_by_default(),
        }),
{
    let name = match schema {
        Some(name) => name,
        None => record.kind.default_schema().to_owned(),
    };
    let database = match database {
        Some(name) => name,
        None => record.database(windows),
    };
    (database, name)
}

/// What is said of a path that is no folder to list.
pub fn not_a_folder(path: &str) -> (e: Error)
    ensures
        e@ == ErrorView::BadRequest("`"@ + path@ + "` is not a folder"@),
{
    Error::BadRequest("`".to_owned().concat(path).concat("` is not a folder"))
}

/// A source is refused exactly for one of four reasons.
pub proof fn law_a_source_is_refused_only_for_a_reason(config: SourceConfigView)
    ensures
        refusal(config) is Some <==> {
            ||| text::is_blank(config.id)
            ||| config.instance is Some && config.port is Some
            ||| config.kind.host_needed() && text::is_blank(config.host)
            ||| config.kind.server() && config.options != FileOptionsView::empty()
        },
        text::is_blank(config.id) ==> refusal(config) == Some("source id must not be empty"@),
{
}

/// What was given is used, unless there is nothing to it.
pub proof fn law_what_was_given_is_used(value: Seq<char>, default: Seq<char>)
    ensures
        given(None, default) == default,
        text::is_blank(value) ==> given(Some(value), default) == default,
        !text::is_blank(value) ==> given(Some(value), default) == value,
{
}

} // verus!
