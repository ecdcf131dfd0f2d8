//! SQL Server reached through an engine extension, and still answering T-SQL.
//!
//! The extension takes a query and runs it on the server as it is, so the dialect does
//! not change: what a user wrote travels inside a string literal.

use crate::connectors::mssql;
use crate::error::{Error, ErrorView};
use crate::federation::attach::{self, Attachment, AttachmentView};
use crate::federation::quote;
use crate::federation::session::{self, Order, OrderView};
use crate::model::{Dialect, SourceConfig, SourceConfigView, SourceKind};
use crate::text;
use vstd::prelude::*;
use vstd::string::*;

verus! {

/// What the attached catalogue is called. Nothing a user writes is resolved against it.
pub const ALIAS: &'static str = "alkyon_server";

/// What proves the credentials before a source is registered.
pub const PROBE: &'static str = "SELECT 1 AS ok";

/// Fabric sources.
pub struct FabricConnector;

impl FabricConnector {
    /// T-SQL, because that is what the server receives.
    pub fn dialect(&self) -> (r: Dialect)
        ensures
            r == Dialect::TSql,
    {
        Dialect::TSql
    }
}

/// The attachment of a source, as of an ordinary SQL Server.
pub fn plan(config: &SourceConfig, community: bool) -> (r: Result<Attachment, Error>)
    ensures
        ({
            let attachment = attach::attachment_of(
                ALIAS@,
                SourceConfigView { kind: SourceKind::MsSql, ..config@ },
                community,
            );
            match r {
                Ok(a) => attachment == Ok::<AttachmentView, Seq<char>>(a@),
                Err(e) => e matches Error::BadRequest(m) && attachment == Err::<
                    AttachmentView,
                    Seq<char>,
                >(m@),
            }
        }),
{
    let mut server = config.clone();
    server.kind = SourceKind::MsSql;
    attach::plan(ALIAS, &server, community)
}

/// What opening the session takes: the extension, the attachment, and then the same
/// confinement a federated session gets.
pub open spec fn opening(attachment: AttachmentView) -> Seq<OrderView> {
    session::attaching(attachment).push(
        OrderView::Secure {
            sql: session::SHUT@ + session::LOCK@,
            blame: "could not secure the session: "@,
        },
    )
}

pub fn open(attachment: &Attachment) -> (r: Vec<Order>)
    ensures
        session::orders_view(r@) == opening(attachment@),
{
    let mut orders: Vec<Order> = Vec::new();
    assert(session::orders_view(orders@) == Seq::<OrderView>::empty());
    session::attach_one(attachment, &mut orders);
    let ghost before = session::orders_view(orders@);
    assert(before =~= session::attaching(attachment@));
    orders.push(
        Order::Secure {
            sql: session::SHUT.to_owned().concat(session::LOCK),
            blame: "could not secure the session: ".to_owned(),
        },
    );
    assert(session::orders_view(orders@) =~= before.push(orders@.last()@));
    orders
}

/// What the extension said, as something worth reading.
pub open spec fn explained(said: Seq<char>, host: Seq<char>) -> Seq<char> {
    if text::contains(said, "Login failed"@) || text::contains(said, "18456"@) {
        "the server refused the login for `"@ + host
            + "`. If this is a Fabric endpoint, check the sign-in is the account with access to the workspace."@
    } else if text::contains(said, "Cannot resolve hostname"@) {
        "`"@ + host + "` did not resolve — check the endpoint name."@
    } else {
        said
    }
}

pub fn explain(said: &str, config: &SourceConfig) -> (r: String)
    ensures
        r@ == explained(said@, config@.host),
{
    if text::holds(said, "Login failed") || text::holds(said, "18456") {
        "the server refused the login for `".to_owned().concat(&config.host).concat(
            "`. If this is a Fabric endpoint, check the sign-in is the account with access to the workspace.",
        )
    } else if text::holds(said, "Cannot resolve hostname") {
        "`".to_owned().concat(&config.host).concat("` did not resolve — check the endpoint name.")
    } else {
        said.to_owned()
    }
}

/// A T-SQL statement in the call that sends it to the server as it is.
pub open spec fn scanned(sql: Seq<char>) -> Seq<char> {
    "SELECT * FROM mssql_scan("@ + quote::literal(ALIAS@) + ", "@ + quote::literal(sql) + ")"@
}

pub fn scan(sql: &str) -> (r: String)
    ensures
        r@ == scanned(sql@),
{
    "SELECT * FROM mssql_scan(".to_owned().concat(&quote::quote_literal(ALIAS)).concat(
        ", ",
    ).concat(&quote::quote_literal(sql)).concat(")")
}

/// The statement a user wrote cannot end the literal it travels in: reading the literal
/// back gives the whole statement, and what is left is the bracket that closes the call.
pub proof fn law_a_statement_cannot_end_its_literal(sql: Seq<char>)
    ensures
        ({
            let head = "SELECT * FROM mssql_scan("@ + quote::literal(ALIAS@) + ", "@;
            &&& text::starts_with(scanned(sql), head)
            &&& quote::unquote(scanned(sql).skip(head.len() as int + 1), '\'') == Some((sql, ")"@))
        }),
{
    let head = "SELECT * FROM mssql_scan("@ + quote::literal(ALIAS@) + ", "@;
    reveal_strlit(")");
    assert(scanned(sql).take(head.len() as int) =~= head);
    assert(scanned(sql).skip(head.len() as int) =~= quote::literal(sql) + ")"@);
    quote::law_quoting_is_read_back_whole(sql, '\'', ")"@);
    assert(scanned(sql).skip(head.len() as int + 1) =~= quote::literal(sql).skip(1) + ")"@);
}

/// A statement run in another database. A bracket in the name cannot end the
/// identifier.
pub open spec fn switched(db: Seq<char>, sql: Seq<char>) -> Seq<char> {
    if db.len() == 0 {
        sql
    } else {
        "USE ["@ + text::replace_char(db, ']', "]]"@) + "]; "@ + sql
    }
}

pub fn in_database(db: &str, sql: &str) -> (r: String)
    ensures
        r@ == switched(db@, sql@),
{
    if db.is_empty() {
        sql.to_owned()
    } else {
        "USE [".to_owned().concat(&text::replaced(db, ']', "]]")).concat("]; ").concat(sql)
    }
}

/// A T-SQL string literal: single quotes doubled, and nothing else.
pub fn tsql_literal(text: &str) -> (r: String)
    ensures
        r@ == quote::literal(text@),
{
    quote::quote_literal(text)
}

/// What lists the columns of a table: the query the native connector has, with its two
/// parameters written in as literals.
pub open spec fn columns_sql(schema: Seq<char>, table: Seq<char>) -> Seq<char> {
    text::replace_all(
        text::replace_all(mssql::LIST_COLUMNS@, "@P1"@, quote::literal(schema)),
        "@P2"@,
        quote::literal(table),
    )
}

pub fn list_columns(schema: &str, table: &str) -> (r: String)
    ensures
        r@ == columns_sql(schema@, table@),
{
    proof {
        reveal_strlit("@P1");
        reveal_strlit("@P2");
    }
    text::replaced_all(
        &text::replaced_all(mssql::LIST_COLUMNS, "@P1", &tsql_literal(schema)),
        "@P2",
        &tsql_literal(table),
    )
}

/// The first line of a text.
pub open spec fn first_line(s: Seq<char>) -> Seq<char> {
    match text::split_once(s, '\n') {
        Some((line, _)) => if line.len() > 0 && line.last() == '\r' {
            line.drop_last()
        } else {
            line
        },
        None => s,
    }
}

fn line_of(s: &str) -> (r: String)
    ensures
        r@ == first_line(s@),
{
    match text::split_first(s, '\n') {
        Some((line, _)) => {
            let v = text::chars_of(&line);
            if v.len() > 0 && v[v.len() - 1] == '\r' {
                let r = text::slice(&v, 0, v.len() - 1);
                assert(r@ == line@.drop_last());
                r
            } else {
                line
            }
        },
        None => s.to_owned(),
    }
}

/// The extension's words, cleaned of what was wrapped around the server's.
pub open spec fn cleaned(said: Seq<char>) -> Seq<char> {
    if text::contains(said, "must return at least one column"@) {
        "this source reads: the statement returned no rows, and the connection is read-only. Use an ordinary SQL Server source to write."@
    } else {
        let words = match text::cut(said, "MSSQL Error: "@) {
            Some((_, rest)) => rest,
            None => said,
        };
        if words.len() == 0 {
            said
        } else {
            first_line(words)
        }
    }
}

/// What a failed query reports: the server's own sentence, or, for a statement with
/// nothing to return, what the source is for.
pub fn remote(said: &str) -> (e: Error)
    ensures
        e@ == ErrorView::Remote(cleaned(said@)),
{
    if text::holds(said, "must return at least one column") {
        return Error::Remote(
            "this source reads: the statement returned no rows, and the connection is read-only. Use an ordinary SQL Server source to write.".to_owned(),
        );
    }
    let words = match text::cut_at(said, "MSSQL Error: ") {
        Some((_, rest)) => rest,
        None => said.to_owned(),
    };
    if words.as_str().is_empty() {
        Error::Remote(said.to_owned())
    } else {
        Error::Remote(line_of(&words))
    }
}

/// A statement for another database is that statement, behind a switch to it whose name
/// cannot end its brackets; without one it is the statement alone.
pub proof fn law_a_statement_is_run_where_it_belongs(db: Seq<char>, sql: Seq<char>)
    ensures
        switched(Seq::empty(), sql) == sql,
        db.len() > 0 ==> switched(db, sql) == "USE ["@ + text::replace_char(db, ']', "]]"@)
            + "]; "@ + sql,
        db.len() > 0 ==> text::ends_with(switched(db, sql), sql),
{
    let s = switched(db, sql);
    if db.len() > 0 {
        assert(s.skip(s.len() - sql.len()) == sql);
    }
}

/// A session on an endpoint attaches it and is then shut and locked.
pub proof fn law_an_endpoint_is_attached_and_locked(attachment: AttachmentView)
    ensures
        opening(attachment).len() == 4,
        opening(attachment)[1] == (OrderView::Attach {
            alias: attachment.alias,
            statement: attachment.secret,
        }),
        opening(attachment)[2] == (OrderView::Attach {
            alias: attachment.alias,
            statement: attachment.attach,
        }),
        opening(attachment)[0] is Fetch,
        opening(attachment)[3] is Secure,
{
}

/// What the server said is passed on, from its own first words, where nothing clearer can be
/// said of it.
pub proof fn law_what_the_server_said_is_passed_on(said: Seq<char>)
    requires
        said.len() > 0,
        !said.contains('\n'),
        !text::contains(said, "MSSQL Error: "@),
        !text::contains(said, "must return at least one column"@),
    ensures
        cleaned(said) == said,
{
    text::lemma_find(said, "MSSQL Error: "@);
    text::law_a_cut_takes_one_character(said, '\n');
}

} // verus!
