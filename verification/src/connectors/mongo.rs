//! MongoDB as a source, queried in SQL.
//!
//! The documents are read and written down as one JSON document per line, each
//! collection becomes a view over them, and the engine answers the SQL. Nesting
//! survives. Documents arrive before they are filtered, so there is a cap, and it fails
//! rather than truncates.

use crate::error::{Error, ErrorView};
use crate::federation::quote;
use crate::federation::session::{Sandbox, SandboxView};
use crate::json::{self, Json, JsonView};
use crate::model::{
    AuthConfig, AuthConfigView, Dialect, SourceConfig, TableInfo, TableKind, TlsMode,
};
use crate::order::{self, Ranked};
use crate::table;
use crate::text;
use crate::tree;
use base64::engine::general_purpose::STANDARD;
use base64::Engine as _;
use vstd::prelude::*;
use vstd::string::*;

verus! {

/// How many documents are read to work out a collection's columns. It is a sample: a
/// field that occurs only later is not in it.
pub const SAMPLE: usize = 200;

/// How many documents one collection may bring back, unless a setting says otherwise.
pub const MAX_DOCUMENTS: usize = 200_000;

pub open spec fn documents_allowed(setting: Option<Seq<char>>) -> nat {
    match setting {
        Some(value) => match text::number(value) {
            Some(n) => if n <= usize::MAX {
                n
            } else {
                MAX_DOCUMENTS as nat
            },
            None => MAX_DOCUMENTS as nat,
        },
        None => MAX_DOCUMENTS as nat,
    }
}

/// How many documents one collection may bring back before a query is refused.
pub fn max_documents(setting: Option<&str>) -> (r: usize)
    ensures
        r == documents_allowed(text::opt_str(setting)),
{
    match setting {
        Some(value) => match text::parse_u64(value) {
            Some(n) => if n <= usize::MAX as u64 {
                n as usize
            } else {
                MAX_DOCUMENTS
            },
            None => MAX_DOCUMENTS,
        },
        None => MAX_DOCUMENTS,
    }
}

// ------------------------------------------------------------------------ options

/// How a connection is encrypted.
#[derive(Debug, Clone, Copy, PartialEq, Eq, Structural)]
pub enum Tls {
    Off,
    /// Encrypted, any certificate accepted.
    Lenient,
    /// Encrypted, certificate checked.
    Checked,
}

/// What a client is built with.
pub struct ClientOptions {
    pub host: String,
    pub port: u16,
    pub app_name: String,
    /// A user, a password, and the database the credential lives in, which is not the
    /// one that is queried.
    pub credential: Option<(String, String, String)>,
    pub tls: Tls,
}

pub open spec fn tls_for(tls: TlsMode) -> Tls {
    match tls {
        TlsMode::Disable => Tls::Off,
        TlsMode::Prefer | TlsMode::TrustCertificate => Tls::Lenient,
        TlsMode::Require => Tls::Checked,
    }
}

/// What a client of a source is built with.
pub fn client_options(config: &SourceConfig) -> (r: Result<ClientOptions, Error>)
    ensures
        match r {
            Ok(o) => {
                &&& o.host@ == config@.host
                &&& o.port == config@.port_used()
                &&& o.app_name@ == "alkyon"@
                &&& o.tls == tls_for(config@.tls)
                &&& match config@.auth {
                    AuthConfigView::Password { username, password } => o.credential matches Some(
                        (u, p, source),
                    ) && u@ == username && p@ == password && source@ == "admin"@,
                    AuthConfigView::NoAuth => o.credential is None,
                    _ => false,
                }
            },
            Err(e) => {
                &&& !(config@.auth is Password || config@.auth is NoAuth)
                &&& e@ == ErrorView::Unsupported(
                    "MongoDB takes a login and password; `"@ + config@.auth.method()
                        + "` is not something it accepts"@,
                )
            },
        },
{
    let credential: Option<(String, String, String)> = match &config.auth {
        AuthConfig::Password { username, password } => Some(
            (username.clone(), password.clone(), "admin".to_owned()),
        ),
        AuthConfig::NoAuth => None,
        other => {
            return Err(
                Error::Unsupported(
                    "MongoDB takes a login and password; `".to_owned().concat(
                        other.method(),
                    ).concat("` is not something it accepts"),
                ),
            );
        },
    };
    Ok(
        ClientOptions {
            host: config.host.clone(),
            port: config.port(),
            app_name: "alkyon".to_owned(),
            credential,
            tls: match config.tls {
                TlsMode::Disable => Tls::Off,
                TlsMode::Prefer | TlsMode::TrustCertificate => Tls::Lenient,
                TlsMode::Require => Tls::Checked,
            },
        },
    )
}

/// MongoDB sources.
pub struct MongoConnector;

impl MongoConnector {
    pub fn dialect(&self) -> (r: Dialect)
        ensures
            r == Dialect::DuckDb,
    {
        Dialect::DuckDb
    }
}

/// What the driver said, as something worth reading. It is what the server said, not a
/// malformed request.
pub fn explain(said: &str) -> (e: Error)
    ensures
        e@ == ErrorView::Mongo(
            if text::contains(said@, "Authentication failed"@) {
                "the login was refused. The credential is checked against `admin`, which is where a root user lives; a user created inside another database has to be given there."@
            } else {
                said@
            },
        ),
{
    if text::holds(said, "Authentication failed") {
        Error::Mongo(
            "the login was refused. The credential is checked against `admin`, which is where a root user lives; a user created inside another database has to be given there.".to_owned(),
        )
    } else {
        Error::Mongo(said.to_owned())
    }
}

/// The database a request means: the one it names, or the source's own. It is also the
/// schema its collections land in.
pub fn name_of<'a>(own: &'a str, db: &'a str) -> (r: &'a str)
    ensures
        r@ == if db@.len() == 0 {
            own@
        } else {
            db@
        },
{
    if db.is_empty() {
        own
    } else {
        db
    }
}

// -------------------------------------------------------------------- collections

/// A collection as the server lists it.
pub struct Collection {
    pub name: String,
    pub is_view: bool,
}

#[verifier::ext_equal]
pub struct TableInfoView {
    pub schema: Seq<char>,
    pub name: Seq<char>,
    pub kind: TableKind,
}

pub open spec fn info_view(info: TableInfo) -> TableInfoView {
    TableInfoView { schema: info.schema@, name: info.name@, kind: info.kind }
}

pub open spec fn infos_view(infos: Seq<TableInfo>) -> Seq<TableInfoView> {
    Seq::new(infos.len(), |i: int| info_view(infos[i]))
}

/// The collections a person means: not the server's own bookkeeping.
pub open spec fn shown(listed: Seq<Collection>, schema: Seq<char>) -> Seq<TableInfoView>
    decreases listed.len(),
{
    if listed.len() == 0 {
        Seq::empty()
    } else {
        let before = shown(listed.drop_last(), schema);
        let last = listed.last();
        if text::starts_with(last.name@, "system."@) {
            before
        } else {
            before.push(
                TableInfoView {
                    schema,
                    name: last.name@,
                    kind: if last.is_view {
                        TableKind::View
                    } else {
                        TableKind::Table
                    },
                },
            )
        }
    }
}

impl Ranked for TableInfo {
    open spec fn precedes(&self, other: &Self) -> bool {
        table::before(self.name@, other.name@)
    }

    fn ahead_of(&self, other: &Self) -> (r: bool) {
        table::comes_before(&self.name, &other.name)
    }

    proof fn lemma_asymmetric(a: &Self, b: &Self) {
        if table::before(a.name@, b.name@) && table::before(b.name@, a.name@) {
            table::lemma_before_transitive(a.name@, b.name@, a.name@);
            table::lemma_before_irreflexive(a.name@);
        }
    }

    proof fn lemma_steps(a: &Self, b: &Self, c: &Self) {
        table::lemma_not_before(a.name@, b.name@, c.name@);
    }
}

pub open spec fn by_table() -> spec_fn(TableInfoView, TableInfoView) -> bool {
    |a: TableInfoView, b: TableInfoView| table::before(a.name, b.name)
}

/// The collections and views of a database, by name.
pub fn collections(listed: &Vec<Collection>, schema: &str) -> (r: Vec<TableInfo>)
    ensures
        infos_view(r@) == order::sorted_by(shown(listed@, schema@), by_table()),
{
    let mut out: Vec<TableInfo> = Vec::new();
    let mut i: usize = 0;
    assert(infos_view(out@) == shown(listed@.take(0), schema@));
    while i < listed.len()
        invariant
            i <= listed.len(),
            infos_view(out@) == shown(listed@.take(i as int), schema@),
        decreases listed.len() - i,
    {
        let ghost before = infos_view(out@);
        assert(listed@.take(i as int + 1).drop_last() == listed@.take(i as int));
        if !text::begins(&listed[i].name, "system.") {
            let info = TableInfo {
                schema: schema.to_owned(),
                name: listed[i].name.clone(),
                kind: if listed[i].is_view {
                    TableKind::View
                } else {
                    TableKind::Table
                },
            };
            let ghost now = info_view(info);
            out.push(info);
            assert(infos_view(out@) =~= before.push(now));
        }
        i = i + 1;
    }
    assert(listed@.take(i as int) == listed@);
    let r = order::sort(out);
    proof {
        let f = |info: TableInfo| info_view(info);
        order::lemma_sorted_views(out@, f, by_table());
        assert(out@.map_values(f) =~= infos_view(out@));
        assert(r@.map_values(f) =~= infos_view(r@));
    }
    r
}

/// Whether a database is one the server keeps for itself.
pub open spec fn is_system(name: Seq<char>) -> bool {
    name == "admin"@ || name == "config"@ || name == "local"@
}

fn own_database(name: &str) -> (r: bool)
    ensures
        r == is_system(name@),
{
    text::same(name, "admin") || text::same(name, "config") || text::same(name, "local")
}

/// The server's own databases last, and otherwise by name whatever its case.
pub open spec fn goes_before(a: Seq<char>, b: Seq<char>) -> bool {
    if is_system(a) == is_system(b) {
        table::before(text::lowercase(a), text::lowercase(b))
    } else {
        is_system(b)
    }
}

pub open spec fn by_place() -> spec_fn(Seq<char>, Seq<char>) -> bool {
    |a: Seq<char>, b: Seq<char>| goes_before(a, b)
}

struct Database {
    name: String,
}

impl Ranked for Database {
    closed spec fn precedes(&self, other: &Self) -> bool {
        goes_before(self.name@, other.name@)
    }

    fn ahead_of(&self, other: &Self) -> (r: bool) {
        let a = own_database(&self.name);
        let b = own_database(&other.name);
        if a == b {
            table::comes_before(
                &text::to_lowercase(&self.name),
                &text::to_lowercase(&other.name),
            )
        } else {
            b
        }
    }

    proof fn lemma_asymmetric(a: &Self, b: &Self) {
        let x = text::lowercase(a.name@);
        let y = text::lowercase(b.name@);
        if table::before(x, y) && table::before(y, x) {
            table::lemma_before_transitive(x, y, x);
            table::lemma_before_irreflexive(x);
        }
    }

    proof fn lemma_steps(a: &Self, b: &Self, c: &Self) {
        table::lemma_not_before(
            text::lowercase(a.name@),
            text::lowercase(b.name@),
            text::lowercase(c.name@),
        );
    }
}

/// The databases of a deployment, in the order they are shown.
pub fn list_databases(names: Vec<String>) -> (r: Vec<String>)
    ensures
        text::views(r@) == order::sorted_by(text::views(names@), by_place()),
{
    let ghost all = text::views(names@);
    let mut left = names;
    let mut given: Vec<Database> = Vec::new();
    let ghost f = |d: Database| d.name@;
    let ghost mut n: int = 0;
    assert(names@.skip(0) == names@);
    assert(given@.map_values(f) =~= all.take(0));
    while left.len() > 0
        invariant
            0 <= n <= names@.len(),
            all == text::views(names@),
            left@ == names@.skip(n),
            f == (|d: Database| d.name@),
            given@.map_values(f) == all.take(n),
        decreases left.len(),
    {
        let ghost before = given@.map_values(f);
        let name = left.remove(0);
        assert(left@ == names@.skip(n + 1));
        assert(name@ == all[n]);
        given.push(Database { name });
        assert(given@.map_values(f) =~= before.push(all[n]));
        assert(all.take(n + 1) =~= all.take(n).push(all[n]));
        proof {
            n = n + 1;
        }
    }
    assert(all.take(n) == all);
    let sorted = order::sort(given);
    proof {
        order::lemma_sorted_views(given@, f, by_place());
    }
    let ghost want = sorted@.map_values(f);
    let mut out: Vec<String> = Vec::new();
    let mut i: usize = 0;
    while i < sorted.len()
        invariant
            i <= sorted.len(),
            f == (|d: Database| d.name@),
            want == sorted@.map_values(f),
            out.len() == i,
            forall|j: int| 0 <= j < i ==> (#[trigger] out@[j])@ == want[j],
        decreases sorted.len() - i,
    {
        assert(want[i as int] == sorted@[i as int].name@);
        out.push(sorted[i].name.clone());
        i = i + 1;
    }
    assert(text::views(out@) =~= want);
    out
}

/// How many bytes a name takes.
fn bytes_in(name: &str) -> (n: u128)
    ensures
        n == text::bytes_len(name@),
{
    let v = text::chars_of(name);
    let mut n: u128 = 0;
    let mut i: usize = 0;
    while i < v.len()
        invariant
            i <= v.len(),
            v@ == name@,
            n == text::bytes_len(name@.take(i as int)),
            n <= 4 * i,
        decreases v.len() - i,
    {
        let ghost first = name@.take(i as int);
        proof {
            assert(name@.take(i as int + 1) =~= first + seq![name@[i as int]]);
            text::lemma_bytes_len_concat(first, seq![name@[i as int]]);
            reveal_with_fuel(text::bytes_len, 2);
            assert(seq![name@[i as int]].drop_last() =~= Seq::<char>::empty());
            assert(seq![name@[i as int]].drop_first() =~= Seq::<char>::empty());
        }
        n = n + text::char_width(v[i]) as u128;
        i = i + 1;
    }
    assert(name@.take(i as int) == name@);
    n
}

pub open spec fn longer() -> spec_fn(Seq<char>, Seq<char>) -> bool {
    |a: Seq<char>, b: Seq<char>| text::bytes_len(a) > text::bytes_len(b)
}

struct Named {
    name: String,
}

impl Ranked for Named {
    closed spec fn precedes(&self, other: &Self) -> bool {
        text::bytes_len(self.name@) > text::bytes_len(other.name@)
    }

    fn ahead_of(&self, other: &Self) -> (r: bool) {
        bytes_in(&self.name) > bytes_in(&other.name)
    }

    proof fn lemma_asymmetric(a: &Self, b: &Self) {
    }

    proof fn lemma_steps(a: &Self, b: &Self, c: &Self) {
    }
}

/// Those of the names that occur in a text, whatever its case.
pub open spec fn mentioned(names: Seq<Seq<char>>, sql: Seq<char>) -> Seq<Seq<char>>
    decreases names.len(),
{
    if names.len() == 0 {
        Seq::empty()
    } else {
        let before = mentioned(names.drop_last(), sql);
        if text::contains(text::lowercase(sql), text::lowercase(names.last())) {
            before.push(names.last())
        } else {
            before
        }
    }
}

/// The collections whose name occurs anywhere in `sql`, longest first.
///
/// Reading every collection to answer a query against one would be absurd, and a view
/// can only be referred to if its name occurs in the text.
pub fn referenced(sql: &str, collections: &Vec<String>) -> (r: Vec<String>)
    ensures
        text::views(r@) == order::sorted_by(
            mentioned(text::views(collections@), sql@),
            longer(),
        ),
{
    let haystack = text::to_lowercase(sql);
    let ghost all = text::views(collections@);
    let ghost f = |d: Named| d.name@;
    let mut found: Vec<Named> = Vec::new();
    let mut i: usize = 0;
    assert(found@.map_values(f) =~= mentioned(all.take(0), sql@));
    while i < collections.len()
        invariant
            i <= collections.len(),
            all == text::views(collections@),
            haystack@ == text::lowercase(sql@),
            f == (|d: Named| d.name@),
            found@.map_values(f) == mentioned(all.take(i as int), sql@),
        decreases collections.len() - i,
    {
        let ghost before = found@.map_values(f);
        assert(all.take(i as int + 1).drop_last() == all.take(i as int));
        assert(all.take(i as int + 1).last() == collections@[i as int]@);
        if text::holds(&haystack, &text::to_lowercase(&collections[i])) {
            found.push(Named { name: collections[i].clone() });
            assert(found@.map_values(f) =~= before.push(all[i as int]));
        }
        i = i + 1;
    }
    assert(all.take(i as int) == all);
    let sorted = order::sort(found);
    proof {
        order::lemma_sorted_views(found@, f, longer());
    }
    let ghost want = sorted@.map_values(f);
    let mut out: Vec<String> = Vec::new();
    let mut k: usize = 0;
    while k < sorted.len()
        invariant
            k <= sorted.len(),
            f == (|d: Named| d.name@),
            want == sorted@.map_values(f),
            out.len() == k,
            forall|j: int| 0 <= j < k ==> (#[trigger] out@[j])@ == want[j],
        decreases sorted.len() - k,
    {
        assert(want[k as int] == sorted@[k as int].name@);
        out.push(sorted[k].name.clone());
        k = k + 1;
    }
    assert(text::views(out@) =~= want);
    out
}

// ---------------------------------------------------------------------- documents

/// Whether to write one more document of a collection: stop where a sample was asked
/// for and is complete, and refuse rather than truncate where it was not.
pub fn writes_another(written: usize, sample: Option<usize>, cap: usize, collection: &str) -> (r: Result<
    bool,
    Error,
>)
    ensures
        match r {
            Ok(write) => match sample {
                Some(limit) => write == (written < limit),
                None => write && written < cap,
            },
            Err(e) => sample is None && written >= cap && e@ == ErrorView::BadRequest(
                "`"@ + collection@ + "` has more than "@ + text::decimal(cap as nat)
                    + " documents, and alkyon reads a collection before it can query it. Narrow it with an `@import` pipeline, or raise ALKYON_MONGO_MAX_DOCS."@,
            ),
        },
{
    match sample {
        Some(limit) => Ok(written < limit),
        None => if written < cap {
            Ok(true)
        } else {
            Err(
                Error::BadRequest(
                    "`".to_owned().concat(collection).concat("` has more than ").concat(
                        &text::decimal_of(cap as u64),
                    ).concat(
                        " documents, and alkyon reads a collection before it can query it. Narrow it with an `@import` pipeline, or raise ALKYON_MONGO_MAX_DOCS.",
                    ),
                ),
            )
        },
    }
}

pub open spec fn safe_char(c: char) -> char {
    if text::is_ascii_letter(c) || text::is_ascii_digit(c) || c == '-' || c == '_' {
        c
    } else {
        '_'
    }
}

/// A collection name as a file name.
pub open spec fn safe(name: Seq<char>) -> Seq<char> {
    Seq::new(name.len(), |i: int| safe_char(name[i]))
}

/// A collection name as a file name. Remote names are not to be trusted.
pub fn sanitise(name: &str) -> (r: String)
    ensures
        r@ == safe(name@),
{
    let v = text::chars_of(name);
    let mut out = String::new();
    let mut i: usize = 0;
    while i < v.len()
        invariant
            i <= v.len(),
            v@ == name@,
            out@ == safe(name@.take(i as int)),
        decreases v.len() - i,
    {
        let c = v[i];
        if text::ascii_letter(c) || text::ascii_digit(c) || c == '-' || c == '_' {
            out.push(c);
        } else {
            out.push('_');
        }
        assert(safe(name@.take(i as int + 1)) =~= safe(name@.take(i as int)).push(safe_char(c)));
        i = i + 1;
    }
    assert(name@.take(i as int) == name@);
    out
}

/// Whatever a collection is called, its file name has nothing in it that a path could be
/// read from: no separator, and no dot to climb with.
pub proof fn law_a_file_name_cannot_climb(name: Seq<char>)
    ensures
        safe(name).len() == name.len(),
        !safe(name).contains('/'),
        !safe(name).contains('\\'),
        !safe(name).contains('.'),
{
    assert forall|i: int| 0 <= i < safe(name).len() implies safe(name)[i] != '/' && safe(name)[i]
        != '\\' && safe(name)[i] != '.' by {
        text::lemma_char(name[i]);
    }
}

/// The documents of one collection, written down.
pub struct Ndjson {
    /// The collection, and therefore the view.
    pub name: String,
    pub file: String,
}

pub open spec fn dumped_files(dumped: Seq<Ndjson>) -> Seq<Seq<char>> {
    Seq::new(dumped.len(), |i: int| dumped[i].file@)
}

/// What a session over those documents may touch: each file, by name, and nothing else.
pub fn granted(dumped: &Vec<Ndjson>) -> (r: Sandbox)
    ensures
        r@ == (SandboxView { directories: Seq::empty(), files: dumped_files(dumped@) }),
{
    let mut files: Vec<String> = Vec::new();
    let mut i: usize = 0;
    while i < dumped.len()
        invariant
            i <= dumped.len(),
            files.len() == i,
            forall|j: int| 0 <= j < i ==> (#[trigger] files@[j])@ == dumped@[j].file@,
        decreases dumped.len() - i,
    {
        files.push(dumped[i].file.clone());
        i = i + 1;
    }
    let r = Sandbox { directories: Vec::new(), files };
    assert(r@.files =~= dumped_files(dumped@));
    assert(r@.directories =~= Seq::empty());
    r
}

/// What defines a collection as a view over its documents.
pub fn define(schema: &str, dumped: &Ndjson) -> (r: String)
    ensures
        r@ == "CREATE OR REPLACE VIEW "@ + quote::identifier(schema@) + "."@ + quote::identifier(
            dumped.name@,
        ) + " AS SELECT * FROM read_json("@ + quote::literal(tree::slashed(dumped.file@))
            + ");"@,
{
    "CREATE OR REPLACE VIEW ".to_owned().concat(&quote::quote_identifier(schema)).concat(
        ".",
    ).concat(&quote::quote_identifier(&dumped.name)).concat(" AS SELECT * FROM read_json(").concat(
        &quote::quote_literal(&tree::slash(&dumped.file)),
    ).concat(");")
}

/// What to say when the documents of a collection could not be read.
pub fn cannot_read(name: &str, why: &str) -> (e: Error)
    ensures
        e@ == ErrorView::Federated("cannot read `"@ + name@ + "` as JSON: "@ + why@),
{
    Error::Federated(
        "cannot read `".to_owned().concat(name).concat("` as JSON: ").concat(why),
    )
}

/// A value of a document.
#[derive(Debug)]
pub enum Bson {
    /// As JSON writes it; nothing where JSON has no way to.
    Double(Option<String>),
    Text(String),
    Array(Vec<Bson>),
    Document(Vec<(String, Bson)>),
    Boolean(bool),
    Int32(i32),
    Int64(i64),
    ObjectId(Vec<u8>),
    /// Milliseconds since the epoch.
    DateTime(i64),
    Decimal128([u8; 16]),
    Binary(Vec<u8>),
    RegularExpression { pattern: String, options: String },
    JavaScriptCode(String),
    Symbol(String),
    Timestamp { time: u32, increment: u32 },
    DbPointer,
    /// Null, undefined, and the keys that sort first and last: none has a value.
    Nothing,
}

/// A moment in RFC 3339, so many milliseconds after the epoch.
pub uninterp spec fn rfc3339(millis: int) -> Option<Seq<char>>;

/// `mongodb::bson::DateTime::try_to_rfc3339_string`: a function of the milliseconds.
#[verifier::external_body]
fn moment(millis: i64) -> (r: Option<String>)
    ensures
        text::opt(r) == rfc3339(millis as int),
{
    mongodb::bson::DateTime::from_millis(millis).try_to_rfc3339_string().ok()
}

/// A 128-bit decimal in digits.
pub uninterp spec fn decimal128(bytes: Seq<u8>) -> Seq<char>;

/// `Display` of `mongodb::bson::Decimal128`: a function of its sixteen bytes.
#[verifier::external_body]
fn decimal_text(bytes: &[u8; 16]) -> (r: String)
    ensures
        r@ == decimal128(bytes@),
{
    mongodb::bson::Decimal128::from_bytes(*bytes).to_string()
}

/// Bytes in padded base64.
pub uninterp spec fn standard_base64(bytes: Seq<u8>) -> Seq<char>;

/// `base64::Engine::encode` on `STANDARD`: a function of the bytes. No slice is long
/// enough for the length of the text to overflow.
#[verifier::external_body]
fn base64_of(bytes: &[u8]) -> (r: String)
    ensures
        r@ == standard_base64(bytes@),
{
    STANDARD.encode(bytes)
}

/// A value as JSON a person would want to read: an identifier in hexadecimal, a decimal
/// as its exact digits, a date in RFC 3339, bytes in base64.
pub open spec fn readable(value: Bson) -> JsonView
    decreases value,
{
    match value {
        Bson::Double(n) => match n {
            Some(n) => JsonView::Number(n@),
            None => JsonView::Null,
        },
        Bson::Text(t) => JsonView::Text(t@),
        Bson::Array(items) => JsonView::Array(
            Seq::new(
                items@.len(),
                |i: int|
                    if 0 <= i < items@.len() {
                        readable(items@[i])
                    } else {
                        JsonView::Null
                    },
            ),
        ),
        Bson::Document(fields) => JsonView::Object(
            Seq::new(
                fields@.len(),
                |i: int|
                    if 0 <= i < fields@.len() {
                        (fields@[i].0@, readable(fields@[i].1))
                    } else {
                        (Seq::empty(), JsonView::Null)
                    },
            ),
        ),
        Bson::Boolean(b) => JsonView::Bool(b),
        Bson::Int32(n) => json::whole(n as int),
        Bson::Int64(n) => json::whole(n as int),
        Bson::ObjectId(bytes) => JsonView::Text(text::hex(bytes@)),
        Bson::DateTime(millis) => JsonView::Text(
            match rfc3339(millis as int) {
                Some(written) => written,
                None => text::signed(millis as int),
            },
        ),
        Bson::Decimal128(bytes) => JsonView::Text(decimal128(bytes@)),
        Bson::Binary(bytes) => JsonView::Text(standard_base64(bytes@)),
        Bson::RegularExpression { pattern, options } => JsonView::Text(
            "/"@ + pattern@ + "/"@ + options@,
        ),
        Bson::JavaScriptCode(code) => JsonView::Text(code@),
        Bson::Symbol(t) => JsonView::Text(t@),
        Bson::Timestamp { time, increment } => JsonView::Text(
            text::decimal(time as nat) + ":"@ + text::decimal(increment as nat),
        ),
        Bson::DbPointer => JsonView::Text("<dbpointer>"@),
        Bson::Nothing => JsonView::Null,
    }
}

/// A value as JSON a person would want to read. Nothing is made less exact on the way.
pub fn json_of(value: &Bson) -> (r: Json)
    ensures
        r@ == readable(*value),
    decreases value,
{
    match value {
        Bson::Double(n) => match n {
            Some(n) => Json::Number(n.clone()),
            None => Json::Null,
        },
        Bson::Text(t) => Json::Text(t.clone()),
        Bson::Array(items) => {
            let mut out: Vec<Json> = Vec::new();
            let mut i: usize = 0;
            while i < items.len()
                invariant
                    i <= items.len(),
                    out.len() == i,
                    *value == Bson::Array(*items),
                    forall|j: int| 0 <= j < i ==> (#[trigger] out@[j])@ == readable(items@[j]),
                decreases items.len() - i,
            {
                assert(decreases_to!(*value => value->Array_0));
                assert(decreases_to!(items@ => items@[i as int]));
                out.push(json_of(&items[i]));
                i = i + 1;
            }
            let r = Json::Array(out);
            assert(r@->Array_0 =~= readable(*value)->Array_0);
            r
        },
        Bson::Document(fields) => {
            let mut out: Vec<(String, Json)> = Vec::new();
            let mut i: usize = 0;
            while i < fields.len()
                invariant
                    i <= fields.len(),
                    out.len() == i,
                    *value == Bson::Document(*fields),
                    forall|j: int|
                        0 <= j < i ==> (#[trigger] out@[j]).0@ == fields@[j].0@ && out@[j].1@
                            == readable(fields@[j].1),
                decreases fields.len() - i,
            {
                assert(decreases_to!(*value => value->Document_0));
                assert(decreases_to!(fields@ => fields@[i as int]));
                out.push((fields[i].0.clone(), json_of(&fields[i].1)));
                i = i + 1;
            }
            let r = Json::Object(out);
            assert(r@->Object_0 =~= readable(*value)->Object_0);
            r
        },
        Bson::Boolean(b) => Json::Bool(*b),
        Bson::Int32(n) => json::whole_of(*n as i64),
        Bson::Int64(n) => json::whole_of(*n),
        Bson::ObjectId(bytes) => Json::Text(text::hex_of(bytes)),
        Bson::DateTime(millis) => Json::Text(
            match moment(*millis) {
                Some(written) => written,
                None => text::signed_of(*millis as i128),
            },
        ),
        Bson::Decimal128(bytes) => Json::Text(decimal_text(bytes)),
        Bson::Binary(bytes) => Json::Text(base64_of(bytes)),
        Bson::RegularExpression { pattern, options } => Json::Text(
            "/".to_owned().concat(pattern).concat("/").concat(options),
        ),
        Bson::JavaScriptCode(code) => Json::Text(code.clone()),
        Bson::Symbol(t) => Json::Text(t.clone()),
        Bson::Timestamp { time, increment } => Json::Text(
            text::decimal_of(*time as u64).concat(":").concat(
                &text::decimal_of(*increment as u64),
            ),
        ),
        Bson::DbPointer => Json::Text("<dbpointer>".to_owned()),
        Bson::Nothing => Json::Null,
    }
}

/// A document as the line of JSON it is written down as.
pub fn line_of(value: &Bson) -> (r: String)
    ensures
        r@ == json::json_text(readable(*value)) + "\n"@,
{
    json::written(&json_of(value)).concat("\n")
}

/// However long the names are, every collection a query mentions is read: a short name
/// does not hide a longer one that holds it.
pub proof fn law_no_collection_a_query_names_is_left_out(
    names: Seq<Seq<char>>,
    sql: Seq<char>,
    i: int,
)
    requires
        0 <= i < names.len(),
        text::contains(text::lowercase(sql), text::lowercase(names[i])),
    ensures
        order::sorted_by(mentioned(names, sql), longer()).contains(names[i]),
{
    lemma_mentioned(names, sql, i);
    order::lemma_sorted_by_multiset(mentioned(names, sql), longer());
    let found = mentioned(names, sql);
    let sorted = order::sorted_by(found, longer());
    broadcast use vstd::seq_lib::group_to_multiset_ensures;

    assert(found.to_multiset().count(names[i]) > 0);
    assert(sorted.to_multiset().count(names[i]) > 0);
}

proof fn lemma_mentioned(names: Seq<Seq<char>>, sql: Seq<char>, i: int)
    requires
        0 <= i < names.len(),
        text::contains(text::lowercase(sql), text::lowercase(names[i])),
    ensures
        mentioned(names, sql).contains(names[i]),
    decreases names.len(),
{
    let before = mentioned(names.drop_last(), sql);
    let all = mentioned(names, sql);
    if i == names.len() - 1 {
        assert(all[all.len() - 1] == names[i]);
    } else {
        lemma_mentioned(names.drop_last(), sql, i);
        let k = choose|k: int| 0 <= k < before.len() && before[k] == names[i];
        assert(all[k] == names[i]);
    }
}

/// Nothing, or a floating-point number that JSON has no way to write.
pub open spec fn is_nothing(value: Bson) -> bool {
    value is Nothing || value matches Bson::Double(None)
}

/// A value of a document is shown as what it is: only nothing is null, a number is a number
/// in its digits, text is itself, and what has parts has all of them in order.
pub proof fn law_a_value_is_shown_as_it_is(value: Bson)
    ensures
        readable(value) is Null <==> is_nothing(value),
        match value {
            Bson::Double(Some(digits)) => readable(value) == JsonView::Number(digits@),
            Bson::Int32(n) => match readable(value) {
                JsonView::Number(digits) => text::is_number(digits, n as int),
                _ => false,
            },
            Bson::Int64(n) => match readable(value) {
                JsonView::Number(digits) => text::is_number(digits, n as int),
                _ => false,
            },
            Bson::Boolean(b) => readable(value) == JsonView::Bool(b),
            Bson::Text(t) => readable(value) == JsonView::Text(t@),
            Bson::Symbol(t) => readable(value) == JsonView::Text(t@),
            Bson::JavaScriptCode(code) => readable(value) == JsonView::Text(code@),
            Bson::ObjectId(bytes) => readable(value) == JsonView::Text(text::hex(bytes@)),
            Bson::RegularExpression { pattern, options } => readable(value) == JsonView::Text(
                "/"@ + pattern@ + "/"@ + options@,
            ),
            Bson::Decimal128(bytes) => readable(value) == JsonView::Text(decimal128(bytes@)),
            Bson::Binary(bytes) => readable(value) == JsonView::Text(standard_base64(bytes@)),
            Bson::DateTime(millis) => match rfc3339(millis as int) {
                Some(t) => readable(value) == JsonView::Text(t),
                None => match readable(value) {
                    JsonView::Text(digits) => text::is_number(digits, millis as int),
                    _ => false,
                },
            },
            Bson::Array(items) => match readable(value) {
                JsonView::Array(out) => {
                    &&& out.len() == items@.len()
                    &&& forall|i: int|
                        0 <= i < out.len() ==> #[trigger] out[i] == readable(items@[i])
                },
                _ => false,
            },
            Bson::Document(fields) => match readable(value) {
                JsonView::Object(out) => {
                    &&& out.len() == fields@.len()
                    &&& forall|i: int|
                        0 <= i < out.len() ==> (#[trigger] out[i]).0 == fields@[i].0@ && out[i].1
                            == readable(fields@[i].1)
                },
                _ => false,
            },
            _ => true,
        },
{
    match value {
        Bson::Int32(n) => {
            text::law_a_number_is_written_in_its_digits(n as int);
        },
        Bson::Int64(n) => {
            text::law_a_number_is_written_in_its_digits(n as int);
        },
        Bson::DateTime(n) => {
            text::law_a_number_is_written_in_its_digits(n as int);
        },
        _ => {},
    }
}

/// Every collection is shown but the server's own, once each and as what it is.
pub proof fn law_every_collection_but_the_servers_own_is_shown(
    listed: Seq<Collection>,
    schema: Seq<char>,
    i: int,
)
    requires
        0 <= i < listed.len(),
    ensures
        !text::starts_with(listed[i].name@, "system."@) ==> shown(listed, schema).contains(
            TableInfoView {
                schema,
                name: listed[i].name@,
                kind: if listed[i].is_view {
                    TableKind::View
                } else {
                    TableKind::Table
                },
            },
        ),
    decreases listed.len(),
{
    let before = shown(listed.drop_last(), schema);
    let all = shown(listed, schema);
    let wanted = TableInfoView {
        schema,
        name: listed[i].name@,
        kind: if listed[i].is_view {
            TableKind::View
        } else {
            TableKind::Table
        },
    };
    if !text::starts_with(listed[i].name@, "system."@) {
        if i == listed.len() - 1 {
            assert(all[all.len() - 1] == wanted);
        } else {
            law_every_collection_but_the_servers_own_is_shown(listed.drop_last(), schema, i);
            let k = before.index_of(wanted);
            assert(all[k] == wanted);
        }
    }
}

/// Nothing is shown that is no collection, and none of the server's own.
pub proof fn law_only_collections_are_shown(listed: Seq<Collection>, schema: Seq<char>, k: int)
    requires
        0 <= k < shown(listed, schema).len(),
    ensures
        shown(listed, schema)[k].schema == schema,
        !text::starts_with(shown(listed, schema)[k].name, "system."@),
        exists|i: int|
            0 <= i < listed.len() && (#[trigger] listed[i]).name@ == shown(listed, schema)[k].name
                && (listed[i].is_view <==> shown(listed, schema)[k].kind is View),
    decreases listed.len(),
{
    if listed.len() > 0 {
        let before = shown(listed.drop_last(), schema);
        if k < before.len() {
            law_only_collections_are_shown(listed.drop_last(), schema, k);
            let i = choose|i: int|
                0 <= i < listed.drop_last().len() && (#[trigger] listed.drop_last()[i]).name@
                    == before[k].name && (listed.drop_last()[i].is_view
                    <==> before[k].kind is View);
            assert(listed[i] == listed.drop_last()[i]);
        } else {
            assert(listed[listed.len() - 1] == listed.last());
        }
    }
}

/// The server's own databases come after everybody else's, and otherwise case does not
/// matter to the order.
pub proof fn law_the_servers_own_come_last(a: Seq<char>, b: Seq<char>)
    ensures
        is_system(a) <==> a == "admin"@ || a == "config"@ || a == "local"@,
        !is_system(a) && is_system(b) ==> goes_before(a, b) && !goes_before(b, a),
        is_system(a) == is_system(b) ==> (goes_before(a, b) <==> table::before(
            text::lowercase(a),
            text::lowercase(b),
        )),
{
}

/// A connection is encrypted as its source asked; only a source that asks for a checked
/// certificate has it checked.
pub proof fn law_a_connection_is_encrypted_as_asked(tls: TlsMode)
    ensures
        tls_for(tls) is Off <==> tls is Disable,
        tls_for(tls) is Checked <==> tls is Require,
        tls_for(tls) is Lenient <==> tls is Prefer || tls is TrustCertificate,
{
}

/// The number of documents that are read is the one that was set, where that is a number,
/// and the default otherwise.
pub proof fn law_the_limit_is_the_one_that_was_set(n: nat, other: Seq<char>)
    ensures
        n <= usize::MAX ==> documents_allowed(Some(text::decimal(n))) == n,
        documents_allowed(None) == MAX_DOCUMENTS,
        text::number(other) is None ==> documents_allowed(Some(other)) == MAX_DOCUMENTS,
{
    text::lemma_decimal(n);
}

/// A character that is safe in a file's name stays what it is.
pub proof fn law_a_safe_name_stays_as_it_is(name: Seq<char>)
    requires
        forall|i: int|
            0 <= i < name.len() ==> text::is_ascii_letter(#[trigger] name[i])
                || text::is_ascii_digit(name[i]) || name[i] == '-' || name[i] == '_',
    ensures
        safe(name) == name,
{
    assert(safe(name) =~= name);
}

/// A connection is opened as its source says, as its user where it has one; any other sign-in
/// is refused.
pub proof fn law_a_connection_is_opened_as_its_source_says(
    config: &SourceConfig,
    r: Result<ClientOptions, Error>,
)
    requires
        call_ensures(client_options, (config,), r),
    ensures
        r is Ok <==> config@.auth is Password || config@.auth is NoAuth,
        r matches Ok(o) ==> {
            &&& o.host@ == config@.host
            &&& config@.port matches Some(p) ==> o.port == p
            &&& config@.auth is NoAuth <==> o.credential is None
            &&& config@.auth is Password ==> (o.credential matches Some((user, password, kept))
                && config@.auth == (AuthConfigView::Password {
                username: user@,
                password: password@,
            }) && kept@ == "admin"@)
        },
{
}

/// A collection is defined as every document that was written out of it.
pub proof fn law_a_collection_is_defined_as_its_documents(
    schema: &str,
    dumped: &Ndjson,
    r: String,
)
    requires
        call_ensures(define, (schema, dumped), r),
    ensures
        r@ == "CREATE OR REPLACE VIEW "@ + quote::identifier(schema@) + "."@ + quote::identifier(
            dumped.name@,
        ) + " AS SELECT * FROM read_json("@ + quote::literal(tree::slashed(dumped.file@)) + ");"@,
{
}

/// A sample stops quietly at its size; without one a collection is written whole, or refused
/// where it is too large, and never cut short.
pub proof fn law_a_collection_is_whole_or_refused(
    written: usize,
    sample: Option<usize>,
    cap: usize,
    collection: &str,
    r: Result<bool, Error>,
)
    requires
        call_ensures(writes_another, (written, sample, cap, collection), r),
    ensures
        sample matches Some(limit) ==> r == Ok::<bool, Error>(written < limit),
        sample is None && written < cap ==> r == Ok::<bool, Error>(true),
        sample is None && written >= cap ==> r is Err,
{
}

} // verus!
