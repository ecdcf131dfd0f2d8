//! Opening an engine session, and closing every door behind it.
//!
//! An engine that can read and write any file and load any extension must not answer a
//! user's query unconfined. What it may touch is granted first, then external access is
//! turned off, and then the configuration is locked so that no query can undo any of it.

use crate::federation::attach::{Attachment, AttachmentView};
use crate::federation::quote;
use crate::model::ColumnInfo;
use crate::text;
use vstd::prelude::*;
use vstd::string::*;

verus! {

// ------------------------------------------------------------------------- grants

/// What a session is allowed to touch on the filesystem.
///
/// Both lists are exceptions: everything else is refused because external access is
/// off. `files` exists so that a source pointing at one spreadsheet does not have to be
/// granted the directory it happens to sit in.
#[derive(Debug, Clone)]
pub struct Sandbox {
    pub directories: Vec<String>,
    pub files: Vec<String>,
}

#[verifier::ext_equal]
pub struct SandboxView {
    pub directories: Seq<Seq<char>>,
    pub files: Seq<Seq<char>>,
}

impl View for Sandbox {
    type V = SandboxView;

    open spec fn view(&self) -> SandboxView {
        SandboxView { directories: text::views(self.directories@), files: text::views(self.files@) }
    }
}

impl Default for Sandbox {
    fn default() -> (r: Sandbox)
        ensures
            r@.directories.len() == 0,
            r@.files.len() == 0,
    {
        Sandbox { directories: Vec::new(), files: Vec::new() }
    }
}

/// `a`, and then what of `b` is not in it yet.
pub open spec fn absorbed(a: Seq<Seq<char>>, b: Seq<Seq<char>>) -> Seq<Seq<char>>
    decreases b.len(),
{
    if b.len() == 0 {
        a
    } else {
        let before = absorbed(a, b.drop_last());
        if before.contains(b.last()) {
            before
        } else {
            before.push(b.last())
        }
    }
}

/// Whether a list has an item.
pub fn is_listed(list: &Vec<String>, item: &str) -> (r: bool)
    ensures
        r == text::views(list@).contains(item@),
{
    let mut i: usize = 0;
    while i < list.len()
        invariant
            i <= list.len(),
            forall|j: int| 0 <= j < i ==> (#[trigger] list@[j])@ != item@,
        decreases list.len() - i,
    {
        if text::same(&list[i], item) {
            assert(text::views(list@)[i as int] == item@);
            return true;
        }
        i = i + 1;
    }
    assert(!text::views(list@).contains(item@));
    false
}

fn absorb_all(list: &mut Vec<String>, more: Vec<String>)
    ensures
        text::views(final(list)@) == absorbed(text::views(old(list)@), text::views(more@)),
{
    let ghost all = text::views(more@);
    let mut i: usize = 0;
    assert(all.take(0) == Seq::<Seq<char>>::empty());
    while i < more.len()
        invariant
            i <= more.len(),
            all == text::views(more@),
            text::views(list@) == absorbed(text::views(old(list)@), all.take(i as int)),
        decreases more.len() - i,
    {
        assert(all.take(i as int + 1).drop_last() == all.take(i as int));
        if !is_listed(list, &more[i]) {
            let ghost before = text::views(list@);
            list.push(more[i].clone());
            assert(text::views(list@) == before.push(all[i as int]));
        }
        i = i + 1;
    }
    assert(all.take(i as int) == all);
}

impl Sandbox {
    pub fn directory(root: String) -> (r: Sandbox)
        ensures
            r@ == (SandboxView { directories: seq![root@], files: Seq::empty() }),
    {
        let mut directories: Vec<String> = Vec::new();
        directories.push(root);
        let r = Sandbox { directories, files: Vec::new() };
        assert(r@.directories =~= seq![root@]);
        assert(r@.files =~= Seq::empty());
        r
    }

    pub fn file(path: String) -> (r: Sandbox)
        ensures
            r@ == (SandboxView { directories: Seq::empty(), files: seq![path@] }),
    {
        let mut files: Vec<String> = Vec::new();
        files.push(path);
        let r = Sandbox { directories: Vec::new(), files };
        assert(r@.files =~= seq![path@]);
        assert(r@.directories =~= Seq::empty());
        r
    }

    /// Take in another grant. A federated buffer may name several folder sources, and
    /// the session needs every one of them.
    pub fn absorb(&mut self, other: Sandbox)
        ensures
            final(self)@.directories == absorbed(old(self)@.directories, other@.directories),
            final(self)@.files == absorbed(old(self)@.files, other@.files),
    {
        let Sandbox { directories, files } = other;
        absorb_all(&mut self.directories, directories);
        absorb_all(&mut self.files, files);
    }
}

/// Absorbing a grant gives what either gave and nothing else, keeps what was there in
/// its place, and repeats nothing.
pub proof fn law_absorbing_grants_both_and_no_more(a: Seq<Seq<char>>, b: Seq<Seq<char>>)
    ensures
        forall|path: Seq<char>|
            #[trigger] absorbed(a, b).contains(path) <==> a.contains(path) || b.contains(path),
        absorbed(a, b).len() >= a.len(),
        absorbed(a, b).take(a.len() as int) == a,
        a.no_duplicates() ==> absorbed(a, b).no_duplicates(),
    decreases b.len(),
{
    if b.len() == 0 {
        assert(a.take(a.len() as int) == a);
    } else {
        let before = absorbed(a, b.drop_last());
        law_absorbing_grants_both_and_no_more(a, b.drop_last());
        let all = absorbed(a, b);
        assert(b == b.drop_last().push(b.last()));
        assert(b.contains(b.last())) by {
            assert(b[b.len() - 1] == b.last());
        }
        assert forall|path: Seq<char>| #[trigger] all.contains(path) <==> a.contains(path)
            || b.contains(path) by {
            assert(before.contains(path) <==> a.contains(path) || b.drop_last().contains(path));
            if b.contains(path) {
                let k = choose|k: int| 0 <= k < b.len() && b[k] == path;
                if k < b.len() - 1 {
                    assert(b.drop_last()[k] == path);
                }
            }
            if b.drop_last().contains(path) {
                let k = choose|k: int|
                    0 <= k < b.drop_last().len() && b.drop_last()[k] == path;
                assert(b[k] == path);
            }
            if before.contains(path) {
                let k = choose|k: int| 0 <= k < before.len() && before[k] == path;
                assert(all[k] == path);
            }
            if !before.contains(b.last()) {
                assert(all[before.len() as int] == b.last());
            }
        }
        assert(all.take(a.len() as int) == before.take(a.len() as int));
    }
}

// --------------------------------------------------------------------- extensions

/// Extensions that are linked in, so reaching them touches no network.
pub open spec fn linked_extensions() -> Seq<Seq<char>> {
    seq!["parquet"@, "json"@]
}

pub open spec fn load_sql(extension: Seq<char>) -> Seq<char> {
    "LOAD "@ + extension + ";"@
}

/// What loads an extension that is there already. Tried first: after the first time
/// there is nothing to fetch.
pub fn load_statement(extension: &str) -> (r: String)
    ensures
        r@ == load_sql(extension@),
{
    "LOAD ".to_owned().concat(extension).concat(";")
}

pub open spec fn install_sql(extension: Seq<char>, repository: Option<Seq<char>>) -> Seq<char> {
    "INSTALL "@ + extension + (match repository {
        Some(repository) => " FROM "@ + repository,
        None => ""@,
    }) + "; LOAD "@ + extension + ";"@
}

/// What fetches an extension and loads it. It reaches the network.
pub fn install_statement(extension: &str, repository: Option<&str>) -> (r: String)
    ensures
        r@ == install_sql(extension@, text::opt_str(repository)),
{
    let from = match repository {
        Some(repository) => " FROM ".to_owned().concat(repository),
        None => "".to_owned(),
    };
    "INSTALL ".to_owned().concat(extension).concat(&from).concat("; LOAD ").concat(
        extension,
    ).concat(";")
}

pub open spec fn install_failure(extension: Seq<char>, community: bool, why: Seq<char>) -> Seq<
    char,
> {
    "cannot install DuckDB's `"@ + extension
        + "` extension, which is what reads this source: "@ + why + if community {
        " It is a community extension, so it may not be published for this DuckDB version and platform."@
    } else {
        ""@
    }
}

/// What to say when fetching an extension failed.
pub fn install_refused(extension: &str, repository: Option<&str>, why: &str) -> (r: String)
    ensures
        r@ == install_failure(extension@, repository is Some, why@),
{
    let note = match repository {
        Some(_) =>
            " It is a community extension, so it may not be published for this DuckDB version and platform.",
        None => "",
    };
    "cannot install DuckDB's `".to_owned().concat(extension).concat(
        "` extension, which is what reads this source: ",
    ).concat(why).concat(note)
}

// ------------------------------------------------------------------------- orders

/// One thing to do with a connection that has just been opened, in the order given.
#[derive(Debug)]
pub enum Order {
    /// Have the extension there: load it, or else install it and load it.
    Fetch { extension: String, repository: Option<String> },
    /// Run one statement of an attachment. What fails is reported by the alias alone:
    /// the statement may hold a secret.
    Attach { alias: String, statement: String },
    /// Run it, and go on if it fails.
    Try { sql: String },
    /// Run it; what fails is reported behind `blame`, never with the text itself.
    Secure { sql: String, blame: String },
}

pub enum OrderView {
    Fetch { extension: Seq<char>, repository: Option<Seq<char>> },
    Attach { alias: Seq<char>, statement: Seq<char> },
    Try { sql: Seq<char> },
    Secure { sql: Seq<char>, blame: Seq<char> },
}

impl View for Order {
    type V = OrderView;

    open spec fn view(&self) -> OrderView {
        match *self {
            Order::Fetch { extension, repository } => OrderView::Fetch {
                extension: extension@,
                repository: text::opt(repository),
            },
            Order::Attach { alias, statement } => OrderView::Attach {
                alias: alias@,
                statement: statement@,
            },
            Order::Try { sql } => OrderView::Try { sql: sql@ },
            Order::Secure { sql, blame } => OrderView::Secure { sql: sql@, blame: blame@ },
        }
    }
}

pub open spec fn orders_view(orders: Seq<Order>) -> Seq<OrderView> {
    Seq::new(orders.len(), |i: int| orders[i]@)
}

pub open spec fn attach_failure(alias: Seq<char>, why: Seq<char>) -> Seq<char> {
    "@attach "@ + alias + ": "@ + why
}

/// What to say when a statement of an attachment failed: the alias is enough to say
/// which line went wrong.
pub fn attach_refused(alias: &str, why: &str) -> (r: String)
    ensures
        r@ == attach_failure(alias@, why@),
{
    "@attach ".to_owned().concat(alias).concat(": ").concat(why)
}

/// Everything a confined session may be opened with.
pub struct Setup<'a> {
    pub sandbox: &'a Sandbox,
    /// Created and put on the search path, so a bare name resolves there.
    pub schema: Option<&'a str>,
    /// Fetched before the door shuts.
    pub extensions: &'a Vec<String>,
    /// Servers to attach. Their extensions need not be listed above.
    pub attachments: &'a Vec<Attachment>,
    /// Where the engine may write what will not fit in memory. Without one, an
    /// oversized query is an out-of-memory error instead.
    pub spill: Option<&'a str>,
}

pub open spec fn schema_sql(schema: Option<Seq<char>>) -> Seq<char> {
    match schema {
        Some(schema) => "CREATE SCHEMA IF NOT EXISTS "@ + quote::identifier(schema)
            + ";\nSET search_path = "@ + quote::literal(schema) + ";\n"@,
        None => ""@,
    }
}

fn schema_statement(schema: Option<&str>) -> (r: String)
    ensures
        r@ == schema_sql(text::opt_str(schema)),
{
    match schema {
        Some(schema) => "CREATE SCHEMA IF NOT EXISTS ".to_owned().concat(
            &quote::quote_identifier(schema),
        ).concat(";\nSET search_path = ").concat(&quote::quote_literal(schema)).concat(";\n"),
        None => "".to_owned(),
    }
}

pub open spec fn grant_sql(setting: Seq<char>, paths: Seq<Seq<char>>) -> Seq<char> {
    if paths.len() == 0 {
        ""@
    } else {
        "SET "@ + setting + " = ["@ + quote::literals(paths) + "];\n"@
    }
}

fn grant_statement(setting: &str, paths: &Vec<String>) -> (r: String)
    ensures
        r@ == grant_sql(setting@, text::views(paths@)),
{
    if paths.len() == 0 {
        "".to_owned()
    } else {
        "SET ".to_owned().concat(setting).concat(" = [").concat(&quote::quoted_list(paths)).concat(
            "];\n",
        )
    }
}

pub open spec fn spill_sql(spill: Option<Seq<char>>) -> Seq<char> {
    match spill {
        Some(path) => "SET temp_directory = "@ + quote::literal(path) + ";\n"@,
        None => ""@,
    }
}

fn spill_statement(spill: Option<&str>) -> (r: String)
    ensures
        r@ == spill_sql(text::opt_str(spill)),
{
    match spill {
        Some(path) => "SET temp_directory = ".to_owned().concat(
            &quote::quote_literal(path),
        ).concat(";\n"),
        None => "".to_owned(),
    }
}

/// Nothing may be fetched, and no setting may be changed any more.
pub const LOCK: &'static str = "SET allow_community_extensions = false;\nSET allow_unsigned_extensions = false;\nSET autoinstall_known_extensions = false;\nSET autoload_known_extensions = false;\nSET lock_configuration = true;\n";

/// The line that enforces the grants. The lists of what is allowed are exceptions to it
/// and do nothing on their own.
pub const SHUT: &'static str = "SET enable_external_access = false;\n";

/// The lists have to be set before external access is turned off: they cannot be
/// changed afterwards, which is the point.
pub open spec fn secure_sql(
    schema: Option<Seq<char>>,
    sandbox: SandboxView,
    spill: Option<Seq<char>>,
) -> Seq<char> {
    schema_sql(schema) + grant_sql("allowed_directories"@, sandbox.directories) + grant_sql(
        "allowed_paths"@,
        sandbox.files,
    ) + spill_sql(spill) + SHUT@ + LOCK@
}

pub open spec fn fetches(extensions: Seq<Seq<char>>) -> Seq<OrderView> {
    Seq::new(
        extensions.len(),
        |i: int| OrderView::Fetch { extension: extensions[i], repository: None },
    )
}

/// An attachment's extension, then its two statements.
pub open spec fn attaching(a: AttachmentView) -> Seq<OrderView> {
    seq![
        OrderView::Fetch {
            extension: a.engine.extension_name(),
            repository: if a.engine.from_community() {
                Some("community"@)
            } else {
                None
            },
        },
        OrderView::Attach { alias: a.alias, statement: a.secret },
        OrderView::Attach { alias: a.alias, statement: a.attach },
    ]
}

pub open spec fn attachings(attachments: Seq<Attachment>) -> Seq<OrderView>
    decreases attachments.len(),
{
    if attachments.len() == 0 {
        Seq::empty()
    } else {
        attachings(attachments.drop_last()) + attaching(attachments.last()@)
    }
}

/// The extensions that are linked in may be loaded already: what proves they work is a
/// query, not this.
pub open spec fn linked() -> Seq<OrderView> {
    Seq::new(
        linked_extensions().len(),
        |i: int| OrderView::Try { sql: load_sql(linked_extensions()[i]) },
    )
}

/// What opening a session takes, in the only order that works: what needs the network
/// first, then the grants, then the door, then the lock.
pub open spec fn opening(
    schema: Option<Seq<char>>,
    sandbox: SandboxView,
    extensions: Seq<Seq<char>>,
    attachments: Seq<Attachment>,
    spill: Option<Seq<char>>,
) -> Seq<OrderView> {
    (fetches(extensions) + attachings(attachments) + linked()).push(
        OrderView::Secure {
            sql: secure_sql(schema, sandbox, spill),
            blame: "could not secure the DuckDB session: "@,
        },
    )
}

fn fetch_all(extensions: &Vec<String>, orders: &mut Vec<Order>)
    ensures
        orders_view(final(orders)@) == orders_view(old(orders)@) + fetches(
            text::views(extensions@),
        ),
{
    let ghost start = orders_view(orders@);
    let ghost all = text::views(extensions@);
    let mut i: usize = 0;
    assert(start + fetches(all.take(0)) == start);
    while i < extensions.len()
        invariant
            i <= extensions.len(),
            all == text::views(extensions@),
            orders_view(orders@) == start + fetches(all.take(i as int)),
        decreases extensions.len() - i,
    {
        let ghost before = orders_view(orders@);
        orders.push(Order::Fetch { extension: extensions[i].clone(), repository: None });
        assert(orders_view(orders@) == before.push(
            OrderView::Fetch { extension: all[i as int], repository: None },
        ));
        assert(fetches(all.take(i as int + 1)) == fetches(all.take(i as int)).push(
            OrderView::Fetch { extension: all[i as int], repository: None },
        ));
        i = i + 1;
    }
    assert(all.take(i as int) == all);
}

/// What attaching one server takes.
pub fn attach_one(attachment: &Attachment, orders: &mut Vec<Order>)
    ensures
        orders_view(final(orders)@) == orders_view(old(orders)@) + attaching(attachment@),
{
    let ghost start = orders_view(orders@);
    let engine = attachment.engine;
    orders.push(
        Order::Fetch {
            extension: engine.extension().to_owned(),
            repository: text::own_opt(engine.repository()),
        },
    );
    let statements = attachment.statements();
    orders.push(
        Order::Attach {
            alias: attachment.alias.clone(),
            statement: statements[0].to_owned(),
        },
    );
    orders.push(
        Order::Attach {
            alias: attachment.alias.clone(),
            statement: statements[1].to_owned(),
        },
    );
    assert(orders_view(orders@) == start + attaching(attachment@));
}

/// What opening a session takes.
///
/// An attachment made before external access is turned off keeps working afterwards, so
/// attaching a server costs no confinement.
pub fn open_duckdb_with(setup: Setup<'_>) -> (r: Vec<Order>)
    ensures
        orders_view(r@) == opening(
            text::opt_str(setup.schema),
            setup.sandbox@,
            text::views(setup.extensions@),
            setup.attachments@,
            text::opt_str(setup.spill),
        ),
{
    let Setup { sandbox, schema, extensions, attachments, spill } = setup;
    let mut orders: Vec<Order> = Vec::new();
    assert(orders_view(orders@) == Seq::<OrderView>::empty());
    fetch_all(extensions, &mut orders);
    let ghost fetched = fetches(text::views(extensions@));
    assert(orders_view(orders@) == fetched);
    let mut i: usize = 0;
    assert(attachments@.take(0) == Seq::<Attachment>::empty());
    assert(fetched + attachings(attachments@.take(0)) == fetched);
    while i < attachments.len()
        invariant
            i <= attachments.len(),
            orders_view(orders@) == fetched + attachings(attachments@.take(i as int)),
        decreases attachments.len() - i,
    {
        attach_one(&attachments[i], &mut orders);
        let ghost next = attachments@.take(i as int + 1);
        assert(next.drop_last() == attachments@.take(i as int));
        assert(fetched + attachings(next) == fetched + attachings(attachments@.take(i as int))
            + attaching(attachments@[i as int]@));
        i = i + 1;
    }
    assert(attachments@.take(i as int) == attachments@);
    let ghost before = orders_view(orders@);
    orders.push(Order::Try { sql: load_statement("parquet") });
    orders.push(Order::Try { sql: load_statement("json") });
    assert(orders_view(orders@) == before + linked());
    let sql = schema_statement(schema).concat(
        &grant_statement("allowed_directories", &sandbox.directories),
    ).concat(&grant_statement("allowed_paths", &sandbox.files)).concat(
        &spill_statement(spill),
    ).concat(SHUT).concat(LOCK);
    let ghost ready = orders_view(orders@);
    orders.push(
        Order::Secure { sql, blame: "could not secure the DuckDB session: ".to_owned() },
    );
    assert(orders_view(orders@) == ready.push(orders@.last()@));
    orders
}

/// [`open_duckdb_with`], having first fetched extensions the source cannot be read
/// without.
pub fn open_duckdb_needing(
    sandbox: &Sandbox,
    schema: Option<&str>,
    extensions: &Vec<String>,
) -> (r: Vec<Order>)
    ensures
        orders_view(r@) == opening(
            text::opt_str(schema),
            sandbox@,
            text::views(extensions@),
            Seq::empty(),
            None,
        ),
{
    let attachments: Vec<Attachment> = Vec::new();
    open_duckdb_with(Setup { sandbox, schema, extensions, attachments: &attachments, spill: None })
}

/// [`open_duckdb`], with `schema` created and made the default one. It has to happen
/// here: the search path is a setting, so nothing may change it afterwards.
pub fn open_duckdb_in(sandbox: &Sandbox, schema: Option<&str>) -> (r: Vec<Order>)
    ensures
        orders_view(r@) == opening(
            text::opt_str(schema),
            sandbox@,
            Seq::empty(),
            Seq::empty(),
            None,
        ),
{
    let extensions: Vec<String> = Vec::new();
    assert(text::views(extensions@) == Seq::<Seq<char>>::empty());
    open_duckdb_needing(sandbox, schema, &extensions)
}

/// What opening a session that may touch what `sandbox` grants takes.
pub fn open_duckdb(sandbox: &Sandbox) -> (r: Vec<Order>)
    ensures
        orders_view(r@) == opening(None, sandbox@, Seq::empty(), Seq::empty(), None),
{
    open_duckdb_in(sandbox, None)
}

// -------------------------------------------------------------------------- azure

/// What an Azure storage session needs to reach the account, and nothing else. What may
/// be shown of it is [`AzureAccess::redacted`].
#[derive(Clone)]
pub struct AzureAccess {
    /// The storage account the secret is for.
    pub account: String,
    /// A bearer token for storage.
    pub token: String,
    /// What the explorer shows where a server shows a database.
    pub catalogue: String,
}

impl AzureAccess {
    pub fn redacted(&self) -> (r: String)
        ensures
            r@ == "AzureAccess { account: "@ + text::debug_text(self.account@) + ", catalogue: "@
                + text::debug_text(self.catalogue@) + ", token: \"<redacted>\" }"@,
    {
        "AzureAccess { account: ".to_owned().concat(&text::debug_of(&self.account)).concat(
            ", catalogue: ",
        ).concat(&text::debug_of(&self.catalogue)).concat(", token: \"<redacted>\" }")
    }
}

/// External access has to stay on to reach the account, so the local filesystem is shut
/// instead.
pub const SHUT_LOCAL: &'static str = "SET disabled_filesystems = 'LocalFileSystem';\n";

/// A secret rather than a setting: it is scoped to the account named here, so the
/// session can reach that one and no other.
pub open spec fn azure_sql(schema: Option<Seq<char>>, token: Seq<char>, account: Seq<char>) -> Seq<
    char,
> {
    schema_sql(schema)
        + "CREATE SECRET alkyon_azure (TYPE azure, PROVIDER access_token, ACCESS_TOKEN "@
        + quote::literal(token) + ", ACCOUNT_NAME "@ + quote::literal(account) + ");\n"@
        + SHUT_LOCAL@ + LOCK@
}

pub open spec fn azure_opening(
    schema: Option<Seq<char>>,
    token: Seq<char>,
    account: Seq<char>,
    extensions: Seq<Seq<char>>,
) -> Seq<OrderView> {
    (fetches(seq!["azure"@]) + fetches(extensions)).push(
        OrderView::Secure {
            sql: azure_sql(schema, token, account),
            blame: "could not secure the Azure DuckDB session: "@,
        },
    )
}

/// What opening a session that can read one Azure storage account, and no local file,
/// takes.
pub fn open_duckdb_azure(
    access: &AzureAccess,
    schema: Option<&str>,
    extensions: &Vec<String>,
) -> (r: Vec<Order>)
    ensures
        orders_view(r@) == azure_opening(
            text::opt_str(schema),
            access.token@,
            access.account@,
            text::views(extensions@),
        ),
{
    let mut orders: Vec<Order> = Vec::new();
    orders.push(Order::Fetch { extension: "azure".to_owned(), repository: None });
    assert(orders_view(orders@) == fetches(seq!["azure"@]));
    fetch_all(extensions, &mut orders);
    let ghost before = orders_view(orders@);
    let sql = schema_statement(schema).concat(
        "CREATE SECRET alkyon_azure (TYPE azure, PROVIDER access_token, ACCESS_TOKEN ",
    ).concat(&quote::quote_literal(&access.token)).concat(", ACCOUNT_NAME ").concat(
        &quote::quote_literal(&access.account),
    ).concat(");\n").concat(SHUT_LOCAL).concat(LOCK);
    orders.push(
        Order::Secure { sql, blame: "could not secure the Azure DuckDB session: ".to_owned() },
    );
    assert(orders_view(orders@) == before.push(orders@.last()@));
    orders
}

// --------------------------------------------------------------------------- laws

/// Whatever a session is opened with, the last thing done shuts the door and then locks
/// it, and nothing before it does either.
pub proof fn law_the_lock_comes_last(
    schema: Option<Seq<char>>,
    sandbox: SandboxView,
    extensions: Seq<Seq<char>>,
    attachments: Seq<Attachment>,
    spill: Option<Seq<char>>,
)
    ensures
        ({
            let orders = opening(schema, sandbox, extensions, attachments, spill);
            &&& orders.len() > 0
            &&& orders.last() matches OrderView::Secure { sql, .. } && text::ends_with(
                sql,
                SHUT@ + LOCK@,
            )
            &&& forall|i: int|
                0 <= i < orders.len() - 1 ==> !((#[trigger] orders[i]) is Secure)
        }),
{
    let orders = opening(schema, sandbox, extensions, attachments, spill);
    let head = schema_sql(schema) + grant_sql("allowed_directories"@, sandbox.directories)
        + grant_sql("allowed_paths"@, sandbox.files) + spill_sql(spill);
    let sql = secure_sql(schema, sandbox, spill);
    assert(sql == head + (SHUT@ + LOCK@));
    assert(sql.skip(sql.len() - (SHUT@ + LOCK@).len()) == SHUT@ + LOCK@);
    lemma_attachings(attachments);
}

/// An Azure session ends by shutting the local filesystem and locking the configuration,
/// and nothing follows.
pub proof fn law_an_azure_session_is_locked_last(
    schema: Option<Seq<char>>,
    token: Seq<char>,
    account: Seq<char>,
    extensions: Seq<Seq<char>>,
)
    ensures
        ({
            let orders = azure_opening(schema, token, account, extensions);
            &&& orders.len() > 0
            &&& orders.last() matches OrderView::Secure { sql, .. } && text::ends_with(
                sql,
                SHUT_LOCAL@ + LOCK@,
            )
            &&& forall|i: int| 0 <= i < orders.len() - 1 ==> (#[trigger] orders[i]) is Fetch
        }),
{
    let sql = azure_sql(schema, token, account);
    let head = schema_sql(schema)
        + "CREATE SECRET alkyon_azure (TYPE azure, PROVIDER access_token, ACCESS_TOKEN "@
        + quote::literal(token) + ", ACCOUNT_NAME "@ + quote::literal(account) + ");\n"@;
    assert(sql == head + (SHUT_LOCAL@ + LOCK@));
    assert(sql.skip(sql.len() - (SHUT_LOCAL@ + LOCK@).len()) == SHUT_LOCAL@ + LOCK@);
}

proof fn lemma_attachings(attachments: Seq<Attachment>)
    ensures
        forall|i: int|
            0 <= i < attachings(attachments).len() ==> !((#[trigger] attachings(
                attachments,
            )[i]) is Secure),
    decreases attachments.len(),
{
    if attachments.len() > 0 {
        lemma_attachings(attachments.drop_last());
        let before = attachings(attachments.drop_last());
        let all = attachings(attachments);
        assert forall|i: int| 0 <= i < all.len() implies !((#[trigger] all[i]) is Secure) by {
            if i < before.len() {
                assert(all[i] == before[i]);
            } else {
                assert(all[i] == attaching(attachments.last()@)[i - before.len()]);
            }
        }
    }
}

// ---------------------------------------------------------------------- describing

pub open spec fn describe_sql(schema: Seq<char>, relation: Seq<char>) -> Seq<char> {
    "DESCRIBE SELECT * FROM "@ + quote::identifier(schema) + "."@ + quote::identifier(relation)
}

/// What asks for the columns of a relation.
pub fn describe_statement(schema: &str, relation: &str) -> (r: String)
    ensures
        r@ == describe_sql(schema@, relation@),
{
    "DESCRIBE SELECT * FROM ".to_owned().concat(&quote::quote_identifier(schema)).concat(
        ".",
    ).concat(&quote::quote_identifier(relation))
}

/// A column the engine named, at that place. Nothing is a key and anything may be
/// missing.
pub open spec fn is_described(column: ColumnInfo, name: Seq<char>, kind: Seq<char>, ordinal: int) -> bool {
    &&& column.name@ == name
    &&& column.ordinal == ordinal
    &&& column.data_type@ == text::lowercase(kind)
    &&& column.nullable
    &&& !column.is_primary_key
    &&& column.default is None
}

/// The columns the engine reports for a relation, from the name and the type of each.
pub fn describe_view(rows: Vec<(String, String)>) -> (r: Vec<ColumnInfo>)
    requires
        rows@.len() < i32::MAX,
    ensures
        r@.len() == rows@.len(),
        forall|i: int|
            0 <= i < r@.len() ==> is_described(
                #[trigger] r@[i],
                rows@[i].0@,
                rows@[i].1@,
                i + 1,
            ),
{
    let mut columns: Vec<ColumnInfo> = Vec::new();
    let mut i: usize = 0;
    while i < rows.len()
        invariant
            i <= rows.len(),
            rows@.len() < i32::MAX,
            columns@.len() == i,
            forall|j: int|
                0 <= j < i ==> is_described(
                    #[trigger] columns@[j],
                    rows@[j].0@,
                    rows@[j].1@,
                    j + 1,
                ),
        decreases rows.len() - i,
    {
        columns.push(
            ColumnInfo {
                name: rows[i].0.clone(),
                ordinal: i as i32 + 1,
                data_type: text::to_lowercase(&rows[i].1),
                nullable: true,
                is_primary_key: false,
                default: None,
            },
        );
        i = i + 1;
    }
    columns
}

/// A session may read the directories and the files it was granted, and nothing else: both
/// lists are set, each where it has anything in it, before access is shut and the
/// configuration locked, so that no statement that comes later can widen them.
pub proof fn law_a_session_reads_what_it_was_granted(
    schema: Option<Seq<char>>,
    sandbox: SandboxView,
    spill: Option<Seq<char>>,
)
    ensures
        ({
            let named = match schema {
                Some(s) => "CREATE SCHEMA IF NOT EXISTS "@ + quote::identifier(s)
                    + ";\nSET search_path = "@ + quote::literal(s) + ";\n"@,
                None => ""@,
            };
            let directories = if sandbox.directories.len() == 0 {
                ""@
            } else {
                "SET allowed_directories = ["@ + quote::literals(sandbox.directories) + "];\n"@
            };
            let files = if sandbox.files.len() == 0 {
                ""@
            } else {
                "SET allowed_paths = ["@ + quote::literals(sandbox.files) + "];\n"@
            };
            let temporary = match spill {
                Some(path) => "SET temp_directory = "@ + quote::literal(path) + ";\n"@,
                None => ""@,
            };
            secure_sql(schema, sandbox, spill) == named + directories + files + temporary
                + "SET enable_external_access = false;\n"@
                + "SET allow_community_extensions = false;\nSET allow_unsigned_extensions = false;\nSET autoinstall_known_extensions = false;\nSET autoload_known_extensions = false;\nSET lock_configuration = true;\n"@
        }),
{
    reveal_strlit("SET ");
    reveal_strlit(" = [");
    reveal_strlit("allowed_directories");
    reveal_strlit("allowed_paths");
    reveal_strlit("SET allowed_directories = [");
    reveal_strlit("SET allowed_paths = [");
    assert("SET allowed_directories = ["@ == "SET "@ + "allowed_directories"@ + " = ["@);
    assert("SET allowed_paths = ["@ == "SET "@ + "allowed_paths"@ + " = ["@);
}

/// An Azure session holds the one token it was given for the one account, and cannot reach
/// this machine's files.
pub proof fn law_an_azure_session_reads_one_account(
    schema: Option<Seq<char>>,
    token: Seq<char>,
    account: Seq<char>,
)
    ensures
        azure_sql(schema, token, account) == schema_sql(schema)
            + "CREATE SECRET alkyon_azure (TYPE azure, PROVIDER access_token, ACCESS_TOKEN "@
            + quote::literal(token) + ", ACCOUNT_NAME "@ + quote::literal(account) + ");\n"@
            + "SET disabled_filesystems = 'LocalFileSystem';\n"@
            + "SET allow_community_extensions = false;\nSET allow_unsigned_extensions = false;\nSET autoinstall_known_extensions = false;\nSET autoload_known_extensions = false;\nSET lock_configuration = true;\n"@,
{
}

proof fn lemma_attachings_len(attachments: Seq<Attachment>)
    ensures
        attachings(attachments).len() == 3 * attachments.len(),
    decreases attachments.len(),
{
    if attachments.len() > 0 {
        lemma_attachings_len(attachments.drop_last());
    }
}

proof fn lemma_attachings_at(attachments: Seq<Attachment>, k: int)
    requires
        0 <= k < attachments.len(),
    ensures
        attachings(attachments)[3 * k] == attaching(attachments[k]@)[0],
        attachings(attachments)[3 * k + 1] == attaching(attachments[k]@)[1],
        attachings(attachments)[3 * k + 2] == attaching(attachments[k]@)[2],
        attachings(attachments).len() == 3 * attachments.len(),
    decreases attachments.len(),
{
    lemma_attachings_len(attachments);
    lemma_attachings_len(attachments.drop_last());
    if k < attachments.len() - 1 {
        lemma_attachings_at(attachments.drop_last(), k);
    }
}

/// A session is opened with everything it was asked for and nothing more: each extension
/// is fetched, each server has its extension fetched, its credential created and is then
/// attached, in that order, and the formats are loaded, all before the lock.
pub proof fn law_a_session_opens_with_what_it_needs(
    schema: Option<Seq<char>>,
    sandbox: SandboxView,
    extensions: Seq<Seq<char>>,
    attachments: Seq<Attachment>,
    spill: Option<Seq<char>>,
)
    ensures
        ({
            let orders = opening(schema, sandbox, extensions, attachments, spill);
            let n = extensions.len() as int;
            let m = n + 3 * attachments.len();
            &&& orders.len() == m + 3
            &&& forall|i: int|
                0 <= i < n ==> #[trigger] orders[i] == (OrderView::Fetch {
                    extension: extensions[i],
                    repository: None,
                })
            &&& forall|k: int|
                #![trigger attachments[k]]
                0 <= k < attachments.len() ==> {
                    let a = attachments[k]@;
                    &&& orders[n + 3 * k] == (OrderView::Fetch {
                        extension: a.engine.extension_name(),
                        repository: if a.engine is MsSql {
                            Some("community"@)
                        } else {
                            None
                        },
                    })
                    &&& orders[n + 3 * k + 1] == (OrderView::Attach {
                        alias: a.alias,
                        statement: a.secret,
                    })
                    &&& orders[n + 3 * k + 2] == (OrderView::Attach {
                        alias: a.alias,
                        statement: a.attach,
                    })
                }
            &&& orders[m] == (OrderView::Try { sql: "LOAD parquet;"@ })
            &&& orders[m + 1] == (OrderView::Try { sql: "LOAD json;"@ })
            &&& orders[m + 2] == (OrderView::Secure {
                sql: secure_sql(schema, sandbox, spill),
                blame: "could not secure the DuckDB session: "@,
            })
        }),
{
    let orders = opening(schema, sandbox, extensions, attachments, spill);
    let n = extensions.len() as int;
    let m = n + 3 * attachments.len();
    lemma_attachings_len(attachments);
    assert forall|k: int| #![trigger attachments[k]] 0 <= k < attachments.len() implies {
        &&& orders[n + 3 * k] == attaching(attachments[k]@)[0]
        &&& orders[n + 3 * k + 1] == attaching(attachments[k]@)[1]
        &&& orders[n + 3 * k + 2] == attaching(attachments[k]@)[2]
    } by {
        lemma_attachings_at(attachments, k);
    }
    reveal_strlit("LOAD ");
    reveal_strlit(";");
    reveal_strlit("parquet");
    reveal_strlit("json");
    reveal_strlit("LOAD parquet;");
    reveal_strlit("LOAD json;");
    assert("LOAD parquet;"@ == "LOAD "@ + "parquet"@ + ";"@);
    assert("LOAD json;"@ == "LOAD "@ + "json"@ + ";"@);
    assert(orders[m] == linked()[0]);
    assert(orders[m + 1] == linked()[1]);
}

/// An extension that is installed is loaded too, from the repository that was named.
pub proof fn law_what_is_installed_is_loaded(extension: Seq<char>, repository: Seq<char>)
    ensures
        install_sql(extension, None) == "INSTALL "@ + extension + "; LOAD "@ + extension + ";"@,
        install_sql(extension, Some(repository)) == "INSTALL "@ + extension + " FROM "@
            + repository + "; LOAD "@ + extension + ";"@,
{
    reveal_strlit("");
    assert("INSTALL "@ + extension + ""@ == "INSTALL "@ + extension);
    assert("INSTALL "@ + extension + (" FROM "@ + repository) == "INSTALL "@ + extension
        + " FROM "@ + repository);
}

} // verus!
