//! The registry of sources, and everything that hangs off it.
//!
//! Records (hosts, ports, user names) are written to `sources.json`. Secrets go to the
//! [`Vault`] and are read back only for the moment a connection is opened, so no
//! credential is held between requests.
//!
//! An operation that has to touch the keychain says which steps are left for it, and one
//! that has to write a file says what the file holds. Neither is carried out here.

use crate::azure::entra::{Credential, Resource, Tokens};
use crate::azure::{self, SignIns};
use crate::error::{Error, ErrorView};
use crate::model::{
    AuthConfig, AuthConfigView, AuthKind, AuthKindView, Dialect, Scope, SourceConfig,
    SourceConfigView, SourceKind, SourceRecord, SourceRecordView, SourceSummary,
};
use crate::paths;
use crate::schema::{self, SchemaCache, Snapshot};
use crate::settings::{self, Layer};
use crate::table::Table;
use crate::text;
use crate::vault::{self, Step, StepView, Vault};
use crate::workspace;
use std::sync::Arc;
use vstd::prelude::*;
use vstd::string::*;

verus! {

pub const SOURCES_FILE: &'static str = "sources.json";

pub const WORKSPACE_FILE: &'static str = "workspace.json";

/// Project sources live here, under the open folder. Committable: it holds hosts and user
/// names, never a credential.
pub const PROJECT_SOURCES: &'static str = ".alkyon/sources.json";

/// How many folders the start screen remembers.
pub const RECENT_FOLDERS: usize = 8;

/// What is remembered of folders between two runs.
pub struct StoredWorkspace {
    /// The folder open when the workbench last shut down, if any.
    pub root: Option<String>,
    /// Folders opened before, most recent first.
    pub recent: Vec<String>,
}

/// Where the configuration lives: where `ALKYON_CONFIG_DIR` says, or the platform's own
/// directory for it.
pub fn config_dir(setting: Option<&str>, platform: Option<&str>) -> (r: Option<String>)
    ensures
        text::opt(r) == (if setting is Some {
            text::opt_str(setting)
        } else {
            text::opt_str(platform)
        }),
{
    match setting {
        Some(dir) => Some(dir.to_owned()),
        None => text::own_opt(platform),
    }
}

/// Whether to offer a terminal. There is no authentication, so where anything but loopback
/// can reach the server it would be a remote shell for anyone; `ALKYON_TERMINAL=always` is
/// the deliberate opt-in.
pub fn terminal_allowed(setting: Option<&str>, loopback: bool) -> (r: bool)
    ensures
        r == (text::opt_str(setting) == Some("always"@) || loopback),
{
    match setting {
        Some(s) => text::same(s, "always") || loopback,
        None => loopback,
    }
}

pub open spec fn dialect_of(kind: SourceKind) -> Dialect {
    match kind {
        SourceKind::Postgres => Dialect::PgSql,
        SourceKind::MsSql | SourceKind::Fabric => Dialect::TSql,
        SourceKind::MySql => Dialect::MySql,
        SourceKind::Mongo | SourceKind::Folder | SourceKind::File
        | SourceKind::Adls => Dialect::DuckDb,
    }
}

/// The dialect a kind of source is written to in.
pub fn dialect(kind: SourceKind) -> (r: Dialect)
    ensures
        r == dialect_of(kind),
{
    match kind {
        SourceKind::Postgres => Dialect::PgSql,
        SourceKind::MsSql | SourceKind::Fabric => Dialect::TSql,
        SourceKind::MySql => Dialect::MySql,
        SourceKind::Mongo | SourceKind::Folder | SourceKind::File
        | SourceKind::Adls => Dialect::DuckDb,
    }
}

// -------------------------------------------------------------------------- state

pub struct AppState {
    pub sources: Table<SourceRecord>,
    pub vault: Vault,
    /// Where the user's sources are written. `None` writes nothing down.
    pub file: Option<String>,
    /// The open folder: the `.sql` tree, the file API and the terminal's working directory
    /// all hang off this.
    pub workspace: Option<String>,
    /// Where the open folder is remembered between runs.
    pub workspace_file: Option<String>,
    /// The user's own settings. The project's live in the open folder.
    pub settings_file: Option<String>,
    /// Folders opened before, most recent first.
    pub recent: Vec<String>,
    pub terminal_enabled: bool,
    /// Schema snapshots, feeding both autocompletion and the search bar.
    pub schema: SchemaCache,
    /// Entra sign-ins in flight, waiting on a browser somewhere.
    pub sign_ins: SignIns,
    /// Access tokens minted from a refresh token, by vault key. Held in memory only, and
    /// only until they expire.
    pub tokens: Table<Tokens>,
    /// Whether paths are written the Windows way.
    pub windows: bool,
}

/// Every record is filed under its own key.
pub open spec fn filed(sources: Map<Seq<char>, SourceRecord>) -> bool {
    forall|k: Seq<char>| #[trigger] sources.contains_key(k) ==> sources[k]@.key() == k
}

/// What `key` names: a key, or a bare id where exactly one scope defines it.
pub open spec fn named(sources: Map<Seq<char>, SourceRecord>, key: Seq<char>) -> Result<
    SourceRecordView,
    ErrorView,
> {
    let user = "user:"@ + key;
    let project = "project:"@ + key;
    if sources.contains_key(key) {
        Ok(sources[key]@)
    } else if sources.contains_key(user) && sources.contains_key(project) {
        Err(
            ErrorView::BadRequest(
                "`"@ + key + "` is defined in both scopes — say `user:"@ + key + "` or `project:"@
                    + key + "`"@,
            ),
        )
    } else if sources.contains_key(user) {
        Ok(sources[user]@)
    } else if sources.contains_key(project) {
        Ok(sources[project]@)
    } else {
        Err(ErrorView::UnknownSource(key))
    }
}

/// The keychain entry of a record. A project's carries the folder, since two unrelated
/// projects may each define a source of the same id and must not share a credential.
pub open spec fn vault_name(
    scope: Scope,
    id: Seq<char>,
    workspace: Option<Seq<char>>,
) -> Seq<char> {
    match scope {
        Scope::User => "user:"@ + id,
        Scope::Project => "project:"@ + (match workspace {
            Some(root) => root,
            None => Seq::empty(),
        }) + ":"@ + id,
    }
}

/// What is found of a credential, and the steps that move it to its scoped key where it is
/// still under the bare id, as user sources once were.
pub open spec fn found_secret(
    entries: vault::Entries,
    key: Seq<char>,
    id: Seq<char>,
    scope: Scope,
) -> Result<(Option<Seq<char>>, Seq<StepView>), ErrorView> {
    match vault::secret_in(entries, key) {
        Err(e) => Err(e),
        Ok(Some(secret)) => Ok((Some(secret), Seq::empty())),
        Ok(None) => if scope is User {
            match vault::secret_in(entries, id) {
                Err(e) => Err(e),
                Ok(Some(secret)) => Ok((Some(secret), moved(key, id, secret))),
                Ok(None) => Ok((None, Seq::empty())),
            }
        } else {
            Ok((None, Seq::empty()))
        },
    }
}

pub open spec fn moved(key: Seq<char>, id: Seq<char>, secret: Seq<char>) -> Seq<StepView> {
    vault::store_steps(key, secret) + vault::delete_steps(id)
}

/// Storing a secret, if there is one.
pub open spec fn storing(key: Seq<char>, secret: Option<Seq<char>>) -> Seq<StepView> {
    match secret {
        Some(secret) => vault::store_steps(key, secret),
        None => Seq::empty(),
    }
}

/// What an edit does to the vault. The old entry goes only when the new credential lives
/// somewhere else: to write it and then delete the old one under the same key would erase
/// what was just stored.
pub open spec fn swapping(old_key: Seq<char>, new_key: Seq<char>, secret: Option<Seq<char>>) -> Seq<
    StepView,
> {
    storing(new_key, secret) + (if new_key != old_key {
        vault::delete_steps(old_key)
    } else {
        Seq::empty()
    })
}

pub open spec fn no_folder() -> ErrorView {
    ErrorView::BadRequest("a project source needs an open folder to live in"@)
}

/// A folder put in front of the ones remembered.
pub open spec fn remembered(
    recent: Seq<Seq<char>>,
    root: Seq<char>,
    windows: bool,
) -> Seq<Seq<char>> {
    let all = seq![root] + others(recent, root, windows);
    if all.len() > RECENT_FOLDERS {
        all.take(RECENT_FOLDERS as int)
    } else {
        all
    }
}

/// Those of the folders that are not this one. Two paths are one folder where they have the
/// same parts: `/a` and `/a/` are.
pub open spec fn others(folders: Seq<Seq<char>>, root: Seq<char>, windows: bool) -> Seq<Seq<char>>
    decreases folders.len(),
{
    if folders.len() == 0 {
        Seq::empty()
    } else {
        let before = others(folders.drop_last(), root, windows);
        if paths::parts(folders.last(), windows) == paths::parts(root, windows) {
            before
        } else {
            before.push(folders.last())
        }
    }
}

/// Those of the names that are told to be there.
pub open spec fn present(names: Seq<Seq<char>>, there: Seq<bool>) -> Seq<Seq<char>>
    decreases names.len(),
{
    if names.len() == 0 {
        Seq::empty()
    } else {
        let before = present(names.drop_last(), there.drop_last());
        if there.last() {
            before.push(names.last())
        } else {
            before
        }
    }
}

/// A change that is ready: once the steps are carried out it can be committed.
pub struct Pending {
    /// What is left for the keychain to do first.
    pub left: Vec<Step>,
    /// The key that the change takes the place of.
    pub old_key: Option<String>,
    pub record: SourceRecord,
}

/// What a snapshot is to come from.
pub enum Wanted {
    /// The cache.
    Cached(Arc<Snapshot>),
    /// The database of that name, of the source of that key.
    Load { key: String, database: String },
}

/// How a source is to be signed in to.
pub enum Authorised {
    /// As it stands.
    Ready(SourceConfig),
    /// With an access token that has to be minted first.
    Refresh {
        config: SourceConfig,
        credential: Credential,
        resource: Resource,
        refresh_token: String,
    },
}

/// One registry file, and what goes into it.
pub struct Registry {
    pub file: String,
    pub records: Vec<SourceRecord>,
}

pub open spec fn records_view(records: Seq<SourceRecord>) -> Seq<SourceRecordView> {
    Seq::new(records.len(), |i: int| records[i]@)
}

/// The records of a scope among the first `n` rows, in the order of their keys.
pub open spec fn of_scope(rows: Seq<(String, SourceRecord)>, scope: Scope, n: nat) -> Seq<
    SourceRecordView,
>
    decreases n,
{
    if n == 0 {
        Seq::empty()
    } else {
        let before = of_scope(rows, scope, (n - 1) as nat);
        if rows[n - 1].1@.scope == scope {
            before.push(rows[n - 1].1@)
        } else {
            before
        }
    }
}

/// Records filed one after the other, each instead of any earlier one of its key.
pub open spec fn filed_all(
    sources: Map<Seq<char>, SourceRecord>,
    records: Seq<SourceRecord>,
) -> Map<Seq<char>, SourceRecord>
    decreases records.len(),
{
    if records.len() == 0 {
        sources
    } else {
        filed_all(sources, records.drop_last()).insert(records.last()@.key(), records.last())
    }
}

/// Those sources without the project's.
pub open spec fn without_project(sources: Map<Seq<char>, SourceRecord>) -> Map<
    Seq<char>,
    SourceRecord,
> {
    sources.restrict(
        Set::new(
            |k: Seq<char>| sources.contains_key(k) && sources[k]@.scope != Scope::Project,
        ),
    )
}

pub open spec fn tagged_view(record: SourceRecordView, scope: Scope) -> SourceRecordView {
    SourceRecordView { scope, ..record }
}

/// Records read from a registry, each told the scope it came from.
pub fn tagged(records: Vec<SourceRecord>, scope: Scope) -> (r: Vec<SourceRecord>)
    ensures
        r@.len() == records@.len(),
        forall|i: int|
            0 <= i < r@.len() ==> (#[trigger] r@[i])@ == tagged_view(records@[i]@, scope),
{
    let ghost given = records@;
    let mut left = records;
    let mut out: Vec<SourceRecord> = Vec::new();
    assert(given.skip(0) =~= given);
    while left.len() > 0
        invariant
            out@.len() <= given.len(),
            left@ == given.skip(out@.len() as int),
            forall|i: int|
                0 <= i < out@.len() ==> (#[trigger] out@[i])@ == tagged_view(given[i]@, scope),
        decreases left.len(),
    {
        let ghost n = out@.len() as int;
        assert(left@[0] == given[n]);
        let mut record = left.remove(0);
        record.scope = scope;
        out.push(record);
        assert(left@ =~= given.skip(n + 1));
    }
    out
}

/// File records, each under its own key.
fn file_all(sources: &mut Table<SourceRecord>, records: Vec<SourceRecord>)
    requires
        old(sources).wf(),
        filed(old(sources)@),
    ensures
        final(sources).wf(),
        filed(final(sources)@),
        final(sources)@ == filed_all(old(sources)@, records@),
{
    let ghost start = sources@;
    let ghost given = records@;
    let ghost mut n: int = 0;
    let mut left = records;
    assert(given.skip(0) =~= given);
    assert(given.take(0) =~= Seq::<SourceRecord>::empty());
    while left.len() > 0
        invariant
            0 <= n <= given.len(),
            left@ == given.skip(n),
            sources.wf(),
            filed(sources@),
            sources@ == filed_all(start, given.take(n)),
        decreases left.len(),
    {
        assert(left@[0] == given[n]);
        let record = left.remove(0);
        assert(left@ =~= given.skip(n + 1));
        assert(given.take(n + 1).drop_last() =~= given.take(n));
        let key = record.key();
        sources.insert(key, record);
        proof {
            n = n + 1;
        }
    }
    assert(given.take(n) =~= given);
}

pub open spec fn project_file(root: Seq<char>, windows: bool) -> Seq<char> {
    paths::join(root, PROJECT_SOURCES@, windows)
}

impl AppState {
    pub open spec fn wf(&self) -> bool {
        &&& self.sources.wf()
        &&& filed(self.sources@)
        &&& self.vault.wf()
        &&& self.schema.wf()
        &&& self.sign_ins.wf()
        &&& self.tokens.wf()
    }

    /// The keychain entry of a record, in the folder that is open.
    pub open spec fn vault_name(&self, record: SourceRecordView) -> Seq<char> {
        vault_name(record.scope, record.id, text::opt(self.workspace))
    }

    /// An ephemeral registry: a memory vault, nothing written down, and paths with `/`.
    pub fn new() -> (r: AppState)
        ensures
            r.wf(),
            r.sources@ == Map::<Seq<char>, SourceRecord>::empty(),
            r.vault is Memory,
            r.vault.entries(Map::empty()) == Map::<Seq<char>, Seq<char>>::empty(),
            r.file is None && r.workspace is None && r.workspace_file is None
                && r.settings_file is None,
            r.recent@.len() == 0,
            r.terminal_enabled,
            !r.windows,
            r.schema@.len() == 0,
            r.sign_ins@ == Map::<Seq<char>, azure::SignIn>::empty(),
            r.tokens@ == Map::<Seq<char>, Tokens>::empty(),
    {
        let vault = Vault::memory();
        assert(vault.entries(Map::empty()) == Map::<Seq<char>, Seq<char>>::empty());
        AppState {
            sources: Table::new(),
            vault,
            file: None,
            workspace: None,
            workspace_file: None,
            settings_file: None,
            recent: Vec::new(),
            terminal_enabled: true,
            schema: SchemaCache::new(),
            sign_ins: SignIns::new(),
            tokens: Table::new(),
            windows: false,
        }
    }

    /// The user's registry, and the project's if the folder that was open is still there:
    /// one that has gone comes back closed.
    pub fn load(
        vault: Vault,
        dir: &str,
        terminal_enabled: bool,
        stored: StoredWorkspace,
        root_is_there: bool,
        user: Vec<SourceRecord>,
        project: Vec<SourceRecord>,
        windows: bool,
    ) -> (r: AppState)
        requires
            vault.wf(),
        ensures
            r.wf(),
            r.vault == vault,
            text::opt(r.file) == Some(paths::join(dir@, SOURCES_FILE@, windows)),
            text::opt(r.workspace_file) == Some(paths::join(dir@, WORKSPACE_FILE@, windows)),
            text::opt(r.settings_file) == Some(paths::join(dir@, settings::USER_FILE@, windows)),
            r.workspace == (if root_is_there {
                stored.root
            } else {
                None
            }),
            r.recent == stored.recent,
            r.terminal_enabled == terminal_enabled,
            r.windows == windows,
            exists|u: Seq<SourceRecord>, p: Seq<SourceRecord>|
                #![trigger filed_all(filed_all(Map::empty(), u), p)]
                {
                    &&& r.sources@ == filed_all(filed_all(Map::empty(), u), p)
                    &&& records_view(u) == tagged_all(records_view(user@), Scope::User)
                    &&& records_view(p) == (if r.workspace is Some {
                        tagged_all(records_view(project@), Scope::Project)
                    } else {
                        Seq::empty()
                    })
                },
            r.schema@.len() == 0,
            r.sign_ins@ == Map::<Seq<char>, azure::SignIn>::empty(),
            r.tokens@ == Map::<Seq<char>, Tokens>::empty(),
    {
        let workspace = if root_is_there {
            stored.root
        } else {
            None
        };
        let mut sources: Table<SourceRecord> = Table::new();
        let user_records = tagged(user, Scope::User);
        let ghost u = user_records@;
        assert(records_view(u) =~= tagged_all(records_view(user@), Scope::User));
        file_all(&mut sources, user_records);
        let mut project_records: Vec<SourceRecord> = Vec::new();
        if workspace.is_some() {
            project_records = tagged(project, Scope::Project);
        }
        let ghost p = project_records@;
        assert(records_view(p) =~= (if workspace is Some {
            tagged_all(records_view(project@), Scope::Project)
        } else {
            Seq::empty()
        }));
        file_all(&mut sources, project_records);
        assert(sources@ == filed_all(filed_all(Map::empty(), u), p));
        AppState {
            sources,
            vault,
            file: Some(paths::joined(dir, SOURCES_FILE, windows)),
            workspace,
            workspace_file: Some(paths::joined(dir, WORKSPACE_FILE, windows)),
            settings_file: Some(paths::joined(dir, settings::USER_FILE, windows)),
            recent: stored.recent,
            terminal_enabled,
            schema: SchemaCache::new(),
            sign_ins: SignIns::new(),
            tokens: Table::new(),
            windows,
        }
    }

    pub fn vault_key(&self, record: &SourceRecord) -> (r: String)
        ensures
            r@ == self.vault_name(record@),
    {
        match record.scope {
            Scope::User => "user:".to_owned().concat(&record.id),
            Scope::Project => {
                let root = match &self.workspace {
                    Some(root) => root.clone(),
                    None => String::new(),
                };
                "project:".to_owned().concat(&root).concat(":").concat(&record.id)
            },
        }
    }

    /// Fetch a credential, moving it to its scoped key if it is still under the bare id.
    /// `keychain` is what was read from the OS keychain.
    pub fn load_secret(&mut self, record: &SourceRecord, keychain: &Table<String>) -> (r: Result<
        (Option<String>, Vec<Step>),
        Error,
    >)
        requires
            old(self).wf(),
            keychain.wf(),
        ensures
            final(self).wf(),
            *final(self) == (AppState { vault: final(self).vault, ..*old(self) }),
            match (
                r,
                found_secret(
                    old(self).vault.entries(vault::entries_of(keychain@)),
                    old(self).vault_name(record@),
                    record@.id,
                    record@.scope,
                ),
            ) {
                (Ok((secret, left)), Ok((found, steps))) => {
                    &&& text::opt(secret) == found
                    &&& final(self).vault.took(&old(self).vault, steps, vault::step_views(left@))
                    &&& steps.len() == 0 ==> final(self).vault == old(self).vault
                },
                (Err(e), Err(why)) => e@ == why && final(self).vault == old(self).vault,
                _ => false,
            },
    {
        let key = self.vault_key(record);
        let ghost before = self.vault;
        let none: Vec<Step> = Vec::new();
        assert(vault::step_views(none@) =~= Seq::empty());
        assert(before.took(&before, Seq::empty(), Seq::empty()));
        match self.vault.load(&key, keychain) {
            Err(e) => return Err(e),
            Ok(Some(secret)) => return Ok((Some(secret), none)),
            Ok(None) => {},
        }
        match record.scope {
            Scope::User => match self.vault.load(&record.id, keychain) {
                Err(e) => Err(e),
                Ok(Some(secret)) => {
                    let mut left = self.vault.store(&key, &secret);
                    let ghost between = self.vault;
                    let ghost first = vault::step_views(left@);
                    let mut more = self.vault.delete(&record.id);
                    let ghost second = vault::step_views(more@);
                    left.append(&mut more);
                    proof {
                        assert(vault::step_views(left@) =~= first + second);
                        vault::lemma_took(
                            before,
                            between,
                            self.vault,
                            vault::store_steps(key@, secret@),
                            first,
                            vault::delete_steps(record.id@),
                            second,
                        );
                    }
                    Ok((Some(secret), left))
                },
                Ok(None) => Ok((None, none)),
            },
            Scope::Project => Ok((None, none)),
        }
    }

    /// The credential of a record, where its method has one.
    pub fn secret_of(&mut self, record: &SourceRecord, keychain: &Table<String>) -> (r: Result<
        (Option<String>, Vec<Step>),
        Error,
    >)
        requires
            old(self).wf(),
            keychain.wf(),
        ensures
            final(self).wf(),
            *final(self) == (AppState { vault: final(self).vault, ..*old(self) }),
            match (
                r,
                if record@.auth.needs_secret() {
                    found_secret(
                        old(self).vault.entries(vault::entries_of(keychain@)),
                        old(self).vault_name(record@),
                        record@.id,
                        record@.scope,
                    )
                } else {
                    Ok((None, Seq::empty()))
                },
            ) {
                (Ok((secret, left)), Ok((found, steps))) => text::opt(secret) == found && final(self).vault.took(&old(self).vault, steps, vault::step_views(left@)),
                (Err(e), Err(why)) => e@ == why && final(self).vault == old(self).vault,
                _ => false,
            },
    {
        if record.auth.needs_secret() {
            self.load_secret(record, keychain)
        } else {
            let none: Vec<Step> = Vec::new();
            assert(vault::step_views(none@) =~= Seq::empty());
            Ok((None, none))
        }
    }

    // ------------------------------------------------------------------- folders

    /// Swap the project's sources for those of the folder that is open now, or drop them
    /// when none is.
    pub fn reload_project_sources(&mut self, records: Vec<SourceRecord>)
        requires
            old(self).wf(),
        ensures
            final(self).wf(),
            *final(self) == (AppState { sources: final(self).sources, ..*old(self) }),
            exists|p: Seq<SourceRecord>|
                final(self).sources@ == #[trigger] filed_all(
                    without_project(old(self).sources@),
                    p,
                ) && records_view(p) == (if old(self).workspace is Some {
                    tagged_all(records_view(records@), Scope::Project)
                } else {
                    Seq::empty()
                }),
    {
        let ghost was = self.sources;
        let mut stay: Vec<bool> = Vec::new();
        let mut i: usize = 0;
        while i < self.sources.len()
            invariant
                i <= self.sources.rows().len(),
                self.sources == was,
                *self == *old(self),
                stay@.len() == i,
                forall|j: int|
                    0 <= j < i ==> #[trigger] stay@[j] == (was.rows()[j].1@.scope
                        != Scope::Project),
            decreases self.sources.rows().len() - i,
        {
            stay.push(self.sources.value_at(i).scope != Scope::Project);
            i = i + 1;
        }
        self.sources.keep(&stay);
        proof {
            let want = without_project(was@);
            assert forall|k: Seq<char>| self.sources@.contains_key(k) == want.contains_key(k) by {
                if was@.contains_key(k) {
                    let j = was.lemma_key(k);
                    was.lemma_stays(stay@, j);
                    assert(stay@[j] == (was.rows()[j].1@.scope != Scope::Project));
                }
            }
            assert(self.sources@.dom() =~= want.dom());
            assert forall|k: Seq<char>| self.sources@.contains_key(k) implies self.sources@[k]
                == want[k] by {}
            assert(self.sources@ =~= want);
        }
        let mut fresh: Vec<SourceRecord> = Vec::new();
        if self.workspace.is_some() {
            fresh = tagged(records, Scope::Project);
        }
        let ghost p = fresh@;
        assert(records_view(p) =~= (if self.workspace is Some {
            tagged_all(records_view(records@), Scope::Project)
        } else {
            Seq::empty()
        }));
        file_all(&mut self.sources, fresh);
    }

    /// The open folder, or a clear error when none is: every file route needs the same
    /// sentence.
    pub fn workspace_root(&self) -> (r: Result<String, Error>)
        ensures
            match r {
                Ok(root) => text::opt(self.workspace) == Some(root@),
                Err(e) => self.workspace is None && e@ == ErrorView::BadRequest(
                    "no folder is open"@,
                ),
            },
    {
        match &self.workspace {
            Some(root) => Ok(root.clone()),
            None => Err(Error::BadRequest("no folder is open".to_owned())),
        }
    }

    /// Move a folder to the front of the ones remembered.
    pub fn remember(&mut self, root: &str)
        ensures
            *final(self) == (AppState { recent: final(self).recent, ..*old(self) }),
            text::views(final(self).recent@) == remembered(
                text::views(old(self).recent@),
                root@,
                old(self).windows,
            ),
    {
        let ghost all = text::views(self.recent@);
        let mut rest: Vec<String> = Vec::new();
        let mut i: usize = 0;
        assert(text::views(rest@) =~= others(all.take(0), root@, self.windows));
        while i < self.recent.len()
            invariant
                i <= self.recent.len(),
                all == text::views(self.recent@),
                *self == *old(self),
                text::views(rest@) == others(all.take(i as int), root@, self.windows),
            decreases self.recent.len() - i,
        {
            let ghost before = text::views(rest@);
            assert(all.take(i as int + 1).drop_last() =~= all.take(i as int));
            if !paths::is_same(&self.recent[i], root, self.windows) {
                rest.push(self.recent[i].clone());
                assert(text::views(rest@) =~= before.push(all[i as int]));
            }
            i = i + 1;
        }
        assert(all.take(i as int) =~= all);
        let ghost kept = text::views(rest@);
        rest.insert(0, root.to_owned());
        assert(text::views(rest@) =~= seq![root@] + kept);
        let ghost whole = text::views(rest@);
        if rest.len() > RECENT_FOLDERS {
            rest.truncate(RECENT_FOLDERS);
            assert(text::views(rest@) =~= whole.take(RECENT_FOLDERS as int));
        }
        self.recent = rest;
    }

    /// What is to be written down of folders, and where. Closing a folder leaves the file
    /// in place: the list has to outlive it.
    pub fn persist_workspace(&self) -> (r: Option<(String, StoredWorkspace)>)
        ensures
            match r {
                Some((file, stored)) => text::opt(self.workspace_file) == Some(file@) && text::opt(
                    stored.root,
                ) == text::opt(self.workspace) && text::views(stored.recent@) == text::views(
                    self.recent@,
                ),
                None => self.workspace_file is None,
            },
    {
        match &self.workspace_file {
            Some(file) => Some(
                (
                    file.clone(),
                    StoredWorkspace {
                        root: text::clone_opt(&self.workspace),
                        recent: text::clone_all(&self.recent),
                    },
                ),
            ),
            None => None,
        }
    }

    /// Open a folder that has been resolved. What is written down comes back; once it is,
    /// the folder's own sources follow it by [`AppState::reload_project_sources`].
    pub fn open_workspace(&mut self, root: String) -> (r: Option<(String, StoredWorkspace)>)
        ensures
            *final(self) == (AppState {
                workspace: Some(root),
                recent: final(self).recent,
                ..*old(self)
            }),
            text::views(final(self).recent@) == remembered(
                text::views(old(self).recent@),
                root@,
                old(self).windows,
            ),
            match r {
                Some((file, stored)) => text::opt(old(self).workspace_file) == Some(file@)
                    && text::opt(stored.root) == Some(root@) && text::views(stored.recent@)
                    == text::views(final(self).recent@),
                None => old(self).workspace_file is None,
            },
    {
        self.remember(&root);
        self.workspace = Some(root);
        self.persist_workspace()
    }

    pub fn close_workspace(&mut self) -> (r: Option<(String, StoredWorkspace)>)
        requires
            old(self).wf(),
        ensures
            final(self).wf(),
            *final(self) == (AppState {
                workspace: None,
                sources: final(self).sources,
                ..*old(self)
            }),
            final(self).sources@ == without_project(old(self).sources@),
            match r {
                Some((file, stored)) => text::opt(old(self).workspace_file) == Some(file@)
                    && stored.root is None && text::views(stored.recent@) == text::views(
                    old(self).recent@,
                ),
                None => old(self).workspace_file is None,
            },
    {
        self.workspace = None;
        self.reload_project_sources(Vec::new());
        proof {
            let p = choose|p: Seq<SourceRecord>|
                self.sources@ == #[trigger] filed_all(without_project(old(self).sources@), p)
                    && records_view(p) == Seq::<SourceRecordView>::empty();
            assert(p.len() == records_view(p).len());
        }
        self.persist_workspace()
    }

    /// Folders opened before, most recent first, minus any that have gone: a path on a
    /// drive that is unplugged today comes back tomorrow.
    pub fn recent_folders(&self, there: &Vec<bool>) -> (r: Vec<String>)
        requires
            there.len() == self.recent.len(),
        ensures
            text::views(r@) == present(text::views(self.recent@), there@),
    {
        let ghost all = text::views(self.recent@);
        let mut out: Vec<String> = Vec::new();
        let mut i: usize = 0;
        assert(text::views(out@) =~= present(all.take(0), there@.take(0)));
        while i < self.recent.len()
            invariant
                i <= self.recent.len(),
                there.len() == self.recent.len(),
                all == text::views(self.recent@),
                text::views(out@) == present(all.take(i as int), there@.take(i as int)),
            decreases self.recent.len() - i,
        {
            let ghost before = text::views(out@);
            assert(all.take(i as int + 1).drop_last() =~= all.take(i as int));
            assert(there@.take(i as int + 1).drop_last() =~= there@.take(i as int));
            if there[i] {
                out.push(self.recent[i].clone());
                assert(text::views(out@) =~= before.push(all[i as int]));
            }
            i = i + 1;
        }
        assert(all.take(i as int) =~= all);
        assert(there@.take(i as int) =~= there@);
        out
    }

    // ------------------------------------------------------------------ settings

    /// Where each layer of settings lives. The user's file is fixed for the run; the
    /// project's follows whichever folder is open.
    pub fn settings_layers(&self, user_exists: bool, project_exists: bool) -> (r: Vec<Layer>)
        ensures
            r@.len() == 2,
            r@[0]@ == settings::layer_of(Scope::User, text::opt(self.settings_file), user_exists),
            r@[1]@ == settings::layer_of(
                Scope::Project,
                settings::project_file(text::opt(self.workspace), self.windows),
                project_exists,
            ),
    {
        let user = match &self.settings_file {
            Some(file) => Some(file.as_str()),
            None => None,
        };
        let root = match &self.workspace {
            Some(root) => Some(root.as_str()),
            None => None,
        };
        settings::layers(user, root, user_exists, project_exists, self.windows)
    }

    // ------------------------------------------------------------------- schemas

    /// The snapshot of a database of a source: the cached one, unless there is none or it
    /// is to be read again.
    pub fn snapshot(&self, key: &str, database: Option<&str>, refresh: bool) -> (r: Result<
        Wanted,
        Error,
    >)
        requires
            self.wf(),
        ensures
            match (r, named(self.sources@, key@)) {
                (Ok(wanted), Ok(record)) => {
                    let name = match text::opt_str(database) {
                        Some(name) => name,
                        None => record.database_used(self.windows),
                    };
                    match (wanted, schema::found(self.schema@, record.key(), name, 0)) {
                        (Wanted::Cached(held), Some(at)) => !refresh && (*held)@
                            == self.schema@[at as int],
                        (Wanted::Load { key, database }, cached) => (refresh || cached is None)
                            && key@ == record.key() && database@ == name,
                        _ => false,
                    }
                },
                (Err(e), Err(why)) => e@ == why,
                _ => false,
            },
    {
        let record = match self.record(key) {
            Ok(record) => record,
            Err(e) => return Err(e),
        };
        let name = match database {
            Some(name) => name.to_owned(),
            None => record.database(self.windows),
        };
        let key = record.key();
        if !refresh {
            if let Some(held) = self.schema.get(&key, &name) {
                return Ok(Wanted::Cached(held));
            }
        }
        Ok(Wanted::Load { key, database: name })
    }

    // ------------------------------------------------------------------- sources

    pub fn summaries(&self) -> (r: Vec<SourceSummary>)
        ensures
            r@.len() == self.sources.rows().len(),
            forall|i: int|
                0 <= i < r@.len() ==> (#[trigger] r@[i])@ == {
                    let record = self.sources.rows()[i].1@;
                    record.summary(dialect_of(record.kind), self.windows)
                },
    {
        let mut out: Vec<SourceSummary> = Vec::new();
        let mut i: usize = 0;
        while i < self.sources.len()
            invariant
                i <= self.sources.rows().len(),
                out@.len() == i,
                forall|j: int|
                    0 <= j < i ==> (#[trigger] out@[j])@ == {
                        let record = self.sources.rows()[j].1@;
                        record.summary(dialect_of(record.kind), self.windows)
                    },
            decreases self.sources.rows().len() - i,
        {
            let record = self.sources.value_at(i);
            out.push(record.summary(dialect(record.kind), self.windows));
            i = i + 1;
        }
        out
    }

    /// The record of a key, `user:<id>` or `project:<id>`, or of a bare id where exactly
    /// one scope defines it.
    pub fn record(&self, key: &str) -> (r: Result<SourceRecord, Error>)
        requires
            self.wf(),
        ensures
            match (r, named(self.sources@, key@)) {
                (Ok(record), Ok(found)) => record@ == found && self.sources@.contains_key(
                    found.key(),
                ) && self.sources@[found.key()]@ == found,
                (Err(e), Err(why)) => e@ == why,
                _ => false,
            },
    {
        if let Some(record) = self.sources.get(key) {
            return Ok(record.clone());
        }
        let user = self.sources.get(&"user:".to_owned().concat(key));
        let project = self.sources.get(&"project:".to_owned().concat(key));
        match (user, project) {
            (Some(_), Some(_)) => Err(
                Error::BadRequest(
                    "`".to_owned().concat(key).concat(
                        "` is defined in both scopes — say `user:",
                    ).concat(key).concat("` or `project:").concat(key).concat("`"),
                ),
            ),
            (Some(record), None) => Ok(record.clone()),
            (None, Some(record)) => Ok(record.clone()),
            (None, None) => Err(Error::UnknownSource(key.to_owned())),
        }
    }

    /// Store a secret, if there is one.
    fn keep(&mut self, key: &str, secret: Option<String>) -> (left: Vec<Step>)
        requires
            old(self).wf(),
        ensures
            final(self).wf(),
            *final(self) == (AppState { vault: final(self).vault, ..*old(self) }),
            final(self).vault.took(
                &old(self).vault,
                storing(key@, text::opt(secret)),
                vault::step_views(left@),
            ),
    {
        match secret {
            Some(secret) => self.vault.store(key, &secret),
            None => {
                let none: Vec<Step> = Vec::new();
                assert(vault::step_views(none@) =~= Seq::empty());
                none
            },
        }
    }

    /// Store the credential of a new source. Once the keychain has it the change can be
    /// committed.
    pub fn register(&mut self, config: SourceConfig) -> (r: Result<Pending, Error>)
        requires
            old(self).wf(),
        ensures
            final(self).wf(),
            *final(self) == (AppState { vault: final(self).vault, ..*old(self) }),
            ({
                let record = config@.record();
                if record.scope is Project && old(self).workspace is None {
                    r matches Err(e) && e@ == no_folder() && final(self).vault == old(self).vault
                } else if old(self).sources@.contains_key(record.key()) {
                    r matches Err(e) && e@ == ErrorView::DuplicateSource(record.key())
                        && final(self).vault == old(self).vault
                } else {
                    r matches Ok(p) && p.old_key is None && p.record@ == record && final(self).vault.took(
                        &old(self).vault,
                        storing(old(self).vault_name(record), config@.auth.secret()),
                        vault::step_views(p.left@),
                    )
                }
            }),
    {
        let (record, secret) = config.split();
        if record.scope == Scope::Project && self.workspace.is_none() {
            return Err(
                Error::BadRequest("a project source needs an open folder to live in".to_owned()),
            );
        }
        let key = record.key();
        if self.sources.contains_key(&key) {
            return Err(Error::DuplicateSource(key));
        }
        let vault_key = self.vault_key(&record);
        let left = self.keep(&vault_key, secret);
        Ok(Pending { left, old_key: None, record })
    }

    /// Put a source in place of the one at `key`, which it may rename, move to the other
    /// registry, or point somewhere else entirely. One change rather than a removal and
    /// a registration: a rename that failed after the removal would have thrown the source
    /// away to save an edit.
    pub fn replace(&mut self, key: &str, config: SourceConfig) -> (r: Result<Pending, Error>)
        requires
            old(self).wf(),
        ensures
            final(self).wf(),
            *final(self) == (AppState {
                vault: final(self).vault,
                schema: final(self).schema,
                ..*old(self)
            }),
            match named(old(self).sources@, key@) {
                Err(why) => r matches Err(e) && e@ == why && *final(self) == *old(self),
                Ok(was) => {
                    let record = config@.record();
                    if record.scope is Project && old(self).workspace is None {
                        r matches Err(e) && e@ == no_folder() && *final(self) == *old(self)
                    } else {
                        final(self).schema@ == schema::without(old(self).schema@, was.key())
                            && if record.key() != was.key() && old(self).sources@.contains_key(
                            record.key(),
                        ) {
                            r matches Err(e) && e@ == ErrorView::DuplicateSource(record.key())
                                && final(self).vault == old(self).vault
                        } else {
                            r matches Ok(p) && text::opt(p.old_key) == Some(was.key())
                                && p.record@ == record && final(self).vault.took(
                                &old(self).vault,
                                swapping(
                                    old(self).vault_name(was),
                                    old(self).vault_name(record),
                                    config@.auth.secret(),
                                ),
                                vault::step_views(p.left@),
                            )
                        }
                    }
                },
            },
    {
        let was = match self.record(key) {
            Ok(record) => record,
            Err(e) => return Err(e),
        };
        let old_key = was.key();
        let old_vault = self.vault_key(&was);
        let (record, secret) = config.split();
        if record.scope == Scope::Project && self.workspace.is_none() {
            return Err(
                Error::BadRequest("a project source needs an open folder to live in".to_owned()),
            );
        }
        let new_key = record.key();
        let new_vault = self.vault_key(&record);
        self.schema.forget(&old_key);
        if !text::same(&new_key, &old_key) && self.sources.contains_key(&new_key) {
            return Err(Error::DuplicateSource(new_key));
        }
        let ghost before = self.vault;
        let ghost first = storing(new_vault@, text::opt(secret));
        let mut left = self.keep(&new_vault, secret);
        let ghost left_first = vault::step_views(left@);
        if !text::same(&new_vault, &old_vault) {
            let ghost between = self.vault;
            let mut more = self.vault.delete(&old_vault);
            let ghost left_second = vault::step_views(more@);
            left.append(&mut more);
            proof {
                assert(vault::step_views(left@) =~= left_first + left_second);
                vault::lemma_took(
                    before,
                    between,
                    self.vault,
                    first,
                    left_first,
                    vault::delete_steps(old_vault@),
                    left_second,
                );
            }
        } else {
            assert(first + Seq::<StepView>::empty() =~= first);
        }
        Ok(Pending { left, old_key: Some(old_key), record })
    }

    /// Import a source from a credentials file, instead of any of the same key. Nothing
    /// connects: a server that is down should not stop the workbench from starting.
    pub fn import(&mut self, config: SourceConfig) -> (r: Pending)
        requires
            old(self).wf(),
        ensures
            final(self).wf(),
            *final(self) == (AppState { vault: final(self).vault, ..*old(self) }),
            r.old_key is None,
            r.record@ == config@.record(),
            final(self).vault.took(
                &old(self).vault,
                storing(old(self).vault_name(config@.record()), config@.auth.secret()),
                vault::step_views(r.left@),
            ),
    {
        let (record, secret) = config.split();
        let vault_key = self.vault_key(&record);
        let left = self.keep(&vault_key, secret);
        Pending { left, old_key: None, record }
    }

    /// Commit a change whose steps are carried out.
    pub fn commit(&mut self, pending: Pending) -> (r: SourceSummary)
        requires
            old(self).wf(),
        ensures
            final(self).wf(),
            *final(self) == (AppState { sources: final(self).sources, ..*old(self) }),
            final(self).sources@ == (match text::opt(pending.old_key) {
                Some(key) => old(self).sources@.remove(key),
                None => old(self).sources@,
            }).insert(pending.record@.key(), pending.record),
            r@ == pending.record@.summary(
                dialect_of(pending.record@.kind),
                old(self).windows,
            ),
    {
        let Pending { left: _, old_key, record } = pending;
        if let Some(key) = &old_key {
            let _ = self.sources.remove(key);
        }
        let summary = record.summary(dialect(record.kind), self.windows);
        let key = record.key();
        self.sources.insert(key, record);
        summary
    }

    /// Fill a source in with the credential already in the vault, so that the dialogue can
    /// reopen on it without the password ever coming back out: an empty box means keep it.
    pub fn keep_secret(
        &mut self,
        key: &str,
        config: SourceConfig,
        keychain: &Table<String>,
    ) -> (r: Result<(SourceConfig, Vec<Step>), Error>)
        requires
            old(self).wf(),
            keychain.wf(),
        ensures
            final(self).wf(),
            *final(self) == (AppState { vault: final(self).vault, ..*old(self) }),
            match (
                r,
                kept_secret(
                    old(self).sources@,
                    old(self).vault.entries(vault::entries_of(keychain@)),
                    text::opt(old(self).workspace),
                    key@,
                    config@,
                ),
            ) {
                (Ok((config, left)), Ok((filled, steps))) => config@ == filled && final(self).vault.took(&old(self).vault, steps, vault::step_views(left@)),
                (Err(e), Err(why)) => e@ == why && final(self).vault == old(self).vault,
                _ => false,
            },
    {
        let record = match self.record(key) {
            Ok(record) => record,
            Err(e) => return Err(e),
        };
        let (mut incoming, _) = config.split();
        let old_account = match record.auth.account() {
            Some(account) => Some(account.to_owned()),
            None => None,
        };
        incoming.auth = with_account(incoming.auth, old_account);
        assert(incoming@ == (SourceRecordView {
            auth: incoming.auth@,
            ..config@.record()
        }));
        if !text::same(record.auth.method(), incoming.auth.method()) {
            return Err(
                Error::BadRequest(
                    "the sign-in method changed from `".to_owned().concat(
                        record.auth.method(),
                    ).concat("` to `").concat(incoming.auth.method()).concat(
                        "`, so the credential has to be given again",
                    ),
                ),
            );
        }
        if !incoming.auth.needs_secret() {
            let none: Vec<Step> = Vec::new();
            assert(vault::step_views(none@) =~= Seq::empty());
            return match incoming.with_secret(None) {
                Ok(config) => Ok((config, none)),
                Err(e) => Err(e),
            };
        }
        match self.load_secret(&record, keychain) {
            Ok((secret, left)) => match incoming.with_secret(secret) {
                Ok(config) => Ok((config, left)),
                Err(e) => Err(e),
            },
            Err(e) => Err(e),
        }
    }

    /// Remove a source, its cached schema and its credential. What is returned is left for
    /// the keychain to carry out.
    pub fn remove(&mut self, key: &str) -> (r: Result<Vec<Step>, Error>)
        requires
            old(self).wf(),
        ensures
            final(self).wf(),
            *final(self) == (AppState {
                sources: final(self).sources,
                vault: final(self).vault,
                schema: final(self).schema,
                ..*old(self)
            }),
            match (r, named(old(self).sources@, key@)) {
                (Ok(left), Ok(record)) => {
                    &&& final(self).sources@ == old(self).sources@.remove(record.key())
                    &&& final(self).schema@ == schema::without(old(self).schema@, record.key())
                    &&& final(self).vault.took(
                        &old(self).vault,
                        vault::delete_steps(old(self).vault_name(record)),
                        vault::step_views(left@),
                    )
                },
                (Err(e), Err(why)) => e@ == why && *final(self) == *old(self),
                _ => false,
            },
    {
        let record = match self.record(key) {
            Ok(record) => record,
            Err(e) => return Err(e),
        };
        let vault_key = self.vault_key(&record);
        let source = record.key();
        self.schema.forget(&source);
        let _ = self.sources.remove(&source);
        Ok(self.vault.delete(&vault_key))
    }

    // -------------------------------------------------------------- connecting

    /// Everything that opening a source does short of connecting: the record and its secret
    /// rejoined, bound to a database, its path anchored. With it comes the keychain entry
    /// that a rotated sign-in goes back to.
    pub fn resolve(
        &self,
        record: &SourceRecord,
        secret: Option<String>,
        database: Option<&str>,
    ) -> (r: Result<(SourceConfig, String), Error>)
        ensures
            match (
                r,
                resolved(
                    record@,
                    text::opt(secret),
                    text::opt_str(database),
                    text::opt(self.workspace),
                    self.windows,
                ),
            ) {
                (Ok((config, key)), Ok(found)) => config@ == found && key@ == self.vault_name(
                    record@,
                ),
                (Err(e), Err(why)) => e@ == why,
                _ => false,
            },
    {
        let mut config = match record.with_secret(secret) {
            Ok(config) => config,
            Err(e) => return Err(e),
        };
        let ghost joined = config@;
        if let Some(name) = database {
            config.database = Some(name.to_owned());
        }
        let path = text::clone_opt(&config.path);
        config.path = match self.anchor_path(record, path) {
            Ok(path) => path,
            Err(e) => return Err(e),
        };
        assert(config@ == bound(joined, text::opt_str(database), text::opt(config.path)));
        Ok((config, self.vault_key(record)))
    }

    /// Make a folder or file source's path absolute. A project source's relative path is
    /// relative to the project, which is what makes it mean the same on every machine. A
    /// user source has no project to be relative to, so a relative path there is refused.
    pub fn anchor_path(&self, record: &SourceRecord, path: Option<String>) -> (r: Result<
        Option<String>,
        Error,
    >)
        ensures
            match (r, anchored(record@, text::opt(path), text::opt(self.workspace), self.windows)) {
                (Ok(path), Ok(found)) => text::opt(path) == found,
                (Err(e), Err(why)) => e@ == why,
                _ => false,
            },
    {
        let path = match path {
            Some(path) => path,
            None => return Ok(None),
        };
        let trimmed = text::trimmed(&path);
        if !record.kind.is_local_files() {
            return Ok(Some(path));
        }
        if trimmed.as_str().is_empty() || !workspace::is_relative(&trimmed, self.windows) {
            return Ok(Some(path));
        }
        if record.scope != Scope::Project {
            return Err(
                Error::BadRequest(
                    "`".to_owned().concat(&trimmed).concat(
                        "` is a relative path, and only a project source has a folder to be relative to. Give an absolute path, or `~/…`.",
                    ),
                ),
            );
        }
        match &self.workspace {
            Some(root) => Ok(Some(paths::joined(root, &trimmed, self.windows))),
            None => Err(
                Error::BadRequest(
                    "`".to_owned().concat(&trimmed).concat(
                        "` is relative to the project, but no folder is open",
                    ),
                ),
            ),
        }
    }

    // ------------------------------------------------------------- Entra tokens

    /// Redeem a finished sign-in into the credential the source will keep. The ticket is
    /// spent: registering is what it was for.
    pub fn redeem_sign_in(&mut self, config: SourceConfig) -> (r: Result<SourceConfig, Error>)
        requires
            old(self).wf(),
        ensures
            final(self).wf(),
            *final(self) == (AppState { sign_ins: final(self).sign_ins, ..*old(self) }),
            signed(r, config@, old(self).sign_ins@),
            final(self).sign_ins@ == (match config@.auth.ticket() {
                Some(ticket) => if azure::tokens_held(old(self).sign_ins@, ticket) is Some {
                    old(self).sign_ins@.remove(ticket)
                } else {
                    old(self).sign_ins@
                },
                None => old(self).sign_ins@,
            }),
    {
        let ticket = match config.auth.ticket() {
            Some(ticket) => ticket.to_owned(),
            None => return Ok(config),
        };
        let held = self.sign_ins.redeem(&ticket);
        with_sign_in(config, held)
    }

    /// The same, leaving the ticket where it is: a test must not spend the sign-in that
    /// the save right after it is going to need.
    pub fn borrow_sign_in(&self, config: SourceConfig) -> (r: Result<SourceConfig, Error>)
        requires
            self.wf(),
        ensures
            signed(r, config@, self.sign_ins@),
    {
        let ticket = match config.auth.ticket() {
            Some(ticket) => ticket.to_owned(),
            None => return Ok(config),
        };
        let held = self.sign_ins.peek(&ticket);
        with_sign_in(config, held)
    }

    /// Turn an Entra sign-in into the bearer token a connector understands, or say what has
    /// to be minted for it. Every other method passes straight through. A held token is
    /// only reusable by the source it was minted for.
    pub fn authorise(&self, config: SourceConfig, store_as: Option<&str>, now: u128) -> (r: Result<
        Authorised,
        Error,
    >)
        requires
            self.wf(),
        ensures
            match (
                r,
                authority(config@, text::opt_str(store_as), self.tokens@, now),
            ) {
                (Ok(Authorised::Ready(c)), Ok(AuthorityView::Ready(found))) => c@ == found,
                (
                    Ok(Authorised::Refresh { config: c, credential, resource, refresh_token }),
                    Ok(
                        AuthorityView::Refresh {
                            tenant,
                            client_id,
                            resource: wanted,
                            refresh_token: token,
                        },
                    ),
                ) => c@ == config@ && credential.tenant@ == tenant && credential.client_id@
                    == client_id && resource == wanted && refresh_token@ == token,
                (Err(e), Err(why)) => e@ == why,
                _ => false,
            },
    {
        let (tenant, client_id, refresh_token) = match &config.auth {
            AuthConfig::Entra { tenant, client_id, refresh_token, .. } => (
                tenant.clone(),
                client_id.clone(),
                text::clone_opt(refresh_token),
            ),
            _ => return Ok(Authorised::Ready(config)),
        };
        let resource = match config.kind.entra_resource() {
            Some(resource) => resource,
            None => return Err(
                Error::BadRequest(
                    "this kind of source cannot be reached with an Entra sign-in".to_owned(),
                ),
            ),
        };
        let refresh_token = match refresh_token {
            Some(token) => token,
            None => return Err(
                Error::BadRequest(
                    "source `".to_owned().concat(&config.id).concat(
                        "` has no Entra sign-in yet — sign in before testing it",
                    ),
                ),
            ),
        };
        if let Some(key) = store_as {
            if let Some(held) = self.tokens.get(key) {
                if held.fresh(now) {
                    let token = held.access_token.clone();
                    return Ok(Authorised::Ready(bearing(config, token)));
                }
            }
        }
        Ok(
            Authorised::Refresh {
                config,
                credential: Credential { tenant, client_id },
                resource,
                refresh_token,
            },
        )
    }

    /// Put a rotated refresh token back where the old one was: Entra may invalidate the old
    /// one, and the source would then work until the next restart and not after it.
    pub fn rotate(&mut self, store_as: Option<&str>, refresh_token: &str, tokens: &Tokens) -> (left:
        Vec<Step>)
        requires
            old(self).wf(),
        ensures
            final(self).wf(),
            *final(self) == (AppState { vault: final(self).vault, ..*old(self) }),
            final(self).vault.took(
                &old(self).vault,
                rotating(text::opt_str(store_as), refresh_token@, tokens@.refresh_token),
                vault::step_views(left@),
            ),
    {
        let none: Vec<Step> = Vec::new();
        assert(vault::step_views(none@) =~= Seq::empty());
        match (store_as, &tokens.refresh_token) {
            (Some(key), Some(rotated)) => if !text::same(rotated, refresh_token) {
                self.vault.store(key, rotated)
            } else {
                none
            },
            _ => none,
        }
    }

    /// Hold on to freshly minted tokens for the source they are for, and drop those that
    /// have expired.
    pub fn hold(&mut self, store_as: Option<&str>, tokens: Tokens, now: u128)
        requires
            old(self).wf(),
        ensures
            final(self).wf(),
            *final(self) == (AppState { tokens: final(self).tokens, ..*old(self) }),
            final(self).tokens@ == (match text::opt_str(store_as) {
                Some(key) => still_fresh(old(self).tokens@, now).insert(key, tokens),
                None => old(self).tokens@,
            }),
    {
        let key = match store_as {
            Some(key) => key.to_owned(),
            None => return,
        };
        let ghost was = self.tokens;
        let mut stay: Vec<bool> = Vec::new();
        let mut i: usize = 0;
        while i < self.tokens.len()
            invariant
                i <= self.tokens.rows().len(),
                self.tokens == was,
                *self == *old(self),
                stay@.len() == i,
                forall|j: int|
                    0 <= j < i ==> #[trigger] stay@[j] == was.rows()[j].1@.fresh(now),
            decreases self.tokens.rows().len() - i,
        {
            stay.push(self.tokens.value_at(i).fresh(now));
            i = i + 1;
        }
        self.tokens.keep(&stay);
        proof {
            let want = still_fresh(was@, now);
            assert forall|k: Seq<char>| self.tokens@.contains_key(k) == want.contains_key(k) by {
                if was@.contains_key(k) {
                    let j = was.lemma_key(k);
                    was.lemma_stays(stay@, j);
                    assert(stay@[j] == was.rows()[j].1@.fresh(now));
                }
            }
            assert(self.tokens@ =~= want);
        }
        self.tokens.insert(key, tokens);
    }

    // ----------------------------------------------------------------- writing

    fn records_of(&self, scope: Scope) -> (r: Vec<SourceRecord>)
        ensures
            records_view(r@) == of_scope(self.sources.rows(), scope, self.sources.rows().len()),
    {
        let mut out: Vec<SourceRecord> = Vec::new();
        let mut i: usize = 0;
        assert(records_view(out@) =~= Seq::empty());
        while i < self.sources.len()
            invariant
                i <= self.sources.rows().len(),
                records_view(out@) == of_scope(self.sources.rows(), scope, i as nat),
            decreases self.sources.rows().len() - i,
        {
            let ghost before = records_view(out@);
            let record = self.sources.value_at(i);
            if record.scope == scope {
                out.push(record.clone());
                assert(records_view(out@) =~= before.push(record@));
            }
            i = i + 1;
        }
        out
    }

    /// What is to be written of the registries: each scope to its own file, the project's
    /// only while a folder is open, and no `.alkyon/` in a project that has no sources.
    pub fn persist(&self, project_exists: bool) -> (r: Vec<Registry>)
        ensures
            ({
                let n = self.sources.rows().len();
                let user = of_scope(self.sources.rows(), Scope::User, n);
                let project = of_scope(self.sources.rows(), Scope::Project, n);
                match text::opt(self.file) {
                    None => r@.len() == 0,
                    Some(file) => {
                        &&& r@.len() > 0
                        &&& r@[0].file@ == file
                        &&& records_view(r@[0].records@) == user
                        &&& match text::opt(self.workspace) {
                            Some(root) => if project.len() == 0 && !project_exists {
                                r@.len() == 1
                            } else {
                                r@.len() == 2 && r@[1].file@ == project_file(root, self.windows)
                                    && records_view(r@[1].records@) == project
                            },
                            None => r@.len() == 1,
                        }
                    },
                }
            }),
    {
        let mut out: Vec<Registry> = Vec::new();
        if let Some(file) = &self.file {
            out.push(Registry { file: file.clone(), records: self.records_of(Scope::User) });
            if let Some(root) = &self.workspace {
                let records = self.records_of(Scope::Project);
                assert(records@.len() == records_view(records@).len());
                if records.len() > 0 || project_exists {
                    let file = paths::joined(root, PROJECT_SOURCES, self.windows);
                    out.push(Registry { file, records });
                }
            }
        }
        out
    }
}

pub open spec fn tagged_all(records: Seq<SourceRecordView>, scope: Scope) -> Seq<SourceRecordView> {
    Seq::new(records.len(), |i: int| tagged_view(records[i], scope))
}

/// The account is display only and the form has no box for it, so an edit that keeps the
/// sign-in keeps the account too.
pub open spec fn account_kept(auth: AuthKindView, old: Option<Seq<char>>) -> AuthKindView {
    match (auth, old) {
        (AuthKindView::Entra { tenant, client_id, account }, Some(old)) => AuthKindView::Entra {
            tenant,
            client_id,
            account: if account.len() == 0 {
                old
            } else {
                account
            },
        },
        _ => auth,
    }
}

fn with_account(auth: AuthKind, old: Option<String>) -> (r: AuthKind)
    ensures
        r@ == account_kept(auth@, text::opt(old)),
{
    match (auth, old) {
        (AuthKind::Entra { tenant, client_id, account }, Some(old)) => AuthKind::Entra {
            tenant,
            client_id,
            account: if account.as_str().is_empty() {
                old
            } else {
                account
            },
        },
        (auth, _) => auth,
    }
}

/// A source filled in with the credential in the vault. The stored credential belongs to
/// the method that stored it: a refresh token is not a password.
pub open spec fn kept_secret(
    sources: Map<Seq<char>, SourceRecord>,
    entries: vault::Entries,
    workspace: Option<Seq<char>>,
    key: Seq<char>,
    config: SourceConfigView,
) -> Result<(SourceConfigView, Seq<StepView>), ErrorView> {
    match named(sources, key) {
        Err(e) => Err(e),
        Ok(record) => {
            let auth = account_kept(config.record().auth, record.auth.account());
            let incoming = SourceRecordView { auth, ..config.record() };
            if record.auth.method() != auth.method() {
                Err(
                    ErrorView::BadRequest(
                        "the sign-in method changed from `"@ + record.auth.method() + "` to `"@
                            + auth.method() + "`, so the credential has to be given again"@,
                    ),
                )
            } else if !auth.needs_secret() {
                match incoming.with_secret(None) {
                    Ok(config) => Ok((config, Seq::empty())),
                    Err(e) => Err(e),
                }
            } else {
                match found_secret(
                    entries,
                    vault_name(record.scope, record.id, workspace),
                    record.id,
                    record.scope,
                ) {
                    Err(e) => Err(e),
                    Ok((secret, steps)) => match incoming.with_secret(secret) {
                        Ok(config) => Ok((config, steps)),
                        Err(e) => Err(e),
                    },
                }
            }
        },
    }
}

/// Where a source's path leads.
pub open spec fn anchored(
    record: SourceRecordView,
    path: Option<Seq<char>>,
    workspace: Option<Seq<char>>,
    windows: bool,
) -> Result<Option<Seq<char>>, ErrorView> {
    match path {
        None => Ok(None),
        Some(path) => {
            let trimmed = text::trim(path);
            if !record.kind.local_files() || trimmed.len() == 0 || !workspace::relative(
                trimmed,
                windows,
            ) {
                Ok(Some(path))
            } else if !(record.scope is Project) {
                Err(
                    ErrorView::BadRequest(
                        "`"@ + trimmed
                            + "` is a relative path, and only a project source has a folder to be relative to. Give an absolute path, or `~/…`."@,
                    ),
                )
            } else {
                match workspace {
                    Some(root) => Ok(Some(paths::join(root, trimmed, windows))),
                    None => Err(
                        ErrorView::BadRequest(
                            "`"@ + trimmed
                                + "` is relative to the project, but no folder is open"@,
                        ),
                    ),
                }
            }
        },
    }
}

/// A source bound to a database, and to a path.
pub open spec fn bound(
    config: SourceConfigView,
    database: Option<Seq<char>>,
    path: Option<Seq<char>>,
) -> SourceConfigView {
    SourceConfigView {
        database: match database {
            Some(name) => Some(name),
            None => config.database,
        },
        path,
        ..config
    }
}

pub open spec fn resolved(
    record: SourceRecordView,
    secret: Option<Seq<char>>,
    database: Option<Seq<char>>,
    workspace: Option<Seq<char>>,
    windows: bool,
) -> Result<SourceConfigView, ErrorView> {
    match record.with_secret(secret) {
        Err(e) => Err(e),
        Ok(config) => match anchored(record, config.path, workspace, windows) {
            Err(e) => Err(e),
            Ok(path) => Ok(bound(config, database, path)),
        },
    }
}

/// The same source, signed in with an access token.
pub open spec fn bearer(config: SourceConfigView, token: Seq<char>) -> SourceConfigView {
    config.with_auth(AuthConfigView::AadToken { token })
}

pub fn bearing(config: SourceConfig, token: String) -> (r: SourceConfig)
    ensures
        r@ == bearer(config@, token@),
{
    let mut config = config;
    config.auth = AuthConfig::AadToken { token };
    config
}

pub enum AuthorityView {
    Ready(SourceConfigView),
    Refresh {
        tenant: Seq<char>,
        client_id: Seq<char>,
        resource: Resource,
        refresh_token: Seq<char>,
    },
}

/// How a source is to be signed in to.
pub open spec fn authority(
    config: SourceConfigView,
    store_as: Option<Seq<char>>,
    tokens: Map<Seq<char>, Tokens>,
    now: u128,
) -> Result<AuthorityView, ErrorView> {
    match config.auth {
        AuthConfigView::Entra { tenant, client_id, refresh_token, .. } => match (
            config.kind.resource(),
            refresh_token,
        ) {
            (None, _) => Err(
                ErrorView::BadRequest(
                    "this kind of source cannot be reached with an Entra sign-in"@,
                ),
            ),
            (Some(_), None) => Err(
                ErrorView::BadRequest(
                    "source `"@ + config.id
                        + "` has no Entra sign-in yet — sign in before testing it"@,
                ),
            ),
            (Some(resource), Some(refresh_token)) => match store_as {
                Some(key) => if tokens.contains_key(key) && tokens[key]@.fresh(now) {
                    Ok(AuthorityView::Ready(bearer(config, tokens[key]@.access_token)))
                } else {
                    Ok(AuthorityView::Refresh { tenant, client_id, resource, refresh_token })
                },
                None => Ok(AuthorityView::Refresh { tenant, client_id, resource, refresh_token }),
            },
        },
        _ => Ok(AuthorityView::Ready(config)),
    }
}

pub open spec fn rotating(
    store_as: Option<Seq<char>>,
    refresh_token: Seq<char>,
    minted: Option<Seq<char>>,
) -> Seq<StepView> {
    match (store_as, minted) {
        (Some(key), Some(rotated)) => if rotated != refresh_token {
            vault::store_steps(key, rotated)
        } else {
            Seq::empty()
        },
        _ => Seq::empty(),
    }
}

pub open spec fn still_fresh(tokens: Map<Seq<char>, Tokens>, now: u128) -> Map<Seq<char>, Tokens> {
    tokens.restrict(
        Set::new(|k: Seq<char>| tokens.contains_key(k) && tokens[k]@.fresh(now)),
    )
}

/// What comes of a source that quotes a sign-in: its credential, or why there is none. One
/// that quotes none is left alone.
pub open spec fn signed(
    r: Result<SourceConfig, Error>,
    config: SourceConfigView,
    tickets: Map<Seq<char>, azure::SignIn>,
) -> bool {
    match config.auth.ticket() {
        None => r matches Ok(c) && c@ == config,
        Some(ticket) => match azure::tokens_held(tickets, ticket) {
            None => r matches Err(e) && e@ == ErrorView::BadRequest(
                "that sign-in has expired or was already used — sign in again"@,
            ),
            Some(tokens) => if tokens.refresh_token is None {
                r matches Err(e) && e@ == ErrorView::BadRequest(
                    "Entra issued no refresh token, so the sign-in would stop working within the hour. Check that the application allows `offline_access`."@,
                )
            } else {
                r matches Ok(c) && c@ == config.with_auth(
                    config.auth.with_tokens(tokens@.refresh_token, tokens@.account),
                )
            },
        },
    }
}

fn with_sign_in(config: SourceConfig, held: Option<Tokens>) -> (r: Result<SourceConfig, Error>)
    ensures
        match held {
            None => r matches Err(e) && e@ == ErrorView::BadRequest(
                "that sign-in has expired or was already used — sign in again"@,
            ),
            Some(tokens) => if tokens.refresh_token is None {
                r matches Err(e) && e@ == ErrorView::BadRequest(
                    "Entra issued no refresh token, so the sign-in would stop working within the hour. Check that the application allows `offline_access`."@,
                )
            } else {
                r matches Ok(c) && c@ == config@.with_auth(
                    config@.auth.with_tokens(tokens@.refresh_token, tokens@.account),
                )
            },
        },
{
    let tokens = match held {
        Some(tokens) => tokens,
        None => return Err(
            Error::BadRequest(
                "that sign-in has expired or was already used — sign in again".to_owned(),
            ),
        ),
    };
    if tokens.refresh_token.is_none() {
        return Err(
            Error::BadRequest(
                "Entra issued no refresh token, so the sign-in would stop working within the hour. Check that the application allows `offline_access`.".to_owned(),
            ),
        );
    }
    let mut config = config;
    config.auth = config.auth.with_entra_tokens(tokens.refresh_token, tokens.account);
    Ok(config)
}

// --------------------------------------------------------------------------- laws

proof fn lemma_after_last_colon(a: Seq<char>, x: Seq<char>, b: Seq<char>, y: Seq<char>)
    requires
        a + ":"@ + x == b + ":"@ + y,
        text::count(x, ':') == 0,
        text::count(y, ':') == 0,
    ensures
        a == b,
        x == y,
{
    reveal_strlit(":");
    let whole = a + ":"@ + x;
    assert(whole.len() == a.len() + 1 + x.len());
    if x.len() < y.len() {
        let at = (y.len() - x.len() - 1) as int;
        assert(y[at] == whole[whole.len() - x.len() - 1]);
        assert(whole[whole.len() - x.len() - 1] == ':');
        lemma_counted(y, at);
    }
    if y.len() < x.len() {
        let at = (x.len() - y.len() - 1) as int;
        let other = b + ":"@ + y;
        assert(x[at] == other[other.len() - y.len() - 1]);
        assert(other[other.len() - y.len() - 1] == ':');
        lemma_counted(x, at);
    }
    assert(x =~= whole.skip(whole.len() - x.len()));
    assert(y =~= whole.skip(whole.len() - y.len()));
    assert(a =~= whole.take(a.len() as int));
    assert(b =~= whole.take(b.len() as int));
}

proof fn lemma_counted(s: Seq<char>, at: int)
    requires
        0 <= at < s.len(),
        s[at] == ':',
    ensures
        text::count(s, ':') > 0,
    decreases s.len(),
{
    if at < s.len() - 1 {
        lemma_counted(s.drop_last(), at);
    }
}

/// No two projects share a credential, however alike their sources are named, and no
/// project shares one with the user. An id with a colon in it is left out: under
/// `/a` the id `b:c` is filed where `c` is under `/a:b`.
pub proof fn law_projects_share_no_credential(
    a: Seq<char>,
    x: Seq<char>,
    b: Seq<char>,
    y: Seq<char>,
)
    requires
        text::count(x, ':') == 0,
        text::count(y, ':') == 0,
    ensures
        vault_name(Scope::Project, x, Some(a)) == vault_name(Scope::Project, y, Some(b)) ==> a == b
            && x == y,
        vault_name(Scope::User, x, Some(a)) == vault_name(Scope::User, y, Some(b)) ==> x == y,
        vault_name(Scope::User, x, Some(a)) != vault_name(Scope::Project, y, Some(b)),
{
    reveal_strlit("user:");
    reveal_strlit("project:");
    let p = vault_name(Scope::Project, x, Some(a));
    let q = vault_name(Scope::Project, y, Some(b));
    if p == q {
        lemma_after_last_colon("project:"@ + a, x, "project:"@ + b, y);
        assert(("project:"@ + a).skip(8) =~= a);
        assert(("project:"@ + b).skip(8) =~= b);
    }
    let u = vault_name(Scope::User, x, Some(a));
    let v = vault_name(Scope::User, y, Some(b));
    assert(u.skip(5) =~= x);
    assert(v.skip(5) =~= y);
    assert(u[0] == 'u');
    assert(q[0] == 'p');
}

proof fn lemma_no_colon(n: nat)
    ensures
        text::count(text::decimal(n), ':') == 0,
        text::count("#"@, ':') == 0,
    decreases n,
{
    reveal_strlit("#");
    reveal_with_fuel(text::count, 3);
    assert("#"@.drop_last() =~= Seq::empty());
    text::lemma_decimal(n);
    let d = text::decimal(n);
    assert(text::is_ascii_digit(d[d.len() - 1]));
    if n >= 10 {
        lemma_no_colon(n / 10);
        assert(d.drop_last() =~= text::decimal(n / 10));
    } else {
        assert(d.drop_last() =~= Seq::empty());
    }
}

proof fn lemma_colons(id: Seq<char>, n: nat)
    ensures
        text::count(vault::part_at(id, n), ':') == text::count(id, ':'),
        text::count("user:"@ + id, ':') == text::count(id, ':') + 1,
{
    lemma_no_colon(n);
    text::lemma_count_concat(id, "#"@, ':');
    text::lemma_count_concat(id + "#"@, text::decimal(n), ':');
    text::lemma_count_concat("user:"@, id, ':');
    reveal_strlit("user:");
    reveal_with_fuel(text::count, 6);
    let w = "user:"@;
    assert(w.drop_last().drop_last().drop_last().drop_last().drop_last() =~= Seq::empty());
}

proof fn lemma_scoped_apart(id: Seq<char>)
    ensures
        vault::apart(id, "user:"@ + id),
        vault::apart("user:"@ + id, id),
{
    let key = "user:"@ + id;
    lemma_colons(id, 0);
    assert forall|i: nat| key != #[trigger] vault::part_at(id, i) by {
        lemma_colons(id, i);
    }
    assert forall|i: nat| id != #[trigger] vault::part_at(key, i) by {
        lemma_colons(key, i);
    }
    assert forall|i: nat, j: nat|
        #![trigger vault::part_at(id, i), vault::part_at(key, j)]
        vault::part_at(id, i) != vault::part_at(key, j) by {
        lemma_colons(id, i);
        lemma_colons(key, j);
    }
}

/// A credential that predates scopes is not lost when it is moved: afterwards it is under
/// the scoped key, and no longer under the bare id. Left out is what a vault does not give
/// back as it was stored.
pub proof fn law_a_credential_survives_its_move(
    entries: vault::Entries,
    id: Seq<char>,
    secret: Seq<char>,
)
    requires
        vault::parts_of(secret).len() <= vault::MAX_PARTS,
        vault::parts_of(secret).len() == 0 ==> !text::starts_with(secret, vault::PARTS@),
    ensures
        ({
            let key = "user:"@ + id;
            let now = vault::after_all(entries, moved(key, id, secret));
            &&& vault::secret_in(now, key) == Ok::<Option<Seq<char>>, ErrorView>(Some(secret))
            &&& vault::secret_in(now, id) == Ok::<Option<Seq<char>>, ErrorView>(None)
        }),
{
    let key = "user:"@ + id;
    let first = vault::store_steps(key, secret);
    vault::lemma_after_concat(entries, first, vault::delete_steps(id));
    let between = vault::after_all(entries, first);
    vault::law_load_gives_back_what_was_stored(entries, key, secret);
    lemma_scoped_apart(id);
    vault::law_another_secret_is_left_alone(between, id, secret, key);
    vault::law_delete_leaves_nothing(between, id);
}

/// An edit never erases the credential it just stored: whether the source keeps its
/// keychain entry or gets another, what was given is what is loaded.
pub proof fn law_an_edit_keeps_its_credential(
    entries: vault::Entries,
    old_key: Seq<char>,
    new_key: Seq<char>,
    secret: Seq<char>,
)
    requires
        old_key == new_key || vault::apart(old_key, new_key),
        vault::parts_of(secret).len() <= vault::MAX_PARTS,
        vault::parts_of(secret).len() == 0 ==> !text::starts_with(secret, vault::PARTS@),
    ensures
        ({
            let now = vault::after_all(entries, swapping(old_key, new_key, Some(secret)));
            &&& vault::secret_in(now, new_key) == Ok::<Option<Seq<char>>, ErrorView>(Some(secret))
            &&& old_key != new_key ==> vault::secret_in(now, old_key) == Ok::<
                Option<Seq<char>>,
                ErrorView,
            >(None)
        }),
{
    let first = vault::store_steps(new_key, secret);
    let between = vault::after_all(entries, first);
    vault::law_load_gives_back_what_was_stored(entries, new_key, secret);
    if old_key == new_key {
        assert(first + Seq::<StepView>::empty() =~= first);
    } else {
        vault::lemma_after_concat(entries, first, vault::delete_steps(old_key));
        vault::law_another_secret_is_left_alone(between, old_key, secret, new_key);
        vault::law_delete_leaves_nothing(between, old_key);
    }
}

/// No two of those paths are the same folder.
pub open spec fn apart(folders: Seq<Seq<char>>, windows: bool) -> bool {
    forall|i: int, j: int|
        0 <= i < j < folders.len() ==> paths::parts(#[trigger] folders[i], windows)
            != paths::parts(#[trigger] folders[j], windows)
}

proof fn lemma_others(folders: Seq<Seq<char>>, root: Seq<char>, windows: bool)
    ensures
        forall|i: int|
            0 <= i < others(folders, root, windows).len() ==> folders.contains(
                #[trigger] others(folders, root, windows)[i],
            ) && paths::parts(others(folders, root, windows)[i], windows) != paths::parts(
                root,
                windows,
            ),
        apart(folders, windows) ==> apart(others(folders, root, windows), windows),
    decreases folders.len(),
{
    if folders.len() > 0 {
        let first = folders.drop_last();
        let before = others(first, root, windows);
        let all = others(folders, root, windows);
        lemma_others(first, root, windows);
        assert forall|i: int| 0 <= i < all.len() implies folders.contains(#[trigger] all[i])
            && paths::parts(all[i], windows) != paths::parts(root, windows) by {
            if i < before.len() {
                assert(all[i] == before[i]);
                let j = choose|j: int| 0 <= j < first.len() && first[j] == before[i];
                assert(folders[j] == all[i]);
            } else {
                assert(folders[folders.len() - 1] == all[i]);
            }
        }
        if apart(folders, windows) {
            assert(apart(first, windows)) by {
                assert forall|i: int, j: int| 0 <= i < j < first.len() implies paths::parts(
                    #[trigger] first[i],
                    windows,
                ) != paths::parts(#[trigger] first[j], windows) by {
                    assert(first[i] == folders[i] && first[j] == folders[j]);
                }
            }
            assert forall|i: int, j: int| 0 <= i < j < all.len() implies paths::parts(
                #[trigger] all[i],
                windows,
            ) != paths::parts(#[trigger] all[j], windows) by {
                assert(all[i] == before[i]);
                if j == before.len() {
                    let k = choose|k: int| 0 <= k < first.len() && first[k] == before[i];
                    assert(folders[k] == all[i]);
                    assert(folders[folders.len() - 1] == all[j]);
                } else {
                    assert(all[j] == before[j]);
                }
            }
        }
    }
}

/// The start screen offers each folder once, however its path is written, the last one
/// opened first, and no more than it has room for.
pub proof fn law_a_folder_is_remembered_once(
    recent: Seq<Seq<char>>,
    root: Seq<char>,
    windows: bool,
)
    ensures
        remembered(recent, root, windows).len() <= RECENT_FOLDERS,
        remembered(recent, root, windows)[0] == root,
        apart(recent, windows) ==> apart(remembered(recent, root, windows), windows),
{
    lemma_others(recent, root, windows);
    let rest = others(recent, root, windows);
    let all = seq![root] + rest;
    if apart(recent, windows) {
        assert forall|i: int, j: int| 0 <= i < j < all.len() implies paths::parts(
            #[trigger] all[i],
            windows,
        ) != paths::parts(#[trigger] all[j], windows) by {
            assert(all[j] == rest[j - 1]);
            if i > 0 {
                assert(all[i] == rest[i - 1]);
            }
        }
    }
}

/// When a folder closes its sources go with it, and the user's stay.
pub proof fn law_a_folder_takes_its_sources_along(
    sources: Map<Seq<char>, SourceRecord>,
    key: Seq<char>,
)
    requires
        sources.contains_key(key),
    ensures
        without_project(sources).contains_key(key) <==> sources[key]@.scope is User,
        sources[key]@.scope is User ==> without_project(sources)[key] == sources[key],
{
}

proof fn lemma_filed_all(
    base: Map<Seq<char>, SourceRecord>,
    records: Seq<SourceRecord>,
    k: Seq<char>,
)
    ensures
        filed_all(base, records).contains_key(k) <==> base.contains_key(k) || exists|i: int|
            0 <= i < records.len() && (#[trigger] records[i])@.key() == k,
        filed_all(base, records).contains_key(k) ==> (base.contains_key(k) && filed_all(
            base,
            records,
        )[k] == base[k]) || exists|i: int|
            0 <= i < records.len() && (#[trigger] records[i])@.key() == k && records[i]
                == filed_all(base, records)[k],
    decreases records.len(),
{
    if records.len() > 0 {
        let first = records.drop_last();
        lemma_filed_all(base, first, k);
        if exists|i: int| 0 <= i < records.len() && (#[trigger] records[i])@.key() == k {
            let i = choose|i: int| 0 <= i < records.len() && (#[trigger] records[i])@.key() == k;
            if i < first.len() {
                assert(first[i]@.key() == k);
            }
        }
        if records.last()@.key() == k {
            assert(records[records.len() - 1]@.key() == k);
        } else if filed_all(base, first).contains_key(k) {
            if exists|i: int|
                0 <= i < first.len() && (#[trigger] first[i])@.key() == k && first[i] == filed_all(
                    base,
                    first,
                )[k] {
                let i = choose|i: int|
                    0 <= i < first.len() && (#[trigger] first[i])@.key() == k && first[i]
                        == filed_all(base, first)[k];
                assert(records[i] == first[i]);
            }
            if exists|i: int| 0 <= i < first.len() && (#[trigger] first[i])@.key() == k {
                let i = choose|i: int| 0 <= i < first.len() && (#[trigger] first[i])@.key() == k;
                assert(records[i] == first[i]);
            }
        }
    }
}

proof fn lemma_of_scope(
    rows: Seq<(String, SourceRecord)>,
    scope: Scope,
    n: nat,
    record: SourceRecordView,
)
    requires
        n <= rows.len(),
    ensures
        of_scope(rows, scope, n).contains(record) <==> exists|j: int|
            0 <= j < n && (#[trigger] rows[j]).1@ == record && record.scope == scope,
    decreases n,
{
    let all = of_scope(rows, scope, n);
    if n > 0 {
        let before = of_scope(rows, scope, (n - 1) as nat);
        lemma_of_scope(rows, scope, (n - 1) as nat, record);
        if all.contains(record) {
            let i = choose|i: int| 0 <= i < all.len() && all[i] == record;
            if i < before.len() {
                assert(before[i] == record);
            } else {
                assert(rows[n - 1].1@ == record);
            }
        }
        if exists|j: int| 0 <= j < n && (#[trigger] rows[j]).1@ == record && record.scope == scope {
            let j = choose|j: int|
                0 <= j < n && (#[trigger] rows[j]).1@ == record && record.scope == scope;
            if j == n - 1 {
                assert(all[all.len() - 1] == record);
            } else {
                assert(before.contains(record));
                let i = choose|i: int| 0 <= i < before.len() && before[i] == record;
                assert(all[i] == record);
            }
        }
    }
}

/// What is written of the registries is what a restart reads back: filing the records of
/// the two files gives every source again, under its key, and no other.
pub proof fn law_the_registry_survives_a_restart(
    sources: Table<SourceRecord>,
    user: Seq<SourceRecord>,
    project: Seq<SourceRecord>,
    k: Seq<char>,
)
    requires
        sources.wf(),
        filed(sources@),
        records_view(user) == of_scope(sources.rows(), Scope::User, sources.rows().len()),
        records_view(project) == of_scope(sources.rows(), Scope::Project, sources.rows().len()),
    ensures
        ({
            let again = filed_all(filed_all(Map::empty(), user), project);
            &&& again.contains_key(k) == sources@.contains_key(k)
            &&& sources@.contains_key(k) ==> again[k]@ == sources@[k]@
        }),
{
    let rows = sources.rows();
    let n = rows.len();
    let first = filed_all(Map::empty(), user);
    let again = filed_all(first, project);
    lemma_filed_all(Map::empty(), user, k);
    lemma_filed_all(first, project, k);
    if again.contains_key(k) {
        let r = again[k]@;
        if exists|i: int|
            0 <= i < project.len() && (#[trigger] project[i])@.key() == k && project[i]
                == again[k] {
            let i = choose|i: int|
                0 <= i < project.len() && (#[trigger] project[i])@.key() == k && project[i]
                    == again[k];
            assert(records_view(project)[i] == r);
            assert(of_scope(rows, Scope::Project, n).contains(r));
            lemma_of_scope(rows, Scope::Project, n, r);
            let j = choose|j: int| 0 <= j < n && (#[trigger] rows[j]).1@ == r;
            sources.lemma_row(j);
        } else {
            let i = choose|i: int|
                0 <= i < user.len() && (#[trigger] user[i])@.key() == k && user[i] == again[k];
            assert(records_view(user)[i] == r);
            assert(of_scope(rows, Scope::User, n).contains(r));
            lemma_of_scope(rows, Scope::User, n, r);
            let j = choose|j: int| 0 <= j < n && (#[trigger] rows[j]).1@ == r;
            sources.lemma_row(j);
        }
    }
    if sources@.contains_key(k) {
        let j = sources.lemma_key(k);
        let r = rows[j].1@;
        assert(r.key() == k);
        if r.scope == Scope::Project {
            lemma_of_scope(rows, Scope::Project, n, r);
            assert(records_view(project).contains(r));
            let i = choose|i: int|
                0 <= i < records_view(project).len() && records_view(project)[i] == r;
            assert(project[i]@.key() == k);
        } else {
            lemma_of_scope(rows, Scope::User, n, r);
            assert(records_view(user).contains(r));
            let i = choose|i: int|
                0 <= i < records_view(user).len() && records_view(user)[i] == r;
            assert(user[i]@.key() == k);
        }
    }
}

/// A source that was committed is what its key names, whatever was there before.
pub proof fn law_a_committed_source_is_named(
    sources: Map<Seq<char>, SourceRecord>,
    record: SourceRecord,
)
    ensures
        named(sources.insert(record@.key(), record), record@.key()) == Ok::<
            SourceRecordView,
            ErrorView,
        >(record@),
{
}

/// Which dialect each kind of source speaks.
pub proof fn law_a_kind_speaks_its_own_dialect(kind: SourceKind)
    ensures
        dialect_of(kind) is PgSql <==> kind is Postgres,
        dialect_of(kind) is TSql <==> kind is MsSql || kind is Fabric,
        dialect_of(kind) is MySql <==> kind is MySql,
        dialect_of(kind) is DuckDb <==> kind is Mongo || kind is Folder || kind is File
            || kind is Adls,
{
}

/// A source is found by its key, or by its bare id where one scope alone has it; where both
/// have it the caller must say which, and where neither does there is no such source.
pub proof fn law_a_source_is_found_by_its_name(
    sources: Map<Seq<char>, SourceRecord>,
    key: Seq<char>,
)
    ensures
        ({
            let user = "user:"@ + key;
            let project = "project:"@ + key;
            &&& sources.contains_key(key) ==> named(sources, key) == Ok::<
                SourceRecordView,
                ErrorView,
            >(sources[key]@)
            &&& !sources.contains_key(key) ==> {
                &&& sources.contains_key(user) && !sources.contains_key(project) ==> named(
                    sources,
                    key,
                ) == Ok::<SourceRecordView, ErrorView>(sources[user]@)
                &&& !sources.contains_key(user) && sources.contains_key(project) ==> named(
                    sources,
                    key,
                ) == Ok::<SourceRecordView, ErrorView>(sources[project]@)
                &&& sources.contains_key(user) && sources.contains_key(project) ==> (named(
                    sources,
                    key,
                ) matches Err(e) && e is BadRequest)
                &&& !sources.contains_key(user) && !sources.contains_key(project) ==> named(
                    sources,
                    key,
                ) == Err::<SourceRecordView, ErrorView>(ErrorView::UnknownSource(key))
            }
        }),
{
}

/// A credential is the one that is filed for the source. Only a user's own may still be
/// filed under the bare id, and then it is moved.
pub proof fn law_a_credential_is_the_one_that_was_filed(
    entries: vault::Entries,
    key: Seq<char>,
    id: Seq<char>,
    secret: Seq<char>,
)
    ensures
        vault::secret_in(entries, key) == Ok::<Option<Seq<char>>, ErrorView>(Some(secret)) ==> {
            &&& found_secret(entries, key, id, Scope::User) == Ok::<
                (Option<Seq<char>>, Seq<StepView>),
                ErrorView,
            >((Some(secret), Seq::empty()))
            &&& found_secret(entries, key, id, Scope::Project) == Ok::<
                (Option<Seq<char>>, Seq<StepView>),
                ErrorView,
            >((Some(secret), Seq::empty()))
        },
        vault::secret_in(entries, key) == Ok::<Option<Seq<char>>, ErrorView>(None) ==> {
            &&& found_secret(entries, key, id, Scope::Project) == Ok::<
                (Option<Seq<char>>, Seq<StepView>),
                ErrorView,
            >((None, Seq::empty()))
            &&& vault::secret_in(entries, id) == Ok::<Option<Seq<char>>, ErrorView>(Some(secret))
                ==> found_secret(entries, key, id, Scope::User) == Ok::<
                (Option<Seq<char>>, Seq<StepView>),
                ErrorView,
            >((Some(secret), vault::store_steps(key, secret) + vault::delete_steps(id)))
        },
{
}

/// A folder that was opened before stays remembered, after the one that is open now, as long
/// as there is room.
pub proof fn law_a_folder_stays_remembered(
    recent: Seq<Seq<char>>,
    root: Seq<char>,
    windows: bool,
    folder: Seq<char>,
)
    requires
        recent.contains(folder),
        paths::parts(folder, windows) != paths::parts(root, windows),
        recent.len() < RECENT_FOLDERS,
    ensures
        remembered(recent, root, windows).contains(folder),
        remembered(recent, root, windows).len() <= recent.len() + 1,
{
    lemma_stays_among(recent, root, windows, folder);
    let rest = others(recent, root, windows);
    let all = seq![root] + rest;
    let k = rest.index_of(folder);
    assert(all[k + 1] == folder);
}

proof fn lemma_stays_among(
    recent: Seq<Seq<char>>,
    root: Seq<char>,
    windows: bool,
    folder: Seq<char>,
)
    requires
        recent.contains(folder),
        paths::parts(folder, windows) != paths::parts(root, windows),
    ensures
        others(recent, root, windows).contains(folder),
        others(recent, root, windows).len() <= recent.len(),
    decreases recent.len(),
{
    let before = recent.drop_last();
    let out = others(recent, root, windows);
    lemma_fewer_others(before, root, windows);
    if recent.last() == folder {
        assert(out[out.len() - 1] == folder);
    } else {
        let i = recent.index_of(folder);
        assert(before[i] == folder);
        lemma_stays_among(before, root, windows, folder);
        let k = others(before, root, windows).index_of(folder);
        assert(out[k] == folder);
    }
}

proof fn lemma_fewer_others(recent: Seq<Seq<char>>, root: Seq<char>, windows: bool)
    ensures
        others(recent, root, windows).len() <= recent.len(),
    decreases recent.len(),
{
    if recent.len() > 0 {
        lemma_fewer_others(recent.drop_last(), root, windows);
    }
}

/// Nothing is remembered that was not opened.
pub proof fn law_only_opened_folders_are_remembered(
    recent: Seq<Seq<char>>,
    root: Seq<char>,
    windows: bool,
    folder: Seq<char>,
)
    requires
        remembered(recent, root, windows).contains(folder),
    ensures
        folder == root || recent.contains(folder),
{
    let rest = others(recent, root, windows);
    let all = seq![root] + rest;
    let i = remembered(recent, root, windows).index_of(folder);
    assert(all[i] == folder);
    if i > 0 {
        assert(rest[i - 1] == folder);
        lemma_others_from(recent, root, windows, folder);
    }
}

proof fn lemma_others_from(
    recent: Seq<Seq<char>>,
    root: Seq<char>,
    windows: bool,
    folder: Seq<char>,
)
    requires
        others(recent, root, windows).contains(folder),
    ensures
        recent.contains(folder),
    decreases recent.len(),
{
    if recent.len() > 0 {
        let before = others(recent.drop_last(), root, windows);
        let k = others(recent, root, windows).index_of(folder);
        if k < before.len() {
            assert(before[k] == folder);
            lemma_others_from(recent.drop_last(), root, windows, folder);
            let i = recent.drop_last().index_of(folder);
            assert(recent[i] == folder);
        } else {
            assert(recent[recent.len() - 1] == folder);
        }
    }
}

/// A folder that is still there is listed and one that is not is not.
pub proof fn law_only_what_is_there_is_listed(names: Seq<Seq<char>>, there: Seq<bool>, i: int)
    requires
        names.len() == there.len(),
        0 <= i < names.len(),
    ensures
        there[i] ==> present(names, there).contains(names[i]),
        present(names, there).contains(names[i]) ==> exists|j: int|
            0 <= j < names.len() && names[j] == names[i] && #[trigger] there[j],
        (forall|j: int| 0 <= j < there.len() ==> #[trigger] there[j]) ==> present(names, there)
            == names,
    decreases names.len(),
{
    lemma_present_from(names, there, names[i]);
    lemma_present_all(names, there);
    let out = present(names, there);
    let before = present(names.drop_last(), there.drop_last());
    if there[i] {
        if i == names.len() - 1 {
            assert(out[out.len() - 1] == names[i]);
        } else {
            law_only_what_is_there_is_listed(names.drop_last(), there.drop_last(), i);
            let k = before.index_of(names[i]);
            assert(out[k] == names[i]);
        }
    }
}

proof fn lemma_present_from(names: Seq<Seq<char>>, there: Seq<bool>, name: Seq<char>)
    requires
        names.len() == there.len(),
    ensures
        present(names, there).contains(name) ==> exists|j: int|
            0 <= j < names.len() && names[j] == name && #[trigger] there[j],
    decreases names.len(),
{
    if names.len() > 0 && present(names, there).contains(name) {
        let before = present(names.drop_last(), there.drop_last());
        lemma_present_from(names.drop_last(), there.drop_last(), name);
        let k = present(names, there).index_of(name);
        if k < before.len() {
            assert(before[k] == name);
            let j = choose|j: int|
                0 <= j < names.drop_last().len() && names.drop_last()[j] == name
                    && #[trigger] there.drop_last()[j];
            assert(names[j] == name && there[j]);
        } else {
            let j = names.len() - 1;
            assert(names[j] == name && there[j]);
        }
    }
}

proof fn lemma_present_all(names: Seq<Seq<char>>, there: Seq<bool>)
    requires
        names.len() == there.len(),
    ensures
        (forall|j: int| 0 <= j < there.len() ==> #[trigger] there[j]) ==> present(names, there)
            == names,
    decreases names.len(),
{
    if names.len() > 0 && forall|j: int| 0 <= j < there.len() ==> #[trigger] there[j] {
        assert forall|j: int| 0 <= j < there.drop_last().len() implies #[trigger] there.drop_last()[j] by {
            assert(there[j]);
        }
        lemma_present_all(names.drop_last(), there.drop_last());
        assert(there[there.len() - 1]);
        assert(names == names.drop_last().push(names.last()));
    } else if names.len() == 0 {
        assert(present(names, there) == names);
    }
}

/// A source that is edited without a new credential keeps the one it has, as long as it
/// signs in the same way: what comes out is the edit, with the stored secret.
pub proof fn law_an_edit_without_a_credential_keeps_it(
    sources: Map<Seq<char>, SourceRecord>,
    entries: vault::Entries,
    workspace: Option<Seq<char>>,
    key: Seq<char>,
    config: SourceConfigView,
)
    ensures
        kept_secret(sources, entries, workspace, key, config) matches Ok((kept, _)) ==> {
            let record = named(sources, key)->Ok_0;
            &&& named(sources, key) is Ok
            &&& record.auth.method() == config.auth.method()
            &&& kept.id == config.id && kept.scope == config.scope && kept.kind == config.kind
            &&& kept.host == config.host && kept.path == config.path && kept.options
                == config.options
            &&& kept.port == config.port && kept.instance == config.instance && kept.database
                == config.database && kept.tls == config.tls
            &&& kept.auth.method() == config.auth.method()
            &&& record.auth.needs_secret() ==> (found_secret(
                entries,
                vault_name(record.scope, record.id, workspace),
                record.id,
                record.scope,
            ) matches Ok((secret, _)) && kept.auth.secret() == secret && secret is Some)
        },
        named(sources, key) matches Ok(record) ==> record.auth.method() != config.auth.method()
            ==> kept_secret(sources, entries, workspace, key, config) is Err,
{
    if named(sources, key) is Ok {
        let record = named(sources, key)->Ok_0;
        let auth = account_kept(config.record().auth, record.auth.account());
        assert(auth.method() == config.auth.method());
        lemma_methods(record.auth, auth);
    }
}

proof fn lemma_methods(a: AuthKindView, b: AuthKindView)
    ensures
        a.method() == b.method() ==> a.needs_secret() == b.needs_secret(),
{
    reveal_strlit("password");
    reveal_strlit("integrated");
    reveal_strlit("aad_token");
    reveal_strlit("entra");
    reveal_strlit("none");
    assert(a.needs_secret() <==> !(a.method().len() == 10 || a.method().len() == 4));
    assert(b.needs_secret() <==> !(b.method().len() == 10 || b.method().len() == 4));
}

/// A path is where it says: one that is absolute, or no path of files, stays as it is, and
/// a relative one is below the open folder, which only a project source has.
pub proof fn law_a_relative_path_is_below_the_open_folder(
    record: SourceRecordView,
    path: Seq<char>,
    root: Seq<char>,
    windows: bool,
)
    ensures
        anchored(record, None, Some(root), windows) == Ok::<Option<Seq<char>>, ErrorView>(None),
        !record.kind.local_files() || text::trim(path).len() == 0 || !workspace::relative(
            text::trim(path),
            windows,
        ) ==> anchored(record, Some(path), Some(root), windows) == Ok::<
            Option<Seq<char>>,
            ErrorView,
        >(Some(path)),
        record.kind.local_files() && text::trim(path).len() > 0 && workspace::relative(
            text::trim(path),
            windows,
        ) ==> {
            &&& record.scope is Project ==> anchored(record, Some(path), Some(root), windows)
                == Ok::<Option<Seq<char>>, ErrorView>(
                Some(paths::join(root, text::trim(path), windows)),
            )
            &&& record.scope is Project ==> anchored(record, Some(path), None, windows) is Err
            &&& record.scope is User ==> anchored(record, Some(path), Some(root), windows) is Err
        },
{
}

/// A source that is resolved is its record, with its credential; a database that was named
/// takes the place of the record's.
pub proof fn law_a_resolved_source_is_its_record(
    record: SourceRecordView,
    secret: Option<Seq<char>>,
    database: Option<Seq<char>>,
    workspace: Option<Seq<char>>,
    windows: bool,
)
    ensures
        resolved(record, secret, database, workspace, windows) matches Ok(c) ==> {
            &&& c.id == record.id && c.scope == record.scope && c.kind == record.kind
            &&& c.host == record.host && c.options == record.options && c.port == record.port
            &&& c.instance == record.instance && c.tls == record.tls
            &&& c.auth.kind() == record.auth
            &&& record.auth.needs_secret() ==> c.auth.secret() == secret && secret is Some
            &&& database is Some ==> c.database == database
            &&& database is None ==> c.database == record.database
            &&& anchored(record, record.path, workspace, windows) == Ok::<
                Option<Seq<char>>,
                ErrorView,
            >(c.path)
        },
{
}

/// Who authorises a connection: a source that does not sign in with Entra is ready as it
/// is; one that does uses the token it has while that is fresh, and asks for another with
/// its own refresh token otherwise.
pub proof fn law_a_sign_in_is_used_while_it_is_fresh(
    config: SourceConfigView,
    store_as: Option<Seq<char>>,
    tokens: Map<Seq<char>, Tokens>,
    now: u128,
)
    ensures
        !(config.auth is Entra) ==> authority(config, store_as, tokens, now) == Ok::<
            AuthorityView,
            ErrorView,
        >(AuthorityView::Ready(config)),
        config.auth matches AuthConfigView::Entra { tenant, client_id, refresh_token, .. } ==> {
            let fresh = store_as is Some && tokens.contains_key(store_as->Some_0)
                && tokens[store_as->Some_0]@.fresh(now);
            &&& config.kind.resource() is None || refresh_token is None ==> authority(
                config,
                store_as,
                tokens,
                now,
            ) is Err
            &&& config.kind.resource() is Some && refresh_token is Some ==> {
                &&& fresh ==> (authority(config, store_as, tokens, now) matches Ok(
                    AuthorityView::Ready(c),
                ) && c == config.with_auth(
                    AuthConfigView::AadToken { token: tokens[store_as->Some_0]@.access_token },
                ))
                &&& !fresh ==> authority(config, store_as, tokens, now) == Ok::<
                    AuthorityView,
                    ErrorView,
                >(
                    AuthorityView::Refresh {
                        tenant,
                        client_id,
                        resource: config.kind.resource()->Some_0,
                        refresh_token: refresh_token->Some_0,
                    },
                )
            }
        },
{
}

/// A token that was rotated is stored in place of the old one, and one that was not leaves
/// the vault alone.
pub proof fn law_a_rotated_token_is_stored(
    key: Seq<char>,
    old_token: Seq<char>,
    new_token: Seq<char>,
)
    ensures
        old_token != new_token ==> rotating(Some(key), old_token, Some(new_token))
            == vault::store_steps(key, new_token),
        rotating(Some(key), old_token, Some(old_token)) == Seq::<StepView>::empty(),
        rotating(Some(key), old_token, None) == Seq::<StepView>::empty(),
        rotating(None, old_token, Some(new_token)) == Seq::<StepView>::empty(),
{
}

/// A token is kept exactly as long as it is fresh.
pub proof fn law_only_fresh_tokens_are_kept(
    tokens: Map<Seq<char>, Tokens>,
    now: u128,
    key: Seq<char>,
)
    ensures
        still_fresh(tokens, now).contains_key(key) <==> tokens.contains_key(key)
            && tokens[key]@.fresh(now),
        still_fresh(tokens, now).contains_key(key) ==> still_fresh(tokens, now)[key] == tokens[key],
{
}

} // verus!
