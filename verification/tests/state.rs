use alkyon::azure::entra::{Resource, Tokens, SECOND};
use alkyon::error::Error;
use alkyon::model::{
    AuthConfig, AuthKind, Dialect, FileOptions, Scope, SourceConfig, SourceKind, SourceRecord,
    TlsMode,
};
use alkyon::schema::Snapshot;
use alkyon::state::{
    bearing, config_dir, dialect, tagged, terminal_allowed, AppState, Authorised, Pending,
    StoredWorkspace, Wanted, RECENT_FOLDERS,
};
use alkyon::table::Table;
use alkyon::vault::Vault;

fn password(secret: &str) -> AuthConfig {
    AuthConfig::Password {
        username: "reader".to_owned(),
        password: secret.to_owned(),
    }
}

fn config(id: &str, scope: Scope, auth: AuthConfig) -> SourceConfig {
    SourceConfig {
        id: id.to_owned(),
        scope,
        kind: SourceKind::Postgres,
        host: "db.example.com".to_owned(),
        path: None,
        options: FileOptions::default(),
        port: None,
        instance: None,
        database: None,
        auth,
        tls: TlsMode::Prefer,
    }
}

fn record(id: &str, scope: Scope) -> SourceRecord {
    config(id, scope, AuthConfig::NoAuth).split().0
}

fn add(state: &mut AppState, config: SourceConfig) -> String {
    let pending: Pending = state.register(config).ok().unwrap();
    assert!(pending.left.is_empty(), "a memory vault leaves nothing to do");
    state.commit(pending).key
}

fn secret(state: &mut AppState, key: &str) -> Option<String> {
    let record = state.record(key).unwrap();
    state.secret_of(&record, &Table::new()).ok().unwrap().0
}

#[test]
fn a_source_is_found_by_its_key_and_by_a_bare_id() {
    let mut state = AppState::new();
    assert_eq!(
        add(&mut state, config("pg", Scope::User, password("pw"))),
        "user:pg"
    );
    assert_eq!(state.record("user:pg").unwrap().id, "pg");
    assert_eq!(state.record("pg").unwrap().id, "pg");
    assert!(matches!(
        state.record("nope"),
        Err(Error::UnknownSource(key)) if key == "nope"
    ));
    assert_eq!(secret(&mut state, "pg").as_deref(), Some("pw"));
}

#[test]
fn a_bare_id_in_both_scopes_has_to_be_qualified() {
    let mut state = AppState::new();
    state.open_workspace("/w".to_owned());
    add(&mut state, config("pg", Scope::User, password("one")));
    add(&mut state, config("pg", Scope::Project, password("two")));
    let refused = state.record("pg").err().unwrap().message();
    assert!(refused.contains("defined in both scopes"), "{refused}");
    assert_eq!(secret(&mut state, "user:pg").as_deref(), Some("one"));
    assert_eq!(secret(&mut state, "project:pg").as_deref(), Some("two"));
    let keys: Vec<String> = state.summaries().into_iter().map(|s| s.key).collect();
    assert_eq!(keys, ["project:pg", "user:pg"]);
}

#[test]
fn a_source_is_registered_once_and_a_project_one_needs_a_folder() {
    let mut state = AppState::new();
    add(&mut state, config("pg", Scope::User, password("pw")));
    assert!(matches!(
        state.register(config("pg", Scope::User, password("other"))),
        Err(Error::DuplicateSource(key)) if key == "user:pg"
    ));
    assert_eq!(secret(&mut state, "pg").as_deref(), Some("pw"));
    let refused = state
        .register(config("p", Scope::Project, password("x")))
        .err()
        .unwrap();
    assert_eq!(
        refused.message(),
        "a project source needs an open folder to live in"
    );
}

#[test]
fn two_projects_do_not_share_a_credential() {
    let mut state = AppState::new();
    state.open_workspace("/a".to_owned());
    let one = state.vault_key(&record("warehouse", Scope::Project));
    state.open_workspace("/b".to_owned());
    let other = state.vault_key(&record("warehouse", Scope::Project));
    assert_eq!(one, "project:/a:warehouse");
    assert_eq!(other, "project:/b:warehouse");
    assert_eq!(
        state.vault_key(&record("warehouse", Scope::User)),
        "user:warehouse"
    );
}

#[test]
fn an_edit_keeps_or_moves_its_credential() {
    let mut state = AppState::new();
    add(&mut state, config("pg", Scope::User, password("old")));
    let same = state
        .replace("pg", config("pg", Scope::User, password("new")))
        .ok()
        .unwrap();
    state.commit(same);
    assert_eq!(secret(&mut state, "pg").as_deref(), Some("new"));

    let renamed = state
        .replace("pg", config("dw", Scope::User, password("newer")))
        .ok()
        .unwrap();
    state.commit(renamed);
    assert!(state.record("pg").is_err());
    assert_eq!(secret(&mut state, "dw").as_deref(), Some("newer"));
    let gone = state
        .load_secret(&record("pg", Scope::User), &Table::new())
        .ok()
        .unwrap();
    assert_eq!(gone.0, None);

    add(&mut state, config("x", Scope::User, password("x")));
    assert!(matches!(
        state.replace("dw", config("x", Scope::User, password("y"))),
        Err(Error::DuplicateSource(_))
    ));
    assert_eq!(secret(&mut state, "dw").as_deref(), Some("newer"));
}

#[test]
fn an_empty_box_keeps_the_password() {
    let mut state = AppState::new();
    add(&mut state, config("pg", Scope::User, password("stored")));
    let (filled, _) = state
        .keep_secret(
            "pg",
            config("pg", Scope::User, password("")),
            &Table::new(),
        )
        .ok()
        .unwrap();
    assert!(matches!(filled.auth, AuthConfig::Password { password, .. } if password == "stored"));

    let changed = state
        .keep_secret(
            "pg",
            config("pg", Scope::User, AuthConfig::Integrated),
            &Table::new(),
        )
        .err()
        .unwrap();
    assert_eq!(
        changed.message(),
        "the sign-in method changed from `password` to `integrated`, so the credential has to be given again"
    );
}

#[test]
fn a_credential_from_before_scopes_is_moved_to_its_key() {
    let mut state = AppState::new();
    state.vault.store("pg", "ancient");
    let pending = state.import(config("pg", Scope::User, AuthConfig::NoAuth));
    state.commit(pending);
    let found = state
        .load_secret(&record("pg", Scope::User), &Table::new())
        .ok()
        .unwrap();
    assert_eq!(found.0.as_deref(), Some("ancient"));
    assert_eq!(state.vault.load("pg", &Table::new()).unwrap(), None);
    assert_eq!(
        state.vault.load("user:pg", &Table::new()).unwrap().as_deref(),
        Some("ancient")
    );
}

#[test]
fn removing_a_source_takes_its_schema_and_its_credential_along() {
    let mut state = AppState::new();
    add(&mut state, config("pg", Scope::User, password("pw")));
    state.schema.put(Snapshot {
        source: "user:pg".to_owned(),
        database: "db".to_owned(),
        tables: Vec::new(),
    });
    assert!(matches!(
        state.snapshot("pg", Some("db"), false),
        Ok(Wanted::Cached(_))
    ));
    assert!(matches!(
        state.snapshot("pg", Some("db"), true),
        Ok(Wanted::Load { key, database }) if key == "user:pg" && database == "db"
    ));
    assert!(state.remove("pg").ok().unwrap().is_empty());
    assert!(state.record("pg").is_err());
    assert!(state.schema.get("user:pg", "db").is_none());
    assert_eq!(state.vault.load("user:pg", &Table::new()).unwrap(), None);
    assert!(state.remove("pg").is_err());
}

#[test]
fn a_folder_brings_its_sources_and_takes_them_away() {
    let mut state = AppState::load(
        Vault::memory(),
        "/config",
        true,
        StoredWorkspace {
            root: Some("/gone".to_owned()),
            recent: vec!["/gone".to_owned()],
        },
        false,
        vec![record("pg", Scope::Project)],
        vec![record("ignored", Scope::User)],
        false,
    );
    assert_eq!(state.workspace, None, "a folder that has gone comes back closed");
    assert_eq!(state.file.as_deref(), Some("/config/sources.json"));
    assert!(state.record("user:pg").is_ok(), "tagged with its own scope");

    let (file, stored) = state.open_workspace("/w".to_owned()).unwrap();
    assert_eq!(file, "/config/workspace.json");
    assert_eq!(stored.root.as_deref(), Some("/w"));
    assert_eq!(stored.recent, ["/w", "/gone"]);
    state.reload_project_sources(vec![record("dw", Scope::User)]);
    assert!(state.record("project:dw").is_ok());
    assert_eq!(state.workspace_root().unwrap(), "/w");

    let registries = state.persist(false);
    assert_eq!(registries.len(), 2);
    assert_eq!(registries[0].records.len(), 1);
    assert_eq!(registries[1].file, "/w/.alkyon/sources.json");
    assert_eq!(registries[1].records[0].id, "dw");

    let (_, closed) = state.close_workspace().unwrap();
    assert_eq!(closed.root, None);
    assert_eq!(closed.recent, ["/w", "/gone"]);
    assert!(state.record("project:dw").is_err());
    assert!(state.record("user:pg").is_ok());
    assert_eq!(
        state.workspace_root().err().unwrap().message(),
        "no folder is open"
    );
}

#[test]
fn no_registry_is_made_in_a_project_without_sources() {
    let mut state = AppState::new();
    assert!(state.persist(true).is_empty());
    state.file = Some("/config/sources.json".to_owned());
    state.open_workspace("/w".to_owned());
    assert_eq!(state.persist(false).len(), 1);
    assert_eq!(state.persist(true).len(), 2);
}

#[test]
fn what_was_written_is_what_is_read_after_a_restart() {
    let mut state = AppState::new();
    state.file = Some("/config/sources.json".to_owned());
    state.open_workspace("/w".to_owned());
    add(&mut state, config("a", Scope::User, password("1")));
    add(&mut state, config("b", Scope::Project, password("2")));
    let mut registries = state.persist(false);
    let project = registries.pop().unwrap().records;
    let user = registries.pop().unwrap().records;
    let again = AppState::load(
        Vault::memory(),
        "/config",
        true,
        StoredWorkspace {
            root: Some("/w".to_owned()),
            recent: Vec::new(),
        },
        true,
        user,
        project,
        false,
    );
    let keys = |state: &AppState| -> Vec<String> {
        state.summaries().into_iter().map(|s| s.key).collect()
    };
    assert_eq!(keys(&again), keys(&state));
}

#[test]
fn recent_folders_are_few_and_each_once() {
    let mut state = AppState::new();
    for i in 0..12 {
        state.remember(&format!("/p{i}"));
    }
    state.remember("/p9");
    assert_eq!(state.recent.len(), RECENT_FOLDERS);
    assert_eq!(state.recent[0], "/p9");
    assert_eq!(state.recent[1], "/p11");
    state.remember("/p11/");
    assert_eq!(state.recent[0], "/p11/", "one folder, however it is written");
    assert!(!state.recent.contains(&"/p11".to_owned()));
    let mut there = vec![true; RECENT_FOLDERS];
    there[0] = false;
    assert_eq!(state.recent_folders(&there).len(), RECENT_FOLDERS - 1);
}

fn folder(scope: Scope, path: &str) -> SourceRecord {
    SourceRecord {
        kind: SourceKind::Folder,
        path: Some(path.to_owned()),
        auth: AuthKind::NoAuth,
        ..record("f", scope)
    }
}

#[test]
fn a_relative_path_is_relative_to_the_project() {
    let mut state = AppState::new();
    let user = folder(Scope::User, "data");
    let refused = state
        .anchor_path(&user, Some("data".to_owned()))
        .err()
        .unwrap()
        .message();
    assert!(refused.starts_with("`data` is a relative path"), "{refused}");
    let project = folder(Scope::Project, "data");
    let closed = state
        .anchor_path(&project, Some("data".to_owned()))
        .err()
        .unwrap()
        .message();
    assert_eq!(closed, "`data` is relative to the project, but no folder is open");
    state.open_workspace("/w".to_owned());
    assert_eq!(
        state
            .anchor_path(&project, Some(" data ".to_owned()))
            .unwrap()
            .as_deref(),
        Some("/w/data")
    );
    assert_eq!(
        state
            .anchor_path(&user, Some("~/data".to_owned()))
            .unwrap()
            .as_deref(),
        Some("~/data")
    );
    assert_eq!(state.anchor_path(&user, None).unwrap(), None);

    let (config, key) = state
        .resolve(&project, None, Some("other"))
        .ok()
        .unwrap();
    assert_eq!(config.path.as_deref(), Some("/w/data"));
    assert_eq!(config.database.as_deref(), Some("other"));
    assert_eq!(key, "project:/w:f");
}

fn entra(refresh: Option<&str>, ticket: Option<&str>) -> SourceConfig {
    let mut config = config(
        "dw",
        Scope::User,
        AuthConfig::Entra {
            tenant: "t".to_owned(),
            client_id: "c".to_owned(),
            ticket: ticket.map(str::to_owned),
            refresh_token: refresh.map(str::to_owned),
            account: String::new(),
        },
    );
    config.kind = SourceKind::MsSql;
    config
}

fn tokens(access: &str, refresh: Option<&str>, expires_at: u128) -> Tokens {
    Tokens {
        access_token: access.to_owned(),
        refresh_token: refresh.map(str::to_owned),
        expires_at,
        account: "ada".to_owned(),
    }
}

#[test]
fn a_sign_in_becomes_a_token_that_is_kept_while_it_lasts() {
    let mut state = AppState::new();
    let now: u128 = 1_000 * SECOND;
    assert!(matches!(
        state.authorise(config("pg", Scope::User, password("pw")), None, now),
        Ok(Authorised::Ready(config)) if matches!(config.auth, AuthConfig::Password { .. })
    ));
    let unsigned = state.authorise(entra(None, None), None, now).err().unwrap();
    assert_eq!(
        unsigned.message(),
        "source `dw` has no Entra sign-in yet — sign in before testing it"
    );
    let mut other = entra(Some("r"), None);
    other.kind = SourceKind::MySql;
    assert!(state.authorise(other, None, now).is_err());

    let Ok(Authorised::Refresh {
        config,
        resource,
        refresh_token,
        ..
    }) = state.authorise(entra(Some("r"), None), Some("user:dw"), now)
    else {
        panic!("a token has to be minted");
    };
    assert_eq!(resource, Resource::AzureSql);
    let minted = tokens("a", Some("rotated"), now + 3_600 * SECOND);
    assert!(state.rotate(Some("user:dw"), &refresh_token, &minted).is_empty());
    assert_eq!(
        state.vault.load("user:dw", &Table::new()).unwrap().as_deref(),
        Some("rotated")
    );
    state.hold(Some("user:dw"), minted, now);
    let borne = bearing(config, "a".to_owned());
    assert!(matches!(borne.auth, AuthConfig::AadToken { token } if token == "a"));

    assert!(matches!(
        state.authorise(entra(Some("r"), None), Some("user:dw"), now),
        Ok(Authorised::Ready(config)) if matches!(&config.auth, AuthConfig::AadToken { token } if token == "a")
    ));
    assert!(matches!(
        state.authorise(entra(Some("r"), None), Some("user:other"), now),
        Ok(Authorised::Refresh { .. })
    ));
    assert!(matches!(
        state.authorise(entra(Some("r"), None), Some("user:dw"), now + 3_600 * SECOND),
        Ok(Authorised::Refresh { .. })
    ));
}

#[test]
fn a_ticket_is_spent_by_saving_and_not_by_testing() {
    let mut state = AppState::new();
    let ticket = state.sign_ins.begin(None, 0);
    state
        .sign_ins
        .finish(&ticket, Ok(tokens("a", Some("r"), 0)));
    let tested = state.borrow_sign_in(entra(None, Some(&ticket))).ok().unwrap();
    assert!(matches!(
        tested.auth,
        AuthConfig::Entra { refresh_token: Some(r), account, ticket: None, .. }
            if r == "r" && account == "ada"
    ));
    assert!(state.redeem_sign_in(entra(None, Some(&ticket))).is_ok());
    assert_eq!(
        state
            .redeem_sign_in(entra(None, Some(&ticket)))
            .err()
            .unwrap()
            .message(),
        "that sign-in has expired or was already used — sign in again"
    );

    let short = state.sign_ins.begin(None, 0);
    state.sign_ins.finish(&short, Ok(tokens("a", None, 0)));
    let refused = state
        .redeem_sign_in(entra(None, Some(&short)))
        .err()
        .unwrap()
        .message();
    assert!(refused.contains("offline_access"), "{refused}");
}

#[test]
fn the_edges_of_the_environment_are_decided_here() {
    assert_eq!(config_dir(Some("/c"), Some("/p")).as_deref(), Some("/c"));
    assert_eq!(config_dir(None, Some("/p")).as_deref(), Some("/p"));
    assert_eq!(config_dir(None, None), None);
    assert!(terminal_allowed(None, true));
    assert!(!terminal_allowed(None, false));
    assert!(terminal_allowed(Some("always"), false));
    assert!(!terminal_allowed(Some("never"), false));
    assert_eq!(dialect(SourceKind::Fabric), Dialect::TSql);
    assert_eq!(dialect(SourceKind::Mongo), Dialect::DuckDb);
    assert_eq!(
        tagged(vec![record("a", Scope::User)], Scope::Project)[0].scope,
        Scope::Project
    );
    let layers = AppState::new().settings_layers(false, false);
    assert_eq!(layers.len(), 2);
}

#[test]
fn on_windows_paths_are_read_the_windows_way() {
    let mut state = AppState::load(
        Vault::memory(),
        "C:\\Users\\ada\\alkyon",
        true,
        StoredWorkspace {
            root: Some("C:\\work".to_owned()),
            recent: vec!["c:/work/".to_owned(), "D:\\other".to_owned()],
        },
        true,
        Vec::new(),
        Vec::new(),
        true,
    );
    assert_eq!(
        state.file.as_deref(),
        Some("C:\\Users\\ada\\alkyon\\sources.json")
    );
    state.remember("C:\\work");
    assert_eq!(state.recent, ["C:\\work", "D:\\other"]);

    let project = folder(Scope::Project, "data");
    assert_eq!(
        state
            .anchor_path(&project, Some("data".to_owned()))
            .unwrap()
            .as_deref(),
        Some("C:\\work\\data")
    );
    let parquet = folder(Scope::User, "C:\\data\\parquet");
    assert_eq!(parquet.database(true), "parquet");
    assert_eq!(
        state
            .anchor_path(&parquet, Some("C:\\data\\parquet".to_owned()))
            .unwrap()
            .as_deref(),
        Some("C:\\data\\parquet")
    );
}
