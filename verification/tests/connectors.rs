use alkyon::azure::storage::{Entry, Location};
use alkyon::connectors::adls::{
    account_of, address, below, catalogue_of, keeps, AdlsConnector,
};
use alkyon::connectors::fabric::{in_database, list_columns, remote, scan};
use alkyon::connectors::mongo::{
    client_options, collections, json_of, line_of, max_documents, referenced, sanitise,
    writes_another, Bson, Collection, Tls,
};
use alkyon::connectors::mssql::{
    column_from, config_for, explain, first_readable, routed_config, spell_type, ColumnRow,
    ColumnType, Encryption, Identity, Login,
};
use alkyon::connectors::pools::{choose_pool, identity_of, Choice};
use alkyon::connectors::rows::{gather, show, unsupported, Batcher, Raw, SnapshotRow};
use alkyon::connectors::{mssql, mysql, postgres};
use alkyon::error::Error;
use alkyon::json::{written, Json};
use alkyon::model::{
    AuthConfig, ColumnInfo, ColumnMeta, FileFormat, FileOptions, LogicalType, RowBatch, Scope,
    SourceConfig, SourceKind, TableKind, TlsMode,
};

fn onelake() -> Location {
    Location {
        host: "onelake.dfs.fabric.microsoft.com".to_owned(),
        filesystem: "workspace-guid".to_owned(),
        prefix: "lakehouse-guid/Files/exports".to_owned(),
    }
}

fn config(kind: SourceKind, auth: AuthConfig) -> SourceConfig {
    SourceConfig {
        id: "s".to_owned(),
        scope: Scope::User,
        kind,
        host: "db.example.com".to_owned(),
        path: None,
        options: FileOptions::default(),
        port: None,
        instance: None,
        database: Some("warehouse".to_owned()),
        auth,
        tls: TlsMode::Prefer,
    }
}

fn password() -> AuthConfig {
    AuthConfig::Password {
        username: "reader".to_owned(),
        password: "pw".to_owned(),
    }
}

fn same_json(json: &Json, expected: &str) {
    let got: serde_json::Value = serde_json::from_str(&written(json)).unwrap();
    let expected: serde_json::Value = serde_json::from_str(expected).unwrap();
    assert_eq!(got, expected);
}

#[test]
fn an_address_is_the_url_duckdb_reads() {
    assert_eq!(
        address(&onelake(), "lakehouse-guid/Files/exports/2026/january.parquet"),
        "abfss://workspace-guid@onelake.dfs.fabric.microsoft.com/\
         lakehouse-guid/Files/exports/2026/january.parquet"
    );
}

#[test]
fn the_account_is_what_create_secret_wants() {
    assert_eq!(account_of("contoso.dfs.core.windows.net"), "contoso");
    assert_eq!(account_of("onelake.dfs.fabric.microsoft.com"), "onelake");
    assert_eq!(account_of("contoso"), "contoso");
}

#[test]
fn the_catalogue_is_the_deepest_thing_named() {
    assert_eq!(catalogue_of(&onelake()), "exports");
    assert_eq!(
        catalogue_of(&Location {
            prefix: String::new(),
            ..onelake()
        }),
        "workspace-guid"
    );
    assert_eq!(
        catalogue_of(&Location {
            prefix: "a/b/".to_owned(),
            ..onelake()
        }),
        "b"
    );
}

#[test]
fn paths_are_rooted_at_the_prefix_not_the_filesystem() {
    assert_eq!(
        below("exports", "exports/2026/a.csv").unwrap(),
        "2026/a.csv"
    );
    assert_eq!(below("exports", "exports"), None);
    assert_eq!(below("", "a/b.csv").unwrap(), "a/b.csv");
    assert_eq!(below("exports", "other/a.csv"), None);
    assert_eq!(
        below("exports", "exports2/a.csv"),
        None,
        "a sibling whose name begins the same is not below"
    );
}

#[test]
fn only_the_declared_formats_files_are_read() {
    assert!(keeps("a/b.csv", FileFormat::Csv));
    assert!(keeps("a/B.CSV", FileFormat::Csv));
    assert!(!keeps("a/b.parquet", FileFormat::Csv));
    assert!(!keeps("a/README", FileFormat::Csv));
    assert!(keeps("a/b.parquet", FileFormat::Parquet));
}

#[test]
fn a_delta_table_is_found_by_its_log_not_its_extension() {
    assert!(keeps(
        "Tables/sales/_delta_log/00000000000000000000.json",
        FileFormat::Delta
    ));
    assert!(!keeps("Tables/sales/part-0000.parquet", FileFormat::Delta));
    assert!(!keeps("Tables/sales/_delta_log/0.json", FileFormat::Parquet));
}

#[test]
fn a_container_is_read_through_its_listing() {
    let mut source = config(
        SourceKind::Adls,
        AuthConfig::AadToken {
            token: "t".to_owned(),
        },
    );
    source.host = "contoso".to_owned();
    source.path = Some("sales/exports".to_owned());
    source.options.format = Some(FileFormat::Csv);
    let ready = AdlsConnector.prepare(&source).unwrap();
    let listed = vec![Entry {
        path: "exports/a.csv".to_owned(),
        bytes: 3,
        etag: String::new(),
    }];
    assert!(AdlsConnector.connect(&source, ready, &listed).is_ok());

    let ready = AdlsConnector.prepare(&source).unwrap();
    assert!(AdlsConnector.connect(&source, ready, &Vec::new()).is_err());

    source.auth = password();
    assert!(AdlsConnector.prepare(&source).is_err());
}

#[test]
fn a_quote_in_the_query_cannot_end_the_literal() {
    assert_eq!(
        scan("SELECT * FROM t WHERE name = 'Ada'"),
        "SELECT * FROM mssql_scan('alkyon_server', 'SELECT * FROM t WHERE name = ''Ada''')"
    );
    assert_eq!(
        scan("x'); DROP TABLE t; --"),
        "SELECT * FROM mssql_scan('alkyon_server', 'x''); DROP TABLE t; --')"
    );
    assert!(scan("name = 'O''Brien'").contains("''O''''Brien''"));
}

#[test]
fn a_database_is_switched_by_a_batch_rather_than_a_prefix() {
    assert_eq!(
        in_database("warehouse", "SELECT 1"),
        "USE [warehouse]; SELECT 1"
    );
    assert_eq!(in_database("od]d", "SELECT 1"), "USE [od]]d]; SELECT 1");
    assert_eq!(in_database("", "SELECT 1"), "SELECT 1");
}

#[test]
fn a_statement_that_returns_nothing_says_what_the_source_is_for() {
    let error = remote("INTERNAL Error: Failed to bind \"mssql_scan\": Table function must return at least one column")
        .message();
    assert!(error.contains("this source reads"), "{error}");
    assert!(error.contains("read-only"), "{error}");
}

#[test]
fn the_servers_own_words_survive() {
    let error = remote("Invalid Input Error: MSSQL Error: Invalid object name 'sales.nope'.")
        .message();
    assert!(error.contains("Invalid object name 'sales.nope'."), "{error}");
    assert!(!error.contains("Invalid Input Error"), "{error}");
}

#[test]
fn a_name_in_a_catalogue_query_cannot_end_its_literal() {
    let sql = list_columns("dbo", "O'Brien");
    assert!(sql.contains("O''Brien"), "{sql}");
}

#[test]
fn a_document_becomes_json_a_person_can_read() {
    let id: Vec<u8> = vec![
        0x64, 0xb7, 0xf9, 0xc2, 0xe1, 0xb2, 0xa3, 0xd4, 0xe5, 0xf6, 0x07, 0x18,
    ];
    let credit = "13.37"
        .parse::<mongodb::bson::Decimal128>()
        .unwrap()
        .bytes();
    let text = |s: &str| Bson::Text(s.to_owned());
    let document = Bson::Document(vec![
        ("_id".to_owned(), Bson::ObjectId(id)),
        ("name".to_owned(), text("Ada")),
        ("credit".to_owned(), Bson::Decimal128(credit)),
        (
            "tags".to_owned(),
            Bson::Array(vec![text("gold"), text("silver")]),
        ),
        (
            "address".to_owned(),
            Bson::Document(vec![("city".to_owned(), text("Brussels"))]),
        ),
        ("missing".to_owned(), Bson::Nothing),
    ]);
    let expected = r#"{
        "_id": "64b7f9c2e1b2a3d4e5f60718",
        "name": "Ada",
        "credit": "13.37",
        "tags": ["gold", "silver"],
        "address": { "city": "Brussels" },
        "missing": null
    }"#;
    same_json(&json_of(&document), expected);
    let line = line_of(&document);
    assert!(line.ends_with("}\n"), "{line}");
    assert_eq!(line.matches('\n').count(), 1);
}

#[test]
fn the_types_with_no_column_to_go_in_still_arrive() {
    same_json(&json_of(&Bson::Nothing), "null");
    same_json(&json_of(&Bson::Int64(7)), "7");
    same_json(&json_of(&Bson::Boolean(true)), "true");
    same_json(&json_of(&Bson::Double(None)), "null");
}

#[test]
fn the_other_types_of_a_document_are_text() {
    same_json(&json_of(&Bson::Int32(-3)), "-3");
    same_json(&json_of(&Bson::DateTime(0)), "\"1970-01-01T00:00:00Z\"");
    same_json(&json_of(&Bson::Binary(vec![1, 2, 3])), "\"AQID\"");
    same_json(&json_of(&Bson::Double(Some("1.5".to_owned()))), "1.5");
}

#[test]
fn a_longer_collection_name_is_not_shadowed_by_a_shorter_one() {
    let collections = vec!["order".to_owned(), "order_line".to_owned()];
    assert_eq!(
        referenced("select * from order_line", &collections),
        ["order_line", "order"],
        "both are named in the text, and the longer one comes first"
    );
    assert!(referenced("select 1", &collections).is_empty());
    assert_eq!(referenced("SELECT * FROM Order", &collections), ["order"]);
}

#[test]
fn a_collection_name_cannot_escape_the_scratch_directory() {
    assert_eq!(sanitise("../../etc/passwd"), "______etc_passwd");
    assert_eq!(sanitise("order_line"), "order_line");
    assert_eq!(sanitise("sales.2026"), "sales_2026");
}

#[test]
fn a_collection_past_its_ceiling_is_refused_and_a_sample_just_stops() {
    let cap = max_documents(None);
    assert!(writes_another(0, None, cap, "c").unwrap());
    assert!(writes_another(cap, None, cap, "c").is_err());
    assert!(!writes_another(10, Some(10), cap, "c").unwrap());
    assert_eq!(max_documents(Some("12")), 12);
    assert_eq!(max_documents(Some("twelve")), cap);
}

#[test]
fn a_mongo_login_is_a_login_or_nothing() {
    let options = client_options(&config(SourceKind::Mongo, password())).unwrap();
    assert_eq!(options.host, "db.example.com");
    assert_eq!(
        options.credential,
        Some((
            "reader".to_owned(),
            "pw".to_owned(),
            "admin".to_owned()
        ))
    );
    assert_eq!(options.tls, Tls::Lenient);
    let refused = client_options(&config(SourceKind::Mongo, AuthConfig::Integrated))
        .err()
        .unwrap();
    assert!(matches!(refused, Error::Unsupported(_)));
    assert!(refused.message().contains("integrated"));
}

#[test]
fn a_view_is_a_view_and_system_collections_are_nobodys_business() {
    let listed = vec![
        Collection {
            name: "orders".to_owned(),
            is_view: false,
        },
        Collection {
            name: "system.views".to_owned(),
            is_view: false,
        },
        Collection {
            name: "late".to_owned(),
            is_view: true,
        },
    ];
    let tables = collections(&listed, "shop");
    let names: Vec<(&str, TableKind)> =
        tables.iter().map(|t| (t.name.as_str(), t.kind)).collect();
    assert_eq!(
        names,
        [("late", TableKind::View), ("orders", TableKind::Table)]
    );
}

fn azure(instance: Option<&str>) -> SourceConfig {
    SourceConfig {
        id: "fabric".to_owned(),
        scope: Scope::User,
        kind: SourceKind::MsSql,
        host: "abc-def.datawarehouse.fabric.microsoft.com".to_owned(),
        path: None,
        options: FileOptions::default(),
        port: None,
        instance: instance.map(str::to_owned),
        database: Some("lh_bronze".to_owned()),
        auth: AuthConfig::AadToken {
            token: "t".to_owned(),
        },
        tls: TlsMode::Prefer,
    }
}

#[test]
fn a_hostname_is_not_a_named_instance() {
    let error = config_for(
        &azure(Some("abc-def.datawarehouse.fabric.microsoft.com")),
        "db",
        false,
    )
    .err()
    .expect("a hostname here can only time out");
    let said = error.message();
    assert!(said.contains("Named instance empty"), "{said}");

    assert!(config_for(&azure(Some(r"SERVER\SQLEXPRESS")), "db", false).is_err());
}

#[test]
fn a_real_instance_still_goes_through_the_browser() {
    assert!(config_for(&azure(Some("SQLEXPRESS")), "db", false).is_ok());
}

#[test]
fn an_empty_instance_is_no_instance() {
    for blank in [None, Some(""), Some("   ")] {
        assert!(config_for(&azure(blank), "db", false).is_ok(), "{blank:?}");
    }
}

#[test]
fn a_routed_address_without_an_instance_is_followed() {
    let routed = routed_config(&azure(None), "db", "node-3.database.windows.net", 11003, false)
        .ok()
        .unwrap();
    assert_eq!(routed.addr, "node-3.database.windows.net:11003");
    assert_eq!(routed.config.get_addr(), routed.addr);
}

#[test]
fn a_routed_address_carrying_an_instance_is_refused_with_the_reason() {
    let full = r"pbipswissn2-switzerlandnorth.pbidedicated.windows.net\7TF6KDG7-AQNJJHAC-dw";
    let refused = routed_config(&azure(None), "db", full, 1433, false)
        .err()
        .expect("the instance cannot be sent, so this must not look like it worked");

    let said = refused.message();
    assert!(said.contains("Fabric"), "{said}");
    assert!(said.contains(full), "{said}");
}

#[test]
fn following_a_redirect_keeps_the_certificate_verified() {
    let mut verifying = azure(None);
    verifying.tls = TlsMode::Require;

    let routed = routed_config(&verifying, "db", "node-3.database.windows.net", 11003, false)
        .ok()
        .expect("a plain redirect is followable with the certificate still checked");
    assert_eq!(routed.addr, "node-3.database.windows.net:11003");
    assert_eq!(routed.config.get_addr(), routed.addr);
    assert!(!routed.config.trust);
}

#[test]
fn a_redirect_to_nowhere_is_refused() {
    assert!(routed_config(&azure(None), "db", r"\instance-only", 1433, false).is_err());
}

#[test]
fn a_login_says_how_it_is_encrypted_and_who_it_is() {
    let login: Login = config_for(&azure(None), "lh_bronze", false).ok().unwrap();
    assert!(matches!(&login.identity, Identity::Token { token } if token == "t"));
    assert!(login.trust);
    assert_eq!(login.database, "lh_bronze");
    let mut plain = azure(None);
    plain.tls = TlsMode::Disable;
    let login = config_for(&plain, "db", false).ok().unwrap();
    assert_eq!(login.encryption, Encryption::NotSupported);

    let mut integrated = azure(None);
    integrated.auth = AuthConfig::Integrated;
    assert!(config_for(&integrated, "db", false).is_err());
    assert!(config_for(&integrated, "db", true).is_ok());
}

#[test]
fn a_type_is_spelled_the_way_it_is_declared() {
    assert_eq!(spell_type("nvarchar", 100, 0, 0), "nvarchar(50)");
    assert_eq!(spell_type("varchar", -1, 0, 0), "varchar(max)");
    assert_eq!(spell_type("decimal", 9, 18, 2), "decimal(18,2)");
    assert_eq!(spell_type("int", 4, 10, 0), "int");
}

#[test]
fn a_column_row_with_gaps_is_still_a_column() {
    let column = column_from(ColumnRow {
        name: Some("id".to_owned()),
        ordinal: Some(1),
        kind: Some("int".to_owned()),
        max_length: Some(4),
        precision: Some(10),
        scale: Some(0),
        nullable: None,
        is_primary_key: Some(true),
        default: None,
    });
    assert_eq!(column.name, "id");
    assert_eq!(column.data_type, "int");
    assert!(column.is_primary_key);
}

#[test]
fn a_refused_database_says_which_one() {
    let refused = explain(Some(4060), "Cannot open database", "lh_bronze");
    assert!(refused.message().contains("lh_bronze"), "{}", refused.message());
    let other = explain(Some(208), "Invalid object name", "lh_bronze");
    assert!(other.message().contains("Invalid object name"));
}

#[test]
fn the_first_width_that_can_be_read_is_the_value() {
    let raws = vec![
        Raw::Unreadable("not an i32".to_owned()),
        Raw::Json(Json::Number("9".to_owned())),
        Raw::Null,
    ];
    assert!(matches!(first_readable(raws), Raw::Json(Json::Number(n)) if n == "9"));
    let none = vec![
        Raw::Unreadable("first".to_owned()),
        Raw::Unreadable("last".to_owned()),
    ];
    assert!(matches!(first_readable(none), Raw::Unreadable(e) if e == "last"));
}

#[test]
fn what_cannot_be_decoded_says_so_instead_of_failing_the_row() {
    same_json(
        &show(Raw::Unreadable("boom".to_owned()), "0x", false),
        "\"<decode error: boom>\"",
    );
    same_json(&show(Raw::Null, "0x", false), "null");
    same_json(&show(Raw::Bytes(vec![0xab, 0x01]), "\\x", false), "\"\\\\xab01\"");
    same_json(&show(Raw::Bytes(vec![0xab]), "0x", true), "\"0xAB\"");
    assert!(written(&unsupported("tsvector")).contains("tsvector"));
    same_json(
        &mssql::value_at(ColumnType::Int4, Raw::Json(Json::Number("7".to_owned()))),
        "7",
    );
}

#[test]
fn each_engine_names_its_types_the_same_way() {
    assert_eq!(postgres::logical_type("INT4"), LogicalType::Int);
    assert_eq!(postgres::logical_type("NUMERIC"), LogicalType::Decimal);
    assert_eq!(mysql::logical_type("BIGINT"), LogicalType::Int);
    assert_eq!(mssql::logical_type(ColumnType::Bit), LogicalType::Bool);
    assert_eq!(mssql::logical_type(ColumnType::Udt), LogicalType::Unknown);
}

#[test]
fn a_pool_is_reopened_when_the_login_changes() {
    let one = config(SourceKind::Postgres, password());
    let mut other = config(SourceKind::Postgres, password());
    other.auth = AuthConfig::Password {
        username: "writer".to_owned(),
        password: "pw".to_owned(),
    };
    let a = postgres::fingerprint(&one, "db");
    assert_eq!(a, postgres::fingerprint(&one, "db"));
    assert_ne!(a, postgres::fingerprint(&other, "db"));
    assert_ne!(a, postgres::fingerprint(&one, "db2"));
    assert_ne!(identity_of(&one, "db"), identity_of(&other, "db"));
    assert_eq!(mysql::fingerprint(&one, "db"), mysql::fingerprint(&one, "db"));

    assert_eq!(choose_pool(Some(a), a), Choice::Reuse);
    assert_ne!(choose_pool(Some(a), a.wrapping_add(1)), Choice::Reuse);
    assert_ne!(choose_pool(None, a), Choice::Reuse);
}

#[test]
fn a_server_source_needs_a_password() {
    let options = postgres::options(&config(SourceKind::Postgres, password()), "db")
        .ok()
        .unwrap();
    assert_eq!(options.port, 5432);
    assert_eq!(options.username, "reader");
    assert_eq!(options.database, "db");
    let refused = postgres::options(&config(SourceKind::Postgres, AuthConfig::NoAuth), "db")
        .err()
        .unwrap();
    assert!(matches!(refused, Error::Unsupported(_)));
    assert!(mysql::options(&config(SourceKind::MySql, AuthConfig::NoAuth), "db").is_err());
}

fn meta(name: &str) -> ColumnMeta {
    ColumnMeta {
        name: name.to_owned(),
        engine_type: "int".to_owned(),
        logical: LogicalType::Int,
    }
}

#[test]
fn rows_are_handed_on_in_batches_and_none_is_left() {
    let mut batcher = Batcher::new();
    let described = batcher.describe(vec![meta("n")]);
    assert!(matches!(described, RowBatch::Columns(columns) if columns.len() == 1));
    let mut seen = 0usize;
    for n in 0..1_234 {
        if let Some(RowBatch::Rows(rows)) = batcher.push(vec![Json::Number(n.to_string())]) {
            seen += rows.len();
        }
    }
    if let Some(RowBatch::Rows(rows)) = batcher.finish() {
        seen += rows.len();
    }
    assert_eq!(seen, 1_234);
}

#[test]
fn a_snapshot_gathers_columns_into_their_tables() {
    let row = |table: &str, column: &str| SnapshotRow {
        schema: "sales".to_owned(),
        table: table.to_owned(),
        kind: TableKind::Table,
        column: ColumnInfo {
            name: column.to_owned(),
            ordinal: 1,
            data_type: "int".to_owned(),
            nullable: true,
            is_primary_key: false,
            default: None,
        },
    };
    let tables = gather(vec![row("a", "x"), row("a", "y"), row("b", "z")]);
    let shape: Vec<(&str, usize)> = tables
        .iter()
        .map(|t| (t.name.as_str(), t.columns.len()))
        .collect();
    assert_eq!(shape, [("a", 2), ("b", 1)]);
}
