use alkyon::error::Error;
use alkyon::federation::attach::{community_allowed, plan, unattachable, Attachment, Engine};
use alkyon::federation::cells::{
    cell_to_json, date_text, hugeint, interval_text, logical_of, split_unit, time_text,
    timestamp_text, value_to_json, Cell, Fetched, Kind, Unit,
};
use alkyon::federation::excel::{self, infer, pick_sheet, widen};
use alkyon::federation::program::{is_federated, parse, Import};
use alkyon::federation::quote::{quote_identifier, quote_literal, quoted_list};
use alkyon::federation::session::{
    describe_view, install_statement, open_duckdb, open_duckdb_azure, open_duckdb_with,
    AzureAccess, Order, Sandbox, Setup,
};
use alkyon::federation::{
    begin, check_data_file, check_scan, duckdb_type, excel_root, feed, materialise_excel,
    prepare_scan, resolve_data_file, seal, substitute, Building, Deed, Importing, Limits, Step,
};
use alkyon::json::{written, Json};
use alkyon::model::{
    AuthConfig, ColumnMeta, FileOptions, LogicalType, RowBatch, Scope, SourceConfig, SourceKind,
    TlsMode,
};
use std::sync::Arc;

// ------------------------------------------------------------------------ program

#[test]
fn only_a_leading_keyword_switches_mode() {
    assert!(is_federated("DEFINE\n  ATTACH pg = pg-dev\nEVALUATE\nselect 1"));
    assert!(is_federated("evaluate select 1"));
    assert!(is_federated("\n\n  -- a note\n  DEFINE\n"));
    assert!(is_federated("/* a note */ EVALUATE select 1"));

    assert!(!is_federated("select 1"));
    assert!(!is_federated("select define from t"));
    assert!(!is_federated("select 1;\nDEFINE\n"));
    assert!(!is_federated(""));
}

#[test]
fn parses_every_kind_of_declaration() {
    let program = parse(
        "DEFINE\n\
         \x20   ATTACH pg     = user:pg-dev/warehouse\n\
         \x20   IMPORT orders = mssql-dev/sales AS ( select top 5 id from sales.order_line )\n\
         \x20   FILES  trips  = taxi/2022/*.parquet\n\
         \x20   EXCEL  budget = budgets/2026.xlsx#Forecast\n\
         EVALUATE\n\
         select 1;",
    )
    .unwrap();

    assert_eq!(
        program.imports,
        [
            Import::Attach {
                alias: "pg".into(),
                source: "user:pg-dev".into(),
                database: Some("warehouse".into()),
            },
            Import::Query {
                alias: "orders".into(),
                source: "mssql-dev".into(),
                database: Some("sales".into()),
                sql: "select top 5 id from sales.order_line".into(),
            },
            Import::Files {
                alias: "trips".into(),
                source: "taxi".into(),
                pattern: "2022/*.parquet".into(),
            },
            Import::Excel {
                alias: "budget".into(),
                path: "budgets/2026.xlsx".into(),
                sheet: Some("Forecast".into()),
            },
        ]
    );
}

#[test]
fn the_query_keeps_its_line_numbers() {
    let program = parse(
        "DEFINE\n\
         \x20   ATTACH pg = pg-dev\n\
         \n\
         EVALUATE\n\
         select 1;",
    )
    .unwrap();
    assert_eq!(program.sql, "\n\n\n\nselect 1;");
    assert_eq!(program.sql.trim(), "select 1;");
    assert_eq!(program.sql.lines().count(), 5);
}

#[test]
fn evaluate_alone_declares_nothing() {
    let program = parse("EVALUATE\nselect * from 'x.parquet';").unwrap();
    assert!(program.imports.is_empty());
    assert_eq!(program.sql.trim(), "select * from 'x.parquet';");
}

#[test]
fn a_bracket_inside_the_sql_does_not_end_the_declaration() {
    for (sql, why) in [
        ("select 'a)b' as x", "a bracket in a string literal"),
        ("select \"od)d\" from t", "a quoted identifier"),
        ("select [od)d] from t", "a T-SQL bracket identifier"),
        ("select 1 -- )\n, 2", "a line comment"),
        ("select 1 /* ) */, 2", "a block comment"),
        ("select coalesce(a, (b)) from t", "nested brackets"),
        ("select 'it''s )' as x", "a doubled quote inside a string"),
    ] {
        let program = match parse(&format!(
            "DEFINE\n  IMPORT x = pg-dev AS ( {sql} )\nEVALUATE\nselect 1;"
        )) {
            Ok(program) => program,
            Err(e) => panic!("{why}: {}", e.message()),
        };
        let Import::Query { sql: got, .. } = &program.imports[0] else {
            panic!("a query import");
        };
        assert_eq!(got, sql, "{why}");
    }
}

#[test]
fn the_sql_may_span_lines() {
    let program = parse(
        "DEFINE\n\
         \x20   IMPORT orders = mssql-dev/sales AS (\n\
         \x20       SELECT TOP 1000 order_id, unit_price\n\
         \x20       FROM sales.order_line\n\
         \x20       WHERE shipped_on >= '2026-01-01'\n\
         \x20   )\n\
         EVALUATE\n\
         select * from orders;",
    )
    .unwrap();
    let Import::Query { sql, .. } = &program.imports[0] else {
        panic!("a query import");
    };
    assert!(sql.contains("SELECT TOP 1000"), "{sql}");
    assert!(sql.contains("WHERE shipped_on"), "{sql}");
    assert_eq!(sql.lines().count(), 3);
}

#[test]
fn declarations_can_be_commented() {
    let program = parse(
        "DEFINE\n\
         \x20   -- last quarter only\n\
         \x20   ATTACH pg = pg-dev\n\
         \x20   /* not this one yet\n\
         \x20   ATTACH ms = mssql-dev */\n\
         EVALUATE\n\
         select 1;",
    )
    .unwrap();
    assert_eq!(program.imports.len(), 1);
    assert_eq!(program.imports[0].alias(), "pg");
}

#[test]
fn the_database_is_optional() {
    let program = parse("DEFINE\n  ATTACH pg = pg-dev\nEVALUATE\nselect 1;").unwrap();
    assert_eq!(
        program.imports,
        [Import::Attach {
            alias: "pg".into(),
            source: "pg-dev".into(),
            database: None,
        }]
    );
}

#[test]
fn a_scope_qualified_key_is_kept_whole() {
    for key in ["user:pg-dev", "project:warehouse"] {
        let program = parse(&format!(
            "DEFINE\n  IMPORT c = {key}/alkyon_demo AS ( select a::text from t )\nEVALUATE\nselect 1;"
        ))
        .unwrap();
        assert_eq!(
            program.imports,
            [Import::Query {
                alias: "c".into(),
                source: key.into(),
                database: Some("alkyon_demo".into()),
                sql: "select a::text from t".into(),
            }],
            "{key}"
        );
    }
}

#[test]
fn a_files_declaration_cannot_climb_out_of_its_source() {
    for pattern in [
        "../secrets/*.parquet",
        "a/../../b.csv",
        "/etc/passwd",
        "\\\\host\\share",
    ] {
        let buffer = format!("DEFINE\n  FILES x = data/{pattern}\nEVALUATE\nselect 1;");
        assert!(
            parse(&buffer).is_err(),
            "`{pattern}` should have been refused"
        );
    }
}

#[test]
fn bad_declarations_say_which_line() {
    for (buffer, expected) in [
        ("DEFINE\n\n  NONSENSE x = y\nEVALUATE\nselect 1;", "found `nonsense`"),
        ("DEFINE\n  ATTACH = pg-dev\nEVALUATE\nselect 1;", "needs a name"),
        ("DEFINE\n  ATTACH pg pg-dev\nEVALUATE\nselect 1;", "expected `=`"),
        ("DEFINE\n  IMPORT c = pg-dev\nEVALUATE\nselect 1;", "expected `AS ("),
        ("DEFINE\n  IMPORT c = pg-dev AS ( \nEVALUATE\nselect 1;", "never closed"),
        ("DEFINE\n  IMPORT c = pg-dev AS ( )\nEVALUATE\nselect 1;", "no SQL"),
        ("DEFINE\n  ATTACH pg = pg-dev\nselect 1;", "found `select`"),
        ("DEFINE\n  EXCEL b =\nEVALUATE\nselect 1;", "no path"),
        ("EVALUATE\n", "needs a query"),
        ("select 1", "starts with DEFINE or EVALUATE"),
    ] {
        let error = parse(buffer).err().expect(buffer).message();
        assert!(error.contains(expected), "{buffer} gave {error}");
    }
}

#[test]
fn a_name_cannot_smuggle_sql() {
    for alias in ["c; drop table t", "1c", "\"c\"", "c-d", ""] {
        let buffer = format!("DEFINE\n  ATTACH {alias} = pg-dev\nEVALUATE\nselect 1;");
        assert!(
            parse(&buffer).is_err(),
            "`{alias}` should have been refused"
        );
    }
    assert!(parse("DEFINE\n  ATTACH c_2 = pg-dev\nEVALUATE\nselect 1;").is_ok());
}

#[test]
fn a_name_is_claimed_once() {
    let error = parse(
        "DEFINE\n\
         \x20   ATTACH c = pg-dev\n\
         \x20   IMPORT c = mssql-dev AS ( select 1 )\n\
         EVALUATE\n\
         select 1;",
    )
    .err()
    .expect("clash")
    .message();
    assert!(error.contains("already declared"), "{error}");
}

#[test]
fn keywords_are_case_insensitive() {
    let program = parse(
        "define\n  attach pg = pg-dev\n  import o = ms-dev as ( select 1 )\nevaluate\nselect 1;",
    )
    .unwrap();
    assert_eq!(program.imports.len(), 2);
}

// ------------------------------------------------------------------------- attach

fn config(kind: SourceKind, tls: TlsMode) -> SourceConfig {
    SourceConfig {
        id: "s".into(),
        scope: Scope::default(),
        kind,
        host: "db.example.com".into(),
        port: Some(6000),
        instance: None,
        database: Some("warehouse".into()),
        auth: AuthConfig::Password {
            username: "reader".into(),
            password: "pa'ss".into(),
        },
        tls,
        path: None,
        options: FileOptions::default(),
    }
}

fn planned(alias: &str, config: &SourceConfig) -> Attachment {
    plan(alias, config, community_allowed(None)).ok().unwrap()
}

fn unplanned(alias: &str, config: &SourceConfig) -> String {
    plan(alias, config, community_allowed(None))
        .err()
        .expect("not attachable")
        .message()
}

#[test]
fn a_postgres_source_becomes_a_secret_and_an_attach() {
    let plan = planned("pg", &config(SourceKind::Postgres, TlsMode::Require));
    let [secret, attach] = plan.statements();

    assert!(secret.contains("TYPE postgres"));
    assert!(secret.contains("HOST 'db.example.com'"));
    assert!(secret.contains("PORT 6000"));
    assert!(secret.contains("DATABASE 'warehouse'"));
    assert!(secret.contains("PASSWORD 'pa''ss'"), "{secret}");
    assert!(secret.contains("SSLMODE 'verify-full'"), "{secret}");

    assert!(attach.contains("ATTACH '' AS \"pg\""));
    assert!(attach.contains("SECRET \"alkyon_attach_pg\""));
    assert!(attach.contains("READ_ONLY"));
}

#[test]
fn each_tls_mode_keeps_its_meaning() {
    for (mode, postgres, mysql) in [
        (TlsMode::Disable, "disable", "disabled"),
        (TlsMode::Prefer, "prefer", "preferred"),
        (TlsMode::Require, "verify-full", "verify_identity"),
        (TlsMode::TrustCertificate, "require", "required"),
    ] {
        let pg = planned("a", &config(SourceKind::Postgres, mode));
        assert!(
            pg.statements()[0].contains(&format!("SSLMODE '{postgres}'")),
            "{mode:?} → {}",
            pg.statements()[0]
        );
        let my = planned("a", &config(SourceKind::MySql, mode));
        assert!(
            my.statements()[0].contains(&format!("SSL_MODE '{mysql}'")),
            "{mode:?} → {}",
            my.statements()[0]
        );
    }
}

#[test]
fn sql_server_refuses_require_rather_than_pretending() {
    let error = unplanned("ms", &config(SourceKind::MsSql, TlsMode::Require));
    assert!(error.contains("without ever checking"), "{error}");
    assert!(error.contains("@import"), "{error}");
    assert!(error.contains("Trust certificate"), "{error}");

    for (mode, expected) in [
        (TlsMode::Disable, "USE_ENCRYPT false"),
        (TlsMode::Prefer, "USE_ENCRYPT true"),
        (TlsMode::TrustCertificate, "USE_ENCRYPT true"),
    ] {
        let plan = planned("ms", &config(SourceKind::MsSql, mode));
        assert!(plan.statements()[0].contains(expected), "{mode:?}");
    }
}

#[test]
fn an_entra_token_becomes_an_access_token() {
    let mut config = config(SourceKind::MsSql, TlsMode::TrustCertificate);
    config.auth = AuthConfig::AadToken {
        token: "header.payload.signature".into(),
    };
    let plan = planned("ms", &config);
    assert!(
        plan.statements()[0].contains("ACCESS_TOKEN 'header.payload.signature'"),
        "{}",
        plan.statements()[0]
    );
    assert!(!plan.redacted().contains("payload"));
}

#[test]
fn a_token_is_not_offered_to_an_engine_that_has_no_use_for_it() {
    let mut config = config(SourceKind::Postgres, TlsMode::Prefer);
    config.auth = AuthConfig::AadToken {
        token: "a.b.c".into(),
    };
    let error = unplanned("pg", &config);
    assert!(error.contains("aad_token"), "{error}");
    assert!(error.contains("@import"), "{error}");
}

#[test]
fn a_kind_that_cannot_be_attached_says_why_and_what_instead() {
    for (kind, reason) in [
        (SourceKind::Mongo, "not published"),
        (SourceKind::Folder, "not a server"),
        (SourceKind::File, "not a server"),
        (SourceKind::Adls, "not a server"),
    ] {
        let error = unplanned("x", &config(kind, TlsMode::Prefer));
        assert!(error.contains("@import"), "{kind:?}: {error}");
        assert!(error.contains(reason), "{kind:?}: {error}");
        assert!(!unattachable(kind).is_empty());
    }
}

#[test]
fn a_credential_duckdb_cannot_use_is_refused_before_it_is_tried() {
    let mut config = config(SourceKind::Postgres, TlsMode::Prefer);
    config.auth = AuthConfig::Integrated;
    let error = unplanned("pg", &config);
    assert!(error.contains("integrated"), "{error}");
    assert!(error.contains("@import"), "{error}");
}

#[test]
fn only_sql_server_comes_from_the_community() {
    assert_eq!(Engine::Postgres.repository(), None);
    assert_eq!(Engine::MySql.repository(), None);
    assert_eq!(Engine::MsSql.repository(), Some("community"));
}

#[test]
fn debug_does_not_leak_the_password() {
    let plan = planned("pg", &config(SourceKind::Postgres, TlsMode::Prefer));
    let shown = plan.redacted();
    assert!(!shown.contains("pa'ss"), "{shown}");
    assert!(shown.contains("redacted"), "{shown}");
}

#[test]
fn community_extensions_can_be_switched_off() {
    let ms = config(SourceKind::MsSql, TlsMode::Prefer);
    assert!(plan("ms", &ms, true).is_ok());
    assert!(plan("ms", &ms, false).is_err());
    let pg = config(SourceKind::Postgres, TlsMode::Prefer);
    assert!(plan("pg", &pg, false).is_ok());
}

// ------------------------------------------------------------------------ quoting

#[test]
fn quotes_are_doubled_and_nothing_else_is_touched() {
    assert_eq!(quote_identifier("a\"b"), "\"a\"\"b\"");
    assert_eq!(quote_literal("it's"), "'it''s'");
    assert_eq!(
        quoted_list(&vec!["a".to_owned(), "b'".to_owned()]),
        "'a', 'b'''"
    );
}

// ------------------------------------------------------------------------ session

fn sql_of(order: &Order) -> &str {
    match order {
        Order::Fetch { extension, .. } => extension,
        Order::Attach { statement, .. } => statement,
        Order::Try { sql } => sql,
        Order::Secure { sql, .. } => sql,
    }
}

#[test]
fn a_session_is_locked_last() {
    let mut sandbox = Sandbox::directory("/data".to_owned());
    sandbox.absorb(Sandbox::file("/other/x.csv".to_owned()));
    let orders = open_duckdb(&sandbox);
    let last = sql_of(orders.last().unwrap());
    assert!(last.contains("lock_configuration"), "{last}");
    let all: String = orders.iter().map(sql_of).collect::<Vec<_>>().join("\n");
    assert!(all.contains("/data"), "{all}");
    assert!(all.contains("/other/x.csv"), "{all}");
    assert!(all.contains("enable_external_access"), "{all}");
}

#[test]
fn what_is_attached_is_attached_before_the_lock() {
    let attachments = vec![planned("pg", &config(SourceKind::Postgres, TlsMode::Prefer))];
    let extensions = vec!["delta".to_owned()];
    let sandbox = Sandbox::default();
    let orders = open_duckdb_with(Setup {
        sandbox: &sandbox,
        schema: Some("main"),
        extensions: &extensions,
        attachments: &attachments,
        spill: Some("/tmp/spill"),
    });
    let attach = orders
        .iter()
        .position(|order| matches!(order, Order::Attach { alias, .. } if alias == "pg"))
        .unwrap();
    assert!(attach + 1 < orders.len());
    assert!(orders
        .iter()
        .any(|order| matches!(order, Order::Fetch { extension, .. } if extension == "delta")));
    assert!(sql_of(orders.last().unwrap()).contains("lock_configuration"));
}

#[test]
fn an_azure_session_keeps_its_token_out_of_what_is_shown() {
    let access = AzureAccess {
        account: "acct".to_owned(),
        token: "s3cret".to_owned(),
        catalogue: "fs".to_owned(),
    };
    assert!(!access.redacted().contains("s3cret"));
    let orders = open_duckdb_azure(&access, None, &Vec::new());
    let all: String = orders.iter().map(sql_of).collect::<Vec<_>>().join("\n");
    assert!(all.contains("ACCESS_TOKEN 's3cret'"), "{all}");
    assert!(sql_of(orders.last().unwrap()).contains("lock_configuration"));
}

#[test]
fn an_extension_is_installed_from_where_it_is_published() {
    assert_eq!(install_statement("delta", None), "INSTALL delta; LOAD delta;");
    assert_eq!(
        install_statement("mssql", Some("community")),
        "INSTALL mssql FROM community; LOAD mssql;"
    );
}

#[test]
fn a_described_view_numbers_its_columns() {
    let columns = describe_view(vec![
        ("id".to_owned(), "BIGINT".to_owned()),
        ("name".to_owned(), "VARCHAR".to_owned()),
    ]);
    assert_eq!(columns[1].ordinal, 2);
    assert_eq!(columns[1].data_type, "varchar");
}

// ---------------------------------------------------------------------- importing

fn meta(name: &str, logical: LogicalType) -> ColumnMeta {
    ColumnMeta {
        name: name.to_owned(),
        engine_type: "x".to_owned(),
        logical,
    }
}

fn rows(n: usize) -> RowBatch {
    RowBatch::Rows((0..n).map(|i| vec![Json::Number(i.to_string())]).collect())
}

#[test]
fn an_import_past_its_ceiling_fails_and_never_truncates() {
    let limits = Limits {
        max_import_rows: Some(3),
    };
    let mut importing = Importing::new("c", limits);
    let columns = RowBatch::Columns(Arc::new(vec![meta("n", LogicalType::Int)]));
    assert!(matches!(
        importing.take(columns),
        Ok(Some(Step::Begin { alias, .. })) if alias == "c"
    ));
    assert!(importing.take(rows(3)).is_ok());
    let error = importing.take(rows(1)).err().unwrap();
    assert!(error.message().contains("more than 3 rows"), "{}", error.message());
    assert_eq!(Limits::from_env(Some("7")).max_import_rows, Some(7));
    assert_eq!(Limits::from_env(None).max_import_rows, None);
}

#[test]
fn an_import_has_exactly_one_result_set() {
    let mut importing = Importing::new("c", Limits::default());
    assert!(importing.finish().is_err());
    let columns = || RowBatch::Columns(Arc::new(vec![meta("n", LogicalType::Int)]));
    assert!(importing.take(columns()).is_ok());
    let twice = importing.take(columns()).err().unwrap();
    assert!(twice.message().contains("more than one result set"));
}

#[test]
fn files_are_settled_before_rows_are_fed() {
    let program = parse(
        "DEFINE\n  ATTACH pg = a\n  IMPORT o = b AS ( select 1 )\n  EXCEL e = x.xlsx\nEVALUATE\nselect 1;",
    )
    .unwrap();
    let order = feed(&program.imports);
    assert!(order.contains(&1));
    assert!(order.contains(&2));
    assert!(!order.contains(&0));
}

#[test]
fn only_a_folder_can_be_scanned_in_place() {
    assert!(check_scan("t", "taxi", SourceKind::Folder).is_ok());
    let refused = check_scan("t", "pg", SourceKind::Postgres).err().unwrap();
    assert!(refused.message().contains("pg"), "{}", refused.message());
    let (expression, grant) = prepare_scan("t", "taxi", "*.parquet", "/data", true, false).unwrap();
    assert!(expression.contains("read_parquet('/data/*.parquet'"), "{expression}");
    assert_eq!(grant.directories, ["/data"]);
    assert!(prepare_scan("t", "taxi", "*.docx", "/data", true, false).is_err());
}

#[test]
fn a_data_file_stays_in_its_folder() {
    assert!(check_data_file("budgets/2026.xlsx", false).is_ok());
    assert!(check_data_file("../2026.xlsx", false).is_err());
    assert!(resolve_data_file("/w", "a.xlsx", "/w/a.xlsx", false).is_ok());
    assert!(resolve_data_file("/w", "a.xlsx", "/etc/a.xlsx", false).is_err());

    assert!(check_data_file("..\\2026.xlsx", false).is_ok(), "one name");
    assert!(check_data_file("..\\2026.xlsx", true).is_err());
    assert!(check_data_file("C:2026.xlsx", true).is_err());
    assert_eq!(
        resolve_data_file("\\\\?\\C:\\w", "a.xlsx", "\\\\?\\C:\\w\\a.xlsx", true).unwrap(),
        "\\\\?\\C:\\w\\a.xlsx"
    );
    assert!(resolve_data_file("C:\\w", "a.xlsx", "C:\\w2\\a.xlsx", true).is_err());
    assert!(excel_root("b", None, "a.xlsx").is_err());
    assert_eq!(excel_root("b", Some("/w"), "a.xlsx").unwrap(), "/w");
}

#[test]
fn a_folder_in_a_query_is_a_literal() {
    let replaced = substitute("select * from '${folder}/a.csv'", Some("/it's")).unwrap();
    assert!(!replaced.contains("${folder}"), "{replaced}");
    assert!(replaced.contains("/it''s/a.csv"), "{replaced}");
    assert!(substitute("select '${folder}'", None).is_err());
    assert_eq!(substitute("select 1", None).unwrap(), "select 1");
}

#[test]
fn a_table_is_staged_as_text_and_sealed_as_itself() {
    let columns = vec![meta("id", LogicalType::Int), meta("at", LogicalType::Timestamp)];
    let opened = begin("orders", &columns);
    assert!(opened.contains("VARCHAR"), "{opened}");
    let sealed = seal("orders", &columns);
    assert!(sealed.contains("BIGINT"), "{sealed}");
    assert!(sealed.contains("TIMESTAMP"), "{sealed}");
    assert_eq!(duckdb_type(LogicalType::Decimal), "DECIMAL(38,9)");

    let mut building = Building::new();
    assert!(building.step(Step::Rows(Vec::new())).is_err());
    let step = Step::Begin {
        alias: "orders".to_owned(),
        columns,
    };
    assert!(matches!(building.step(step), Ok(Deed::Open { .. })));
    assert!(matches!(
        building.step(Step::Rows(vec![vec![Some("1".to_owned()), None]])),
        Ok(Deed::Append(rows)) if rows.len() == 1
    ));
    assert!(matches!(building.step(Step::Seal), Ok(Deed::Close { .. })));
    assert!(matches!(building.step(Step::Stop), Ok(Deed::Stop)));
}

// -------------------------------------------------------------------------- cells

fn text_of(json: &Json) -> String {
    written(json)
}

#[test]
fn no_digit_of_a_number_is_lost() {
    assert_eq!(text_of(&value_to_json(&Cell::Int(7))), "7");
    assert_eq!(
        text_of(&value_to_json(&Cell::Huge(170141183460469231731687303715884105727))),
        "\"170141183460469231731687303715884105727\""
    );
    assert_eq!(text_of(&value_to_json(&Cell::Huge(12))), "12");
    assert_eq!(text_of(&hugeint(None, "99999999999999999999".to_owned())), "\"99999999999999999999\"");
    assert_eq!(
        text_of(&value_to_json(&Cell::Decimal("1.10".to_owned()))),
        "\"1.10\""
    );
    assert_eq!(text_of(&value_to_json(&Cell::Float(None))), "null");
}

#[test]
fn dates_and_times_are_written_out() {
    assert_eq!(date_text(0), "1970-01-01");
    assert_eq!(date_text(-1), "1969-12-31");
    assert_eq!(split_unit(Unit::Millisecond, -1), (-1, 999_000_000));
    assert!(timestamp_text(Unit::Second, 86_400).starts_with("1970-01-02"));
    assert!(time_text(Unit::Second, 3_661).starts_with("01:01:01"));
    assert_eq!(interval_text(14, 1, 0), "14 months 1 day");
    assert_eq!(interval_text(0, 0, 0), "00:00:00");
}

#[test]
fn nested_values_stay_nested() {
    let cell = Cell::Struct(vec![
        ("a".to_owned(), Cell::List(vec![Cell::Int(1), Cell::Null])),
        ("b".to_owned(), Cell::Bool(true)),
    ]);
    assert_eq!(text_of(&value_to_json(&cell)), r#"{"a":[1,null],"b":true}"#);
    assert_eq!(
        text_of(&cell_to_json(&Fetched::Text(b"plain".to_vec()))),
        "\"plain\""
    );
    assert_eq!(
        text_of(&cell_to_json(&Fetched::Text(vec![0xff]))),
        "\"\u{fffd}\""
    );
    assert_eq!(logical_of(Kind::BigInt), LogicalType::Int);
    assert_eq!(logical_of(Kind::Other), LogicalType::Unknown);
}

// -------------------------------------------------------------------------- excel

#[test]
fn a_column_is_as_wide_as_its_widest_cell() {
    assert_eq!(widen(LogicalType::Int, LogicalType::Float), LogicalType::Float);
    assert_eq!(widen(LogicalType::Float, LogicalType::Int), LogicalType::Float);
    assert_eq!(widen(LogicalType::Int, LogicalType::Bool), LogicalType::Text);
    let rows = vec![
        vec![excel::Cell::Int(1)],
        vec![excel::Cell::Empty],
        vec![excel::Cell::Fraction("1.5".to_owned())],
    ];
    assert_eq!(infer(&rows, 0), LogicalType::Float);
}

#[test]
fn a_sheet_is_named_or_the_first() {
    let names = vec!["Plan".to_owned(), "Actual".to_owned()];
    assert_eq!(pick_sheet(&names, None, "b.xlsx").unwrap(), "Plan");
    assert_eq!(pick_sheet(&names, Some("Actual"), "b.xlsx").unwrap(), "Actual");
    let missing = pick_sheet(&names, Some("Nope"), "b.xlsx").err().unwrap();
    assert!(missing.message().contains("Nope"), "{}", missing.message());
    assert!(pick_sheet(&Vec::new(), None, "b.xlsx").is_err());
}

#[test]
fn the_first_row_of_a_sheet_is_its_header() {
    let sheet = excel::read(
        "Plan",
        vec![
            vec![
                excel::Cell::Text("year".to_owned()),
                excel::Cell::Empty,
            ],
            vec![excel::Cell::Whole(2026), excel::Cell::Bool(true)],
        ],
    )
    .ok()
    .unwrap();
    assert_eq!(sheet.columns[0].name, "year");
    assert_eq!(sheet.columns[0].logical, LogicalType::Int);
    assert_eq!(sheet.columns[1].logical, LogicalType::Bool);
    assert_eq!(sheet.rows, [vec![Some("2026".to_owned()), Some("true".to_owned())]]);
    let table = materialise_excel("budget", sheet);
    assert_eq!(table.alias, "budget");
    assert!(matches!(excel::read("Empty", Vec::new()), Err(Error::BadRequest(_))));
}

#[test]
fn a_name_is_held_in_lower_case_and_the_query_keeps_its_lines() {
    let buffer = "-- top\nDEFINE\n  ATTACH Pg_1 = Pg-Dev/Sales\n\nEvaluate\nselect 1\n from t;";
    let program = parse(buffer).unwrap();
    assert_eq!(program.imports.len(), 1);
    assert_eq!(program.imports[0].alias(), "pg_1");
    assert_eq!(program.sql, "\n\n\n\n\nselect 1\n from t;");
    assert_eq!(program.sql.matches('\n').count(), buffer.matches('\n').count());
    assert!(is_federated(buffer));
}
