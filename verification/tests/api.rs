use alkyon::api::cursor::{Chunk, Cursor};
use alkyon::api::routes::{check, columns_of, not_a_folder, start_sign_in};
use alkyon::api::terminal::{available, candidates, shell, starts_in};
use alkyon::api::ws::{
    bad_request, closing, is_cancel, max_rows, Pump, QueryRequest, ServerMessage,
    DEFAULT_MAX_ROWS,
};
use alkyon::assets::{etag, media_type, path_of, place, unchanged, Asset};
use alkyon::azure::entra::{Resource, AZURE_CLI_CLIENT_ID, DEFAULT_TENANT};
use alkyon::error::Error;
use alkyon::json::{read, Json};
use alkyon::model::{
    AuthConfig, FileFormat, FileOptions, RowBatch, Scope, SourceConfig, SourceKind, TlsMode,
};
use alkyon::startup::{already_running, bind, windowed, DEFAULT_BIND};

fn rows(from: usize, n: usize) -> RowBatch {
    RowBatch::Rows(
        (from..from + n)
            .map(|i| vec![Json::Number(i.to_string())])
            .collect(),
    )
}

fn numbers(rows: &[Vec<Json>]) -> Vec<String> {
    rows.iter()
        .map(|row| match &row[0] {
            Json::Number(n) => n.clone(),
            other => panic!("{other:?}"),
        })
        .collect()
}

/// Read one page off a cursor fed from `batches`, and whether more is to come.
fn page(cursor: &mut Cursor, batches: &mut Vec<RowBatch>, want: usize) -> (Vec<String>, bool) {
    let mut out = Vec::new();
    let mut chunk = cursor.request(want).expect("the cursor is not spent");
    loop {
        chunk = match chunk {
            Chunk::Batch(batch) => {
                if let RowBatch::Rows(rows) = &batch {
                    out.extend(numbers(rows));
                }
                cursor.next_chunk()
            }
            Chunk::Read => {
                if batches.is_empty() {
                    cursor.exhaust()
                } else {
                    cursor.take(Ok(batches.remove(0)))
                }
            }
            Chunk::PageEnd { more } => return (out, more),
            Chunk::Failed(e) => panic!("{}", e.message()),
        };
    }
}

#[test]
fn pages_neither_repeat_nor_skip_a_row() {
    let mut cursor = Cursor::open();
    let mut batches = vec![rows(0, 4), RowBatch::Affected(1), rows(4, 5), rows(9, 0)];
    let mut all = Vec::new();
    let mut sizes = Vec::new();
    loop {
        let (page, more) = page(&mut cursor, &mut batches, 3);
        sizes.push(page.len());
        all.extend(page);
        if !more {
            break;
        }
    }
    let expected: Vec<String> = (0..9).map(|i| i.to_string()).collect();
    assert_eq!(all, expected);
    assert_eq!(sizes, [3, 3, 3]);
    assert!(cursor.request(3).is_none(), "spent");
}

#[test]
fn a_page_is_what_was_asked_for_or_all_that_is_left() {
    let mut cursor = Cursor::open();
    let mut batches = vec![rows(0, 5), rows(5, 2), RowBatch::Affected(7)];
    let numbers = |from: usize, to: usize| -> Vec<String> {
        (from..to).map(|i| i.to_string()).collect()
    };
    assert_eq!(page(&mut cursor, &mut batches, 2), (numbers(0, 2), true));
    assert_eq!(page(&mut cursor, &mut batches, 0), (numbers(2, 2), true));
    assert_eq!(page(&mut cursor, &mut batches, 3), (numbers(2, 5), true));
    assert_eq!(
        page(&mut cursor, &mut batches, 2),
        (numbers(5, 7), false),
        "full, and nothing follows"
    );
    assert!(cursor.request(1).is_none());

    let mut cursor = Cursor::open();
    let mut batches = vec![rows(0, 5)];
    assert_eq!(page(&mut cursor, &mut batches, 9), (numbers(0, 5), false));
}

#[test]
fn a_failure_ends_the_cursor() {
    let mut cursor = Cursor::open();
    assert!(matches!(cursor.request(2), Some(Chunk::Read)));
    assert!(matches!(
        cursor.take(Err(Error::BadRequest("x".to_owned()))),
        Chunk::Failed(_)
    ));
    assert!(cursor.request(2).is_none());
}

fn request(max: Option<u64>) -> QueryRequest {
    QueryRequest {
        source_id: "pg".to_owned(),
        database: None,
        sql: "select 1".to_owned(),
        max_rows: max,
    }
}

#[test]
fn a_cap_is_the_clients_then_the_settings_then_ours() {
    assert_eq!(max_rows(&request(Some(7)), Some("9")), Some(7));
    assert_eq!(max_rows(&request(Some(0)), Some("9")), None);
    assert_eq!(max_rows(&request(None), Some("9")), Some(9));
    assert_eq!(max_rows(&request(None), Some("0")), None);
    assert_eq!(max_rows(&request(None), Some("many")), Some(DEFAULT_MAX_ROWS));
    assert_eq!(max_rows(&request(None), None), Some(50_000));
}

#[test]
fn a_result_that_lands_on_the_cap_is_whole() {
    let mut pump = Pump::new(Some(5));
    assert!(pump.take(rows(0, 3)).is_some());
    assert!(pump.take(rows(3, 2)).is_some());
    assert!(!pump.truncated);
    assert!(matches!(
        pump.end(12),
        ServerMessage::End { rows: 5, elapsed_ms: 12, truncated: false }
    ));
    assert!(pump.take(rows(5, 1)).is_none());
    assert!(pump.truncated);

    let mut over = Pump::new(Some(4));
    over.take(rows(0, 3));
    match over.take(rows(3, 9)) {
        Some(ServerMessage::Rows { rows }) => assert_eq!(numbers(&rows), ["3"]),
        _ => panic!("one row still fits"),
    }
    assert!(over.truncated);

    let mut free = Pump::new(None);
    free.take(rows(0, 100));
    assert!(!free.truncated);
    assert_eq!(free.rows, 100);
}

#[test]
fn a_query_that_ends_badly_says_so() {
    assert!(is_cancel("cancel"));
    assert!(!is_cancel("Cancel"));
    assert!(matches!(closing(None), ServerMessage::Cancelled));
    assert!(matches!(
        closing(Some(Error::UnknownSource("x".to_owned()))),
        ServerMessage::Error { message } if message == "unknown source `x`"
    ));
    assert!(matches!(
        bad_request("eof"),
        ServerMessage::Error { message } if message == "bad request: eof"
    ));
}

#[test]
fn only_a_shell_that_was_found_can_be_asked_for() {
    let names = candidates(true);
    assert_eq!(names[0], "pwsh.exe");
    let places: Vec<Option<String>> = names
        .iter()
        .map(|name| {
            if name == "pwsh.exe" {
                None
            } else {
                Some(format!("C:\\{name}"))
            }
        })
        .collect();
    let found = available(Some("bash"), &names, &places);
    let labels: Vec<&str> = found.iter().map(|s| s.label.as_str()).collect();
    assert_eq!(labels, ["bash", "powershell", "cmd", "wsl"]);
    assert_eq!(shell(None, &found).unwrap(), "bash");
    assert_eq!(shell(Some("cmd"), &found).unwrap(), "C:\\cmd.exe");
    // A name that is not on the list is the default, and never run itself.
    assert_eq!(shell(Some("rm -rf /"), &found).unwrap(), "bash");
    for requested in [None, Some("bash")] {
        assert_eq!(
            shell(requested, &Vec::new()).err().unwrap().message(),
            Error::Terminal("no shell found on PATH".to_owned()).message()
        );
    }
    assert_eq!(candidates(false), ["zsh", "bash", "fish", "sh"]);
    assert_eq!(starts_in(Some("/w"), Some("/h")).as_deref(), Some("/w"));
    assert_eq!(starts_in(None, Some("/h")).as_deref(), Some("/h"));
}

fn config(kind: SourceKind) -> SourceConfig {
    SourceConfig {
        id: "s".to_owned(),
        scope: Scope::User,
        kind,
        host: "h".to_owned(),
        path: None,
        options: FileOptions::default(),
        port: None,
        instance: None,
        database: None,
        auth: AuthConfig::NoAuth,
        tls: TlsMode::Prefer,
    }
}

#[test]
fn what_the_wire_format_cannot_say_is_checked() {
    assert!(check(&config(SourceKind::Postgres)).is_ok());
    let said = |config: &SourceConfig| check(config).err().unwrap().message();
    let mut nameless = config(SourceKind::Postgres);
    nameless.id = "  ".to_owned();
    assert_eq!(said(&nameless), "source id must not be empty");
    let mut both = config(SourceKind::MsSql);
    both.port = Some(1433);
    both.instance = Some("X".to_owned());
    assert_eq!(said(&both), "set either `port` or `instance`, not both");
    let mut nowhere = config(SourceKind::Postgres);
    nowhere.host = String::new();
    assert_eq!(said(&nowhere), "source needs a host");
    let mut formatted = config(SourceKind::Postgres);
    formatted.options.format = Some(FileFormat::Csv);
    assert_eq!(
        said(&formatted),
        "format options only apply to a folder or file source"
    );
    let mut folder = config(SourceKind::Folder);
    folder.host = String::new();
    folder.options.format = Some(FileFormat::Csv);
    assert!(check(&folder).is_ok());
}

#[test]
fn a_sign_in_is_for_a_resource() {
    let (credential, resource) =
        start_sign_in(SourceKind::Adls, None, Some("  ".to_owned())).unwrap();
    assert_eq!(credential.tenant, DEFAULT_TENANT);
    assert_eq!(credential.client_id, AZURE_CLI_CLIENT_ID);
    assert_eq!(resource, Resource::Storage);
    assert!(start_sign_in(SourceKind::Adls, Some("a/b".to_owned()), None).is_err());
    assert_eq!(
        start_sign_in(SourceKind::Postgres, None, None)
            .err()
            .unwrap()
            .message(),
        "this kind of source is not reached through Entra"
    );
}

#[test]
fn a_request_about_columns_falls_back_on_the_source() {
    let record = config(SourceKind::MsSql).split().0;
    assert_eq!(
        columns_of(&record, None, None, false),
        ("master".to_owned(), "dbo".to_owned())
    );
    assert_eq!(
        columns_of(&record, Some("d".to_owned()), Some("s".to_owned()), false),
        ("d".to_owned(), "s".to_owned())
    );
    assert_eq!(not_a_folder("x").message(), "`x` is not a folder");
}

#[test]
fn an_asset_is_found_typed_and_not_sent_twice() {
    assert_eq!(path_of("/"), "index.html");
    assert_eq!(path_of("//app.js"), "app.js");
    assert!(matches!(place("/logo/a.svg"), Asset::Logo(name) if name == "a.svg"));
    assert!(matches!(place("/app.js"), Asset::Page(name) if name == "app.js"));
    assert_eq!(media_type("/"), "text/html");
    assert_eq!(media_type("/logo/a.svg"), "image/svg+xml");
    assert_eq!(media_type("/x.unheard"), "application/octet-stream");

    let hash: Vec<u8> = (0..32).map(|i| i * 7).collect();
    let tag = etag(&hash);
    assert_eq!(tag, "\"00070e151c232a31\"");
    assert!(unchanged(Some(&format!("\"old\", {tag}")), &tag));
    assert!(!unchanged(Some("\"old\""), &tag));
    assert!(!unchanged(None, &tag));
}

#[test]
fn a_second_launch_knows_the_first() {
    assert_eq!(bind(None), (DEFAULT_BIND.to_owned(), true));
    assert_eq!(bind(Some("0.0.0.0:1")), ("0.0.0.0:1".to_owned(), false));
    let none: Vec<String> = vec!["alkyon".to_owned()];
    let headless: Vec<String> = vec!["alkyon".to_owned(), "--headless".to_owned()];
    assert!(windowed(true, &none, false));
    assert!(!windowed(true, &headless, false));
    assert!(!windowed(true, &none, true));
    assert!(!windowed(false, &none, false));
    let ours = read(r#"{"status":"ok","version":"1","vault":"memory","terminal":true}"#).unwrap();
    assert!(already_running(&ours));
    for other in [r#"{"status":"ok"}"#, r#"{"status":"up","vault":1,"terminal":1}"#, "[]"] {
        assert!(!already_running(&read(other).unwrap()), "{other}");
    }
}
