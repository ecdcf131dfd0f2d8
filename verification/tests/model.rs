use alkyon::error::Error;
use alkyon::json::{as_text, written, Json};
use alkyon::model::{
    catalogue_name, AuthConfig, AuthKind, Dialect, FileFormat, FileOptions, Scope, SourceConfig,
    SourceKind, TlsMode,
};
use alkyon::order::sort_names;
use alkyon::paths::{self, Part};
use alkyon::table::Table;
use alkyon::text;

fn config(auth: AuthConfig) -> SourceConfig {
    SourceConfig {
        id: "pg".to_owned(),
        scope: Scope::Project,
        kind: SourceKind::Postgres,
        host: "h".to_owned(),
        path: None,
        options: FileOptions::default(),
        port: None,
        instance: None,
        database: None,
        auth,
        tls: TlsMode::Require,
    }
}

#[test]
fn splitting_and_rejoining_gives_the_source_back() {
    let (record, secret) = config(AuthConfig::Password {
        username: "u".to_owned(),
        password: "p".to_owned(),
    })
    .split();
    assert_eq!(record.key(), "project:pg");
    assert_eq!(secret.as_deref(), Some("p"));
    let again = record.with_secret(secret).ok().unwrap();
    assert!(matches!(again.auth, AuthConfig::Password { password, .. } if password == "p"));
    assert!(matches!(
        record.with_secret(None),
        Err(Error::MissingSecret(id)) if id == "pg"
    ));
    let (plain, none) = config(AuthConfig::Integrated).split();
    assert_eq!(none, None);
    assert!(plain.with_secret(None).is_ok());
}

#[test]
fn a_summary_holds_no_secret() {
    let auth = AuthConfig::Entra {
        tenant: "t".to_owned(),
        client_id: "c".to_owned(),
        ticket: None,
        refresh_token: Some("s3cret".to_owned()),
        account: "ada".to_owned(),
    };
    assert!(!auth.redacted().contains("s3cret"));
    assert!(auth.redacted().contains("ada"));
    let (record, _) = config(auth).split();
    let summary = record.summary(Dialect::PgSql, false);
    assert!(!format!("{summary:?}").contains("s3cret"));
    assert_eq!(summary.account.as_deref(), Some("ada"));
    assert_eq!(summary.port, 5432);
    assert_eq!(summary.editor_mime, "text/x-pgsql");
    assert!(matches!(record.auth, AuthKind::Entra { .. }));
}

#[test]
fn a_format_is_known_by_its_extension() {
    assert_eq!(FileFormat::from_extension("CSV"), Some(FileFormat::Csv));
    assert_eq!(FileFormat::from_extension("docx"), None);
    for format in FileFormat::all() {
        for extension in format.extensions() {
            assert_eq!(FileFormat::from_extension(extension), Some(format));
        }
    }
    assert_eq!(catalogue_name(SourceKind::Folder, "/data/sales", false), "sales");
    assert_eq!(catalogue_name(SourceKind::Folder, "C:\\data\\parquet", true), "parquet");
    assert_eq!(catalogue_name(SourceKind::File, "C:\\data\\a.csv", true), "data");
    assert_eq!(catalogue_name(SourceKind::Folder, "C:\\", true), "memory");
}

#[test]
fn each_error_has_a_sentence_and_a_status() {
    for (error, message, status) in [
        (Error::UnknownSource("x".to_owned()), "unknown source `x`", 404),
        (Error::DuplicateSource("x".to_owned()), "source `x` already exists", 409),
        (Error::BadRequest("no".to_owned()), "no", 400),
        (Error::Mongo("down".to_owned()), "mongodb: down", 502),
    ] {
        assert_eq!(error.message(), message);
        assert_eq!(error.status(), status);
    }
}

#[test]
fn a_table_keeps_its_keys_in_order_and_once() {
    let mut table = Table::new();
    table.insert("b".to_owned(), 1);
    table.insert("a".to_owned(), 2);
    table.insert("b".to_owned(), 3);
    assert_eq!(table.len(), 2);
    assert_eq!(table.key_at(0), "a");
    assert_eq!(table.get("b"), Some(&3));
    table.keep(&vec![false, true]);
    assert_eq!(table.len(), 1);
    assert_eq!(table.remove("b"), Some(3));
    assert!(!table.contains_key("b"));
}

#[test]
fn names_are_sorted_the_way_strings_are() {
    let names = vec!["b".to_owned(), "ä".to_owned(), "a".to_owned(), "B".to_owned()];
    let mut expected = names.clone();
    expected.sort();
    assert_eq!(sort_names(names), expected);
}

#[test]
fn a_path_is_taken_apart_at_its_separators() {
    assert_eq!(paths::file_name_of("/a/b.csv", false).as_deref(), Some("b.csv"));
    assert_eq!(paths::stem_of("/a/b.tar.gz", false).as_deref(), Some("b.tar"));
    assert_eq!(paths::extension_of("/a/b.CSV", false).as_deref(), Some("CSV"));
    assert_eq!(paths::extension_of("/a/.hidden", false), None);
    assert!(paths::is_within("/data", "/data/x", false));
    assert!(!paths::is_within("/data", "/data2/x", false));
    assert_eq!(paths::joined("/a", "b", false), "/a/b");
    assert_eq!(paths::joined("/a", "/b", false), "/b");
}

#[test]
fn a_windows_path_begins_with_what_it_is_on() {
    let name = |t: &str| Part::Name(t.to_owned());
    let parts = |path: &str| paths::parts_of(path, true);
    assert_eq!(parts("C:\\a/b"), [Part::Drive('c'), Part::Root, name("a"), name("b")]);
    assert_eq!(parts("C:a"), [Part::Drive('c'), name("a")]);
    assert_eq!(parts("\\a"), [Part::Root, name("a")]);
    assert_eq!(
        parts("\\\\host\\share\\a"),
        [Part::Share("host".to_owned(), "share".to_owned()), Part::Root, name("a")]
    );
    assert_eq!(
        parts("\\\\?\\C:\\a\\b/c"),
        [Part::Verbatim("c:".to_owned()), Part::Root, name("a"), name("b/c")]
    );
    assert_eq!(
        parts("\\\\?\\UNC\\host\\share\\a"),
        [Part::Verbatim("UNC\\host\\share".to_owned()), Part::Root, name("a")]
    );
    assert_eq!(
        parts("\\\\.\\pipe\\x"),
        [Part::Device("pipe".to_owned()), Part::Root, name("x")]
    );
    assert_eq!(paths::parts_of("C:\\a", false), [name("C:\\a")]);

    assert_eq!(paths::joined("C:", "a", true), "C:a");
    assert_eq!(paths::joined("C:\\a", "\\b", true), "C:\\b");
    assert_eq!(paths::joined("C:\\a", "D:\\b", true), "D:\\b");
    assert_eq!(paths::joined("\\\\?\\C:\\a", "../b/./c", true), "\\\\?\\C:\\b\\c");
}

#[test]
fn text_is_measured_and_cut_by_characters() {
    assert_eq!(text::trimmed("\u{a0} x \t"), "x");
    assert!(text::blank(" \n"));
    assert_eq!(text::parse_u64("18446744073709551615"), Some(u64::MAX));
    assert_eq!(text::parse_u64("18446744073709551616"), None);
    assert_eq!(text::parse_u64("-1"), None);
    assert_eq!(text::split_all("a,,b", ','), ["a", "", "b"]);
    assert_eq!(text::replaced_all("aXbXX", "X", "--"), "a--b----");
    assert_eq!(text::hex_of(&[0, 255]), "00ff");
    assert_eq!(text::signed_of(-170141183460469231731687303715884105728), i128::MIN.to_string());
}

#[test]
fn json_is_written_on_one_line() {
    let value = Json::Object(vec![
        ("a".to_owned(), Json::Text("x\"y\n".to_owned())),
        ("b".to_owned(), Json::Array(vec![Json::Null, Json::Bool(true)])),
    ]);
    assert_eq!(written(&value), r#"{"a":"x\"y\n","b":[null,true]}"#);
    assert_eq!(as_text(&Json::Null), None);
    assert_eq!(as_text(&Json::Text("t".to_owned())).as_deref(), Some("t"));
    assert_eq!(as_text(&Json::Number("1.50".to_owned())).as_deref(), Some("1.50"));
}
