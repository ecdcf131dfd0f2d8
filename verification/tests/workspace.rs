use alkyon::error::Error;
use alkyon::tree::Child;
use alkyon::workspace::{
    anchor, check, expand_home, is_relative, list, open, resolve, resolve_root, simplify,
    strip_bom, MAX_FILES,
};

fn file(name: &str) -> Child {
    Child::File {
        name: name.to_owned(),
        bytes: 8,
    }
}

fn folder(name: &str, children: Vec<Child>) -> Child {
    Child::Folder {
        name: name.to_owned(),
        children,
    }
}

fn fixture() -> Vec<Child> {
    vec![
        folder(
            "reports",
            vec![folder("monthly", vec![file("b.SQL")]), file("a.sql")],
        ),
        folder(".git", vec![file("hook.sql")]),
        folder("node_modules", vec![folder("pkg", vec![file("dep.sql")])]),
        file("top.sql"),
        file("notes.txt"),
    ]
}

const ROOT: &str = "/w";

/// What the filesystem of the fixture says a path really is.
fn actual(path: &str) -> Option<String> {
    let known = [
        "/w",
        "/w/reports",
        "/w/reports/monthly",
        "/w/reports/a.sql",
        "/w/reports/monthly/b.SQL",
        "/w/top.sql",
        "/w/notes.txt",
    ];
    known
        .iter()
        .find(|known| **known == path)
        .map(|known| (*known).to_owned())
}

fn resolved(relative: &str, must_exist: bool) -> Result<String, Error> {
    check(relative, false)?;
    let place = anchor(ROOT, relative, must_exist, false);
    match actual(&place) {
        Some(found) => {
            let itself = actual(&format!("{ROOT}/{relative}"));
            resolve(ROOT, relative, &found, itself.as_deref(), false)
        }
        None => Err(Error::BadRequest(format!("no {place}"))),
    }
}

#[test]
fn lists_only_sql_and_skips_noise() {
    let (entries, truncated) = list(&fixture());
    let paths: Vec<&str> = entries.iter().map(|e| e.path.as_str()).collect();

    assert_eq!(paths, ["top.sql", "reports/a.sql", "reports/monthly/b.SQL"]);
    assert!(!truncated);
}

#[test]
fn resolves_inside_the_root() {
    let resolved = resolved("reports/a.sql", true).unwrap();
    assert!(resolved.ends_with("a.sql"));
}

#[test]
fn refuses_paths_that_leave_the_root() {
    for attempt in [
        "../outside.sql",
        "reports/../../outside.sql",
        "/etc/passwd.sql",
        "reports/./../../x.sql",
    ] {
        assert!(
            resolved(attempt, false).is_err(),
            "{attempt} should have been refused"
        );
        assert!(check(attempt, false).is_err(), "{attempt}");
    }
    assert!(resolve(ROOT, "reports/a.sql", "/elsewhere/a.sql", None, false).is_err());
}

#[test]
fn a_link_out_of_the_root_is_not_written_through() {
    // Its directory is where it should be; the file there is a link to somewhere else.
    let refused = resolve(ROOT, "link.sql", ROOT, Some("/etc/passwd.sql"), false);
    assert_eq!(refused.err().unwrap().message(), "`link.sql` escapes the workspace");
    assert_eq!(resolve(ROOT, "link.sql", ROOT, Some("/w/top.sql"), false).unwrap(), "/w/link.sql");
    assert_eq!(resolve(ROOT, "link.sql", ROOT, None, false).unwrap(), "/w/link.sql");
}

#[test]
fn refuses_anything_but_sql() {
    assert!(resolved("notes.txt", true).is_err());
    assert!(resolved("top", true).is_err());
}

#[test]
fn a_new_file_resolves_against_its_parent() {
    let found = resolved("reports/fresh.sql", false).unwrap();
    assert!(found.ends_with("fresh.sql"), "{found}");
    assert!(resolved("nowhere/fresh.sql", false).is_err());
}

#[test]
fn a_byte_order_mark_never_reaches_the_engine() {
    assert_eq!(strip_bom("\u{feff}select 1".to_owned()), "select 1");
    assert_eq!(strip_bom("select 1".to_owned()), "select 1");
    assert_eq!(strip_bom(String::new()), "");
    assert_eq!(
        strip_bom("select '\u{feff}' as bom".to_owned()),
        "select '\u{feff}' as bom"
    );
}

#[test]
fn a_tilde_expands_with_its_separator_intact() {
    let home = Some("/home/ada");
    assert_eq!(expand_home("~", home, false), "/home/ada");
    assert_eq!(expand_home("~/sub/deep", home, false), "/home/ada/sub/deep");
    assert_eq!(expand_home("~\\sub\\deep", home, false), "/home/ada/sub\\deep");
    assert_eq!(expand_home("~alice/x", home, false), "~alice/x");
    assert_eq!(expand_home("C:\\plain", home, false), "C:\\plain");
    assert_eq!(expand_home("~/x", None, false), "~/x");
}

#[test]
fn the_root_is_a_path_a_shell_can_use() {
    assert_eq!(
        simplify("\\\\?\\C:\\work".to_owned(), true),
        "C:\\work"
    );
    assert_eq!(
        simplify("\\\\?\\UNC\\host\\share".to_owned(), true),
        "\\\\?\\UNC\\host\\share"
    );
    let root = resolve_root("~/w", Ok("/home/ada/w".to_owned()), false).unwrap();
    assert_eq!(root, "/home/ada/w");
    // Still has to resolve files afterwards.
    assert_eq!(
        resolve(&root, "top.sql", "/home/ada/w/top.sql", None, false).unwrap(),
        "/home/ada/w/top.sql"
    );

    let root = resolve_root("C:\\work", Ok("\\\\?\\C:\\work".to_owned()), true).unwrap();
    assert_eq!(root, "C:\\work");
    let file = "C:\\work\\top.sql";
    assert_eq!(
        resolve(&root, "top.sql", file, Some(file), true).unwrap(),
        file
    );
    // As the platform spells the root when it is looked up again.
    let file = "\\\\?\\C:\\work\\sub\\top.sql";
    assert_eq!(
        resolve("\\\\?\\C:\\work", "sub/top.sql", file, Some(file), true).unwrap(),
        file
    );
    let missing = resolve_root("~/w", Err("not found".to_owned()), false)
        .err()
        .unwrap();
    assert_eq!(missing.message(), "cannot open `~/w`: not found");
}

#[test]
fn opening_a_file_as_a_root_fails() {
    let refused = open("/w/top.sql", "/w/top.sql".to_owned(), false).err().unwrap();
    assert_eq!(refused.message(), "`/w/top.sql` is not a directory");
    assert_eq!(open("/w", "/w".to_owned(), true).unwrap(), "/w");
}

#[test]
fn a_listing_that_is_too_long_says_so() {
    let many: Vec<Child> = (0..MAX_FILES + 5)
        .map(|i| file(&format!("q{i}.sql")))
        .collect();
    let (entries, truncated) = list(&many);
    assert_eq!(entries.len(), MAX_FILES);
    assert!(truncated);
}

#[test]
fn a_path_is_relative_when_nothing_anchors_it() {
    assert!(is_relative("sample-data/csv", false));
    assert!(is_relative("./x", false));
    assert!(!is_relative("/x", false));
    assert!(!is_relative("~/x", false));
    assert!(!is_relative("C:\\x", true));
    assert!(!is_relative("\\\\host\\share", true));
    assert!(is_relative("C:\\x", false));
}

#[test]
fn a_windows_path_is_held_to_the_same_rules() {
    for attempt in [
        "..\\outside.sql",
        "reports\\..\\..\\outside.sql",
        "\\outside.sql",
        "C:outside.sql",
        "C:\\outside.sql",
        "\\\\host\\share\\outside.sql",
        "\\\\?\\C:\\outside.sql",
    ] {
        assert!(check(attempt, true).is_err(), "{attempt}");
    }
    assert!(check("reports\\a.SQL", true).is_ok());
    assert_eq!(anchor("C:\\w", "reports\\a.sql", false, true), "C:\\w\\reports");
    assert_eq!(anchor("C:\\w", "reports/a.sql", true, true), "C:\\w\\reports/a.sql");
    assert!(resolve("C:\\w", "a.sql", "C:\\w2\\a.sql", None, true).is_err());
    assert!(resolve("C:\\w", "a.sql", "D:\\w\\a.sql", None, true).is_err());
    assert!(resolve("C:\\w", "a.sql", "c:\\w\\a.sql", None, true).is_ok());
    assert_eq!(expand_home("~\\sub\\deep", Some("C:\\Users\\ada"), true), "C:\\Users\\ada\\sub\\deep");
}
