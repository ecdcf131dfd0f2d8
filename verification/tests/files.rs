use alkyon::connectors::files::{
    address_of, candidates, csv_arguments, delta_from_listing, delta_tables, expand_sheets,
    filename_of, readable_extensions, reader_for, unique, walk, DataSet,
};
use alkyon::connectors::folder::{
    define, is_bare_identifier, path_of, same_columns, Combining, FilesConnection, FilesConnector,
    Place, Seen,
};
use alkyon::error::Error;
use alkyon::federation::excel::Sheet;
use alkyon::federation::session::AzureAccess;
use alkyon::model::{
    AuthConfig, ColumnMeta, CsvOptions, FileFormat, FileOptions, LogicalType, Scope, SourceConfig,
    SourceKind, TlsMode,
};
use alkyon::table::Table;
use alkyon::tree::Child;

const ROOT: &str = "/data";

fn file(name: &str) -> Child {
    Child::File {
        name: name.to_owned(),
        bytes: 10,
    }
}

fn folder(name: &str, children: Vec<Child>) -> Child {
    Child::Folder {
        name: name.to_owned(),
        children,
    }
}

fn fixture() -> Vec<Child> {
    vec![
        folder("sales", vec![file("orders.csv"), file("refunds.csv")]),
        folder("node_modules", vec![file("dep.csv")]),
        file("customers.csv"),
        file("notes.md"),
    ]
}

fn csv() -> FileOptions {
    FileOptions {
        format: Some(FileFormat::Csv),
        ..FileOptions::default()
    }
}

fn walked(children: &Vec<Child>, format: FileFormat, options: &FileOptions) -> Vec<DataSet> {
    walk(children, ROOT, false, format, options, &Table::new())
}

fn shape(sets: &[DataSet]) -> Vec<(String, usize, bool)> {
    sets.iter()
        .map(|set| (set.name.clone(), set.files.len(), set.tagged))
        .collect()
}

#[test]
fn root_files_are_their_own_tables_and_a_subdirectory_is_one() {
    let sets = walked(&fixture(), FileFormat::Csv, &csv());
    assert_eq!(
        shape(&sets),
        [
            ("customers".to_owned(), 1, false),
            ("sales".to_owned(), 2, true),
        ],
        "node_modules should not be indexed, and .md is not a data file"
    );
}

#[test]
fn a_folder_given_directly_reads_as_a_folder_source() {
    let children = fixture();
    let sheets = Table::new();
    let seen = Seen {
        children: &children,
        sheets: &sheets,
    };
    let over = FilesConnection::over(ROOT.to_owned(), csv(), false);
    assert_eq!(
        shape(&over.sets(&seen)),
        [
            ("customers".to_owned(), 1, false),
            ("sales".to_owned(), 2, true)
        ]
    );
    assert!(matches!(over.place, Place::Local { single: false, .. }));
}

fn listing() -> Vec<(String, String)> {
    ["customers.csv", "sales/orders.csv", "sales/refunds.csv"]
        .iter()
        .map(|name| {
            (
                (*name).to_owned(),
                format!("abfss://fs@acct.dfs.core.windows.net/{name}"),
            )
        })
        .collect()
}

fn access() -> AzureAccess {
    AzureAccess {
        account: "acct".to_owned(),
        token: "t".to_owned(),
        catalogue: "fs".to_owned(),
    }
}

#[test]
fn a_listing_becomes_the_same_tables_a_folder_would() {
    let azure = FilesConnection::in_azure(access(), &listing(), FileFormat::Csv, csv());
    let none = Vec::new();
    let sheets = Table::new();
    let seen = Seen {
        children: &none,
        sheets: &sheets,
    };
    assert_eq!(
        shape(&azure.sets(&seen)),
        [
            ("customers".to_owned(), 1, false),
            ("sales".to_owned(), 2, true)
        ],
        "the root's file is its own table, the subdirectory is one over both"
    );

    let sales = azure
        .sets(&seen)
        .into_iter()
        .find(|s| s.name == "sales")
        .unwrap();
    let query = sales.query(&csv()).unwrap();
    assert!(
        query.contains("abfss://fs@acct.dfs.core.windows.net/sales/orders.csv"),
        "{query}"
    );
    assert!(query.contains("read_csv"), "{query}");
}

#[test]
fn a_subdirectory_does_not_shadow_a_root_file() {
    let children = vec![folder("sales", vec![file("2024.csv")]), file("sales.csv")];
    let names: Vec<String> = walked(&children, FileFormat::Csv, &csv())
        .into_iter()
        .map(|set| set.name)
        .collect();
    assert_eq!(names, ["sales", "sales_2"], "neither may vanish");
}

#[test]
fn the_declared_format_is_the_only_one_read() {
    let children = vec![file("sales.csv"), file("sales.json")];
    let sets = walked(&children, FileFormat::Json, &csv());
    assert_eq!(sets.len(), 1);
    assert_eq!(sets[0].files.len(), 1, "only the JSON: {:?}", sets[0].files);
}

#[test]
fn excluded_files_are_left_out_of_their_table() {
    let options = FileOptions {
        exclude: vec!["sales/orders.csv".to_owned()],
        ..csv()
    };
    let sets = walked(&fixture(), FileFormat::Csv, &options);

    let sales = sets.iter().find(|set| set.name == "sales").unwrap();
    assert_eq!(sales.files.len(), 1, "{:?}", sales.files);
    assert!(sales.files[0].ends_with("refunds.csv"));
    assert!(sets.iter().any(|set| set.name == "customers"));
}

#[test]
fn a_directory_emptied_by_exclusions_is_not_a_table() {
    let options = FileOptions {
        exclude: vec![
            "sales/orders.csv".to_owned(),
            "sales/refunds.csv".to_owned(),
        ],
        ..csv()
    };
    let names: Vec<String> = walked(&fixture(), FileFormat::Csv, &options)
        .into_iter()
        .map(|set| set.name)
        .collect();
    assert_eq!(names, ["customers"]);
}

#[test]
fn the_union_carries_the_file_name_and_a_single_file_does_not() {
    let sets = walked(&fixture(), FileFormat::Csv, &csv());
    let sales = sets.iter().find(|set| set.name == "sales").unwrap();
    let query = sales.query(&csv()).unwrap();

    assert!(query.contains("filename = true"), "{query}");
    assert!(query.contains("AS \"source_file\""), "{query}");
    assert!(query.contains("orders.csv"), "{query}");
    assert!(query.contains("refunds.csv"), "{query}");

    let one = DataSet {
        name: "customers".to_owned(),
        files: vec![address_of("/data/customers.csv")],
        format: FileFormat::Csv,
        sheet: None,
        tagged: false,
    };
    let query = one.query(&csv()).unwrap();
    assert!(!query.contains("filename"), "a file source: {query}");

    let root_file = sets.iter().find(|set| set.name == "customers").unwrap();
    let query = root_file.query(&csv()).unwrap();
    assert!(!query.contains("filename"), "a root file: {query}");
}

#[test]
fn candidates_lists_every_readable_file_relatively() {
    let options = FileOptions {
        exclude: vec!["sales/orders.csv".to_owned()],
        ..csv()
    };
    assert_eq!(
        candidates(&fixture(), ROOT, false, &options),
        [
            "customers.csv".to_owned(),
            "sales/orders.csv".to_owned(),
            "sales/refunds.csv".to_owned(),
        ]
    );
}

#[test]
fn only_named_tables_are_defined() {
    let children = fixture();
    let sheets = Table::new();
    let seen = Seen {
        children: &children,
        sheets: &sheets,
    };
    let connection = FilesConnection::over(ROOT.to_owned(), csv(), false);
    let referenced = connection.referenced("select * from sales", &seen);
    assert_eq!(referenced.len(), 1);
    assert_eq!(referenced[0].name, "sales");
    assert!(connection.referenced("select 1", &seen).is_empty());
}

#[test]
fn a_name_that_is_taken_gets_a_number() {
    let mut taken: Vec<String> = Vec::new();
    assert_eq!(unique("a".to_owned(), &mut taken), "a");
    assert_eq!(unique("a".to_owned(), &mut taken), "a_2");
    assert_eq!(unique("a".to_owned(), &mut taken), "a_3");
    assert_eq!(unique("A".to_owned(), &mut taken), "A");
    assert_eq!(unique("b".to_owned(), &mut taken), "b");
}

#[test]
fn csv_options_become_arguments_and_nothing_else() {
    assert!(csv_arguments(&CsvOptions::default()).is_empty());
    let options = CsvOptions {
        delimiter: Some("'".to_owned()),
        header: Some(true),
        skip: Some(2),
        ..CsvOptions::default()
    };
    let arguments = csv_arguments(&options);
    assert!(arguments.contains(&"delim = ''''".to_owned()), "{arguments:?}");
    assert!(arguments.contains(&"header = true".to_owned()), "{arguments:?}");
    assert!(arguments.contains(&"skip = 2".to_owned()), "{arguments:?}");
}

#[test]
fn a_file_is_read_by_its_extension() {
    assert_eq!(reader_for("a/b.PARQUET", false), Some("read_parquet"));
    assert_eq!(reader_for("a/b.csv", false), Some("read_csv"));
    assert_eq!(reader_for("a/b.docx", false), None);
    assert!(readable_extensions().contains("parquet"));
    assert_eq!(filename_of("abfss://fs@a/x/y.csv"), "y.csv");
}

#[test]
fn a_delta_table_is_the_directory_above_its_log() {
    let children = vec![folder(
        "sales",
        vec![
            folder("_delta_log", vec![file("00000000000000000000.json")]),
            file("part-0000.parquet"),
        ],
    )];
    let sets = delta_tables(&children, ROOT, false, &FileOptions::default());
    let names: Vec<&str> = sets.iter().map(|set| set.name.as_str()).collect();
    assert_eq!(names, ["sales"]);
    assert_eq!(sets[0].files, ["/data/sales"]);

    let listed = vec![(
        "sales/_delta_log/00000000000000000000.json".to_owned(),
        "abfss://fs@a/sales/_delta_log/00000000000000000000.json".to_owned(),
    )];
    let sets = delta_from_listing(&listed, &FileOptions::default());
    assert_eq!(sets[0].files, ["abfss://fs@a/sales"]);
}

#[test]
fn every_sheet_of_a_workbook_is_a_table() {
    let book = DataSet {
        name: "budget".to_owned(),
        files: vec!["/data/budget.xlsx".to_owned()],
        format: FileFormat::Excel,
        sheet: None,
        tagged: false,
    };
    let mut sheets = Table::new();
    sheets.insert(
        "/data/budget.xlsx".to_owned(),
        vec!["Plan".to_owned(), "Actual".to_owned()],
    );
    let sets = expand_sheets(vec![book], &FileOptions::default(), &sheets);
    let found: Vec<(Option<&str>, usize)> = sets
        .iter()
        .map(|set| (set.sheet.as_deref(), set.files.len()))
        .collect();
    assert_eq!(found, [(Some("Plan"), 1), (Some("Actual"), 1)]);
    assert_ne!(sets[0].name, sets[1].name);
}

fn folder_source(path: Option<&str>) -> SourceConfig {
    SourceConfig {
        id: "f".to_owned(),
        scope: Scope::User,
        kind: SourceKind::Folder,
        host: String::new(),
        path: path.map(str::to_owned),
        options: csv(),
        port: None,
        instance: None,
        database: None,
        auth: AuthConfig::NoAuth,
        tls: TlsMode::Prefer,
    }
}

#[test]
fn a_folder_source_needs_a_path_that_is_a_folder() {
    assert!(path_of(&folder_source(None)).is_err());
    assert!(path_of(&folder_source(Some("  "))).is_err());
    let source = folder_source(Some("/data"));
    assert_eq!(path_of(&source).unwrap(), "/data");
    let connected =
        FilesConnector.connect(&source, "/data", "/data".to_owned(), false, true, false);
    assert!(connected.is_ok());
    let refused = FilesConnector
        .connect(&source, "/data", "/data".to_owned(), true, false, false)
        .err()
        .unwrap();
    assert!(matches!(refused, Error::BadRequest(_)));
}

#[test]
fn a_table_is_defined_over_its_files() {
    let sets = walked(&fixture(), FileFormat::Csv, &csv());
    let view = define(&sets[1], &csv()).unwrap();
    assert!(view.contains("\"sales\""), "{view}");
    assert!(view.contains("read_csv"), "{view}");
    assert!(is_bare_identifier("sales"));
    assert!(!is_bare_identifier("2024 sales"));
}

fn meta(name: &str) -> ColumnMeta {
    ColumnMeta {
        name: name.to_owned(),
        engine_type: "text".to_owned(),
        logical: LogicalType::Text,
    }
}

#[test]
fn sheets_of_one_table_have_to_have_the_same_columns() {
    assert!(same_columns(&vec![meta("a")], &vec![meta("a")]));
    assert!(!same_columns(&vec![meta("a")], &vec![meta("b")]));

    let set = DataSet {
        name: "budgets".to_owned(),
        files: vec!["/d/a.xlsx".to_owned(), "/d/b.xlsx".to_owned()],
        format: FileFormat::Excel,
        sheet: None,
        tagged: true,
    };
    let sheet = |name: &str| Sheet {
        columns: vec![meta(name)],
        rows: vec![vec![Some("1".to_owned())]],
    };
    let mut combining = Combining::new();
    combining.add(&set, "/d/a.xlsx", sheet("x")).unwrap();
    assert!(combining.add(&set, "/d/b.xlsx", sheet("y")).is_err());
    combining.add(&set, "/d/b.xlsx", sheet("x")).unwrap();
    let table = combining.finish(&set);
    assert_eq!(table.columns.len(), 2);
    assert_eq!(table.rows.len(), 2);
    assert_eq!(table.rows[0].len(), 2);
}

#[test]
fn only_a_whole_segment_is_a_delta_log() {
    let listed: Vec<(String, String)> = [
        "sales/_delta_log/0.json",
        "sales/_delta_log/1.json",
        "my_delta_log/a.json",
    ]
    .iter()
    .map(|name| ((*name).to_owned(), format!("abfss://fs@h/{name}")))
    .collect();
    let sets = delta_from_listing(&listed, &FileOptions::default());
    assert_eq!(sets.len(), 1);
    assert_eq!(sets[0].name, "sales");
    assert_eq!(sets[0].files, ["abfss://fs@h/sales"]);
    assert_eq!(sets[0].format, FileFormat::Delta);
    assert_eq!(sets[0].sheet, None);
    assert!(!sets[0].tagged);
}

#[test]
fn what_is_left_out_of_a_container_is_not_read() {
    let listed: Vec<(String, String)> =
        ["customers.csv", "sales/orders.csv", "sales/refunds.csv"]
            .iter()
            .map(|name| ((*name).to_owned(), format!("abfss://fs@h/{name}")))
            .collect();
    let options = FileOptions {
        exclude: vec!["sales/orders.csv".to_owned()],
        ..FileOptions::default()
    };
    let azure = FilesConnection::in_azure(access(), &listed, FileFormat::Csv, options);
    let none = Vec::new();
    let sheets = Table::new();
    let sets = azure.sets(&Seen {
        children: &none,
        sheets: &sheets,
    });
    let found: Vec<(&str, Vec<String>, bool)> = sets
        .iter()
        .map(|set| (set.name.as_str(), set.files.clone(), set.tagged))
        .collect();
    assert_eq!(
        found,
        [
            (
                "customers",
                vec!["abfss://fs@h/customers.csv".to_owned()],
                false
            ),
            (
                "sales",
                vec!["abfss://fs@h/sales/refunds.csv".to_owned()],
                true
            ),
        ]
    );
}

#[test]
fn a_folder_of_a_drive_gives_the_tables_of_a_folder() {
    let children = vec![
        file("customers.csv"),
        folder("sales", vec![file("a.csv"), file("b.csv")]),
    ];
    for (root, top) in [("C:\\data", "C:/data"), ("C:\\", "C:")] {
        let sets = walk(
            &children,
            root,
            true,
            FileFormat::Csv,
            &csv(),
            &Table::new(),
        );
        assert_eq!(sets[0].name, "customers");
        assert_eq!(sets[0].files, [format!("{top}/customers.csv")]);
        assert_eq!(sets[1].name, "sales");
        assert_eq!(
            sets[1].files,
            [format!("{top}/sales/a.csv"), format!("{top}/sales/b.csv")]
        );
    }

    let source = folder_source(Some("C:\\v1.2\\orders.csv"));
    let source = SourceConfig {
        kind: SourceKind::File,
        options: FileOptions::default(),
        ..source
    };
    let opened = FilesConnector
        .connect(
            &source,
            "C:\\v1.2\\orders.csv",
            "C:\\v1.2\\orders.csv".to_owned(),
            true,
            false,
            true,
        )
        .ok()
        .unwrap();
    let none = Vec::new();
    let sheets = Table::new();
    let sets = opened.sets(&Seen {
        children: &none,
        sheets: &sheets,
    });
    assert_eq!(sets[0].name, "orders");
    assert_eq!(sets[0].files, ["C:/v1.2/orders.csv"]);
}
