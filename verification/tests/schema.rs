use alkyon::model::{ColumnInfo, TableKind, TableSchema};
use alkyon::schema::{rank, HitKind, SchemaCache, Snapshot, MAX_HITS};

fn column(name: &str, data_type: &str, pk: bool) -> ColumnInfo {
    ColumnInfo {
        name: name.into(),
        ordinal: 1,
        data_type: data_type.into(),
        nullable: true,
        is_primary_key: pk,
        default: None,
    }
}

fn cache() -> SchemaCache {
    let mut cache = SchemaCache::new();
    cache.put(Snapshot {
        source: "user:pg".into(),
        database: "warehouse".into(),
        tables: vec![
            TableSchema {
                schema: "sales".into(),
                name: "customer".into(),
                kind: TableKind::Table,
                columns: vec![
                    column("id", "integer", true),
                    column("customer_name", "varchar(120)", false),
                ],
            },
            TableSchema {
                schema: "sales".into(),
                name: "customer_archive".into(),
                kind: TableKind::View,
                columns: vec![column("credit", "numeric(18,2)", false)],
            },
        ],
    });
    cache.put(Snapshot {
        source: "user:mssql".into(),
        database: "reporting".into(),
        tables: vec![TableSchema {
            schema: "dbo".into(),
            name: "invoice".into(),
            kind: TableKind::Table,
            columns: vec![column("customer_id", "int", false)],
        }],
    });
    cache
}

#[test]
fn searches_across_every_cached_source() {
    let hits = cache().search("customer", 50);
    let seen: Vec<(HitKind, &str, &str)> = hits
        .iter()
        .map(|hit| {
            (
                hit.kind,
                hit.source.as_str(),
                hit.column.as_deref().unwrap_or(hit.table.as_str()),
            )
        })
        .collect();

    assert_eq!(
        seen,
        [
            (HitKind::Table, "user:pg", "customer"),
            (HitKind::View, "user:pg", "customer_archive"),
            (HitKind::Column, "user:mssql", "customer_id"),
            (HitKind::Column, "user:pg", "customer_name"),
        ]
    );
}

#[test]
fn a_type_name_finds_the_columns_declared_with_it() {
    let hits = cache().search("numeric", 50);
    assert_eq!(hits.len(), 1);
    assert_eq!(hits[0].column.as_deref(), Some("credit"));
    assert_eq!(hits[0].data_type.as_deref(), Some("numeric(18,2)"));
}

#[test]
fn a_primary_key_is_flagged() {
    let hits = cache().search("id", 50);
    let pk = hits
        .iter()
        .find(|hit| hit.table == "customer" && hit.column.as_deref() == Some("id"))
        .expect("sales.customer.id");
    assert!(pk.is_primary_key);
}

#[test]
fn nothing_matches_nothing() {
    let cache = cache();
    assert!(cache.search("zzz", 50).is_empty());
    assert!(cache.search("   ", 50).is_empty());
}

#[test]
fn forgetting_a_source_drops_its_snapshots() {
    let mut cache = cache();
    assert_eq!(cache.indexed().len(), 2);

    cache.forget("user:pg");
    let indexed: Vec<(String, String, u128)> = cache
        .indexed()
        .into_iter()
        .map(|entry| (entry.source, entry.database, entry.columns))
        .collect();
    assert_eq!(
        indexed,
        [("user:mssql".to_owned(), "reporting".to_owned(), 1)]
    );
    assert!(cache
        .search("customer", 50)
        .iter()
        .all(|hit| hit.source == "user:mssql"));
}

#[test]
fn a_snapshot_replaces_the_one_before_it() {
    let mut cache = cache();
    assert_eq!(cache.get("user:pg", "warehouse").unwrap().column_count(), 3);
    assert!(cache.get("user:pg", "other").is_none());
    cache.put(Snapshot {
        source: "user:pg".into(),
        database: "warehouse".into(),
        tables: Vec::new(),
    });
    assert_eq!(cache.get("user:pg", "warehouse").unwrap().column_count(), 0);
    assert_eq!(cache.indexed().len(), 2);
}

#[test]
fn a_search_stops_at_its_limit() {
    let mut cache = SchemaCache::new();
    cache.put(Snapshot {
        source: "s".into(),
        database: "d".into(),
        tables: (0..150)
            .map(|i| TableSchema {
                schema: "x".into(),
                name: format!("t{i}"),
                kind: TableKind::Table,
                columns: Vec::new(),
            })
            .collect(),
    });
    assert_eq!(cache.search("t", 7).len(), 7);
    assert_eq!(cache.search("T", 1_000).len(), MAX_HITS);
}

#[test]
fn a_match_is_ranked_by_how_close_it_is() {
    assert_eq!(rank("Customer", "customer"), Some(0));
    assert_eq!(rank("customer_id", "customer"), Some(1));
    assert_eq!(rank("old_customer", "customer"), Some(2));
    assert_eq!(rank("invoice", "customer"), None);
}
