use alkyon::json::written;
use alkyon::llm::context::{
    bare, head, names, spell, system, tail, user, within, Ask, CURSOR, DETAIL_CHARS, NAMES_CHARS,
    PREFIX_CHARS,
};
use alkyon::llm::{
    clean, configured, endpoint, key, request, suggest, Answer, Block, Reply, ENDPOINT,
    KEY_VARIABLE,
};
use alkyon::model::{ColumnInfo, Dialect, TableKind, TableSchema};
use alkyon::schema::Snapshot;

fn column(name: &str, data_type: &str, pk: bool) -> ColumnInfo {
    ColumnInfo {
        name: name.into(),
        ordinal: 1,
        data_type: data_type.into(),
        nullable: true,
        default: None,
        is_primary_key: pk,
    }
}

fn table(schema: &str, name: &str) -> TableSchema {
    TableSchema {
        schema: schema.into(),
        name: name.into(),
        kind: TableKind::Table,
        columns: vec![
            column("id", "int", true),
            column("label", "nvarchar(50)", false),
        ],
    }
}

fn snapshot() -> Snapshot {
    Snapshot {
        source: "user:dw".into(),
        database: "warehouse".into(),
        tables: vec![
            table("sales", "customer"),
            table("sales", "order_line"),
            table("control", "perimeter"),
        ],
    }
}

fn ask<'a>(held: &'a Snapshot, tables: &'a [String], prefix: &'a str) -> Ask<'a> {
    Ask {
        dialect: Dialect::TSql,
        source: "user:dw",
        database: "warehouse",
        snapshot: Some(held),
        tables,
        prefix,
        suffix: "",
        max_tables: 12,
    }
}

#[test]
fn a_referenced_table_brings_its_columns_and_the_rest_only_their_names() {
    let held = snapshot();
    let referenced = ["sales.customer".to_owned()];
    let prompt = user(&ask(&held, &referenced, "select  from sales.customer"));

    assert!(
        prompt.contains("sales.customer(id int PK, label nvarchar(50))"),
        "{prompt}"
    );
    assert!(prompt.contains("control.perimeter"), "{prompt}");
    assert!(!prompt.contains("control.perimeter(id"), "{prompt}");
}

#[test]
fn quoting_case_and_qualification_do_not_hide_a_table() {
    let held = snapshot();
    for spelled in [
        "sales.customer",
        "Sales.Customer",
        "[sales].[customer]",
        "\"sales\".\"customer\"",
        "customer",
        "warehouse.sales.customer",
    ] {
        let named = [spelled.to_owned()];
        let prompt = user(&ask(&held, &named, "select 1"));
        assert!(
            prompt.contains("sales.customer(id int"),
            "`{spelled}` did not find the table: {prompt}"
        );
    }
}

#[test]
fn a_statement_naming_no_table_gets_names_and_no_columns() {
    let held = snapshot();
    let prompt = user(&ask(&held, &[], "select "));
    assert!(!prompt.contains("(id int"), "{prompt}");
    assert!(prompt.contains("sales.customer"), "{prompt}");
    assert!(prompt.contains("names only"), "{prompt}");
}

#[test]
fn the_buffer_carries_the_cursor_between_its_halves() {
    let held = snapshot();
    let mut it = ask(&held, &[], "select c.");
    it.suffix = "\nfrom sales.customer c";
    let prompt = user(&it);
    assert!(
        prompt.contains(&format!("select c.{CURSOR}\nfrom sales.customer c")),
        "{prompt}"
    );
}

#[test]
fn a_huge_schema_is_cut_to_the_budget_and_says_so() {
    let tables: Vec<TableSchema> = (0..400)
        .map(|i| {
            let mut held = table("sales", &format!("dim_customer_extended_{i}"));
            held.columns = (0..20)
                .map(|c| column(&format!("column_{c}"), "decimal(18,2)", false))
                .collect();
            held
        })
        .collect();
    let held = Snapshot {
        source: "user:dw".into(),
        database: "warehouse".into(),
        tables,
    };
    let referenced: Vec<String> = (0..400)
        .map(|i| format!("sales.dim_customer_extended_{i}"))
        .collect();
    let prompt = user(&ask(&held, &referenced, "select 1"));

    assert!(
        prompt.len() < DETAIL_CHARS + NAMES_CHARS + 2_000,
        "{} chars",
        prompt.len()
    );
    assert!(prompt.contains("-- and 388 more it reads"), "{prompt}");
    assert!(prompt.contains("dim_customer_extended_50"), "{prompt}");
    assert!(prompt.contains("not listed"), "{prompt}");
}

#[test]
fn a_table_cut_for_budget_is_still_named() {
    let held = Snapshot {
        source: "user:dw".into(),
        database: "warehouse".into(),
        tables: (0..20).map(|i| table("sales", &format!("t{i}"))).collect(),
    };
    let referenced: Vec<String> = (0..20).map(|i| format!("sales.t{i}")).collect();
    let mut it = ask(&held, &referenced, "select 1");
    it.max_tables = 3;
    let prompt = user(&it);

    assert!(prompt.contains("sales.t0(id int PK"), "{prompt}");
    assert!(!prompt.contains("sales.t9(id"), "past the cap, no columns");
    assert!(prompt.contains("-- and 17 more it reads"), "{prompt}");
    for i in 0..20 {
        assert!(prompt.contains(&format!("sales.t{i}")), "sales.t{i} vanished");
    }
}

#[test]
fn a_long_buffer_keeps_the_end_and_cuts_whole_lines() {
    let held = snapshot();
    let long = format!("{}select final_line", "-- filler line\n".repeat(1_000));
    let prompt = user(&ask(&held, &[], &long));

    assert!(
        prompt.contains(&format!("select final_line{CURSOR}")),
        "the cursor's own line went missing"
    );
    assert!(
        prompt.len() < PREFIX_CHARS + NAMES_CHARS + 2_000,
        "{} chars",
        prompt.len()
    );
    let buffer = prompt.split("-- buffer\n").nth(1).unwrap();
    assert!(
        buffer.starts_with("-- filler line") || buffer.starts_with("select"),
        "cut mid-line: {:?}",
        &buffer[..40.min(buffer.len())]
    );
}

#[test]
fn no_snapshot_still_makes_a_prompt_out_of_the_buffer() {
    let it = Ask {
        dialect: Dialect::PgSql,
        source: "user:pg",
        database: "postgres",
        snapshot: None,
        tables: &[],
        prefix: "select ",
        suffix: "",
        max_tables: 12,
    };
    assert!(user(&it).contains(&format!("select {CURSOR}")));
    assert!(system(Dialect::PgSql).contains("PostgreSQL"));
}

#[test]
fn a_code_fence_is_not_part_of_the_suggestion() {
    assert_eq!(clean("```sql\ncount(*)\n```", "select ", ""), "count(*)");
    assert_eq!(clean("```\ncount(*)```", "select ", ""), "count(*)");
    assert_eq!(clean("count(*)", "select ", ""), "count(*)");
}

#[test]
fn a_space_is_not_doubled() {
    assert_eq!(clean("  id", "select ", ""), "id");
    assert_eq!(clean(" id", "select", ""), " id");
}

#[test]
fn a_suggestion_that_repeats_what_follows_is_dropped() {
    assert_eq!(
        clean("from sales.customer", "select id\n", "\nfrom sales.customer"),
        ""
    );
    assert_eq!(
        clean("from sales.order_line", "select id\n", "\nfrom sales.customer"),
        "from sales.order_line"
    );
}

#[test]
fn an_empty_answer_stays_empty() {
    assert_eq!(clean("", "select 1", ""), "");
    assert_eq!(clean("   \n  ", "select 1", ""), "");
    assert_eq!(clean("```sql\n```", "select 1", ""), "");
}

#[test]
fn trailing_whitespace_goes() {
    assert_eq!(clean("count(*)  \n", "select ", ""), "count(*)");
}

#[test]
fn a_name_is_bare_without_quotes_and_case() {
    assert_eq!(bare(" [Sales].[Customer]; "), "sales.customer");
    assert_eq!(bare("`A`"), "a");
    assert_eq!(bare("ÄÖ"), "äö");
    assert!(names(&table("sales", "customer"), "customer"));
    assert!(names(&table("sales", "customer"), "dw.sales.customer"));
    assert!(!names(&table("sales", "customer"), "hr.customer"));
    assert_eq!(
        spell(&table("sales", "t")),
        "sales.t(id int PK, label nvarchar(50))"
    );
}

#[test]
fn what_does_not_fit_is_counted() {
    let lines = || vec!["aaaa".to_owned(), "bbbbbbbbbb".to_owned(), "cc".to_owned()];
    assert_eq!(within(lines(), 100, "tables"), "aaaa\nbbbbbbbbbb\ncc\n");
    assert_eq!(
        within(lines(), 8, "tables"),
        "aaaa\ncc\n-- and 1 more tables, not listed\n"
    );
    assert_eq!(within(lines(), 0, "tables"), "-- and 3 more tables, not listed\n");
}

#[test]
fn a_buffer_is_cut_at_whole_lines_from_the_far_end() {
    assert_eq!(tail("one\ntwo\nthree", 9), "three");
    assert_eq!(tail("one\ntwo\nthree", 13), "one\ntwo\nthree");
    assert_eq!(tail("abcdef", 3), "def");
    assert_eq!(head("one\ntwo\nthree", 9), "one\ntwo");
    assert_eq!(head("abcdef", 3), "abc");
    assert_eq!(head("äöü", 2), "äö");
}

#[test]
fn a_key_is_asked_for_by_name() {
    assert!(!configured(None));
    assert!(!configured(Some("  ")));
    assert!(configured(Some(" k ")));
    assert_eq!(key(Some(" k ")).unwrap(), "k");
    let refused = key(None).err().unwrap().message();
    assert!(refused.contains(KEY_VARIABLE), "{refused}");
    assert_eq!(endpoint(None), ENDPOINT);
    assert_eq!(endpoint(Some(" http://localhost:1 ")), "http://localhost:1");
}

#[test]
fn a_request_carries_both_halves_of_the_prompt() {
    let held = snapshot();
    let it = ask(&held, &[], "select ");
    let body: serde_json::Value = serde_json::from_str(&written(&request(&it, "m"))).unwrap();
    assert_eq!(body["model"], "m");
    assert_eq!(body["max_tokens"], 96);
    assert_eq!(body["system"][0]["text"], system(Dialect::TSql));
    assert_eq!(body["messages"][0]["content"], user(&it));
    assert_eq!(body["stop_sequences"][0], "\n\n");
}

#[test]
fn a_reply_is_a_suggestion_or_a_sentence() {
    let answer = Answer {
        content: vec![
            Block {
                kind: "thinking".to_owned(),
                text: "no".to_owned(),
            },
            Block {
                kind: "text".to_owned(),
                text: "count".to_owned(),
            },
            Block {
                kind: "text".to_owned(),
                text: "(*)\n".to_owned(),
            },
        ],
        input_tokens: 1500,
        output_tokens: 4,
    };
    let said = suggest(Reply::Answered(answer), "select ", "").ok().unwrap();
    assert_eq!(said.text, "count(*)");
    assert_eq!((said.input_tokens, said.output_tokens), (1500, 4));

    let refused = |reply: Reply| suggest(reply, "", "").err().unwrap().message();
    assert_eq!(
        refused(Reply::Refused {
            status: "400 Bad Request".to_owned(),
            said: Some("credit balance is too low".to_owned()),
        }),
        "the model refused: credit balance is too low"
    );
    assert_eq!(
        refused(Reply::Refused {
            status: "502 Bad Gateway".to_owned(),
            said: None,
        }),
        "the model refused: HTTP 502 Bad Gateway"
    );
    assert_eq!(
        refused(Reply::Unbuilt("x".to_owned())),
        "cannot build an HTTPS client: x"
    );
    assert_eq!(refused(Reply::Unreached("x".to_owned())), "cannot reach the model: x");
    assert_eq!(refused(Reply::Silent("x".to_owned())), "the model sent no answer: x");
    assert_eq!(
        refused(Reply::Unreadable("x".to_owned())),
        "the model sent an unreadable answer: x"
    );
}
