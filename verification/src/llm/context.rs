//! What a model is told, and what it is not.
//!
//! A suggestion is only as good as the schema it can see, and a schema is far too big to
//! send. So the prompt is a selection: the tables the buffer names with their columns,
//! every other table as a bare name, and the buffer around the cursor. Each is cut to a
//! budget, so the request is bounded whatever the schema and whatever the buffer.
//!
//! Nothing here reads a row. The schema and the text being written travel; data does not.

use crate::model::{ColumnInfo, ColumnInfoView, Dialect, TableSchema, TableSchemaView};
use crate::schema::{Snapshot, SnapshotView};
use crate::text;
use vstd::prelude::*;
use vstd::string::*;

verus! {

/// Budgets, in characters: counting tokens would mean a round trip before the round trip.
pub const DETAIL_CHARS: usize = 8_000;

pub const NAMES_CHARS: usize = 6_000;

pub const PREFIX_CHARS: usize = 4_000;

pub const SUFFIX_CHARS: usize = 1_000;

/// Where the suggestion goes. No SQL contains it, so it cannot be mistaken for a piece of
/// the buffer.
pub const CURSOR: &'static str = "<|cursor|>";

/// What is asked for: the text at one position of a buffer.
pub struct Ask<'a> {
    pub dialect: Dialect,
    pub source: &'a str,
    pub database: &'a str,
    /// `None` when the schema has not been read yet: the suggestion is then made from the
    /// buffer alone rather than not made at all.
    pub snapshot: Option<&'a Snapshot>,
    /// The tables the buffer references, as the editor read them.
    pub tables: &'a [String],
    pub prefix: &'a str,
    pub suffix: &'a str,
    pub max_tables: usize,
}

#[verifier::ext_equal]
pub struct AskView {
    pub dialect: Dialect,
    pub source: Seq<char>,
    pub database: Seq<char>,
    pub snapshot: Option<SnapshotView>,
    pub tables: Seq<Seq<char>>,
    pub prefix: Seq<char>,
    pub suffix: Seq<char>,
    pub max_tables: nat,
}

impl<'a> View for Ask<'a> {
    type V = AskView;

    open spec fn view(&self) -> AskView {
        AskView {
            dialect: self.dialect,
            source: self.source@,
            database: self.database@,
            snapshot: match self.snapshot {
                Some(snapshot) => Some(snapshot@),
                None => None,
            },
            tables: text::views(self.tables@),
            prefix: self.prefix@,
            suffix: self.suffix@,
            max_tables: self.max_tables as nat,
        }
    }
}

pub open spec fn dialect_text(dialect: Dialect) -> Seq<char> {
    match dialect {
        Dialect::TSql => "T-SQL (Microsoft SQL Server)"@,
        Dialect::PgSql => "PostgreSQL"@,
        Dialect::MySql => "MySQL"@,
        Dialect::DuckDb => "DuckDB SQL"@,
    }
}

pub fn dialect_name(dialect: Dialect) -> (r: &'static str)
    ensures
        r@ == dialect_text(dialect),
{
    match dialect {
        Dialect::TSql => "T-SQL (Microsoft SQL Server)",
        Dialect::PgSql => "PostgreSQL",
        Dialect::MySql => "MySQL",
        Dialect::DuckDb => "DuckDB SQL",
    }
}

// -------------------------------------------------------------------------- names

/// What SQL may put around a name.
pub open spec fn is_quoting(c: char) -> bool {
    c == '"' || c == '[' || c == ']' || c == '`'
}

pub open spec fn bare_chars(s: Seq<char>) -> Seq<char>
    decreases s.len(),
{
    if s.len() == 0 {
        Seq::empty()
    } else {
        let before = bare_chars(s.drop_last());
        if is_quoting(s.last()) {
            before
        } else {
            before + text::lowered(s.last())
        }
    }
}

/// A name as SQL lets it be written, reduced to something comparable: quoting gone, case
/// gone. `[Sales].[Customer]` and `sales.customer` are one name.
pub open spec fn bare_name(name: Seq<char>) -> Seq<char> {
    bare_chars(text::strip_end(text::trim(name), ';'))
}

pub fn bare(name: &str) -> (r: String)
    ensures
        r@ == bare_name(name@),
{
    let kept = text::chars_of(&text::stripped_end(&text::trimmed(name), ';'));
    let ghost all = text::strip_end(text::trim(name@), ';');
    let mut out = String::new();
    let mut i: usize = 0;
    assert(all.take(0) =~= Seq::<char>::empty());
    while i < kept.len()
        invariant
            i <= kept.len(),
            kept@ == all,
            out@ == bare_chars(all.take(i as int)),
        decreases kept.len() - i,
    {
        assert(all.take(i as int + 1).drop_last() =~= all.take(i as int));
        let c = kept[i];
        if !(c == '"' || c == '[' || c == ']' || c == '`') {
            out.append(&text::lowercase_char(c));
        }
        i = i + 1;
    }
    assert(all.take(i as int) =~= all);
    out
}

pub open spec fn qualified(table: TableSchemaView) -> Seq<char> {
    table.schema + "."@ + table.name
}

/// Whether a reference, made bare, names this table. It may be bare (`customer`),
/// qualified (`sales.customer`) or of three parts (`warehouse.sales.customer`).
pub open spec fn is_named(table: TableSchemaView, wanted: Seq<char>) -> bool {
    wanted == bare_name(qualified(table)) || match text::rsplit_once(wanted, '.') {
        Some((head, tail)) => tail == bare_name(table.name) && (head == bare_name(table.schema)
            || text::ends_with(head, "."@ + bare_name(table.schema))),
        None => wanted == bare_name(table.name),
    }
}

pub fn names(table: &TableSchema, wanted: &str) -> (r: bool)
    ensures
        r == is_named(table@, wanted@),
{
    if text::same(wanted, &bare(&table.qualified())) {
        return true;
    }
    match text::split_last(wanted, '.') {
        Some((head, tail)) => {
            let schema = bare(&table.schema);
            text::same(&tail, &bare(&table.name)) && (text::same(&head, &schema) || text::ends(
                &head,
                &".".to_owned().concat(&schema),
            ))
        },
        None => text::same(wanted, &bare(&table.name)),
    }
}

pub open spec fn column_text(column: ColumnInfoView) -> Seq<char> {
    column.name + " "@ + column.data_type + (if column.is_primary_key {
        " PK"@
    } else {
        ""@
    })
}

pub open spec fn column_texts(columns: Seq<ColumnInfoView>) -> Seq<Seq<char>> {
    Seq::new(columns.len(), |i: int| column_text(columns[i]))
}

/// A table and its columns, as the prompt spells them.
pub open spec fn spelled(table: TableSchemaView) -> Seq<char> {
    qualified(table) + "("@ + text::join(column_texts(table.columns), ", "@) + ")"@
}

fn spell_column(column: &ColumnInfo) -> (r: String)
    ensures
        r@ == column_text(column@),
{
    let key = if column.is_primary_key {
        " PK"
    } else {
        ""
    };
    column.name.clone().concat(" ").concat(&column.data_type).concat(key)
}

pub fn spell(table: &TableSchema) -> (r: String)
    ensures
        r@ == spelled(table@),
{
    let mut columns: Vec<String> = Vec::new();
    let mut i: usize = 0;
    let ghost all = column_texts(table@.columns);
    assert(text::views(columns@) =~= all.take(0));
    while i < table.columns.len()
        invariant
            i <= table.columns.len(),
            all == column_texts(table@.columns),
            text::views(columns@) == all.take(i as int),
        decreases table.columns.len() - i,
    {
        let ghost before = text::views(columns@);
        columns.push(spell_column(&table.columns[i]));
        assert(table@.columns[i as int] == table.columns@[i as int]@);
        assert(text::views(columns@) =~= before.push(all[i as int]));
        assert(all.take(i as int + 1) =~= all.take(i as int).push(all[i as int]));
        i = i + 1;
    }
    assert(all.take(i as int) =~= all);
    table.qualified().concat("(").concat(&text::joined(&columns, ", ")).concat(")")
}

// ------------------------------------------------------------------------ budgets

/// The lines that fit a budget, one after the other, and how many did not.
pub open spec fn fitting(lines: Seq<Seq<char>>, budget: nat) -> (Seq<char>, nat)
    decreases lines.len(),
{
    if lines.len() == 0 {
        (Seq::empty(), 0)
    } else {
        let (kept, dropped) = fitting(lines.drop_last(), budget);
        if kept.len() + lines.last().len() + 1 > budget {
            (kept, dropped + 1)
        } else {
            (kept + lines.last() + "\n"@, dropped)
        }
    }
}

/// Whole lines until a budget is spent, and then how many were dropped: a list that stops
/// without a word reads as the whole list.
pub open spec fn cut_to(lines: Seq<Seq<char>>, budget: nat, what: Seq<char>) -> Seq<char> {
    let (kept, dropped) = fitting(lines, budget);
    if dropped > 0 {
        kept + ("-- and "@ + text::decimal(dropped) + " more "@ + what + ", not listed\n"@)
    } else {
        kept
    }
}

pub fn within(lines: Vec<String>, budget: usize, what: &str) -> (r: String)
    ensures
        r@ == cut_to(text::views(lines@), budget as nat, what@),
{
    let ghost all = text::views(lines@);
    let mut kept = String::new();
    let mut used: usize = 0;
    let mut dropped: usize = 0;
    let mut i: usize = 0;
    assert(all.take(0) =~= Seq::<Seq<char>>::empty());
    proof {
        reveal_strlit("\n");
    }
    while i < lines.len()
        invariant
            i <= lines.len(),
            all == text::views(lines@),
            "\n"@.len() == 1,
            used <= budget,
            used == kept@.len(),
            dropped <= i,
            fitting(all.take(i as int), budget as nat) == (kept@, dropped as nat),
        decreases lines.len() - i,
    {
        assert(all.take(i as int + 1).drop_last() =~= all.take(i as int));
        assert(all.take(i as int + 1).last() == lines@[i as int]@);
        let n: usize = lines[i].as_str().unicode_len();
        if n >= budget - used {
            dropped = dropped + 1;
        } else {
            kept.append(&lines[i]);
            kept.append("\n");
            used = used + n + 1;
        }
        i = i + 1;
    }
    assert(all.take(i as int) =~= all);
    if dropped > 0 {
        kept.append(
            &"-- and ".to_owned().concat(&text::decimal_of(dropped as u64)).concat(
                " more ",
            ).concat(what).concat(", not listed\n"),
        );
    }
    kept
}

/// The last `budget` characters, cut at a line boundary: the cursor is at the end, so the
/// end is the part that matters.
pub open spec fn tail_of(text: Seq<char>, budget: nat) -> Seq<char> {
    if text.len() <= budget {
        text
    } else {
        let kept = text.skip(text.len() - budget);
        match text::split_once(kept, '\n') {
            Some((_, whole)) => whole,
            None => kept,
        }
    }
}

pub fn tail(text: &str, budget: usize) -> (r: String)
    ensures
        r@ == tail_of(text@, budget as nat),
{
    let v = text::chars_of(text);
    if v.len() <= budget {
        return text.to_owned();
    }
    let kept = text::slice(&v, v.len() - budget, v.len());
    assert(kept@ == text@.skip(text@.len() - budget));
    match text::split_first(&kept, '\n') {
        Some((_, whole)) => whole,
        None => kept,
    }
}

/// The first `budget` characters, cut at a line boundary.
pub open spec fn head_of(text: Seq<char>, budget: nat) -> Seq<char> {
    if text.len() <= budget {
        text
    } else {
        let kept = text.take(budget as int);
        match text::rsplit_once(kept, '\n') {
            Some((whole, _)) => whole,
            None => kept,
        }
    }
}

pub fn head(text: &str, budget: usize) -> (r: String)
    ensures
        r@ == head_of(text@, budget as nat),
{
    let v = text::chars_of(text);
    if v.len() <= budget {
        return text.to_owned();
    }
    let kept = text::slice(&v, 0, budget);
    assert(kept@ == text@.take(budget as int));
    match text::split_last(&kept, '\n') {
        Some((whole, _)) => whole,
        None => kept,
    }
}

// ------------------------------------------------------------------------- prompt

/// What never changes between two keystrokes.
pub open spec fn standing(dialect: Dialect) -> Seq<char> {
    "You are the inline completion of a SQL editor. You are given a database schema and a buffer with <|cursor|> marking one position in it.\n\nReply with the text that goes at <|cursor|> and nothing else: no explanation, no markdown, no code fence, and never a repeat of the text that already follows the cursor. If nothing useful goes there, reply with nothing at all.\n\nWrite "@
        + dialect_text(dialect)
        + ". Use only the tables and columns you were given — never invent a name. Keep it short: finish the identifier, the clause or the line being typed, not the whole query. Follow the buffer's own capitalisation and indentation."@
}

/// The half of the prompt that is the same for every request in a project, apart from
/// [`user`], which moves with every character.
pub fn system(dialect: Dialect) -> (r: String)
    ensures
        r@ == standing(dialect),
{
    "You are the inline completion of a SQL editor. You are given a database schema and a buffer with <|cursor|> marking one position in it.\n\nReply with the text that goes at <|cursor|> and nothing else: no explanation, no markdown, no code fence, and never a repeat of the text that already follows the cursor. If nothing useful goes there, reply with nothing at all.\n\nWrite ".to_owned().concat(
        dialect_name(dialect),
    ).concat(
        ". Use only the tables and columns you were given — never invent a name. Keep it short: finish the identifier, the clause or the line being typed, not the whole query. Follow the buffer's own capitalisation and indentation.",
    )
}

pub open spec fn bare_names(names: Seq<Seq<char>>) -> Seq<Seq<char>> {
    Seq::new(names.len(), |i: int| bare_name(names[i]))
}

/// Whether any of the references names this table.
pub open spec fn is_read(table: TableSchemaView, wanted: Seq<Seq<char>>) -> bool {
    exists|i: int| 0 <= i < wanted.len() && is_named(table, #[trigger] wanted[i])
}

/// The tables that the references name, or the ones they do not.
pub open spec fn sorted_out(tables: Seq<TableSchemaView>, wanted: Seq<Seq<char>>, read: bool) -> Seq<
    TableSchemaView,
>
    decreases tables.len(),
{
    if tables.len() == 0 {
        Seq::empty()
    } else {
        let before = sorted_out(tables.drop_last(), wanted, read);
        if is_read(tables.last(), wanted) == read {
            before.push(tables.last())
        } else {
            before
        }
    }
}

/// How many of the tables that are read get their columns.
pub open spec fn detailed(read: Seq<TableSchemaView>, max_tables: nat) -> int {
    if read.len() < max_tables {
        read.len() as int
    } else {
        max_tables as int
    }
}

pub open spec fn spelled_all(tables: Seq<TableSchemaView>) -> Seq<Seq<char>> {
    Seq::new(tables.len(), |i: int| spelled(tables[i]))
}

pub open spec fn qualified_all(tables: Seq<TableSchemaView>) -> Seq<Seq<char>> {
    Seq::new(tables.len(), |i: int| qualified(tables[i]))
}

/// Columns for what the statement reads. Past the limit a table that is read does not
/// vanish: it falls through to the names.
pub open spec fn detail_part(ask: AskView, read: Seq<TableSchemaView>) -> Seq<char> {
    let n = detailed(read, ask.max_tables);
    if n == 0 {
        Seq::empty()
    } else {
        "-- tables this statement reads, in "@ + ask.source + " / "@ + ask.database + "\n"@
            + cut_to(spelled_all(read.take(n)), DETAIL_CHARS as nat, "tables"@) + (if n
            < read.len() {
            "-- and "@ + text::decimal((read.len() - n) as nat)
                + " more it reads, listed by name below\n"@
        } else {
            Seq::empty()
        }) + "\n"@
    }
}

/// Every other table, as a bare name.
pub open spec fn names_part(others: Seq<TableSchemaView>) -> Seq<char> {
    if others.len() == 0 {
        Seq::empty()
    } else {
        "-- other tables in this database, names only\n"@ + cut_to(
            qualified_all(others),
            NAMES_CHARS as nat,
            "tables"@,
        ) + "\n"@
    }
}

/// The tables that go as a bare name: those past the limit, and those not read.
pub open spec fn named_only(ask: AskView, tables: Seq<TableSchemaView>) -> Seq<TableSchemaView> {
    let wanted = bare_names(ask.tables);
    let read = sorted_out(tables, wanted, true);
    read.skip(detailed(read, ask.max_tables)) + sorted_out(tables, wanted, false)
}

pub open spec fn schema_part(ask: AskView) -> Seq<char> {
    match ask.snapshot {
        Some(snapshot) => detail_part(
            ask,
            sorted_out(snapshot.tables, bare_names(ask.tables), true),
        ) + names_part(named_only(ask, snapshot.tables)),
        None => Seq::empty(),
    }
}

/// The half of the prompt that moves: the part of the schema, and then the buffer.
pub open spec fn moving(ask: AskView) -> Seq<char> {
    schema_part(ask) + "-- buffer\n"@ + tail_of(ask.prefix, PREFIX_CHARS as nat) + CURSOR@
        + head_of(ask.suffix, SUFFIX_CHARS as nat)
}

pub open spec fn refs_view(tables: Seq<&TableSchema>) -> Seq<TableSchemaView> {
    Seq::new(tables.len(), |i: int| (*tables[i])@)
}

fn bare_all(names: &[String]) -> (r: Vec<String>)
    ensures
        text::views(r@) == bare_names(text::views(names@)),
{
    let mut out: Vec<String> = Vec::new();
    let mut i: usize = 0;
    let ghost all = bare_names(text::views(names@));
    assert(text::views(out@) =~= all.take(0));
    while i < names.len()
        invariant
            i <= names.len(),
            all == bare_names(text::views(names@)),
            text::views(out@) == all.take(i as int),
        decreases names.len() - i,
    {
        let ghost before = text::views(out@);
        out.push(bare(&names[i]));
        assert(text::views(out@) =~= before.push(all[i as int]));
        assert(all.take(i as int + 1) =~= all.take(i as int).push(all[i as int]));
        i = i + 1;
    }
    assert(all.take(i as int) =~= all);
    out
}

fn reads(table: &TableSchema, wanted: &Vec<String>) -> (r: bool)
    ensures
        r == is_read(table@, text::views(wanted@)),
{
    let ghost all = text::views(wanted@);
    let mut i: usize = 0;
    while i < wanted.len()
        invariant
            i <= wanted.len(),
            all == text::views(wanted@),
            forall|j: int| 0 <= j < i ==> !is_named(table@, #[trigger] all[j]),
        decreases wanted.len() - i,
    {
        assert(all[i as int] == wanted@[i as int]@);
        if names(table, &wanted[i]) {
            return true;
        }
        i = i + 1;
    }
    false
}

fn sort_out<'a>(tables: &'a Vec<TableSchema>, wanted: &Vec<String>) -> (r: (
    Vec<&'a TableSchema>,
    Vec<&'a TableSchema>,
))
    ensures
        refs_view(r.0@) == sorted_out(
            crate::model::schemas_view(tables@),
            text::views(wanted@),
            true,
        ),
        refs_view(r.1@) == sorted_out(
            crate::model::schemas_view(tables@),
            text::views(wanted@),
            false,
        ),
{
    let ghost all = crate::model::schemas_view(tables@);
    let ghost names = text::views(wanted@);
    let mut read: Vec<&'a TableSchema> = Vec::new();
    let mut rest: Vec<&'a TableSchema> = Vec::new();
    let mut i: usize = 0;
    assert(refs_view(read@) =~= sorted_out(all.take(0), names, true));
    assert(refs_view(rest@) =~= sorted_out(all.take(0), names, false));
    while i < tables.len()
        invariant
            i <= tables.len(),
            all == crate::model::schemas_view(tables@),
            names == text::views(wanted@),
            refs_view(read@) == sorted_out(all.take(i as int), names, true),
            refs_view(rest@) == sorted_out(all.take(i as int), names, false),
        decreases tables.len() - i,
    {
        let ghost (was_read, was_rest) = (refs_view(read@), refs_view(rest@));
        assert(all.take(i as int + 1).drop_last() =~= all.take(i as int));
        assert(all.take(i as int + 1).last() == tables@[i as int]@);
        if reads(&tables[i], wanted) {
            read.push(&tables[i]);
            assert(refs_view(read@) =~= was_read.push(tables@[i as int]@));
        } else {
            rest.push(&tables[i]);
            assert(refs_view(rest@) =~= was_rest.push(tables@[i as int]@));
        }
        i = i + 1;
    }
    assert(all.take(i as int) =~= all);
    (read, rest)
}

fn spell_first(tables: &Vec<&TableSchema>, n: usize) -> (r: Vec<String>)
    requires
        n <= tables.len(),
    ensures
        text::views(r@) == spelled_all(refs_view(tables@).take(n as int)),
{
    let ghost all = spelled_all(refs_view(tables@).take(n as int));
    let mut out: Vec<String> = Vec::new();
    let mut i: usize = 0;
    assert(text::views(out@) =~= all.take(0));
    while i < n
        invariant
            i <= n <= tables.len(),
            all == spelled_all(refs_view(tables@).take(n as int)),
            text::views(out@) == all.take(i as int),
        decreases n - i,
    {
        let ghost before = text::views(out@);
        out.push(spell(tables[i]));
        assert(text::views(out@) =~= before.push(all[i as int]));
        assert(all.take(i as int + 1) =~= all.take(i as int).push(all[i as int]));
        i = i + 1;
    }
    assert(all.take(i as int) =~= all);
    out
}

fn name_from(tables: &Vec<&TableSchema>, from: usize, out: &mut Vec<String>)
    requires
        from <= tables.len(),
    ensures
        text::views(final(out)@) == text::views(old(out)@) + qualified_all(
            refs_view(tables@).skip(from as int),
        ),
{
    let ghost start = text::views(out@);
    let ghost all = qualified_all(refs_view(tables@).skip(from as int));
    let mut i: usize = from;
    assert(text::views(out@) =~= start + all.take(0));
    while i < tables.len()
        invariant
            from <= i <= tables.len(),
            all == qualified_all(refs_view(tables@).skip(from as int)),
            text::views(out@) == start + all.take(i - from),
        decreases tables.len() - i,
    {
        let ghost before = text::views(out@);
        out.push(tables[i].qualified());
        assert(all[i - from] == qualified(refs_view(tables@)[i as int]));
        assert(text::views(out@) =~= before.push(all[i - from]));
        assert(start + all.take(i - from + 1) =~= (start + all.take(i - from)).push(
            all[i - from],
        ));
        i = i + 1;
    }
    assert(all.take(i - from) =~= all);
}

fn describe_schema(ask: &Ask, snapshot: &Snapshot) -> (r: String)
    requires
        ask@.snapshot == Some(snapshot@),
    ensures
        r@ == schema_part(ask@),
{
    let wanted = bare_all(ask.tables);
    let (read, rest) = sort_out(&snapshot.tables, &wanted);
    let ghost read_view = refs_view(read@);
    let n: usize = if read.len() < ask.max_tables {
        read.len()
    } else {
        ask.max_tables
    };
    let mut out = String::new();
    if n > 0 {
        let lines = spell_first(&read, n);
        let over = if n < read.len() {
            "-- and ".to_owned().concat(&text::decimal_of((read.len() - n) as u64)).concat(
                " more it reads, listed by name below\n",
            )
        } else {
            String::new()
        };
        out = "-- tables this statement reads, in ".to_owned().concat(ask.source).concat(
            " / ",
        ).concat(ask.database).concat("\n").concat(&within(lines, DETAIL_CHARS, "tables")).concat(
            &over,
        ).concat("\n");
    }
    assert(out@ == detail_part(ask@, read_view));
    let mut listed: Vec<String> = Vec::new();
    name_from(&read, n, &mut listed);
    name_from(&rest, 0, &mut listed);
    proof {
        let others = named_only(ask@, snapshot@.tables);
        assert(refs_view(rest@).skip(0) =~= refs_view(rest@));
        assert(text::views(listed@) =~= qualified_all(others));
    }
    let named = if listed.len() == 0 {
        String::new()
    } else {
        "-- other tables in this database, names only\n".to_owned().concat(
            &within(listed, NAMES_CHARS, "tables"),
        ).concat("\n")
    };
    out.concat(&named)
}

pub fn user(ask: &Ask) -> (r: String)
    ensures
        r@ == moving(ask@),
{
    let schema = match ask.snapshot {
        Some(snapshot) => describe_schema(ask, snapshot),
        None => String::new(),
    };
    schema.concat("-- buffer\n").concat(&tail(ask.prefix, PREFIX_CHARS)).concat(CURSOR).concat(
        &head(ask.suffix, SUFFIX_CHARS),
    )
}

// --------------------------------------------------------------------------- laws

proof fn lemma_fitting(lines: Seq<Seq<char>>, budget: nat)
    ensures
        fitting(lines, budget).0.len() <= budget,
        fitting(lines, budget).1 <= lines.len(),
    decreases lines.len(),
{
    reveal_strlit("\n");
    if lines.len() > 0 {
        lemma_fitting(lines.drop_last(), budget);
    }
}

/// A list cut to a budget is no longer than the budget and the line that says how many
/// were dropped.
pub proof fn law_a_list_keeps_to_its_budget(
    lines: Seq<Seq<char>>,
    budget: nat,
    what: Seq<char>,
)
    requires
        lines.len() <= u64::MAX,
    ensures
        cut_to(lines, budget, what).len() <= budget + what.len() + 47,
{
    lemma_fitting(lines, budget);
    text::lemma_decimal_short(fitting(lines, budget).1);
    reveal_strlit("-- and ");
    reveal_strlit(" more ");
    reveal_strlit(", not listed\n");
}

/// Those of the lines that fit.
pub open spec fn kept_lines(lines: Seq<Seq<char>>, budget: nat) -> Seq<Seq<char>>
    decreases lines.len(),
{
    if lines.len() == 0 {
        Seq::empty()
    } else {
        let before = kept_lines(lines.drop_last(), budget);
        if fitting(lines.drop_last(), budget).0.len() + lines.last().len() + 1 > budget {
            before
        } else {
            before.push(lines.last() + "\n"@)
        }
    }
}

/// A list cut to a budget holds whole lines, and every line is either there or counted
/// among the dropped.
pub proof fn law_what_is_dropped_is_counted(lines: Seq<Seq<char>>, budget: nat)
    ensures
        fitting(lines, budget).0 == text::concat_all(kept_lines(lines, budget)),
        kept_lines(lines, budget).len() + fitting(lines, budget).1 == lines.len(),
        forall|i: int|
            0 <= i < kept_lines(lines, budget).len() ==> exists|j: int|
                0 <= j < lines.len() && #[trigger] kept_lines(lines, budget)[i] == #[trigger] lines[j]
                    + "\n"@,
    decreases lines.len(),
{
    let kept = kept_lines(lines, budget);
    if lines.len() > 0 {
        let first = lines.drop_last();
        let before = kept_lines(first, budget);
        law_what_is_dropped_is_counted(first, budget);
        if kept.len() > before.len() {
            assert(kept.drop_last() =~= before);
            assert(fitting(lines, budget).0 =~= fitting(first, budget).0 + (lines.last()
                + "\n"@));
        }
        assert forall|i: int| 0 <= i < kept.len() implies exists|j: int|
            0 <= j < lines.len() && #[trigger] kept[i] == #[trigger] lines[j] + "\n"@ by {
            if i < before.len() {
                assert(kept[i] == before[i]);
                let j = choose|j: int|
                    0 <= j < first.len() && before[i] == #[trigger] first[j] + "\n"@;
                assert(lines[j] == first[j]);
            } else {
                assert(kept[i] == lines[lines.len() - 1] + "\n"@);
            }
        }
    }
}

proof fn lemma_sorted_out(tables: Seq<TableSchemaView>, wanted: Seq<Seq<char>>)
    ensures
        (sorted_out(tables, wanted, true) + sorted_out(tables, wanted, false)).to_multiset()
            == tables.to_multiset(),
        sorted_out(tables, wanted, true).len() + sorted_out(tables, wanted, false).len()
            == tables.len(),
    decreases tables.len(),
{
    broadcast use vstd::seq_lib::group_to_multiset_ensures;

    let read = sorted_out(tables, wanted, true);
    let rest = sorted_out(tables, wanted, false);
    if tables.len() == 0 {
        assert(read + rest =~= tables);
    } else {
        let first = tables.drop_last();
        lemma_sorted_out(first, wanted);
        let a = sorted_out(first, wanted, true);
        let b = sorted_out(first, wanted, false);
        vstd::seq_lib::lemma_multiset_commutative(a, b);
        vstd::seq_lib::lemma_multiset_commutative(read, rest);
        assert(tables =~= first.push(tables.last()));
        assert((read + rest).to_multiset() =~= (a + b).to_multiset().insert(tables.last()));
    }
}

/// Every table of the snapshot is told of exactly once: with its columns, or as a name.
pub proof fn law_no_table_is_passed_over(ask: AskView, tables: Seq<TableSchemaView>)
    ensures
        ({
            let read = sorted_out(tables, bare_names(ask.tables), true);
            (read.take(detailed(read, ask.max_tables)) + named_only(ask, tables)).to_multiset()
                == tables.to_multiset()
        }),
{
    let wanted = bare_names(ask.tables);
    let read = sorted_out(tables, wanted, true);
    let rest = sorted_out(tables, wanted, false);
    let n = detailed(read, ask.max_tables);
    lemma_sorted_out(tables, wanted);
    assert(read.take(n) + named_only(ask, tables) =~= read + rest);
}

proof fn lemma_cut_ends(text: Seq<char>, budget: nat)
    ensures
        tail_of(text, budget).len() <= budget,
        head_of(text, budget).len() <= budget,
{
    if text.len() > budget {
        let back = text.skip(text.len() - budget);
        let front = text.take(budget as int);
        text::lemma_run(back, text::other_than('\n'));
        text::lemma_run_back(front, text::other_than('\n'));
    }
}

/// The prompt is bounded whatever the schema and whatever the buffer: the four budgets,
/// the fixed words, and the names of the source and the database.
pub proof fn law_a_prompt_is_bounded(ask: AskView)
    requires
        ask.snapshot matches Some(snapshot) ==> snapshot.tables.len() <= u64::MAX,
    ensures
        moving(ask).len() <= DETAIL_CHARS + NAMES_CHARS + PREFIX_CHARS + SUFFIX_CHARS
            + ask.source.len() + ask.database.len() + 300,
{
    lemma_cut_ends(ask.prefix, PREFIX_CHARS as nat);
    lemma_cut_ends(ask.suffix, SUFFIX_CHARS as nat);
    reveal_strlit("-- buffer\n");
    reveal_strlit("<|cursor|>");
    if let Some(snapshot) = ask.snapshot {
        let wanted = bare_names(ask.tables);
        let read = sorted_out(snapshot.tables, wanted, true);
        let n = detailed(read, ask.max_tables);
        lemma_sorted_out(snapshot.tables, wanted);
        reveal_strlit("tables");
        reveal_strlit("\n");
        reveal_strlit(" / ");
        reveal_strlit("-- and ");
        reveal_strlit("-- tables this statement reads, in ");
        reveal_strlit(" more it reads, listed by name below\n");
        reveal_strlit("-- other tables in this database, names only\n");
        text::lemma_decimal_short((read.len() - n) as nat);
        law_a_list_keeps_to_its_budget(
            spelled_all(read.take(n)),
            DETAIL_CHARS as nat,
            "tables"@,
        );
        let others = named_only(ask, snapshot.tables);
        law_a_list_keeps_to_its_budget(qualified_all(others), NAMES_CHARS as nat, "tables"@);
        assert(detail_part(ask, read).len() <= DETAIL_CHARS + ask.source.len()
            + ask.database.len() + 160);
        assert(names_part(others).len() <= NAMES_CHARS + 100);
    }
}

/// What is cut from a buffer is whole lines, where there is a line to cut at, and always
/// the far end of it: what is left of the text before the cursor is its end, and of the
/// text after it its beginning.
pub proof fn law_the_cursor_keeps_its_surroundings(text: Seq<char>, budget: nat)
    ensures
        text::ends_with(text, tail_of(text, budget)),
        text::starts_with(text, head_of(text, budget)),
{
    if text.len() > budget {
        let back = text.skip(text.len() - budget);
        let front = text.take(budget as int);
        text::lemma_run(back, text::other_than('\n'));
        text::lemma_run_back(front, text::other_than('\n'));
        let kept = tail_of(text, budget);
        assert(text.skip(text.len() - kept.len()) =~= kept);
        let first = head_of(text, budget);
        assert(text.take(first.len() as int) =~= first);
    } else {
        assert(text.skip(0) =~= text);
        assert(text.take(text.len() as int) =~= text);
    }
}

/// A name in lower case with nothing to strip from it.
pub open spec fn is_simple(name: Seq<char>) -> bool {
    &&& name.len() > 0
    &&& forall|i: int|
        0 <= i < name.len() ==> 'a' <= (#[trigger] name[i]) <= 'z' || name[i] == '_'
}

proof fn lemma_bare_chars(s: Seq<char>)
    requires
        forall|i: int| 0 <= i < s.len() ==> 'a' <= (#[trigger] s[i]) <= 'z' || s[i] == '_' || s[i]
            == '.',
    ensures
        bare_chars(s) == s,
    decreases s.len(),
{
    if s.len() > 0 {
        lemma_bare_chars(s.drop_last());
        let c = s[s.len() - 1];
        assert(text::lowered(c) == seq![c]);
        assert(s == s.drop_last().push(c));
        assert(s.drop_last() + seq![c] == s.drop_last().push(c));
    }
}

proof fn lemma_bare_name(s: Seq<char>)
    requires
        s.len() > 0,
        forall|i: int| 0 <= i < s.len() ==> 'a' <= (#[trigger] s[i]) <= 'z' || s[i] == '_' || s[i]
            == '.',
    ensures
        bare_name(s) == s,
{
    text::lemma_run_is(s, text::white(), 0);
    assert(s.skip(0) == s);
    text::lemma_run_back_is(s, text::white(), 0);
    assert(s.take(s.len() as int) == s);
    assert(text::trim(s) == s);
    text::lemma_run_back_is(s, text::exactly(';'), 0);
    lemma_bare_chars(s);
}

/// A statement names a table by its own name, or with its schema in front, or with a database
/// before that; a name with another schema in front is another table.
pub proof fn law_a_table_is_named_with_or_without_its_schema(
    table: TableSchemaView,
    database: Seq<char>,
    other: Seq<char>,
)
    requires
        is_simple(table.schema),
        is_simple(table.name),
        is_simple(other),
        other != table.schema,
    ensures
        is_named(table, table.name),
        is_named(table, table.schema + "."@ + table.name),
        is_named(table, database + "."@ + table.schema + "."@ + table.name),
        !is_named(table, other + "."@ + table.name),
        !is_named(table, other) || other == table.name,
{
    reveal_strlit(".");
    let dot = "."@;
    assert(dot == seq!['.']);
    lemma_bare_name(table.schema);
    lemma_bare_name(table.name);
    let full = qualified(table);
    assert(full == table.schema + seq!['.'] + table.name);
    lemma_bare_name(full);
    lemma_tail(table.schema, table.name);
    lemma_no_dot(table.name);
    lemma_no_dot(other);
    text::law_a_cut_takes_one_character(table.name, '.');
    text::law_a_cut_takes_one_character(other, '.');
    let long = database + dot + table.schema + dot + table.name;
    let head = database + dot + table.schema;
    assert(long == head + seq!['.'] + table.name);
    lemma_tail(head, table.name);
    assert(head.skip(head.len() - (dot + table.schema).len()) == dot + table.schema);
    let wrong = other + dot + table.name;
    assert(wrong == other + seq!['.'] + table.name);
    lemma_tail(other, table.name);
    if text::ends_with(other, dot + table.schema) {
        let k = other.len() - (dot + table.schema).len();
        assert(other.skip(k)[0] == other[k]);
        assert(other[k] == '.');
    }
    if wrong == full {
        assert(wrong.len() == full.len());
        assert(other == wrong.take(other.len() as int));
        assert(table.schema == full.take(table.schema.len() as int));
    }
    if other == full {
        assert(other[table.schema.len() as int] == '.');
    }
}

proof fn lemma_no_dot(name: Seq<char>)
    requires
        is_simple(name),
    ensures
        !name.contains('.'),
{
    assert forall|i: int| 0 <= i < name.len() implies name[i] != '.' by {}
}

proof fn lemma_tail(head: Seq<char>, tail: Seq<char>)
    requires
        is_simple(tail),
    ensures
        text::rsplit_once(head + seq!['.'] + tail, '.') == Some((head, tail)),
{
    let s = head + seq!['.'] + tail;
    let f = text::other_than('.');
    assert forall|i: int| s.len() - tail.len() <= i < s.len() implies f(#[trigger] s[i]) by {
        assert(s[i] == tail[i - head.len() - 1]);
    }
    text::lemma_run_back_is(s, f, tail.len() as int);
    assert(s.take(head.len() as int) == head);
    assert(s.skip(head.len() as int + 1) == tail);
}

/// Quotes of any dialect around a name do not matter.
pub proof fn law_quotes_do_not_matter(name: Seq<char>)
    requires
        is_simple(name),
    ensures
        bare_name(seq!['['] + name + seq![']']) == name,
        bare_name(seq!['"'] + name + seq!['"']) == name,
        bare_name(seq!['`'] + name + seq!['`']) == name,
        bare_name(name) == name,
{
    lemma_bare_name(name);
    lemma_between(name, '[', ']');
    lemma_between(name, '"', '"');
    lemma_between(name, '`', '`');
}

proof fn lemma_between(name: Seq<char>, open_mark: char, close_mark: char)
    requires
        is_simple(name),
        is_quoting(open_mark),
        is_quoting(close_mark),
    ensures
        bare_name(seq![open_mark] + name + seq![close_mark]) == name,
{
    let s = seq![open_mark] + name + seq![close_mark];
    text::lemma_run_is(s, text::white(), 0);
    assert(s.skip(0) == s);
    text::lemma_run_back_is(s, text::white(), 0);
    assert(s.take(s.len() as int) == s);
    text::lemma_run_back_is(s, text::exactly(';'), 0);
    assert(s.drop_last() == seq![open_mark] + name);
    lemma_after_mark(name, open_mark);
}

proof fn lemma_after_mark(name: Seq<char>, mark: char)
    requires
        is_quoting(mark),
        forall|i: int|
            0 <= i < name.len() ==> 'a' <= (#[trigger] name[i]) <= 'z' || name[i] == '_',
    ensures
        bare_chars(seq![mark] + name) == name,
    decreases name.len(),
{
    let s = seq![mark] + name;
    if name.len() == 0 {
        assert(s.drop_last() == Seq::<char>::empty());
        assert(bare_chars(s.drop_last()) == Seq::<char>::empty());
        assert(s.last() == mark);
        assert(name == Seq::<char>::empty());
    } else {
        lemma_after_mark(name.drop_last(), mark);
        assert(s.drop_last() == seq![mark] + name.drop_last());
        let c = name[name.len() - 1];
        assert(s.last() == c);
        assert(text::lowered(c) == seq![c]);
        assert(name.drop_last() + seq![c] == name);
    }
}

/// The tables a statement reads are told apart from the others by their names alone.
pub proof fn law_the_tables_a_statement_reads_are_the_named_ones(
    tables: Seq<TableSchemaView>,
    wanted: Seq<Seq<char>>,
    table: TableSchemaView,
)
    ensures
        sorted_out(tables, wanted, true).contains(table) <==> tables.contains(table) && is_read(
            table,
            wanted,
        ),
        sorted_out(tables, wanted, false).contains(table) <==> tables.contains(table) && !is_read(
            table,
            wanted,
        ),
{
    lemma_sorted_has(tables, wanted, true, table);
    lemma_sorted_has(tables, wanted, false, table);
}

proof fn lemma_sorted_has(
    tables: Seq<TableSchemaView>,
    wanted: Seq<Seq<char>>,
    read: bool,
    table: TableSchemaView,
)
    ensures
        sorted_out(tables, wanted, read).contains(table) <==> tables.contains(table) && is_read(
            table,
            wanted,
        ) == read,
    decreases tables.len(),
{
    if tables.len() > 0 {
        let before = tables.drop_last();
        lemma_sorted_has(before, wanted, read, table);
        let kept = sorted_out(before, wanted, read);
        let out = sorted_out(tables, wanted, read);
        if kept.contains(table) {
            let k = kept.index_of(table);
            assert(out[k] == table);
        }
        if before.contains(table) {
            let k = before.index_of(table);
            assert(tables[k] == table);
        }
        if tables.contains(table) && !before.contains(table) {
            let k = tables.index_of(table);
            if k < before.len() {
                assert(before[k] == table);
            }
            if is_read(table, wanted) == read {
                assert(out[out.len() - 1] == table);
            }
        }
        if out.contains(table) && !kept.contains(table) {
            let k = out.index_of(table);
            if k < kept.len() {
                assert(kept[k] == table);
            }
            assert(tables[tables.len() - 1] == table);
        }
    }
}

/// A table is spelled out as its name and every column of it, with its type, and whether it
/// is part of the key.
pub proof fn law_a_table_is_spelled_with_every_column(table: TableSchemaView)
    ensures
        exists|parts: Seq<Seq<char>>|
            {
                &&& parts.len() == table.columns.len()
                &&& forall|i: int|
                    0 <= i < parts.len() ==> #[trigger] parts[i] == (if table.columns[i].is_primary_key {
                        table.columns[i].name + " "@ + table.columns[i].data_type + " PK"@
                    } else {
                        table.columns[i].name + " "@ + table.columns[i].data_type
                    })
                &&& spelled(table) == table.schema + "."@ + table.name + "("@ + #[trigger] text::join(
                    parts,
                    ", "@,
                ) + ")"@
            },
{
    let parts = column_texts(table.columns);
    reveal_strlit("");
    assert forall|i: int| 0 <= i < parts.len() implies #[trigger] parts[i] == (
    if table.columns[i].is_primary_key {
        table.columns[i].name + " "@ + table.columns[i].data_type + " PK"@
    } else {
        table.columns[i].name + " "@ + table.columns[i].data_type
    }) by {
        let c = table.columns[i];
        assert(c.name + " "@ + c.data_type + ""@ == c.name + " "@ + c.data_type);
    }
    assert(spelled(table) == table.schema + "."@ + table.name + "("@ + text::join(parts, ", "@)
        + ")"@);
}

/// What is asked shows the whole buffer with the cursor in it, where the buffer is short
/// enough, behind whatever is said of the schema.
pub proof fn law_a_short_buffer_is_shown_whole(ask: AskView)
    requires
        ask.prefix.len() <= PREFIX_CHARS,
        ask.suffix.len() <= SUFFIX_CHARS,
    ensures
        moving(ask) == schema_part(ask) + "-- buffer\n"@ + ask.prefix + "<|cursor|>"@ + ask.suffix,
        ask.snapshot is None ==> moving(ask) == "-- buffer\n"@ + ask.prefix + "<|cursor|>"@
            + ask.suffix,
{
    if ask.snapshot is None {
        assert(schema_part(ask) + "-- buffer\n"@ == "-- buffer\n"@);
    }
}

/// A list that fits is shown whole, a line for each.
pub proof fn law_a_list_that_fits_is_shown_whole(
    lines: Seq<Seq<char>>,
    budget: nat,
    what: Seq<char>,
)
    requires
        fitting(lines, budget).1 == 0,
    ensures
        cut_to(lines, budget, what) == text::concat_all(
            Seq::new(lines.len(), |i: int| lines[i] + "\n"@),
        ),
{
    law_what_is_dropped_is_counted(lines, budget);
    lemma_nothing_dropped(lines, budget);
}

proof fn lemma_nothing_dropped(lines: Seq<Seq<char>>, budget: nat)
    requires
        fitting(lines, budget).1 == 0,
    ensures
        kept_lines(lines, budget) == Seq::new(lines.len(), |i: int| lines[i] + "\n"@),
    decreases lines.len(),
{
    if lines.len() > 0 {
        lemma_nothing_dropped(lines.drop_last(), budget);
        assert(kept_lines(lines, budget) =~= Seq::new(lines.len(), |i: int| lines[i] + "\n"@));
    } else {
        assert(kept_lines(lines, budget) =~= Seq::new(lines.len(), |i: int| lines[i] + "\n"@));
    }
}

} // verus!
