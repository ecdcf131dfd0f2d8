//! Parsing a federated buffer.
//!
//! A federated buffer declares what it needs, then says what to return.
//!
//! ```text
//! DEFINE
//!     ATTACH pg      = pg-prod/warehouse
//!     IMPORT orders  = mssql-prod/sales AS (
//!         SELECT TOP 1000 order_id, customer_id, unit_price
//!         FROM sales.order_line
//!         WHERE shipped_on >= '2026-01-01'
//!     )
//!     FILES  trips   = taxi/*.parquet
//!     EXCEL  budget  = budgets/2026.xlsx#Forecast
//!
//! EVALUATE
//!     SELECT c.name, sum(o.unit_price) AS total
//!     FROM pg.sales.customer c
//!     JOIN orders o ON o.customer_id = c.id
//!     GROUP BY c.name;
//! ```
//!
//! `EVALUATE` on its own is a federated buffer with nothing declared.

use crate::error::Error;
use crate::text;
use vstd::prelude::*;
use vstd::string::*;

verus! {

/// Something made available to the session before the query runs.
#[derive(Debug, Clone, PartialEq, Eq)]
pub enum Import {
    /// `IMPORT <alias> = <source>[/<database>] AS ( <sql> )`, in that source's own
    /// dialect.
    Query { alias: String, source: String, database: Option<String>, sql: String },
    /// `FILES <alias> = <folder source>/<path or glob>`. The pattern is relative to
    /// the source's path, and empty when the source is itself a single file.
    Files { alias: String, source: String, pattern: String },
    /// `EXCEL <alias> = <path>[#<sheet>]`
    Excel { alias: String, path: String, sheet: Option<String> },
    /// `ATTACH <alias> = <source>[/<database>]`: a whole server. The alias is a
    /// catalogue, not a table.
    Attach { alias: String, source: String, database: Option<String> },
}

/// The value of an [`Import`].
pub enum ImportView {
    Query { alias: Seq<char>, source: Seq<char>, database: Option<Seq<char>>, sql: Seq<char> },
    Files { alias: Seq<char>, source: Seq<char>, pattern: Seq<char> },
    Excel { alias: Seq<char>, path: Seq<char>, sheet: Option<Seq<char>> },
    Attach { alias: Seq<char>, source: Seq<char>, database: Option<Seq<char>> },
}

impl View for Import {
    type V = ImportView;

    open spec fn view(&self) -> ImportView {
        match *self {
            Import::Query { alias, source, database, sql } => ImportView::Query {
                alias: alias@,
                source: source@,
                database: text::opt(database),
                sql: sql@,
            },
            Import::Files { alias, source, pattern } => ImportView::Files {
                alias: alias@,
                source: source@,
                pattern: pattern@,
            },
            Import::Excel { alias, path, sheet } => ImportView::Excel {
                alias: alias@,
                path: path@,
                sheet: text::opt(sheet),
            },
            Import::Attach { alias, source, database } => ImportView::Attach {
                alias: alias@,
                source: source@,
                database: text::opt(database),
            },
        }
    }
}

impl ImportView {
    /// The name the declaration claims.
    pub open spec fn alias(self) -> Seq<char> {
        match self {
            ImportView::Query { alias, .. } => alias,
            ImportView::Files { alias, .. } => alias,
            ImportView::Excel { alias, .. } => alias,
            ImportView::Attach { alias, .. } => alias,
        }
    }
}

impl Import {
    pub fn alias(&self) -> (r: &str)
        ensures
            r@ == self@.alias(),
    {
        match self {
            Import::Query { alias, .. } => alias.as_str(),
            Import::Files { alias, .. } => alias.as_str(),
            Import::Excel { alias, .. } => alias.as_str(),
            Import::Attach { alias, .. } => alias.as_str(),
        }
    }
}

/// A parsed buffer: what to make available, and what to run.
#[derive(Debug, Clone, PartialEq, Eq)]
pub struct Program {
    pub imports: Vec<Import>,
    /// The `EVALUATE` body, preceded by a blank line for every line the
    /// declarations took up, so a reported line number is the one in the editor.
    pub sql: String,
}

/// The value of a [`Program`].
pub struct ProgramView {
    pub imports: Seq<ImportView>,
    pub sql: Seq<char>,
}

pub open spec fn import_views(v: Seq<Import>) -> Seq<ImportView> {
    Seq::new(v.len(), |i: int| v[i]@)
}

impl View for Program {
    type V = ProgramView;

    open spec fn view(&self) -> ProgramView {
        ProgramView { imports: import_views(self.imports@), sql: self.sql@ }
    }
}

// --------------------------------------------------------------------- grammar

/// What follows a line comment: the rest of the line and its end.
pub open spec fn line_comment(s: Seq<char>) -> nat {
    let n = text::position(s, '\n');
    if n < s.len() {
        n + 1
    } else {
        s.len()
    }
}

/// A block comment with its close, or everything where it has none.
pub open spec fn block_comment(s: Seq<char>) -> nat {
    match text::find(s, "*/"@) {
        Some(n) => n + 2,
        None => s.len(),
    }
}

pub open spec fn at_line_comment(s: Seq<char>) -> bool {
    text::starts_with(s, "--"@)
}

pub open spec fn at_block_comment(s: Seq<char>) -> bool {
    text::starts_with(s, "/*"@)
}

/// How much white space and how many comments stand at the front.
pub open spec fn trivia(s: Seq<char>) -> nat
    decreases s.len(),
{
    let n = text::run(s, text::white());
    let t = s.skip(n as int);
    if at_line_comment(t) {
        proof {
            lemma_comments(s);
        }
        n + line_comment(t) + trivia(t.skip(line_comment(t) as int))
    } else if at_block_comment(t) {
        proof {
            lemma_comments(s);
        }
        n + block_comment(t) + trivia(t.skip(block_comment(t) as int))
    } else {
        n
    }
}

pub proof fn lemma_comments(s: Seq<char>)
    ensures
        ({
            let n = text::run(s, text::white());
            let t = s.skip(n as int);
            &&& n <= s.len()
            &&& at_line_comment(t) ==> 0 < line_comment(t) <= t.len()
            &&& at_block_comment(t) ==> 0 < block_comment(t) <= t.len()
        }),
{
    reveal_strlit("--");
    reveal_strlit("/*");
    reveal_strlit("*/");
    text::lemma_run(s, text::white());
    let t = s.skip(text::run(s, text::white()) as int);
    text::lemma_run(t, text::other_than('\n'));
    text::lemma_find(t, "*/"@);
}

pub proof fn lemma_trivia(s: Seq<char>)
    ensures
        trivia(s) <= s.len(),
    decreases s.len(),
{
    let n = text::run(s, text::white());
    let t = s.skip(n as int);
    lemma_comments(s);
    if at_line_comment(t) {
        lemma_trivia(t.skip(line_comment(t) as int));
    } else if at_block_comment(t) {
        lemma_trivia(t.skip(block_comment(t) as int));
    }
}

/// A character of a bare word.
pub open spec fn word_char() -> spec_fn(char) -> bool {
    |c: char| text::is_alphanumeric(c) || c == '_'
}

/// How long the bare word at the front is.
pub open spec fn word(s: Seq<char>) -> nat {
    text::run(s, word_char())
}

/// The bare word at the front, lowercased, if there is one.
pub open spec fn peek(s: Seq<char>) -> Option<Seq<char>> {
    if word(s) == 0 {
        None
    } else {
        Some(text::lowercase(s.take(word(s) as int)))
    }
}

/// Horizontal white space.
pub open spec fn spaces() -> spec_fn(char) -> bool {
    |c: char| c == ' ' || c == '\t'
}

/// `<source>[/<database>]`: the last `/` separates the database.
pub open spec fn target_of(target: Seq<char>) -> (Seq<char>, Option<Seq<char>>) {
    match text::rsplit_once(target, '/') {
        Some((source, database)) => (text::trim(source), Some(text::trim(database))),
        None => (text::trim(target), None),
    }
}

/// What a target must say, or the complaint that it does not.
pub open spec fn checked_target(target: Seq<char>, alias: Seq<char>) -> Result<
    (Seq<char>, Option<Seq<char>>),
    Seq<char>,
> {
    if target_of(target).0.len() == 0 {
        Err(alias + ": no source given"@)
    } else {
        Ok(target_of(target))
    }
}

/// `<folder source>/<path or glob>`: the first `/` separates the pattern.
pub open spec fn files_of(target: Seq<char>) -> (Seq<char>, Seq<char>) {
    match text::split_once(target, '/') {
        Some((source, pattern)) => (text::trim(source), text::trim(pattern)),
        None => (text::trim(target), Seq::empty()),
    }
}

/// A pattern that could reach outside the directory it is resolved against.
pub open spec fn climbs(pattern: Seq<char>) -> bool {
    text::starts_with(pattern, "/"@) || text::starts_with(pattern, "\\"@) || text::contains(
        pattern,
        ".."@,
    )
}

pub open spec fn files_import(alias: Seq<char>, target: Seq<char>) -> Result<
    ImportView,
    Seq<char>,
> {
    let (source, pattern) = files_of(target);
    if source.len() == 0 {
        Err("FILES "@ + alias + ": no source given"@)
    } else if climbs(pattern) {
        Err(
            "FILES "@ + alias + ": `"@ + pattern
                + "` must stay inside the source — no `..`, no absolute path"@,
        )
    } else {
        Ok(ImportView::Files { alias, source, pattern })
    }
}

/// `<path>[#<sheet>]`
pub open spec fn excel_import(alias: Seq<char>, target: Seq<char>) -> Result<
    ImportView,
    Seq<char>,
> {
    if target.len() == 0 {
        Err("EXCEL "@ + alias + ": no path given"@)
    } else {
        Ok(
            match text::split_once(target, '#') {
                Some((path, sheet)) => ImportView::Excel {
                    alias,
                    path: text::trim(path),
                    sheet: Some(text::trim(sheet)),
                },
                None => ImportView::Excel { alias, path: target, sheet: None },
            },
        )
    }
}

/// A name that needs no quoting in SQL: letters, digits and underscores, not
/// beginning with a digit.
pub open spec fn usable_name(alias: Seq<char>) -> bool {
    &&& alias.len() > 0
    &&& !text::is_ascii_digit(alias[0])
    &&& forall|i: int| 0 <= i < alias.len() ==> name_char(#[trigger] alias[i])
}

/// Such a name in lower case.
pub open spec fn small_name(alias: Seq<char>) -> bool {
    usable_name(alias) && text::no_capitals(alias)
}

pub open spec fn small_names(imports: Seq<ImportView>) -> bool {
    forall|i: int| 0 <= i < imports.len() ==> small_name((#[trigger] imports[i]).alias())
}

pub open spec fn name_char(c: char) -> bool {
    text::is_ascii_letter(c) || text::is_ascii_digit(c) || c == '_'
}

/// What is wrong with a name, if anything.
pub open spec fn name_problem(alias: Seq<char>) -> Option<Seq<char>> {
    if alias.len() == 0 {
        Some("a declaration needs a name"@)
    } else if !usable_name(alias) {
        Some(
            "`"@ + alias
                + "` is not a usable name — letters, digits and underscore, not starting with a digit"@,
        )
    } else {
        None
    }
}

/// Whether the keyword `AS` stands at `k`, as a whole word.
pub open spec fn as_at(s: Seq<char>, k: int) -> bool {
    &&& 0 < k
    &&& k + 2 <= s.len()
    &&& text::same_but_case(s.subrange(k, k + 2), "as"@)
    &&& text::is_white(s[k - 1])
    &&& k + 2 < s.len() ==> text::is_white(s[k + 2]) || s[k + 2] == '('
}

/// The first place at or after `k` where the keyword `AS` stands.
pub open spec fn first_as(s: Seq<char>, k: nat) -> Option<nat>
    decreases s.len() - k,
{
    if k >= s.len() {
        None
    } else if as_at(s, k as int) {
        Some(k)
    } else {
        first_as(s, k + 1)
    }
}

/// Where what opens at `at` ends, when `close` closes it.
pub open spec fn quote_end(s: Seq<char>, at: nat, close: char) -> nat {
    let n = text::position(s.skip(at as int + 1), close);
    if at + 1 + n < s.len() {
        at + n + 2
    } else {
        s.len()
    }
}

/// Where the token that begins at `at` ends. A quoted string, a quoted identifier
/// and a comment are one token each, whatever they hold; anything else is one
/// character. What is never closed runs to the end.
pub open spec fn token_end(s: Seq<char>, at: nat) -> nat {
    let c = s[at as int];
    let rest = s.skip(at as int);
    if c == '\'' || c == '"' || c == '`' {
        quote_end(s, at, c)
    } else if c == '[' {
        quote_end(s, at, ']')
    } else if at_line_comment(rest) {
        at + text::position(rest, '\n')
    } else if at_block_comment(rest) {
        at + block_comment(rest)
    } else {
        at + 1
    }
}

pub proof fn lemma_token_end(s: Seq<char>, at: nat)
    requires
        at < s.len(),
    ensures
        at < token_end(s, at) <= s.len(),
{
    reveal_strlit("--");
    reveal_strlit("/*");
    reveal_strlit("*/");
    let c = s[at as int];
    let rest = s.skip(at as int);
    let inside = s.skip(at as int + 1);
    text::lemma_run(inside, text::other_than(c));
    text::lemma_run(inside, text::other_than(']'));
    text::lemma_run(rest, text::other_than('\n'));
    text::lemma_find(rest, "*/"@);
    if at_line_comment(rest) {
        assert(rest.take(2)[0] == '-');
        if text::position(rest, '\n') == 0 {
            assert(rest[0] == '\n');
        }
    }
}

/// Where the bracket that closes `depth` open ones ends, reading from `at`.
/// Brackets inside quotes and comments do not count.
pub open spec fn closing(s: Seq<char>, at: nat, depth: nat) -> Option<nat>
    decreases s.len() - at,
{
    if at >= s.len() {
        None
    } else {
        proof {
            lemma_token_end(s, at);
        }
        let end = token_end(s, at);
        if s[at as int] == '(' {
            closing(s, end, depth + 1)
        } else if s[at as int] == ')' {
            if depth <= 1 {
                Some(end)
            } else {
                closing(s, end, (depth - 1) as nat)
            }
        } else {
            closing(s, end, depth)
        }
    }
}

pub proof fn lemma_closing(s: Seq<char>, at: nat, depth: nat)
    ensures
        closing(s, at, depth) matches Some(end) ==> at < end <= s.len() && s[end - 1] == ')',
    decreases s.len() - at,
{
    if at < s.len() {
        lemma_token_end(s, at);
        let end = token_end(s, at);
        let c = s[at as int];
        if c == '(' {
            lemma_closing(s, end, depth + 1);
        } else if c == ')' {
            if depth > 1 {
                lemma_closing(s, end, (depth - 1) as nat);
            } else {
                lemma_one_char(s, at);
            }
        } else {
            lemma_closing(s, end, depth);
        }
    }
}

/// A bracket is a token of one character.
proof fn lemma_one_char(s: Seq<char>, at: nat)
    requires
        at < s.len(),
        s[at as int] == '(' || s[at as int] == ')',
    ensures
        token_end(s, at) == at + 1,
{
    reveal_strlit("--");
    reveal_strlit("/*");
    let rest = s.skip(at as int);
    assert(rest[0] == s[at as int]);
    if at_line_comment(rest) {
        assert(rest.take(2)[0] == '-');
    }
    if at_block_comment(rest) {
        assert(rest.take(2)[0] == '/');
    }
}

/// The text inside a balanced `( … )`, trimmed, and how much was read to get it.
pub open spec fn parenthesised(s: Seq<char>, alias: Seq<char>) -> Result<
    (Seq<char>, nat),
    Seq<char>,
> {
    let n = trivia(s);
    let rest = s.skip(n as int);
    if rest.len() == 0 || rest[0] != '(' {
        Err("IMPORT "@ + alias + ": expected `(` after AS"@)
    } else {
        match closing(rest, 0, 0) {
            Some(end) => Ok((text::trim(rest.subrange(1, end - 1)), n + end)),
            None => Err("IMPORT "@ + alias + ": the `(` after AS is never closed"@),
        }
    }
}

pub open spec fn query_import(s: Seq<char>, alias: Seq<char>) -> Result<
    (ImportView, nat),
    Seq<char>,
> {
    match first_as(s, 0) {
        None => Err(
            "IMPORT "@ + alias + ": expected `AS ( … )` with the SQL to run on the source"@,
        ),
        Some(k) => match checked_target(text::trim(s.take(k as int)), alias) {
            Err(m) => Err(m),
            Ok((source, database)) => match parenthesised(s.skip(k as int + 2), alias) {
                Err(m) => Err(m),
                Ok((sql, n)) => if text::trim(sql).len() == 0 {
                    Err("IMPORT "@ + alias + ": no SQL given"@)
                } else {
                    Ok((ImportView::Query { alias, source, database, sql }, k + 2 + n))
                },
            },
        },
    }
}

/// What follows the `=` of a declaration: the import it makes, and how much of the
/// text it takes up.
pub open spec fn value_of(kind: Seq<char>, alias: Seq<char>, s: Seq<char>) -> Result<
    (ImportView, nat),
    Seq<char>,
> {
    let n = text::position(s, '\n');
    let line = text::trim(s.take(n as int));
    if kind == "attach"@ {
        match checked_target(line, alias) {
            Ok((source, database)) => Ok((ImportView::Attach { alias, source, database }, n)),
            Err(m) => Err(m),
        }
    } else if kind == "import"@ {
        query_import(s, alias)
    } else if kind == "files"@ {
        match files_import(alias, line) {
            Ok(import) => Ok((import, n)),
            Err(m) => Err(m),
        }
    } else if kind == "excel"@ {
        match excel_import(alias, line) {
            Ok(import) => Ok((import, n)),
            Err(m) => Err(m),
        }
    } else {
        Err(
            "`"@ + kind
                + "` is not something that can be declared — use ATTACH, IMPORT, FILES or EXCEL"@,
        )
    }
}

/// Where the name of a declaration begins.
pub open spec fn name_start(s: Seq<char>) -> nat {
    word(s) + trivia(s.skip(word(s) as int))
}

/// The name a declaration claims, lowercased.
pub open spec fn name_of(s: Seq<char>) -> Seq<char> {
    match peek(s.skip(name_start(s) as int)) {
        Some(w) => w,
        None => Seq::empty(),
    }
}

/// Where the `=` of a declaration is looked for.
pub open spec fn equals_at(s: Seq<char>) -> nat {
    let c = name_start(s) + word(s.skip(name_start(s) as int));
    c + trivia(s.skip(c as int))
}

/// Where the value of a declaration begins.
pub open spec fn value_at(s: Seq<char>) -> nat {
    let d = equals_at(s) + 1;
    d + text::run(s.skip(d as int), spaces())
}

/// One declaration, `<KIND> <alias> = <value>`, and how much of the text it takes.
pub open spec fn declaration(s: Seq<char>) -> Result<(ImportView, nat), Seq<char>> {
    match peek(s) {
        None => Err(
            "expected ATTACH, IMPORT, FILES or EXCEL, found `"@ + s.take(
                if s.len() < 20 {
                    s.len() as int
                } else {
                    20
                },
            ) + "`"@,
        ),
        Some(kind) => match name_problem(name_of(s)) {
            Some(m) => Err(m),
            None => if equals_at(s) >= s.len() || s[equals_at(s) as int] != '=' {
                Err(kind + " "@ + name_of(s) + ": expected `=` after the name"@)
            } else {
                match value_of(kind, name_of(s), s.skip(value_at(s) as int)) {
                    Ok((import, n)) => Ok((import, value_at(s) + n)),
                    Err(m) => Err(m),
                }
            },
        },
    }
}

/// The 1-based line that position `at` is on.
pub open spec fn line_at(s: Seq<char>, at: nat) -> nat {
    text::count(s.take(at as int), '\n') + 1
}

/// A complaint with the line it is about.
pub open spec fn on_line(line: nat, message: Seq<char>) -> Seq<char> {
    "line "@ + text::decimal(line) + ": "@ + message
}

/// A keyword that begins a declaration.
pub open spec fn is_kind(w: Seq<char>) -> bool {
    w == "attach"@ || w == "import"@ || w == "files"@ || w == "excel"@
}

pub open spec fn claims(imports: Seq<ImportView>, alias: Seq<char>) -> bool {
    exists|i: int| 0 <= i < imports.len() && (#[trigger] imports[i]).alias() == alias
}

/// The declarations from `at` on, after those `taken` already, and where the first
/// thing that is not one stands.
pub open spec fn declarations(s: Seq<char>, at: nat, taken: Seq<ImportView>) -> Result<
    (Seq<ImportView>, nat),
    Seq<char>,
>
    decreases s.len() - at,
{
    let b = at + trivia(s.skip(at as int));
    match peek(s.skip(b as int)) {
        None => Ok((taken, b)),
        Some(w) => if at > s.len() || !is_kind(w) {
            Ok((taken, b))
        } else {
            match declaration(s.skip(b as int)) {
                Err(m) => Err(on_line(line_at(s, b), m)),
                Ok((import, n)) => if claims(taken, import.alias()) {
                    Err(
                        on_line(
                            line_at(s, b),
                            "`"@ + import.alias()
                                + "` is already declared — each name is claimed once"@,
                        ),
                    )
                } else {
                    proof {
                        lemma_trivia(s.skip(at as int));
                        lemma_declaration(s.skip(b as int));
                    }
                    declarations(s, b + n, taken.push(import))
                },
            }
        },
    }
}

proof fn lemma_word(s: Seq<char>)
    ensures
        word(s) <= s.len(),
{
    text::lemma_run(s, word_char());
}

proof fn lemma_first_as(s: Seq<char>, k: nat)
    ensures
        first_as(s, k) matches Some(n) ==> k <= n && as_at(s, n as int),
    decreases s.len() - k,
{
    if k < s.len() && !as_at(s, k as int) {
        lemma_first_as(s, k + 1);
    }
}

pub proof fn lemma_parenthesised(s: Seq<char>, alias: Seq<char>)
    ensures
        parenthesised(s, alias) matches Ok((sql, n)) ==> 0 < n <= s.len(),
{
    lemma_trivia(s);
    lemma_closing(s.skip(trivia(s) as int), 0, 0);
}

proof fn lemma_value_of(kind: Seq<char>, alias: Seq<char>, s: Seq<char>)
    ensures
        value_of(kind, alias, s) matches Ok((import, n)) ==> n <= s.len() && import.alias()
            == alias,
{
    text::lemma_run(s, text::other_than('\n'));
    lemma_first_as(s, 0);
    if let Some(k) = first_as(s, 0) {
        lemma_parenthesised(s.skip(k as int + 2), alias);
    }
}

/// A declaration is never empty, stays within the text, and claims a usable name.
pub proof fn lemma_declaration(s: Seq<char>)
    ensures
        declaration(s) matches Ok((import, n)) ==> 0 < n <= s.len() && import.alias() == name_of(
            s,
        ) && usable_name(import.alias()),
{
    lemma_word(s);
    lemma_trivia(s.skip(word(s) as int));
    let b = name_start(s);
    lemma_word(s.skip(b as int));
    let c = b + word(s.skip(b as int));
    lemma_trivia(s.skip(c as int));
    let d = equals_at(s) + 1;
    if equals_at(s) < s.len() {
        text::lemma_run(s.skip(d as int), spaces());
        if let Some(kind) = peek(s) {
            lemma_value_of(kind, name_of(s), s.skip(value_at(s) as int));
        }
    }
}

/// Where reading stops after the declarations, or what is wrong with them.
pub open spec fn preamble(s: Seq<char>) -> Result<(Seq<ImportView>, nat), Seq<char>> {
    let a = trivia(s);
    match peek(s.skip(a as int)) {
        Some(w) => if w == "define"@ {
            declarations(s, a + word(s.skip(a as int)), Seq::empty())
        } else if w == "evaluate"@ {
            Ok((Seq::empty(), a))
        } else {
            Err("a federated buffer starts with DEFINE or EVALUATE"@)
        },
        None => Err("a federated buffer starts with DEFINE or EVALUATE"@),
    }
}

/// Whether the first thing in a buffer is `DEFINE` or `EVALUATE`.
pub open spec fn federated(s: Seq<char>) -> bool {
    peek(s.skip(trivia(s) as int)) == Some("define"@) || peek(s.skip(trivia(s) as int)) == Some(
        "evaluate"@,
    )
}

/// What follows `at`, with a blank line for each line before it.
pub open spec fn padded(s: Seq<char>, at: nat) -> Seq<char> {
    text::repeat('\n', text::count(s.take(at as int), '\n')) + s.skip(at as int)
}

/// What a buffer means, or what is wrong with it.
pub open spec fn program_of(s: Seq<char>) -> Result<ProgramView, Seq<char>> {
    match preamble(s) {
        Err(m) => Err(m),
        Ok((imports, at)) => {
            let b = at + trivia(s.skip(at as int));
            let found = peek(s.skip(b as int));
            if found != Some("evaluate"@) {
                Err(
                    "line "@ + text::decimal(line_at(s, b))
                        + ": expected another declaration or EVALUATE, found `"@ + (match found {
                        Some(w) => w,
                        None => "the end of the buffer"@,
                    })
                        + "` — EVALUATE says what to return, and a declaration is one of ATTACH, IMPORT, FILES, EXCEL"@,
                )
            } else {
                let sql = padded(s, (b + word(s.skip(b as int))) as nat);
                if text::trim(sql).len() == 0 {
                    Err("EVALUATE needs a query after it"@)
                } else {
                    Ok(ProgramView { imports, sql })
                }
            }
        },
    }
}

// --------------------------------------------------------------------- reading

/// A reader over the buffer that knows where SQL hides its punctuation.
struct Scanner {
    text: Vec<char>,
    at: usize,
}

impl Scanner {
    spec fn wf(&self) -> bool {
        self.at <= self.text.len()
    }

    /// What is still to be read.
    spec fn left(&self) -> Seq<char> {
        self.text@.skip(self.at as int)
    }

    /// `self` is `before`, moved on by `n` characters.
    spec fn moved(&self, before: &Scanner, n: nat) -> bool {
        &&& self.wf()
        &&& self.text == before.text
        &&& self.at == before.at + n
    }

    fn new(buffer: &str) -> (r: Self)
        ensures
            r.wf(),
            r.text@ == buffer@,
            r.at == 0,
    {
        Scanner { text: text::chars_of(buffer), at: 0 }
    }

    /// The 1-based line the reader is on, for an error that has to point at it.
    fn line(&self) -> (r: u128)
        requires
            self.wf(),
        ensures
            r == line_at(self.text@, self.at as nat),
    {
        text::count_before(&self.text, self.at, '\n') as u128 + 1
    }

    /// White space and comments.
    fn trivia(&mut self)
        requires
            old(self).wf(),
        ensures
            final(self).moved(old(self), trivia(old(self).left())),
    {
        let ghost start = *self;
        let ghost mut done: nat = 0;
        loop
            invariant
                self.wf(),
                start == *old(self),
                self.text == start.text,
                self.at == start.at + done,
                trivia(start.left()) == done + trivia(self.left()),
            decreases self.text.len() - self.at,
        {
            let ghost here = self.left();
            let n = text::white_from(&self.text, self.at);
            let at = self.at + n;
            let ghost t = here.skip(n as int);
            proof {
                lemma_comments(here);
                assert(t == self.text@.skip(at as int));
                reveal_strlit("*/");
            }
            if text::stands_at(&self.text, at, "--") {
                let m = text::position_from(&self.text, at, '\n');
                let m: usize = if at + m < self.text.len() {
                    m + 1
                } else {
                    m
                };
                self.at = at + m;
                proof {
                    assert(self.left() == t.skip(line_comment(t) as int));
                    done = done + n as nat + m as nat;
                }
            } else if text::stands_at(&self.text, at, "/*") {
                let m: usize = match text::find_from(&self.text, at, "*/") {
                    Some(k) => k + 2,
                    None => self.text.len() - at,
                };
                self.at = at + m;
                proof {
                    assert(self.left() == t.skip(block_comment(t) as int));
                    done = done + n as nat + m as nat;
                }
            } else {
                self.at = at;
                return;
            }
        }
    }

    /// Horizontal white space only: the kind that does not end a declaration.
    fn spaces(&mut self)
        requires
            old(self).wf(),
        ensures
            final(self).moved(old(self), text::run(old(self).left(), spaces())),
    {
        let ghost s = self.left();
        let from = self.at;
        let mut i: usize = self.at;
        while i < self.text.len() && (self.text[i] == ' ' || self.text[i] == '\t')
            invariant
                from <= i <= self.text.len(),
                s == self.text@.skip(from as int),
                forall|j: int| 0 <= j < i - from ==> spaces()(#[trigger] s[j]),
            decreases self.text.len() - i,
        {
            assert(s[i - from] == self.text@[i as int]);
            i = i + 1;
        }
        proof {
            if i < self.text.len() {
                assert(s[i - from] == self.text@[i as int]);
            }
            text::lemma_run_is(s, spaces(), i - from);
        }
        self.at = i;
    }

    /// How long the bare word here is.
    fn word(&self) -> (n: usize)
        requires
            self.wf(),
        ensures
            n == word(self.left()),
            self.at + n <= self.text.len(),
    {
        let ghost s = self.left();
        let mut i: usize = self.at;
        while i < self.text.len() && (text::alphanumeric_char(self.text[i]) || self.text[i]
            == '_')
            invariant
                self.at <= i <= self.text.len(),
                s == self.text@.skip(self.at as int),
                forall|j: int| 0 <= j < i - self.at ==> word_char()(#[trigger] s[j]),
            decreases self.text.len() - i,
        {
            assert(s[i - self.at] == self.text@[i as int]);
            i = i + 1;
        }
        proof {
            if i < self.text.len() {
                assert(s[i - self.at] == self.text@[i as int]);
            }
            text::lemma_run_is(s, word_char(), i - self.at);
        }
        i - self.at
    }

    /// The next bare word, lowercased, without consuming it.
    fn peek_word(&self) -> (r: Option<String>)
        requires
            self.wf(),
        ensures
            text::opt(r) == peek(self.left()),
            r matches Some(w) ==> text::no_capitals(w@),
    {
        let n = self.word();
        if n == 0 {
            return None;
        }
        let w = text::slice(&self.text, self.at, self.at + n);
        assert(w@ == self.left().take(n as int));
        Some(text::to_lowercase(&w))
    }

    fn take_word(&mut self) -> (r: Option<String>)
        requires
            old(self).wf(),
        ensures
            text::opt(r) == peek(old(self).left()),
            r matches Some(w) ==> text::no_capitals(w@),
            final(self).moved(old(self), word(old(self).left())),
    {
        let r = self.peek_word();
        let n = self.word();
        self.at = self.at + n;
        r
    }

    /// Up to the end of the line, trimmed.
    fn rest_of_line(&mut self) -> (r: String)
        requires
            old(self).wf(),
        ensures
            ({
                let n = text::position(old(self).left(), '\n');
                &&& r@ == text::trim(old(self).left().take(n as int))
                &&& final(self).moved(old(self), n)
            }),
    {
        let n = text::position_from(&self.text, self.at, '\n');
        let r = text::trimmed_slice(&self.text, self.at, self.at + n);
        assert(self.text@.subrange(self.at as int, self.at + n) == self.left().take(n as int));
        self.at = self.at + n;
        r
    }

    /// One declaration: `<KIND> <alias> = <value>`, and for `IMPORT` the
    /// parenthesised SQL after `AS`.
    fn declaration(&mut self) -> (r: Result<Import, Error>)
        requires
            old(self).wf(),
        ensures
            final(self).wf(),
            final(self).text == old(self).text,
            match r {
                Ok(import) => declaration(old(self).left()) == Ok::<
                    (ImportView, nat),
                    Seq<char>,
                >((import@, (final(self).at - old(self).at) as nat)) && final(self).at >= old(
                    self,
                ).at && small_name(import@.alias()),
                Err(e) => e matches Error::BadRequest(m) && declaration(old(self).left()) == Err::<
                    (ImportView, nat),
                    Seq<char>,
                >(m@),
            },
    {
        let ghost s = self.left();
        let ghost start = self.at as int;
        let Some(kind) = self.take_word() else {
            proof {
                assert(self.left() == s);
            }
            let n: usize = if self.text.len() - self.at < 20 {
                self.text.len() - self.at
            } else {
                20
            };
            let found = text::slice(&self.text, self.at, self.at + n);
            assert(found@ == s.take(n as int));
            return Err(
                Error::BadRequest(
                    "expected ATTACH, IMPORT, FILES or EXCEL, found `".to_owned().concat(
                        &found,
                    ).concat("`"),
                ),
            );
        };
        assert(self.left() == s.skip(word(s) as int));
        self.trivia();
        assert(self.left() == s.skip(name_start(s) as int));
        let alias = match self.take_word() {
            Some(w) => w,
            None => String::new(),
        };
        assert(alias@ == name_of(s));
        proof {
            lemma_declaration(s);
        }
        if let Err(e) = check_alias(&alias) {
            return Err(e);
        }
        proof {
            let c = name_start(s) + word(s.skip(name_start(s) as int));
            assert(self.left() == s.skip(c as int));
        }
        self.trivia();
        assert(self.at == start + equals_at(s));
        if self.at >= self.text.len() || self.text[self.at] != '=' {
            return Err(
                Error::BadRequest(
                    kind.concat(" ").concat(&alias).concat(": expected `=` after the name"),
                ),
            );
        }
        self.at = self.at + 1;
        assert(self.left() == s.skip(equals_at(s) as int + 1));
        // Spaces, not trivia: a value lives on the line its name is on.
        self.spaces();
        assert(self.left() == s.skip(value_at(s) as int));

        if text::same(&kind, "attach") {
            let line = self.rest_of_line();
            match split_target(&line, &alias) {
                Ok((source, database)) => Ok(Import::Attach { alias, source, database }),
                Err(e) => Err(e),
            }
        } else if text::same(&kind, "import") {
            self.query(alias)
        } else if text::same(&kind, "files") {
            let line = self.rest_of_line();
            parse_files(alias, &line)
        } else if text::same(&kind, "excel") {
            let line = self.rest_of_line();
            parse_excel(alias, &line)
        } else {
            Err(
                Error::BadRequest(
                    "`".to_owned().concat(&kind).concat(
                        "` is not something that can be declared — use ATTACH, IMPORT, FILES or EXCEL",
                    ),
                ),
            )
        }
    }

    /// The value of an `IMPORT`: a target, `AS`, and the SQL in brackets.
    fn query(&mut self, alias: String) -> (r: Result<Import, Error>)
        requires
            old(self).wf(),
        ensures
            final(self).wf(),
            final(self).text == old(self).text,
            match r {
                Ok(import) => query_import(old(self).left(), alias@) == Ok::<
                    (ImportView, nat),
                    Seq<char>,
                >((import@, (final(self).at - old(self).at) as nat)) && final(self).at >= old(
                    self,
                ).at,
                Err(e) => e matches Error::BadRequest(m) && query_import(old(self).left(), alias@)
                    == Err::<(ImportView, nat), Seq<char>>(m@),
            },
    {
        let ghost s = self.left();
        let target = match self.until_as(&alias) {
            Ok(t) => t,
            Err(e) => return Err(e),
        };
        let (source, database) = match split_target(&target, &alias) {
            Ok(p) => p,
            Err(e) => return Err(e),
        };
        proof {
            let k = first_as(s, 0).unwrap();
            assert(self.left() == s.skip(k as int + 2));
        }
        let sql = match self.parenthesised(&alias) {
            Ok(t) => t,
            Err(e) => return Err(e),
        };
        if text::blank(&sql) {
            return Err(
                Error::BadRequest("IMPORT ".to_owned().concat(&alias).concat(": no SQL given")),
            );
        }
        Ok(Import::Query { alias, source, database, sql })
    }

    /// Everything up to the keyword `AS`, which introduces the SQL.
    fn until_as(&mut self, alias: &str) -> (r: Result<String, Error>)
        requires
            old(self).wf(),
        ensures
            final(self).text == old(self).text,
            final(self).wf(),
            match r {
                Ok(target) => {
                    &&& first_as(old(self).left(), 0) matches Some(k)
                    &&& target@ == text::trim(old(self).left().take(k as int))
                    &&& final(self).moved(old(self), k + 2)
                },
                Err(e) => {
                    &&& first_as(old(self).left(), 0) is None
                    &&& e matches Error::BadRequest(m)
                    &&& m@ == "IMPORT "@ + alias@
                        + ": expected `AS ( … )` with the SQL to run on the source"@
                },
            },
    {
        let ghost s = self.left();
        let from = self.at;
        let mut at: usize = self.at;
        while at < self.text.len()
            invariant
                from <= at <= self.text.len(),
                from == self.at,
                *self == *old(self),
                s == self.text@.skip(from as int),
                first_as(s, 0) == first_as(s, (at - from) as nat),
            decreases self.text.len() - at,
        {
            // A whole word, so a source called `last` does not end the target.
            let ghost k = at - from;
            let mut here = false;
            if at > from && self.text.len() - at >= 2 && text::white_char(self.text[at - 1]) {
                assert(s[k - 1] == self.text@[at - 1]);
                let w = text::slice(&self.text, at, at + 2);
                assert(w@ == s.subrange(k, k + 2));
                if text::eq_ignore_case(&w, "as") {
                    if at + 2 == self.text.len() {
                        here = true;
                    } else {
                        let c = self.text[at + 2];
                        assert(s[k + 2] == c);
                        here = text::white_char(c) || c == '(';
                    }
                }
            } else if at > from {
                assert(s[k - 1] == self.text@[at - 1]);
            }
            assert(here == as_at(s, k));
            if here {
                let target = text::trimmed_slice(&self.text, from, at);
                assert(self.text@.subrange(from as int, at as int) == s.take(k));
                self.at = at + 2;
                return Ok(target);
            }
            at = at + 1;
        }
        Err(
            Error::BadRequest(
                "IMPORT ".to_owned().concat(alias).concat(
                    ": expected `AS ( … )` with the SQL to run on the source",
                ),
            ),
        )
    }

    /// Where what opens at `at` ends, when `close` closes it.
    fn quoted(&self, from: usize, at: usize, close: char) -> (end: usize)
        requires
            from <= at < self.text.len(),
        ensures
            end == from + quote_end(self.text@.skip(from as int), (at - from) as nat, close),
    {
        let n = text::position_from(&self.text, at + 1, close);
        assert(self.text@.skip(from as int).skip(at - from + 1) == self.text@.skip(
            at as int + 1,
        ));
        if at + 1 + n < self.text.len() {
            at + n + 2
        } else {
            self.text.len()
        }
    }

    /// Where the token that begins at `at` ends.
    fn token(&self, from: usize, at: usize) -> (end: usize)
        requires
            from <= at < self.text.len(),
        ensures
            end == from + token_end(self.text@.skip(from as int), (at - from) as nat),
            at < end <= self.text.len(),
    {
        let ghost s = self.text@.skip(from as int);
        let ghost k = (at - from) as nat;
        proof {
            lemma_token_end(s, k);
            assert(s.skip(k as int) == self.text@.skip(at as int));
            assert(s.skip(k as int + 1) == self.text@.skip(at as int + 1));
            reveal_strlit("*/");
        }
        let c = self.text[at];
        if c == '\'' || c == '"' || c == '`' {
            self.quoted(from, at, c)
        } else if c == '[' {
            self.quoted(from, at, ']')
        } else if text::stands_at(&self.text, at, "--") {
            at + text::position_from(&self.text, at, '\n')
        } else if text::stands_at(&self.text, at, "/*") {
            match text::find_from(&self.text, at, "*/") {
                Some(n) => at + n + 2,
                None => self.text.len(),
            }
        } else {
            at + 1
        }
    }

    /// A balanced `( … )`, stepping over anything SQL might hide a bracket inside:
    /// a string, a quoted identifier or a comment.
    fn parenthesised(&mut self, alias: &str) -> (r: Result<String, Error>)
        requires
            old(self).wf(),
        ensures
            final(self).text == old(self).text,
            final(self).wf(),
            match r {
                Ok(sql) => parenthesised(old(self).left(), alias@) == Ok::<
                    (Seq<char>, nat),
                    Seq<char>,
                >((sql@, (final(self).at - old(self).at) as nat)) && final(self).at >= old(
                    self,
                ).at,
                Err(e) => e matches Error::BadRequest(m) && parenthesised(
                    old(self).left(),
                    alias@,
                ) == Err::<(Seq<char>, nat), Seq<char>>(m@),
            },
    {
        let ghost before = self.left();
        self.trivia();
        let ghost s = self.left();
        assert(s == before.skip(trivia(before) as int));
        if self.at >= self.text.len() || self.text[self.at] != '(' {
            return Err(
                Error::BadRequest(
                    "IMPORT ".to_owned().concat(alias).concat(": expected `(` after AS"),
                ),
            );
        }
        let from = self.at;
        let mut depth: usize = 0;
        let mut at: usize = from;
        proof {
            lemma_one_char(s, 0);
        }
        while at < self.text.len()
            invariant
                from == self.at,
                from < self.text.len(),
                from <= at <= self.text.len(),
                self.text == old(self).text,
                before == old(self).left(),
                from == old(self).at + trivia(before),
                s == before.skip(trivia(before) as int),
                s == self.text@.skip(from as int),
                s[0] == '(',
                token_end(s, 0) == 1,
                at == from ==> depth == 0,
                at > from ==> depth > 0,
                depth <= at - from,
                closing(s, 0, 0) == closing(s, (at - from) as nat, depth as nat),
            decreases self.text.len() - at,
        {
            let ghost k = (at - from) as nat;
            assert(s[k as int] == self.text@[at as int]);
            let end = self.token(from, at);
            let c = self.text[at];
            if c == '(' {
                depth = depth + 1;
            } else if c == ')' {
                if depth == 1 {
                    let sql = text::trimmed_slice(&self.text, from + 1, end - 1);
                    proof {
                        lemma_one_char(s, k);
                        assert(self.text@.subrange(from as int + 1, end as int - 1)
                            == s.subrange(1, end - from - 1));
                    }
                    self.at = end;
                    return Ok(sql);
                }
                depth = depth - 1;
            }
            at = end;
        }
        Err(
            Error::BadRequest(
                "IMPORT ".to_owned().concat(alias).concat(": the `(` after AS is never closed"),
            ),
        )
    }
}

/// `<source>[/<database>]`.
fn split_target(target: &str, alias: &str) -> (r: Result<(String, Option<String>), Error>)
    ensures
        match r {
            Ok((source, database)) => checked_target(target@, alias@) == Ok::<
                (Seq<char>, Option<Seq<char>>),
                Seq<char>,
            >((source@, text::opt(database))),
            Err(e) => e matches Error::BadRequest(m) && checked_target(target@, alias@) == Err::<
                (Seq<char>, Option<Seq<char>>),
                Seq<char>,
            >(m@),
        },
{
    let (source, database) = match text::split_last(target, '/') {
        Some((source, database)) => (text::trimmed(&source), Some(text::trimmed(&database))),
        None => (text::trimmed(target), None),
    };
    if source.as_str().is_empty() {
        return Err(Error::BadRequest(alias.to_owned().concat(": no source given")));
    }
    Ok((source, database))
}

/// `<folder source>/<path or glob>`. Anything that could climb out of the source's
/// own directory is refused.
fn parse_files(alias: String, target: &str) -> (r: Result<Import, Error>)
    ensures
        match r {
            Ok(import) => files_import(alias@, target@) == Ok::<ImportView, Seq<char>>(import@),
            Err(e) => e matches Error::BadRequest(m) && files_import(alias@, target@) == Err::<
                ImportView,
                Seq<char>,
            >(m@),
        },
{
    let (source, pattern) = match text::split_first(target, '/') {
        Some((source, pattern)) => (text::trimmed(&source), text::trimmed(&pattern)),
        None => (text::trimmed(target), String::new()),
    };
    if source.as_str().is_empty() {
        return Err(
            Error::BadRequest("FILES ".to_owned().concat(&alias).concat(": no source given")),
        );
    }
    if text::begins(&pattern, "/") || text::begins(&pattern, "\\") || text::holds(
        &pattern,
        "..",
    ) {
        return Err(
            Error::BadRequest(
                "FILES ".to_owned().concat(&alias).concat(": `").concat(&pattern).concat(
                    "` must stay inside the source — no `..`, no absolute path",
                ),
            ),
        );
    }
    Ok(Import::Files { alias, source, pattern })
}

/// `<path>[#<sheet>]`
fn parse_excel(alias: String, target: &str) -> (r: Result<Import, Error>)
    ensures
        match r {
            Ok(import) => excel_import(alias@, target@) == Ok::<ImportView, Seq<char>>(import@),
            Err(e) => e matches Error::BadRequest(m) && excel_import(alias@, target@) == Err::<
                ImportView,
                Seq<char>,
            >(m@),
        },
{
    if target.is_empty() {
        return Err(
            Error::BadRequest("EXCEL ".to_owned().concat(&alias).concat(": no path given")),
        );
    }
    match text::split_first(target, '#') {
        Some((path, sheet)) => Ok(
            Import::Excel {
                alias,
                path: text::trimmed(&path),
                sheet: Some(text::trimmed(&sheet)),
            },
        ),
        None => Ok(Import::Excel { alias, path: target.to_owned(), sheet: None }),
    }
}

/// The alias becomes an identifier in the SQL that is run, so it is kept to
/// something that needs no quoting.
fn check_alias(alias: &str) -> (r: Result<(), Error>)
    ensures
        match r {
            Ok(_) => name_problem(alias@) is None,
            Err(e) => e matches Error::BadRequest(m) && name_problem(alias@) == Some(m@),
        },
{
    if alias.is_empty() {
        return Err(Error::BadRequest("a declaration needs a name".to_owned()));
    }
    let v = text::chars_of(alias);
    let mut usable = !text::ascii_digit(v[0]);
    let mut i: usize = 0;
    while i < v.len()
        invariant
            i <= v.len(),
            v@ == alias@,
            v.len() > 0,
            usable == (!text::is_ascii_digit(v@[0]) && forall|j: int|
                0 <= j < i ==> name_char(#[trigger] v@[j])),
        decreases v.len() - i,
    {
        let c = v[i];
        if !(text::ascii_letter(c) || text::ascii_digit(c) || c == '_') {
            usable = false;
        }
        i = i + 1;
    }
    if !usable {
        return Err(
            Error::BadRequest(
                "`".to_owned().concat(alias).concat(
                    "` is not a usable name — letters, digits and underscore, not starting with a digit",
                ),
            ),
        );
    }
    Ok(())
}

/// A complaint, with the line it is about.
fn annotate(error: Error, line: u128) -> (r: Error)
    ensures
        match error {
            Error::BadRequest(m) => r matches Error::BadRequest(t) && t@ == on_line(
                line as nat,
                m@,
            ),
            _ => r == error,
        },
{
    match error {
        Error::BadRequest(message) => Error::BadRequest(
            "line ".to_owned().concat(&text::decimal_wide(line)).concat(": ").concat(&message),
        ),
        other => other,
    }
}

/// Is this buffer meant for the federator rather than for a single source?
///
/// True when the first thing in it is `DEFINE` or `EVALUATE`. Only the *first*
/// thing: a `DEFINE` two hundred lines down is a column called define.
pub fn is_federated(buffer: &str) -> (r: bool)
    ensures
        r == federated(buffer@),
{
    let mut scanner = Scanner::new(buffer);
    assert(scanner.left() == buffer@);
    scanner.trivia();
    match scanner.peek_word() {
        Some(w) => text::same(&w, "define") || text::same(&w, "evaluate"),
        None => false,
    }
}

impl Scanner {
    /// The declarations of a `DEFINE` block. Anything that is not one ends it.
    fn declarations(&mut self) -> (r: Result<Vec<Import>, Error>)
        requires
            old(self).wf(),
        ensures
            final(self).wf(),
            final(self).text == old(self).text,
            match r {
                Ok(imports) => declarations(
                    old(self).text@,
                    old(self).at as nat,
                    Seq::empty(),
                ) == Ok::<(Seq<ImportView>, nat), Seq<char>>(
                    (import_views(imports@), final(self).at as nat),
                ) && small_names(import_views(imports@)),
                Err(e) => e matches Error::BadRequest(m) && declarations(
                    old(self).text@,
                    old(self).at as nat,
                    Seq::empty(),
                ) == Err::<(Seq<ImportView>, nat), Seq<char>>(m@),
            },
    {
        let mut imports: Vec<Import> = Vec::new();
        let ghost s = self.text@;
        let ghost from = self.at as nat;
        assert(import_views(imports@) == Seq::<ImportView>::empty());
        loop
            invariant
                self.wf(),
                self.text == old(self).text,
                s == self.text@,
                from == old(self).at,
                declarations(s, from, Seq::empty()) == declarations(
                    s,
                    self.at as nat,
                    import_views(imports@),
                ),
                small_names(import_views(imports@)),
            decreases self.text.len() - self.at,
        {
            self.trivia();
            let ghost here = self.at as nat;
            let ghost left = self.left();
            match self.peek_word() {
                None => {
                    return Ok(imports);
                },
                Some(w) => {
                    let kind = text::same(&w, "attach") || text::same(&w, "import") || text::same(
                        &w,
                        "files",
                    ) || text::same(&w, "excel");
                    if !kind {
                        return Ok(imports);
                    }
                },
            }
            let at = self.line();
            let import = match self.declaration() {
                Ok(import) => import,
                Err(e) => return Err(annotate(e, at)),
            };
            proof {
                lemma_declaration(left);
            }
            if claimed(&imports, import.alias()) {
                return Err(
                    annotate(
                        Error::BadRequest(
                            "`".to_owned().concat(import.alias()).concat(
                                "` is already declared — each name is claimed once",
                            ),
                        ),
                        at,
                    ),
                );
            }
            let ghost taken = import_views(imports@);
            imports.push(import);
            assert(import_views(imports@) == taken.push(import@));
        }
    }
}

/// Whether one of the declarations already has that name.
fn claimed(imports: &Vec<Import>, alias: &str) -> (r: bool)
    ensures
        r == claims(import_views(imports@), alias@),
{
    let ghost all = import_views(imports@);
    let mut i: usize = 0;
    while i < imports.len()
        invariant
            i <= imports.len(),
            all == import_views(imports@),
            forall|j: int| 0 <= j < i ==> (#[trigger] all[j]).alias() != alias@,
        decreases imports.len() - i,
    {
        if text::same(imports[i].alias(), alias) {
            assert(all[i as int].alias() == alias@);
            return true;
        }
        i = i + 1;
    }
    false
}

impl Scanner {
    /// Everything before `EVALUATE`, from the start of the buffer.
    #[verifier::spinoff_prover]
    fn preamble(&mut self) -> (r: Result<Vec<Import>, Error>)
        requires
            old(self).wf(),
            old(self).at == 0,
        ensures
            final(self).wf(),
            final(self).text == old(self).text,
            match r {
                Ok(imports) => preamble(old(self).text@) == Ok::<
                    (Seq<ImportView>, nat),
                    Seq<char>,
                >((import_views(imports@), final(self).at as nat)) && small_names(
                    import_views(imports@),
                ),
                Err(e) => e matches Error::BadRequest(m) && preamble(old(self).text@) == Err::<
                    (Seq<ImportView>, nat),
                    Seq<char>,
                >(m@),
            },
    {
        let ghost s = self.text@;
        assert(self.left() == s);
        self.trivia();
        let (define, evaluate) = match self.peek_word() {
            Some(w) => (text::same(&w, "define"), text::same(&w, "evaluate")),
            None => (false, false),
        };
        if define {
            let _ = self.take_word();
            self.declarations()
        } else if evaluate {
            let none: Vec<Import> = Vec::new();
            assert(import_views(none@) == Seq::<ImportView>::empty());
            Ok(none)
        } else {
            Err(Error::BadRequest("a federated buffer starts with DEFINE or EVALUATE".to_owned()))
        }
    }
}

/// Read a federated buffer. Every complaint that can name a line does. Whatever the case
/// a name is written in, it is held in lower case.
#[verifier::spinoff_prover]
pub fn parse(buffer: &str) -> (r: Result<Program, Error>)
    ensures
        match r {
            Ok(program) => program_of(buffer@) == Ok::<ProgramView, Seq<char>>(program@)
                && small_names(program@.imports),
            Err(e) => e matches Error::BadRequest(m) && program_of(buffer@) == Err::<
                ProgramView,
                Seq<char>,
            >(m@),
        },
{
    let mut scanner = Scanner::new(buffer);
    let ghost s = buffer@;
    assert(scanner.left() == s);
    let imports = match scanner.preamble() {
        Ok(imports) => imports,
        Err(e) => return Err(e),
    };
    scanner.trivia();
    let at = scanner.line();
    let found = scanner.take_word();
    let evaluate = match &found {
        Some(w) => text::same(w, "evaluate"),
        None => false,
    };
    if !evaluate {
        let found = match found {
            Some(w) => w,
            None => "the end of the buffer".to_owned(),
        };
        return Err(
            Error::BadRequest(
                "line ".to_owned().concat(&text::decimal_wide(at)).concat(
                    ": expected another declaration or EVALUATE, found `",
                ).concat(&found).concat(
                    "` — EVALUATE says what to return, and a declaration is one of ATTACH, IMPORT, FILES, EXCEL",
                ),
            ),
        );
    }
    // Blank lines rather than a stripped prefix: the query keeps the line numbers
    // it has in the editor.
    let skipped = text::count_before(&scanner.text, scanner.at, '\n');
    let body = text::slice(&scanner.text, scanner.at, scanner.text.len());
    let sql = text::repeated('\n', skipped).concat(&body);
    assert(sql@ == padded(s, scanner.at as nat));
    if text::blank(&sql) {
        return Err(Error::BadRequest("EVALUATE needs a query after it".to_owned()));
    }
    Ok(Program { imports, sql })
}

// ------------------------------------------------------------------------ laws

/// A buffer that parses is one that [`is_federated`] says is; any other is refused
/// in one sentence.
pub proof fn law_only_a_leading_keyword_switches_mode(s: Seq<char>)
    ensures
        program_of(s) is Ok ==> federated(s),
        !federated(s) ==> program_of(s) == Err::<ProgramView, Seq<char>>(
            "a federated buffer starts with DEFINE or EVALUATE"@,
        ),
{
}

/// Where the declarations of a buffer end and `EVALUATE` is due.
pub open spec fn evaluate_at(s: Seq<char>) -> nat {
    match preamble(s) {
        Ok((imports, at)) => at + trivia(s.skip(at as int)),
        Err(_) => s.len(),
    }
}

/// What is run is what follows the keyword `EVALUATE`, to the end of the buffer, after one
/// line end for each that stands before, and is not blank.
pub proof fn law_the_query_is_what_follows_evaluate(s: Seq<char>)
    ensures
        program_of(s) matches Ok(program) ==> {
            let b = evaluate_at(s);
            let c = b + word(s.skip(b as int));
            &&& c <= s.len()
            &&& text::lowercase(s.subrange(b as int, c as int)) == "evaluate"@
            &&& program.sql == text::repeat('\n', text::count(s.take(c as int), '\n')) + s.skip(
                c as int,
            )
            &&& text::trim(program.sql).len() > 0
        },
{
    if let Ok(program) = program_of(s) {
        let (imports, at) = preamble(s)->Ok_0;
        lemma_preamble(s);
        lemma_trivia(s.skip(at as int));
        let b = evaluate_at(s);
        lemma_word(s.skip(b as int));
        let n = word(s.skip(b as int)) as int;
        assert(s.subrange(b as int, b + n) == s.skip(b as int).take(n));
    }
}

/// The query keeps the line numbers it has in the editor: the buffer and what is
/// run have the same number of lines, what is run ends as the buffer does, and
/// every character of the query stands on the line it stands on in the buffer.
pub proof fn law_the_query_keeps_its_line_numbers(s: Seq<char>)
    ensures
        program_of(s) matches Ok(program) ==> {
            let b = evaluate_at(s);
            let c = b + word(s.skip(b as int));
            &&& text::count(program.sql, '\n') == text::count(s, '\n')
            &&& forall|j: nat|
                c <= j < s.len() ==> {
                    let k = (program.sql.len() - s.len() + j) as nat;
                    &&& program.sql[k as int] == s[j as int]
                    &&& #[trigger] line_at(s, j) == line_at(program.sql, k)
                }
        },
{
    if let Ok(program) = program_of(s) {
        law_the_query_is_what_follows_evaluate(s);
        let b = evaluate_at(s);
        let c = (b + word(s.skip(b as int))) as nat;
        assert(program.sql == padded(s, c));
        let n = text::count(s.take(c as int), '\n');
        let head = text::repeat('\n', n);
        text::lemma_count_repeat('\n', n);
        text::lemma_count_concat(head, s.skip(c as int), '\n');
        text::lemma_count_concat(s.take(c as int), s.skip(c as int), '\n');
        assert(s.take(c as int) + s.skip(c as int) == s);
        assert forall|j: nat| c <= j < s.len() implies {
            let k = (program.sql.len() - s.len() + j) as nat;
            &&& program.sql[k as int] == s[j as int]
            &&& #[trigger] line_at(s, j) == line_at(program.sql, k)
        } by {
            let k = (program.sql.len() - s.len() + j) as nat;
            let part = s.subrange(c as int, j as int);
            assert(s.take(j as int) == s.take(c as int) + part);
            assert(program.sql.take(k as int) == head + part);
            text::lemma_count_concat(s.take(c as int), part, '\n');
            text::lemma_count_concat(head, part, '\n');
        }
    }
}

proof fn lemma_declarations(s: Seq<char>, at: nat, taken: Seq<ImportView>)
    requires
        at <= s.len(),
        sound(taken),
    ensures
        declarations(s, at, taken) matches Ok((imports, end)) ==> end <= s.len() && sound(imports),
    decreases s.len() - at,
{
    let b = at + trivia(s.skip(at as int));
    lemma_trivia(s.skip(at as int));
    if let Some(w) = peek(s.skip(b as int)) {
        if is_kind(w) {
            let left = s.skip(b as int);
            if let Ok((import, n)) = declaration(left) {
                lemma_declaration(left);
                if !claims(taken, import.alias()) {
                    let more = taken.push(import);
                    assert(sound(more)) by {
                        lemma_pattern(left);
                        assert forall|i: int, j: int| 0 <= i < j < more.len() implies (
                        #[trigger] more[i]).alias() != (#[trigger] more[j]).alias() by {
                            if j == taken.len() {
                                assert(taken[i].alias() != import.alias());
                            }
                        }
                    }
                    lemma_declarations(s, b + n, more);
                }
            }
        }
    }
}

/// A `FILES` declaration that is accepted has a pattern that stays inside.
proof fn lemma_pattern(s: Seq<char>)
    ensures
        declaration(s) matches Ok((import, n)) ==> confined(import),
{
}

/// The pattern of a `FILES` import cannot reach outside its source.
pub open spec fn confined(import: ImportView) -> bool {
    import matches ImportView::Files { pattern, .. } ==> !climbs(pattern)
}

/// What holds of the declarations of every buffer that parses: each has a name that
/// needs no quoting, no two have the same one, and no pattern leaves its source.
pub open spec fn sound(imports: Seq<ImportView>) -> bool {
    &&& forall|i: int| 0 <= i < imports.len() ==> usable_name((#[trigger] imports[i]).alias())
    &&& forall|i: int| 0 <= i < imports.len() ==> confined(#[trigger] imports[i])
    &&& forall|i: int, j: int|
        0 <= i < j < imports.len() ==> (#[trigger] imports[i]).alias() != (
        #[trigger] imports[j]).alias()
}

proof fn lemma_preamble(s: Seq<char>)
    ensures
        preamble(s) matches Ok((imports, at)) ==> at <= s.len() && sound(imports),
{
    let a = trivia(s);
    lemma_trivia(s);
    lemma_word(s.skip(a as int));
    lemma_declarations(s, a + word(s.skip(a as int)), Seq::empty());
}

/// Every name is claimed once and cannot smuggle SQL, and no `FILES` pattern climbs
/// out of its source.
pub proof fn law_declarations_are_sound(s: Seq<char>)
    ensures
        program_of(s) matches Ok(program) ==> sound(program.imports),
{
    lemma_preamble(s);
}

/// The token at `at` is closed within `s`: it ends with its own quote, its own line
/// or its own comment mark.
pub open spec fn closed_token(s: Seq<char>, at: nat) -> bool {
    let c = s[at as int];
    let rest = s.skip(at as int);
    if c == '\'' || c == '"' || c == '`' {
        at + 1 + text::position(s.skip(at as int + 1), c) < s.len()
    } else if c == '[' {
        at + 1 + text::position(s.skip(at as int + 1), ']') < s.len()
    } else if at_line_comment(rest) {
        text::position(rest, '\n') < rest.len()
    } else if at_block_comment(rest) {
        text::contains(rest, "*/"@)
    } else {
        true
    }
}

/// From `at` on, every token is closed, no bracket closes more than was opened, and
/// at the end `depth` has come back to one.
pub open spec fn balanced(s: Seq<char>, at: nat, depth: nat) -> bool
    decreases s.len() - at,
{
    if at >= s.len() {
        at == s.len() && depth == 1
    } else {
        proof {
            lemma_token_end(s, at);
        }
        let end = token_end(s, at);
        &&& closed_token(s, at)
        &&& if s[at as int] == '(' {
            balanced(s, end, depth + 1)
        } else if s[at as int] == ')' {
            depth > 1 && balanced(s, end, (depth - 1) as nat)
        } else {
            balanced(s, end, depth)
        }
    }
}

/// A closed token is read the same whatever surrounds it, as long as what follows
/// begins with a bracket.
proof fn lemma_token_in_context(s: Seq<char>, at: nat, tail: Seq<char>)
    requires
        at < s.len(),
        closed_token(s, at),
        tail.len() > 0,
        tail[0] == ')',
    ensures
        token_end(seq!['('] + s + tail, at + 1) == token_end(s, at) + 1,
{
    reveal_strlit("--");
    reveal_strlit("/*");
    reveal_strlit("*/");
    let full = seq!['('] + s + tail;
    let k = at + 1;
    let rest = s.skip(at as int);
    let wide = full.skip(k as int);
    let c = s[at as int];
    assert(full[k as int] == c);
    assert(wide == rest + tail);
    assert(full.skip(k as int + 1) == s.skip(at as int + 1) + tail);
    assert(at_line_comment(wide) == at_line_comment(rest)) by {
        assert(wide.take(2)[0] == wide[0] && wide.take(2)[1] == wide[1]);
        if rest.len() >= 2 {
            assert(rest.take(2) == wide.take(2));
        } else {
            assert(wide[1] == tail[0]);
        }
    }
    assert(at_block_comment(wide) == at_block_comment(rest)) by {
        if rest.len() >= 2 {
            assert(rest.take(2) == wide.take(2));
        } else {
            assert(wide.take(2)[1] == tail[0]);
        }
    }
    if c == '\'' || c == '"' || c == '`' {
        lemma_position_in_context(s.skip(at as int + 1), tail, c);
    } else if c == '[' {
        lemma_position_in_context(s.skip(at as int + 1), tail, ']');
    } else if at_line_comment(rest) {
        lemma_position_in_context(rest, tail, '\n');
    } else if at_block_comment(rest) {
        text::lemma_find(rest, "*/"@);
        let n = text::find(rest, "*/"@).unwrap() as int;
        let p = "*/"@;
        assert forall|i: int| 0 <= i < n implies !text::starts_with(#[trigger] wide.skip(i), p) by {
            assert(!text::starts_with(rest.skip(i), p));
            assert(wide.skip(i).take(2) == rest.skip(i).take(2));
        }
        assert(wide.skip(n).take(2) == rest.skip(n).take(2));
        text::lemma_find_is(wide, p, n);
    }
}

proof fn lemma_position_in_context(s: Seq<char>, tail: Seq<char>, c: char)
    requires
        text::position(s, c) < s.len(),
    ensures
        text::position(s + tail, c) == text::position(s, c),
{
    text::lemma_run(s, text::other_than(c));
    let n = text::position(s, c) as int;
    assert forall|i: int| 0 <= i < n implies text::other_than(c)(#[trigger] (s + tail)[i]) by {
        assert(text::other_than(c)(s[i]));
    }
    text::lemma_run_is(s + tail, text::other_than(c), n);
}

proof fn lemma_balanced_closes(s: Seq<char>, at: nat, depth: nat, tail: Seq<char>)
    requires
        at <= s.len(),
        depth > 0,
        balanced(s, at, depth),
        tail.len() > 0,
        tail[0] == ')',
    ensures
        closing(seq!['('] + s + tail, at + 1, depth) == Some((s.len() + 2) as nat),
    decreases s.len() - at,
{
    let full = seq!['('] + s + tail;
    if at == s.len() {
        assert(full[at as int + 1] == ')');
        lemma_one_char(full, at + 1);
    } else {
        lemma_token_end(s, at);
        lemma_token_in_context(s, at, tail);
        let end = token_end(s, at);
        assert(full[at as int + 1] == s[at as int]);
        if s[at as int] == '(' {
            lemma_balanced_closes(s, end, depth + 1, tail);
        } else if s[at as int] == ')' {
            lemma_balanced_closes(s, end, (depth - 1) as nat, tail);
        } else {
            lemma_balanced_closes(s, end, depth, tail);
        }
    }
}

/// A bracket inside the SQL does not end the declaration: SQL whose own brackets
/// balance, not counting those in strings, identifiers and comments, comes back
/// whole from between the brackets round it, whatever follows.
pub proof fn law_balanced_sql_comes_back_whole(
    sql: Seq<char>,
    after: Seq<char>,
    alias: Seq<char>,
)
    requires
        balanced(sql, 0, 1),
    ensures
        parenthesised(seq!['('] + sql + seq![')'] + after, alias) == Ok::<
            (Seq<char>, nat),
            Seq<char>,
        >((text::trim(sql), (sql.len() + 2) as nat)),
{
    reveal_strlit("--");
    reveal_strlit("/*");
    let tail = seq![')'] + after;
    let full = seq!['('] + sql + seq![')'] + after;
    assert(full == seq!['('] + sql + tail);
    assert(full[0] == '(');
    assert(text::run(full, text::white()) == 0);
    assert(full.skip(0) == full);
    assert(full.take(2)[0] == '(');
    assert(trivia(full) == 0);
    lemma_one_char(full, 0);
    lemma_balanced_closes(sql, 0, 1, tail);
    assert(full.subrange(1, sql.len() as int + 1) == sql);
}

// ----------------------------------------------------- what a written buffer means

/// A keyword, in whatever case.
pub open spec fn spells(written: Seq<char>, keyword: Seq<char>) -> bool {
    written.len() == keyword.len() && forall|i: int|
        0 <= i < written.len() ==> text::is_ascii_letter(#[trigger] written[i])
            && text::lower_char(written[i]) == keyword[i]
}

/// Not white space and not the first character of a comment.
pub open spec fn solid(c: char) -> bool {
    !text::is_white(c) && c != '-' && c != '/'
}

proof fn lemma_no_trivia(s: Seq<char>)
    requires
        s.len() > 0,
        solid(s[0]),
    ensures
        trivia(s) == 0,
{
    reveal_strlit("--");
    reveal_strlit("/*");
    text::lemma_run_is(s, text::white(), 0);
    assert(s.skip(0) == s);
    if at_line_comment(s) {
        assert(s.take(2)[0] == s[0]);
    }
    if at_block_comment(s) {
        assert(s.take(2)[0] == s[0]);
    }
}

proof fn lemma_one_blank(s: Seq<char>)
    requires
        s.len() > 1,
        s[0] == ' ' || s[0] == '\n',
        solid(s[1]),
    ensures
        trivia(s) == 1,
{
    reveal_strlit("--");
    reveal_strlit("/*");
    text::lemma_run_is(s, text::white(), 1);
    let t = s.skip(1);
    if at_line_comment(t) {
        assert(t.take(2)[0] == s[1]);
    }
    if at_block_comment(t) {
        assert(t.take(2)[0] == s[1]);
    }
}

/// A bare word in front of something that is none.
proof fn lemma_bare_word(w: Seq<char>, t: Seq<char>)
    requires
        w.len() > 0,
        forall|i: int| 0 <= i < w.len() ==> name_char(#[trigger] w[i]),
        t.len() > 0,
        t[0] == ' ' || t[0] == '\n',
    ensures
        word(w + t) == w.len(),
        peek(w + t) == Some(text::ascii_lower(w)),
        solid(w[0]),
{
    let s = w + t;
    assert forall|i: int| 0 <= i < w.len() implies word_char()(#[trigger] s[i]) by {
        assert(name_char(w[i]));
        assert(s[i] == w[i]);
    }
    assert(s[w.len() as int] == t[0]);
    text::lemma_run_is(s, word_char(), w.len() as int);
    assert(s.take(w.len() as int) == w);
    assert(vstd::utf8::is_ascii_chars(w)) by {
        assert forall|i: int| 0 <= i < w.len() implies '\u{0}' <= #[trigger] w[i] <= '\u{7f}' by {
            assert(name_char(w[i]));
            text::lemma_char(w[i]);
        }
    }
    assert(name_char(w[0]));
}

proof fn lemma_keyword(written: Seq<char>, keyword: Seq<char>, t: Seq<char>)
    requires
        spells(written, keyword),
        written.len() > 0,
        t.len() > 0,
        t[0] == ' ' || t[0] == '\n',
    ensures
        word(written + t) == written.len(),
        peek(written + t) == Some(keyword),
        solid(written[0]),
{
    assert forall|i: int| 0 <= i < written.len() implies name_char(#[trigger] written[i]) by {}
    lemma_bare_word(written, t);
    assert(text::ascii_lower(written) == keyword) by {
        assert forall|i: int| 0 <= i < written.len() implies text::ascii_lower(written)[i]
            == keyword[i] by {
            assert(text::lower_char(written[i]) == keyword[i]);
        }
    }
}

/// `<kind> <name> = <value>`, as it is written.
pub open spec fn declaration_text(kind: Seq<char>, name: Seq<char>, value: Seq<char>) -> Seq<char> {
    kind + seq![' '] + name + seq![' ', '=', ' '] + value
}

proof fn lemma_small(name: Seq<char>)
    requires
        usable_name(name),
    ensures
        usable_name(text::ascii_lower(name)),
{
    let small = text::ascii_lower(name);
    assert forall|i: int| 0 <= i < small.len() implies name_char(#[trigger] small[i]) by {
        assert(name_char(name[i]));
        let c = name[i];
        if 'A' <= c && c <= 'Z' {
            assert('a' <= small[i] && small[i] <= 'z');
        }
    }
    assert(name_char(name[0]));
}

/// What a declaration means rests on its kind, its name in lower case and its value.
proof fn lemma_declared(
    kind: Seq<char>,
    keyword: Seq<char>,
    name: Seq<char>,
    value: Seq<char>,
    tail: Seq<char>,
)
    requires
        spells(kind, keyword),
        kind.len() > 0,
        usable_name(name),
        value.len() > 0,
        !text::is_white(value[0]),
    ensures
        ({
            let s = declaration_text(kind, name, value) + tail;
            let at = kind.len() + 1 + name.len() + 3;
            &&& peek(s) == Some(keyword)
            &&& declaration(s) == (match value_of(
                keyword,
                text::ascii_lower(name),
                value + tail,
            ) {
                Ok((import, n)) => Ok((import, (at + n) as nat)),
                Err(m) => Err(m),
            })
        }),
{
    let s = declaration_text(kind, name, value) + tail;
    let after_kind = seq![' '] + name + seq![' ', '=', ' '] + value + tail;
    assert(s == kind + after_kind);
    assert(after_kind[0] == ' ');
    lemma_keyword(kind, keyword, after_kind);
    let k = kind.len() as int;
    assert(s.skip(k) == after_kind);
    assert(name_char(name[0]));
    assert(after_kind[1] == name[0]);
    lemma_one_blank(after_kind);
    assert(name_start(s) == k + 1);
    let rest = seq![' ', '=', ' '] + value + tail;
    assert(s.skip(k + 1) == name + rest);
    assert(rest[0] == ' ' && rest[1] == '=');
    lemma_bare_word(name, rest);
    assert(name_of(s) == text::ascii_lower(name));
    lemma_small(name);
    let c = k + 1 + name.len() as int;
    assert(s.skip(c) == rest);
    lemma_one_blank(rest);
    assert(equals_at(s) == c + 1);
    assert(s[c + 1] == '=') by {
        assert(s[c + 1] == s.skip(c)[1]);
    }
    let blank = seq![' '] + value + tail;
    assert(s.skip(c + 2) == blank);
    assert(blank[0] == ' ' && blank[1] == value[0]);
    text::lemma_run_is(blank, spaces(), 1);
    assert(value_at(s) == c + 3);
    assert(s.skip(c + 3) == value + tail);
}

proof fn lemma_no_lines(w: Seq<char>)
    requires
        forall|i: int| 0 <= i < w.len() ==> text::is_ascii_letter(#[trigger] w[i]),
    ensures
        text::count(w, '\n') == 0,
    decreases w.len(),
{
    if w.len() > 0 {
        assert(text::is_ascii_letter(w[w.len() - 1]));
        assert forall|i: int| 0 <= i < w.drop_last().len() implies text::is_ascii_letter(
            #[trigger] w.drop_last()[i],
        ) by {
            assert(w.drop_last()[i] == w[i]);
        }
        lemma_no_lines(w.drop_last());
    }
}

/// A buffer with one declaration, written out.
pub open spec fn buffer(
    define: Seq<char>,
    declared: Seq<char>,
    evaluate: Seq<char>,
    query: Seq<char>,
) -> Seq<char> {
    define + seq!['\n'] + declared + seq!['\n'] + evaluate + seq!['\n'] + query
}

/// A text declares an import: wherever its line ends, that is what it is read as.
pub open spec fn declares(declared: Seq<char>, import: ImportView) -> bool {
    &&& declared.len() > 0
    &&& solid(declared[0])
    &&& forall|tail: Seq<char>|
        tail.len() > 0 && tail[0] == '\n' ==> {
            &&& declaration(#[trigger] (declared + tail)) == Ok::<(ImportView, nat), Seq<char>>(
                (import, declared.len()),
            )
            &&& peek(declared + tail) matches Some(w) && is_kind(w)
        }
}

/// Such a buffer is read as that one import, and as the query after a line end for each
/// line before it.
pub open spec fn reads_as(
    define: Seq<char>,
    declared: Seq<char>,
    evaluate: Seq<char>,
    query: Seq<char>,
    import: ImportView,
) -> bool {
    program_of(buffer(define, declared, evaluate, query)) == Ok::<ProgramView, Seq<char>>(
        ProgramView {
            imports: seq![import],
            sql: text::repeat('\n', 3 + text::count(declared, '\n')) + query,
        },
    )
}

spec fn after_declared(evaluate: Seq<char>, query: Seq<char>) -> Seq<char> {
    seq!['\n'] + evaluate + seq!['\n'] + query
}

proof fn lemma_declarations_stop(s: Seq<char>, at: nat, taken: Seq<ImportView>, b: nat)
    requires
        b == at + trivia(s.skip(at as int)),
        peek(s.skip(b as int)) matches Some(w) && !is_kind(w),
    ensures
        declarations(s, at, taken) == Ok::<(Seq<ImportView>, nat), Seq<char>>((taken, b)),
{
}

proof fn lemma_declarations_step(
    s: Seq<char>,
    at: nat,
    taken: Seq<ImportView>,
    b: nat,
    import: ImportView,
    n: nat,
)
    requires
        at <= s.len(),
        b == at + trivia(s.skip(at as int)),
        peek(s.skip(b as int)) matches Some(w) && is_kind(w),
        declaration(s.skip(b as int)) == Ok::<(ImportView, nat), Seq<char>>((import, n)),
        !claims(taken, import.alias()),
    ensures
        declarations(s, at, taken) == declarations(s, b + n, taken.push(import)),
{
}

proof fn lemma_buffer_shape(
    define: Seq<char>,
    declared: Seq<char>,
    evaluate: Seq<char>,
    query: Seq<char>,
)
    requires
        spells(define, "define"@),
        spells(evaluate, "evaluate"@),
        declared.len() > 0,
        solid(declared[0]),
    ensures
        ({
            let s = buffer(define, declared, evaluate, query);
            let d = define.len();
            let e = d + 1 + declared.len();
            &&& e <= s.len()
            &&& trivia(s) == 0
            &&& s.skip(0) == s
            &&& peek(s) == Some("define"@)
            &&& word(s) == d
            &&& trivia(s.skip(d as int)) == 1
            &&& s.skip(d as int + 1) == declared + after_declared(evaluate, query)
            &&& trivia(s.skip(e as int)) == 1
            &&& peek(s.skip(e as int + 1)) == Some("evaluate"@)
        }),
{
    reveal_strlit("define");
    reveal_strlit("evaluate");
    let s = buffer(define, declared, evaluate, query);
    let tail = after_declared(evaluate, query);
    let after = seq!['\n'] + declared + tail;
    assert(s == define + after);
    lemma_keyword(define, "define"@, after);
    assert(s[0] == define[0]);
    lemma_no_trivia(s);
    assert(s.skip(0) == s);
    let d = define.len() as int;
    let e = d + 1 + declared.len();
    assert(s.skip(d) == after);
    assert(after[1] == declared[0]);
    lemma_one_blank(after);
    assert(s.skip(d + 1) == declared + tail);
    assert(s.skip(e) == tail);
    assert(tail[1] == evaluate[0]);
    let line = seq!['\n'] + query;
    assert(s.skip(e + 1) == evaluate + line);
    lemma_keyword(evaluate, "evaluate"@, line);
    lemma_one_blank(tail);
}

#[verifier::spinoff_prover]
proof fn lemma_buffer_preamble(
    define: Seq<char>,
    declared: Seq<char>,
    evaluate: Seq<char>,
    query: Seq<char>,
    import: ImportView,
)
    requires
        spells(define, "define"@),
        spells(evaluate, "evaluate"@),
        declares(declared, import),
    ensures
        preamble(buffer(define, declared, evaluate, query)) == Ok::<
            (Seq<ImportView>, nat),
            Seq<char>,
        >((seq![import], define.len() + 1 + declared.len() + 1)),
{
    reveal_strlit("evaluate");
    reveal_strlit("attach");
    reveal_strlit("import");
    reveal_strlit("files");
    reveal_strlit("excel");
    lemma_buffer_shape(define, declared, evaluate, query);
    let s = buffer(define, declared, evaluate, query);
    let d = define.len();
    let e = d + 1 + declared.len();
    assert(after_declared(evaluate, query)[0] == '\n');
    let none = Seq::<ImportView>::empty();
    assert(none.push(import) == seq![import]);
    assert(!is_kind("evaluate"@));
    lemma_declarations_step(s, d, none, d + 1, import, declared.len());
    lemma_declarations_stop(s, e, seq![import], e + 1);
}

#[verifier::spinoff_prover]
proof fn lemma_buffer_sql(
    define: Seq<char>,
    declared: Seq<char>,
    evaluate: Seq<char>,
    query: Seq<char>,
)
    requires
        spells(define, "define"@),
        spells(evaluate, "evaluate"@),
        text::trim(query).len() > 0,
    ensures
        ({
            let s = buffer(define, declared, evaluate, query);
            let at = define.len() + 1 + declared.len() + 1 + evaluate.len();
            &&& padded(s, at) == text::repeat('\n', 3 + text::count(declared, '\n')) + query
            &&& text::trim(padded(s, at)).len() > 0
        }),
{
    let s = buffer(define, declared, evaluate, query);
    let at = (define.len() + 1 + declared.len() + 1 + evaluate.len()) as int;
    let one = seq!['\n'];
    let line = one + query;
    assert(s.skip(at) == line);
    let head = text::repeat('\n', text::count(s.take(at), '\n'));
    let sql = head + line;
    assert(s.take(at) == define + (one + (declared + (one + evaluate))));
    lemma_no_lines(define);
    lemma_no_lines(evaluate);
    text::lemma_count_repeat('\n', 1);
    assert(text::repeat('\n', 1) == one);
    text::lemma_count_concat(define, one + (declared + (one + evaluate)), '\n');
    text::lemma_count_concat(one, declared + (one + evaluate), '\n');
    text::lemma_count_concat(declared, one + evaluate, '\n');
    text::lemma_count_concat(one, evaluate, '\n');
    let whole = text::repeat('\n', 3 + text::count(declared, '\n'));
    assert(head + one == whole);
    assert(sql == whole + query);
    text::lemma_blank(sql);
    text::lemma_blank(query);
    if text::trim(sql).len() == 0 {
        assert forall|i: int| 0 <= i < query.len() implies text::is_white(#[trigger] query[i]) by {
            assert(sql[whole.len() + i] == query[i]);
        }
    }
}

proof fn lemma_buffer(
    define: Seq<char>,
    declared: Seq<char>,
    evaluate: Seq<char>,
    query: Seq<char>,
    import: ImportView,
)
    requires
        spells(define, "define"@),
        spells(evaluate, "evaluate"@),
        text::trim(query).len() > 0,
        declares(declared, import),
    ensures
        reads_as(define, declared, evaluate, query, import),
{
    reveal_strlit("evaluate");
    lemma_buffer_preamble(define, declared, evaluate, query, import);
    lemma_buffer_sql(define, declared, evaluate, query);
    let s = buffer(define, declared, evaluate, query);
    let e = define.len() + 1 + declared.len() + 1;
    let line = seq!['\n'] + query;
    assert(s.skip(e as int) == evaluate + line);
    lemma_keyword(evaluate, "evaluate"@, line);
    assert((evaluate + line)[0] == evaluate[0]);
    lemma_no_trivia(evaluate + line);
}

/// No white space at either end, and something in between.
pub open spec fn neat(s: Seq<char>) -> bool {
    s.len() > 0 && !text::is_white(s[0]) && !text::is_white(s[s.len() - 1])
}

proof fn lemma_neat(s: Seq<char>, blank: Seq<char>)
    requires
        neat(s),
        text::is_blank(blank),
    ensures
        text::trim(s + blank) == s,
{
    let w = text::white();
    let all = s + blank;
    assert(all[0] == s[0]);
    text::lemma_run_is(all, w, 0);
    assert(all.skip(0) == all);
    let n = blank.len() as int;
    assert forall|i: int| s.len() <= i < all.len() implies w(#[trigger] all[i]) by {
        assert(all[i] == blank[i - s.len()]);
    }
    assert(all[s.len() - 1] == s[s.len() - 1]);
    text::lemma_run_back_is(all, w, n);
    assert(all.take(all.len() - n) == s);
}

proof fn lemma_rsplit(a: Seq<char>, b: Seq<char>, c: char)
    requires
        !b.contains(c),
    ensures
        text::rsplit_once(a + seq![c] + b, c) == Some((a, b)),
{
    let s = a + seq![c] + b;
    let f = text::other_than(c);
    let n = b.len() as int;
    assert forall|i: int| s.len() - n <= i < s.len() implies f(#[trigger] s[i]) by {
        assert(s[i] == b[i - a.len() - 1]);
        if s[i] == c {
            assert(b.contains(c));
        }
    }
    assert(s[a.len() as int] == c);
    text::lemma_run_back_is(s, f, n);
    assert(s.take(s.len() - n - 1) == a);
    assert(s.skip(s.len() - n) == b);
}

proof fn lemma_no_rsplit(s: Seq<char>, c: char)
    requires
        !s.contains(c),
    ensures
        text::rsplit_once(s, c) is None,
        text::split_once(s, c) is None,
        text::position(s, c) == s.len(),
{
    let f = text::other_than(c);
    assert forall|i: int| 0 <= i < s.len() implies f(#[trigger] s[i]) by {
        if s[i] == c {
            assert(s.contains(c));
        }
    }
    text::lemma_run_back_is(s, f, s.len() as int);
    text::lemma_run_is(s, f, s.len() as int);
}

proof fn lemma_split_first(a: Seq<char>, b: Seq<char>, c: char)
    requires
        !a.contains(c),
    ensures
        text::split_once(a + seq![c] + b, c) == Some((a, b)),
        text::position(a + seq![c] + b, c) == a.len(),
{
    let s = a + seq![c] + b;
    let f = text::other_than(c);
    assert forall|i: int| 0 <= i < a.len() implies f(#[trigger] s[i]) by {
        assert(s[i] == a[i]);
        if s[i] == c {
            assert(a.contains(c));
        }
    }
    assert(s[a.len() as int] == c);
    text::lemma_run_is(s, f, a.len() as int);
    assert(s.take(a.len() as int) == a);
    assert(s.skip(a.len() as int + 1) == b);
}

/// What a target says: all of it is the source where it has no `/`, and otherwise what
/// stands after the last one is the database and what stands before it the source.
pub open spec fn says(target: Seq<char>, source: Seq<char>, database: Option<Seq<char>>) -> bool {
    match database {
        None => !target.contains('/') && source == target,
        Some(named) => exists|a: Seq<char>, b: Seq<char>|
            {
                &&& target == #[trigger] (a + seq!['/'] + b)
                &&& !b.contains('/')
                &&& source == text::trim(a)
                &&& named == text::trim(b)
            },
    }
}

proof fn lemma_says(
    target: Seq<char>,
    source: Seq<char>,
    database: Option<Seq<char>>,
    alias: Seq<char>,
)
    requires
        neat(target),
        says(target, source, database),
        source.len() > 0,
    ensures
        checked_target(target, alias) == Ok::<(Seq<char>, Option<Seq<char>>), Seq<char>>(
            (source, database),
        ),
{
    match database {
        None => {
            lemma_no_rsplit(target, '/');
            lemma_neat(target, Seq::empty());
            assert(target + Seq::<char>::empty() == target);
        },
        Some(named) => {
            let (a, b) = choose|a: Seq<char>, b: Seq<char>|
                {
                    &&& target == #[trigger] (a + seq!['/'] + b)
                    &&& !b.contains('/')
                    &&& source == text::trim(a)
                    &&& named == text::trim(b)
                };
            lemma_rsplit(a, b, '/');
        },
    }
}

/// The word `AS` stands nowhere in a text: after white space, and before white space, an
/// opening bracket or the end.
pub open spec fn holds_no_as(s: Seq<char>) -> bool {
    forall|k: int|
        0 < k && k + 2 <= s.len() ==> !(text::is_white(s[k - 1]) && text::lower_char(
            #[trigger] s[k],
        ) == 'a' && text::lower_char(s[k + 1]) == 's' && (k + 2 == s.len() || text::is_white(
            s[k + 2],
        ) || s[k + 2] == '('))
}

proof fn lemma_as_found(s: Seq<char>, from: nat, k: nat)
    requires
        from <= k < s.len(),
        as_at(s, k as int),
        forall|i: int| from <= i < k ==> !as_at(s, i),
    ensures
        first_as(s, from) == Some(k),
    decreases k - from,
{
    if from < k {
        lemma_as_found(s, from + 1, k);
    }
}

/// The value of an `IMPORT`, as it is written.
pub open spec fn query_text(target: Seq<char>, sql: Seq<char>) -> Seq<char> {
    target + seq![' ', 'A', 'S', ' ', '('] + sql + seq![')']
}

proof fn lemma_as_after(target: Seq<char>, rest: Seq<char>)
    requires
        holds_no_as(target),
    ensures
        first_as(target + seq![' ', 'A', 'S', ' '] + rest, 0) == Some(target.len() + 1),
{
    reveal_strlit("as");
    let s = target + seq![' ', 'A', 'S', ' '] + rest;
    let t = target.len() as int;
    assert(s[t] == ' ' && s[t + 1] == 'A' && s[t + 2] == 'S' && s[t + 3] == ' ');
    let found = s.subrange(t + 1, t + 3);
    assert(text::ascii_lower(found) == "as"@);
    assert(text::ascii_lower("as"@) == "as"@);
    assert(as_at(s, t + 1));
    assert forall|k: int| 0 <= k < t + 1 implies !as_at(s, k) by {
        if as_at(s, k) {
            let part = s.subrange(k, k + 2);
            assert(text::ascii_lower(part) == "as"@);
            assert(text::ascii_lower(part)[0] == 'a' && text::ascii_lower(part)[1] == 's');
            assert(text::lower_char(s[k]) == 'a' && text::lower_char(s[k + 1]) == 's');
            if k + 2 <= t {
                assert(s[k] == target[k] && s[k + 1] == target[k + 1] && s[k - 1] == target[k
                    - 1]);
                if k + 2 < t {
                    assert(s[k + 2] == target[k + 2]);
                }
                assert(text::lower_char(target[k]) == 'a');
            } else {
                assert(s[k] == ' ' || s[k + 1] == ' ');
            }
        }
    }
    lemma_as_found(s, 0, (t + 1) as nat);
}

proof fn lemma_bracketed(sql: Seq<char>, after: Seq<char>, alias: Seq<char>)
    requires
        balanced(sql, 0, 1),
    ensures
        parenthesised(seq![' '] + (seq!['('] + sql + seq![')'] + after), alias) == Ok::<
            (Seq<char>, nat),
            Seq<char>,
        >((text::trim(sql), (sql.len() + 3) as nat)),
{
    let full = seq!['('] + sql + seq![')'] + after;
    let s = seq![' '] + full;
    law_balanced_sql_comes_back_whole(sql, after, alias);
    assert(full[0] == '(');
    lemma_no_trivia(full);
    assert(full.skip(0) == full);
    assert(s[1] == full[0]);
    lemma_one_blank(s);
    assert(s.skip(1) == full);
}

proof fn lemma_query(
    target: Seq<char>,
    sql: Seq<char>,
    alias: Seq<char>,
    tail: Seq<char>,
    source: Seq<char>,
    database: Option<Seq<char>>,
)
    requires
        neat(target),
        holds_no_as(target),
        says(target, source, database),
        source.len() > 0,
        balanced(sql, 0, 1),
        text::trim(sql).len() > 0,
    ensures
        query_import(query_text(target, sql) + tail, alias) == Ok::<(ImportView, nat), Seq<char>>(
            (
                ImportView::Query { alias, source, database, sql: text::trim(sql) },
                query_text(target, sql).len(),
            ),
        ),
{
    let s = query_text(target, sql) + tail;
    let t = target.len() as int;
    let full = seq!['('] + sql + seq![')'] + tail;
    assert(s == target + seq![' ', 'A', 'S', ' '] + full);
    lemma_as_after(target, full);
    assert(s.take(t + 1) == target + seq![' ']);
    lemma_neat(target, seq![' ']);
    lemma_says(target, source, database, alias);
    assert(s.skip(t + 3) == seq![' '] + full);
    lemma_bracketed(sql, tail, alias);
    lemma_trim_twice(sql);
}

proof fn lemma_trim_twice(s: Seq<char>)
    ensures
        text::trim(s).len() > 0 ==> text::trim(text::trim(s)) == text::trim(s),
{
    let w = text::white();
    let a = text::trim_start(s);
    text::lemma_run(s, w);
    text::lemma_run_back(a, w);
    let t = text::trim(s);
    if t.len() > 0 {
        assert(t[0] == a[0]);
        assert(neat(t));
        lemma_neat(t, Seq::empty());
        assert(t + Seq::<char>::empty() == t);
    }
}

proof fn lemma_import_declares(
    kind: Seq<char>,
    name: Seq<char>,
    target: Seq<char>,
    source: Seq<char>,
    database: Option<Seq<char>>,
    sql: Seq<char>,
)
    requires
        spells(kind, "import"@),
        usable_name(name),
        neat(target),
        holds_no_as(target),
        says(target, source, database),
        source.len() > 0,
        balanced(sql, 0, 1),
        text::trim(sql).len() > 0,
    ensures
        declares(
            declaration_text(kind, name, query_text(target, sql)),
            ImportView::Query {
                alias: text::ascii_lower(name),
                source,
                database,
                sql: text::trim(sql),
            },
        ),
{
    reveal_strlit("attach");
    reveal_strlit("import");
    let value = query_text(target, sql);
    let declared = declaration_text(kind, name, value);
    let import = ImportView::Query {
        alias: text::ascii_lower(name),
        source,
        database,
        sql: text::trim(sql),
    };
    assert(value[0] == target[0]);
    lemma_starts(kind, "import"@, name, value);
    assert forall|tail: Seq<char>| tail.len() > 0 && tail[0] == '\n' implies declaration(
        #[trigger] (declared + tail),
    ) == Ok::<(ImportView, nat), Seq<char>>((import, declared.len())) && (peek(declared + tail)
        matches Some(w) && is_kind(w)) by {
        lemma_declared(kind, "import"@, name, value, tail);
        lemma_query(target, sql, text::ascii_lower(name), tail, source, database);
    }
}

/// An `IMPORT` that is written out brings back its SQL whole, to be run on the source its
/// target names: on the source's own database where the target has no `/`, and otherwise
/// on the one named after the last. The name is held in lower case.
pub proof fn law_a_written_import_means_what_it_says(
    define: Seq<char>,
    kind: Seq<char>,
    name: Seq<char>,
    target: Seq<char>,
    source: Seq<char>,
    database: Option<Seq<char>>,
    sql: Seq<char>,
    evaluate: Seq<char>,
    query: Seq<char>,
)
    requires
        spells(define, "define"@),
        spells(kind, "import"@),
        usable_name(name),
        neat(target),
        holds_no_as(target),
        says(target, source, database),
        source.len() > 0,
        balanced(sql, 0, 1),
        text::trim(sql).len() > 0,
        spells(evaluate, "evaluate"@),
        text::trim(query).len() > 0,
    ensures
        reads_as(
            define,
            declaration_text(kind, name, query_text(target, sql)),
            evaluate,
            query,
            ImportView::Query {
                alias: text::ascii_lower(name),
                source,
                database,
                sql: text::trim(sql),
            },
        ),
{
    let import = ImportView::Query {
        alias: text::ascii_lower(name),
        source,
        database,
        sql: text::trim(sql),
    };
    lemma_import_declares(kind, name, target, source, database, sql);
    lemma_buffer(
        define,
        declaration_text(kind, name, query_text(target, sql)),
        evaluate,
        query,
        import,
    );
}

proof fn lemma_starts(kind: Seq<char>, keyword: Seq<char>, name: Seq<char>, value: Seq<char>)
    requires
        spells(kind, keyword),
        kind.len() > 0,
    ensures
        declaration_text(kind, name, value).len() == kind.len() + 1 + name.len() + 3 + value.len(),
        solid(declaration_text(kind, name, value)[0]),
{
    assert(declaration_text(kind, name, value)[0] == kind[0]);
    assert(text::is_ascii_letter(kind[0]));
}

/// A value that takes up the rest of its line.
proof fn lemma_line(value: Seq<char>, tail: Seq<char>)
    requires
        neat(value),
        !value.contains('\n'),
        tail.len() > 0,
        tail[0] == '\n',
    ensures
        text::position(value + tail, '\n') == value.len(),
        text::trim((value + tail).take(value.len() as int)) == value,
{
    let rest = tail.skip(1);
    let s = value + tail;
    assert(s == value + seq!['\n'] + rest);
    lemma_split_first(value, rest, '\n');
    assert(s.take(value.len() as int) == value + Seq::<char>::empty());
    lemma_neat(value, Seq::empty());
}

proof fn lemma_attach_declares(
    kind: Seq<char>,
    name: Seq<char>,
    target: Seq<char>,
    source: Seq<char>,
    database: Option<Seq<char>>,
)
    requires
        spells(kind, "attach"@),
        usable_name(name),
        neat(target),
        !target.contains('\n'),
        says(target, source, database),
        source.len() > 0,
    ensures
        declares(
            declaration_text(kind, name, target),
            ImportView::Attach { alias: text::ascii_lower(name), source, database },
        ),
{
    reveal_strlit("attach");
    let alias = text::ascii_lower(name);
    let declared = declaration_text(kind, name, target);
    let import = ImportView::Attach { alias, source, database };
    lemma_starts(kind, "attach"@, name, target);
    lemma_says(target, source, database, alias);
    assert forall|tail: Seq<char>| tail.len() > 0 && tail[0] == '\n' implies declaration(
        #[trigger] (declared + tail),
    ) == Ok::<(ImportView, nat), Seq<char>>((import, declared.len())) && (peek(declared + tail)
        matches Some(w) && is_kind(w)) by {
        lemma_declared(kind, "attach"@, name, target, tail);
        lemma_line(target, tail);
    }
}

/// An `ATTACH` that is written out names its source, and the database after the last `/`
/// of its target or none.
pub proof fn law_a_written_attach_means_what_it_says(
    define: Seq<char>,
    kind: Seq<char>,
    name: Seq<char>,
    target: Seq<char>,
    source: Seq<char>,
    database: Option<Seq<char>>,
    evaluate: Seq<char>,
    query: Seq<char>,
)
    requires
        spells(define, "define"@),
        spells(kind, "attach"@),
        usable_name(name),
        neat(target),
        !target.contains('\n'),
        says(target, source, database),
        source.len() > 0,
        spells(evaluate, "evaluate"@),
        text::trim(query).len() > 0,
    ensures
        reads_as(
            define,
            declaration_text(kind, name, target),
            evaluate,
            query,
            ImportView::Attach { alias: text::ascii_lower(name), source, database },
        ),
{
    let import = ImportView::Attach { alias: text::ascii_lower(name), source, database };
    lemma_attach_declares(kind, name, target, source, database);
    lemma_buffer(define, declaration_text(kind, name, target), evaluate, query, import);
}

/// No two dots stand side by side, and no separator leads.
pub open spec fn stays_inside(pattern: Seq<char>) -> bool {
    &&& pattern.len() > 0 ==> pattern[0] != '/' && pattern[0] != '\\'
    &&& forall|i: int| 0 <= i < pattern.len() - 1 ==> !(#[trigger] pattern[i] == '.' && pattern[i
        + 1] == '.')
}

proof fn lemma_stays_inside(pattern: Seq<char>)
    requires
        stays_inside(pattern),
    ensures
        !climbs(pattern),
{
    reveal_strlit("/");
    reveal_strlit("\\");
    reveal_strlit("..");
    if pattern.len() > 0 {
        assert(pattern.take(1)[0] == pattern[0]);
    }
    if text::contains(pattern, ".."@) {
        let i = choose|i: int|
            0 <= i <= pattern.len() && text::starts_with(#[trigger] pattern.skip(i), ".."@);
        let t = pattern.skip(i).take(2);
        assert(t[0] == pattern[i] && t[1] == pattern[i + 1]);
    }
}

proof fn lemma_files_declares(
    kind: Seq<char>,
    name: Seq<char>,
    folder: Seq<char>,
    below: Option<Seq<char>>,
)
    requires
        spells(kind, "files"@),
        usable_name(name),
        neat(folder),
        !folder.contains('/'),
        !folder.contains('\n'),
        below matches Some(pattern) ==> neat(pattern) && !pattern.contains('\n') && stays_inside(
            pattern,
        ),
    ensures
        declares(
            declaration_text(
                kind,
                name,
                match below {
                    Some(pattern) => folder + seq!['/'] + pattern,
                    None => folder,
                },
            ),
            ImportView::Files {
                alias: text::ascii_lower(name),
                source: folder,
                pattern: match below {
                    Some(pattern) => pattern,
                    None => Seq::empty(),
                },
            },
        ),
{
    reveal_strlit("attach");
    reveal_strlit("import");
    reveal_strlit("files");
    let alias = text::ascii_lower(name);
    let value = match below {
        Some(pattern) => folder + seq!['/'] + pattern,
        None => folder,
    };
    let pattern = match below {
        Some(pattern) => pattern,
        None => Seq::empty(),
    };
    assert(value[0] == folder[0]);
    match below {
        Some(p) => {
            assert(value[value.len() - 1] == p[p.len() - 1]);
            assert(!value.contains('\n')) by {
                if value.contains('\n') {
                    let i = choose|i: int| 0 <= i < value.len() && value[i] == '\n';
                    if i < folder.len() {
                        assert(folder[i] == '\n');
                    } else if i > folder.len() {
                        assert(p[i - folder.len() - 1] == '\n');
                    }
                }
            }
            lemma_split_first(folder, p, '/');
            lemma_neat(p, Seq::empty());
            assert(p + Seq::<char>::empty() == p);
        },
        None => {
            lemma_no_rsplit(folder, '/');
        },
    }
    lemma_neat(folder, Seq::empty());
    assert(folder + Seq::<char>::empty() == folder);
    lemma_stays_inside(pattern);
    lemma_starts(kind, "files"@, name, value);
    let declared = declaration_text(kind, name, value);
    let import = ImportView::Files { alias, source: folder, pattern };
    assert forall|tail: Seq<char>| tail.len() > 0 && tail[0] == '\n' implies declaration(
        #[trigger] (declared + tail),
    ) == Ok::<(ImportView, nat), Seq<char>>((import, declared.len())) && (peek(declared + tail)
        matches Some(w) && is_kind(w)) by {
        lemma_declared(kind, "files"@, name, value, tail);
        lemma_line(value, tail);
    }
}

/// A `FILES` that is written out reads what its pattern names below the folder of its
/// source; the first `/` stands between the two, and a source without one is itself the
/// file.
pub proof fn law_a_written_files_means_what_it_says(
    define: Seq<char>,
    kind: Seq<char>,
    name: Seq<char>,
    folder: Seq<char>,
    below: Option<Seq<char>>,
    evaluate: Seq<char>,
    query: Seq<char>,
)
    requires
        spells(define, "define"@),
        spells(kind, "files"@),
        usable_name(name),
        neat(folder),
        !folder.contains('/'),
        !folder.contains('\n'),
        below matches Some(pattern) ==> neat(pattern) && !pattern.contains('\n') && stays_inside(
            pattern,
        ),
        spells(evaluate, "evaluate"@),
        text::trim(query).len() > 0,
    ensures
        reads_as(
            define,
            declaration_text(
                kind,
                name,
                match below {
                    Some(pattern) => folder + seq!['/'] + pattern,
                    None => folder,
                },
            ),
            evaluate,
            query,
            ImportView::Files {
                alias: text::ascii_lower(name),
                source: folder,
                pattern: match below {
                    Some(pattern) => pattern,
                    None => Seq::empty(),
                },
            },
        ),
{
    let value = match below {
        Some(pattern) => folder + seq!['/'] + pattern,
        None => folder,
    };
    let pattern = match below {
        Some(pattern) => pattern,
        None => Seq::empty(),
    };
    let import = ImportView::Files { alias: text::ascii_lower(name), source: folder, pattern };
    lemma_files_declares(kind, name, folder, below);
    lemma_buffer(define, declaration_text(kind, name, value), evaluate, query, import);
}

proof fn lemma_excel_declares(
    kind: Seq<char>,
    name: Seq<char>,
    path: Seq<char>,
    sheet: Option<Seq<char>>,
)
    requires
        spells(kind, "excel"@),
        usable_name(name),
        neat(path),
        !path.contains('#'),
        !path.contains('\n'),
        sheet matches Some(named) ==> neat(named) && !named.contains('\n'),
    ensures
        declares(
            declaration_text(
                kind,
                name,
                match sheet {
                    Some(named) => path + seq!['#'] + named,
                    None => path,
                },
            ),
            ImportView::Excel { alias: text::ascii_lower(name), path, sheet },
        ),
{
    reveal_strlit("attach");
    reveal_strlit("import");
    reveal_strlit("files");
    reveal_strlit("excel");
    let alias = text::ascii_lower(name);
    let value = match sheet {
        Some(named) => path + seq!['#'] + named,
        None => path,
    };
    assert(value[0] == path[0]);
    match sheet {
        Some(p) => {
            assert(value[value.len() - 1] == p[p.len() - 1]);
            assert(!value.contains('\n')) by {
                if value.contains('\n') {
                    let i = choose|i: int| 0 <= i < value.len() && value[i] == '\n';
                    if i < path.len() {
                        assert(path[i] == '\n');
                    } else if i > path.len() {
                        assert(p[i - path.len() - 1] == '\n');
                    }
                }
            }
            lemma_split_first(path, p, '#');
            lemma_neat(p, Seq::empty());
            assert(p + Seq::<char>::empty() == p);
        },
        None => {
            lemma_no_rsplit(path, '#');
        },
    }
    lemma_neat(path, Seq::empty());
    assert(path + Seq::<char>::empty() == path);
    lemma_starts(kind, "excel"@, name, value);
    let declared = declaration_text(kind, name, value);
    let import = ImportView::Excel { alias, path, sheet };
    assert forall|tail: Seq<char>| tail.len() > 0 && tail[0] == '\n' implies declaration(
        #[trigger] (declared + tail),
    ) == Ok::<(ImportView, nat), Seq<char>>((import, declared.len())) && (peek(declared + tail)
        matches Some(w) && is_kind(w)) by {
        lemma_declared(kind, "excel"@, name, value, tail);
        lemma_line(value, tail);
    }
}

/// An `EXCEL` that is written out reads the workbook at its path, and the sheet named after
/// the first `#` or none in particular.
pub proof fn law_a_written_excel_means_what_it_says(
    define: Seq<char>,
    kind: Seq<char>,
    name: Seq<char>,
    path: Seq<char>,
    sheet: Option<Seq<char>>,
    evaluate: Seq<char>,
    query: Seq<char>,
)
    requires
        spells(define, "define"@),
        spells(kind, "excel"@),
        usable_name(name),
        neat(path),
        !path.contains('#'),
        !path.contains('\n'),
        sheet matches Some(named) ==> neat(named) && !named.contains('\n'),
        spells(evaluate, "evaluate"@),
        text::trim(query).len() > 0,
    ensures
        reads_as(
            define,
            declaration_text(
                kind,
                name,
                match sheet {
                    Some(named) => path + seq!['#'] + named,
                    None => path,
                },
            ),
            evaluate,
            query,
            ImportView::Excel { alias: text::ascii_lower(name), path, sheet },
        ),
{
    let value = match sheet {
        Some(named) => path + seq!['#'] + named,
        None => path,
    };
    let import = ImportView::Excel { alias: text::ascii_lower(name), path, sheet };
    lemma_excel_declares(kind, name, path, sheet);
    lemma_buffer(define, declaration_text(kind, name, value), evaluate, query, import);
}

/// Declarations, each on a line of its own.
pub open spec fn lines_of(declared: Seq<Seq<char>>) -> Seq<char>
    decreases declared.len(),
{
    if declared.len() == 0 {
        Seq::empty()
    } else {
        seq!['\n'] + declared[0] + lines_of(declared.skip(1))
    }
}

/// The first of those lines, and what follows it.
proof fn lemma_first_line(
    s: Seq<char>,
    at: nat,
    declared: Seq<Seq<char>>,
    evaluate: Seq<char>,
    query: Seq<char>,
)
    requires
        at <= s.len(),
        declared.len() > 0,
        declared[0].len() > 0,
        solid(declared[0][0]),
        s.skip(at as int) == lines_of(declared) + after_declared(evaluate, query),
    ensures
        ({
            let d = declared[0];
            let more = lines_of(declared.skip(1)) + after_declared(evaluate, query);
            let next = at + 1 + d.len();
            &&& next <= s.len()
            &&& trivia(s.skip(at as int)) == 1
            &&& s.skip(at as int + 1) == d + more
            &&& s.skip(next as int) == more
            &&& more.len() > 0
            &&& more[0] == '\n'
            &&& lines_of(declared).len() == 1 + d.len() + lines_of(declared.skip(1)).len()
        }),
{
    let d = declared[0];
    let more = lines_of(declared.skip(1)) + after_declared(evaluate, query);
    let here = s.skip(at as int);
    assert(here == seq!['\n'] + (d + more));
    assert(here[1] == d[0]);
    lemma_one_blank(here);
    assert(s.skip(at as int + 1) == here.skip(1));
    assert(here.skip(1) == d + more);
    let next = at + 1 + d.len();
    assert(s.skip(next as int) == here.skip(1 + d.len() as int));
    assert(here.skip(1 + d.len() as int) == more);
    if declared.skip(1).len() == 0 {
        assert(more == after_declared(evaluate, query));
    }
}

proof fn lemma_no_line_left(s: Seq<char>, at: nat, evaluate: Seq<char>, query: Seq<char>)
    requires
        at <= s.len(),
        spells(evaluate, "evaluate"@),
        s.skip(at as int) == after_declared(evaluate, query),
    ensures
        trivia(s.skip(at as int)) == 1,
        peek(s.skip(at as int + 1)) == Some("evaluate"@),
{
    reveal_strlit("evaluate");
    let tail = after_declared(evaluate, query);
    let line = seq!['\n'] + query;
    assert(tail[1] == evaluate[0]);
    lemma_keyword(evaluate, "evaluate"@, line);
    lemma_one_blank(tail);
    assert(s.skip(at as int + 1) == tail.skip(1));
    assert(tail.skip(1) == evaluate + line);
}

/// No two of those claim one name.
pub open spec fn each_once(imports: Seq<ImportView>) -> bool {
    forall|i: int, j: int|
        0 <= i < j < imports.len() ==> (#[trigger] imports[i]).alias() != (
        #[trigger] imports[j]).alias()
}

proof fn lemma_unclaimed(taken: Seq<ImportView>, imports: Seq<ImportView>)
    requires
        imports.len() > 0,
        each_once(taken + imports),
    ensures
        !claims(taken, imports[0].alias()),
        taken.push(imports[0]) + imports.skip(1) == taken + imports,
{
    let both = taken + imports;
    assert(taken.push(imports[0]) + imports.skip(1) == both);
    if claims(taken, imports[0].alias()) {
        let i = choose|i: int|
            0 <= i < taken.len() && (#[trigger] taken[i]).alias() == imports[0].alias();
        assert(both[i] == taken[i] && both[taken.len() as int] == imports[0]);
    }
}

#[verifier::spinoff_prover]
proof fn lemma_read_in_order(
    s: Seq<char>,
    at: nat,
    declared: Seq<Seq<char>>,
    taken: Seq<ImportView>,
    imports: Seq<ImportView>,
    evaluate: Seq<char>,
    query: Seq<char>,
)
    requires
        spells(evaluate, "evaluate"@),
        declared.len() == imports.len(),
        forall|i: int|
            0 <= i < declared.len() ==> declares(#[trigger] declared[i], imports[i]),
        each_once(taken + imports),
        at <= s.len(),
        s.skip(at as int) == lines_of(declared) + after_declared(evaluate, query),
    ensures
        declarations(s, at, taken) == Ok::<(Seq<ImportView>, nat), Seq<char>>(
            (taken + imports, (at + lines_of(declared).len() + 1) as nat),
        ),
    decreases declared.len(),
{
    if declared.len() == 0 {
        reveal_strlit("evaluate");
        reveal_strlit("attach");
        reveal_strlit("import");
        reveal_strlit("files");
        reveal_strlit("excel");
        assert(s.skip(at as int) == after_declared(evaluate, query));
        lemma_no_line_left(s, at, evaluate, query);
        assert(!is_kind("evaluate"@));
        lemma_declarations_stop(s, at, taken, at + 1);
        assert(taken + imports == taken);
    } else {
        let d = declared[0];
        let import = imports[0];
        let rest = declared.skip(1);
        let left = imports.skip(1);
        assert(declares(d, import));
        lemma_first_line(s, at, declared, evaluate, query);
        lemma_unclaimed(taken, imports);
        lemma_declarations_step(s, at, taken, at + 1, import, d.len());
        let next = (at + 1 + d.len()) as nat;
        assert forall|i: int| 0 <= i < rest.len() implies declares(#[trigger] rest[i], left[i]) by {
            assert(rest[i] == declared[i + 1]);
            assert(left[i] == imports[i + 1]);
        }
        lemma_read_in_order(s, next, rest, taken.push(import), left, evaluate, query);
    }
}

/// `define`, some lines, `evaluate` and a query.
pub open spec fn whole_buffer(
    define: Seq<char>,
    lines: Seq<char>,
    evaluate: Seq<char>,
    query: Seq<char>,
) -> Seq<char> {
    define + lines + seq!['\n'] + evaluate + seq!['\n'] + query
}

proof fn lemma_whole_shape(
    define: Seq<char>,
    lines: Seq<char>,
    evaluate: Seq<char>,
    query: Seq<char>,
)
    requires
        spells(define, "define"@),
        spells(evaluate, "evaluate"@),
        lines.len() == 0 || lines[0] == '\n',
    ensures
        ({
            let s = whole_buffer(define, lines, evaluate, query);
            let e = define.len() + lines.len() + 1;
            &&& trivia(s) == 0
            &&& s.skip(0) == s
            &&& peek(s) == Some("define"@)
            &&& word(s) == define.len()
            &&& define.len() <= s.len()
            &&& s.skip(define.len() as int) == lines + after_declared(evaluate, query)
            &&& trivia(s.skip(e as int)) == 0
            &&& peek(s.skip(e as int)) == Some("evaluate"@)
            &&& word(s.skip(e as int)) == evaluate.len()
        }),
{
    reveal_strlit("define");
    reveal_strlit("evaluate");
    let s = whole_buffer(define, lines, evaluate, query);
    let after = lines + after_declared(evaluate, query);
    assert(s == define + after);
    if lines.len() > 0 {
        assert(after[0] == lines[0]);
    } else {
        assert(after == after_declared(evaluate, query));
    }
    lemma_keyword(define, "define"@, after);
    assert(s[0] == define[0]);
    lemma_no_trivia(s);
    assert(s.skip(0) == s);
    assert(s.skip(define.len() as int) == after);
    let e = define.len() + lines.len() + 1;
    let line = seq!['\n'] + query;
    assert(s.skip(e as int) == evaluate + line);
    lemma_keyword(evaluate, "evaluate"@, line);
    assert((evaluate + line)[0] == evaluate[0]);
    lemma_no_trivia(evaluate + line);
}

proof fn lemma_whole_sql(
    define: Seq<char>,
    lines: Seq<char>,
    evaluate: Seq<char>,
    query: Seq<char>,
)
    requires
        text::trim(query).len() > 0,
    ensures
        ({
            let s = whole_buffer(define, lines, evaluate, query);
            let sql = padded(s, define.len() + lines.len() + 1 + evaluate.len());
            &&& text::trim(sql).len() > 0
            &&& text::ends_with(sql, seq!['\n'] + query)
        }),
{
    let s = whole_buffer(define, lines, evaluate, query);
    let at = (define.len() + lines.len() + 1 + evaluate.len()) as int;
    let line = seq!['\n'] + query;
    assert(s.skip(at) == line);
    let head = text::repeat('\n', text::count(s.take(at), '\n'));
    let sql = head + line;
    assert(sql.skip(sql.len() - line.len()) == line);
    text::lemma_blank(sql);
    text::lemma_blank(query);
    if text::trim(sql).len() == 0 {
        assert forall|i: int| 0 <= i < query.len() implies text::is_white(#[trigger] query[i]) by {
            assert(sql[head.len() + 1 + i] == query[i]);
        }
    }
}

/// A buffer with any number of declarations gives what each of them declares, in the order
/// they are written in, and every one of them.
#[verifier::spinoff_prover]
pub proof fn law_declarations_are_read_in_order(
    define: Seq<char>,
    declared: Seq<Seq<char>>,
    imports: Seq<ImportView>,
    evaluate: Seq<char>,
    query: Seq<char>,
)
    requires
        spells(define, "define"@),
        spells(evaluate, "evaluate"@),
        text::trim(query).len() > 0,
        declared.len() == imports.len(),
        forall|i: int| 0 <= i < declared.len() ==> declares(#[trigger] declared[i], imports[i]),
        each_once(imports),
    ensures
        program_of(whole_buffer(define, lines_of(declared), evaluate, query)) matches Ok(program)
            && program.imports == imports && text::ends_with(
            program.sql,
            seq!['\n'] + query,
        ),
{
    reveal_strlit("define");
    reveal_strlit("evaluate");
    let lines = lines_of(declared);
    let s = whole_buffer(define, lines, evaluate, query);
    lemma_whole_shape(define, lines, evaluate, query);
    lemma_whole_sql(define, lines, evaluate, query);
    let none = Seq::<ImportView>::empty();
    assert(none + imports == imports);
    lemma_read_in_order(s, define.len(), declared, none, imports, evaluate, query);
    let e = (define.len() + lines.len() + 1) as nat;
    assert(preamble(s) == Ok::<(Seq<ImportView>, nat), Seq<char>>((imports, e)));
}

// ------------------------------------------------------ what brackets do not count

/// What stands in quotes is one token, whatever it holds: a bracket, a comment mark or
/// another kind of quote in it is part of it.
pub proof fn law_what_is_quoted_is_one_token(
    before: Seq<char>,
    mark: char,
    inside: Seq<char>,
    rest: Seq<char>,
)
    requires
        mark == '\'' || mark == '"' || mark == '`' || mark == '[',
        !inside.contains(if mark == '[' {
            ']'
        } else {
            mark
        }),
    ensures
        ({
            let close = if mark == '[' {
                ']'
            } else {
                mark
            };
            let s = before + seq![mark] + inside + seq![close] + rest;
            token_end(s, before.len()) == before.len() + inside.len() + 2
        }),
{
    let close = if mark == '[' {
        ']'
    } else {
        mark
    };
    let s = before + seq![mark] + inside + seq![close] + rest;
    let tail = inside + seq![close] + rest;
    let at = before.len() as int;
    assert(s[at] == mark);
    assert(s.skip(at + 1) == tail);
    let f = text::other_than(close);
    assert forall|i: int| 0 <= i < inside.len() implies f(#[trigger] tail[i]) by {
        assert(tail[i] == inside[i]);
        assert(inside.contains(inside[i]));
    }
    text::lemma_run_is(tail, f, inside.len() as int);
}

/// A comment is one token: up to its line's end, or with the mark that closes it.
pub proof fn law_a_comment_is_one_token(before: Seq<char>, inside: Seq<char>, rest: Seq<char>)
    ensures
        !inside.contains('\n') ==> token_end(
            before + "--"@ + inside + seq!['\n'] + rest,
            before.len(),
        ) == before.len() + 2 + inside.len(),
        text::find("/*"@ + inside + "*/"@ + rest, "*/"@) == Some(2 + inside.len()) ==> token_end(
            before + "/*"@ + inside + "*/"@ + rest,
            before.len(),
        ) == before.len() + inside.len() + 4,
{
    reveal_strlit("--");
    reveal_strlit("/*");
    reveal_strlit("*/");
    let at = before.len() as int;
    if !inside.contains('\n') {
        let tail = "--"@ + inside + seq!['\n'] + rest;
        let s = before + "--"@ + inside + seq!['\n'] + rest;
        assert(s.skip(at) == tail);
        assert(s[at] == '-');
        assert(tail.take(2) == "--"@);
        lemma_line_ends(inside, rest);
    }
    if text::find("/*"@ + inside + "*/"@ + rest, "*/"@) == Some(2 + inside.len()) {
        let tail = "/*"@ + inside + "*/"@ + rest;
        let s = before + "/*"@ + inside + "*/"@ + rest;
        assert(s.skip(at) == tail);
        assert(s[at] == '/');
        assert(tail.take(2) == "/*"@);
        assert(!at_line_comment(tail)) by {
            assert(tail.take(2)[0] == '/');
        }
    }
}

proof fn lemma_line_ends(inside: Seq<char>, rest: Seq<char>)
    requires
        !inside.contains('\n'),
    ensures
        text::position("--"@ + inside + seq!['\n'] + rest, '\n') == 2 + inside.len(),
{
    reveal_strlit("--");
    let tail = "--"@ + inside + seq!['\n'] + rest;
    let f = text::other_than('\n');
    assert forall|i: int| 0 <= i < 2 + inside.len() implies f(#[trigger] tail[i]) by {
        if i >= 2 {
            assert(tail[i] == inside[i - 2]);
            assert(inside.contains(inside[i - 2]));
        }
    }
    text::lemma_run_is(tail, f, 2 + inside.len() as int);
}

/// White space and comments in front are passed over whole, and nothing else is.
pub proof fn law_only_white_space_and_comments_are_passed_over(
    blank: Seq<char>,
    inside: Seq<char>,
    s: Seq<char>,
)
    requires
        forall|i: int| 0 <= i < blank.len() ==> text::is_white(#[trigger] blank[i]),
        !inside.contains('\n'),
    ensures
        trivia(blank + s) == blank.len() + trivia(s),
        trivia("--"@ + inside + seq!['\n'] + s) == inside.len() + 3 + trivia(s),
        text::find("/*"@ + inside + "*/"@ + s, "*/"@) == Some(2 + inside.len()) ==> trivia(
            "/*"@ + inside + "*/"@ + s,
        ) == inside.len() + 4 + trivia(s),
        s.len() > 0 && !text::is_white(s[0]) && s[0] != '-' && s[0] != '/' ==> trivia(s) == 0,
{
    reveal_strlit("--");
    reveal_strlit("/*");
    reveal_strlit("*/");
    let white = text::white();
    text::lemma_run(s, white);
    let n = text::run(s, white) as int;
    let all = blank + s;
    assert forall|i: int| 0 <= i < blank.len() + n implies white(#[trigger] all[i]) by {
        if i < blank.len() {
            assert(all[i] == blank[i]);
        } else {
            assert(all[i] == s[i - blank.len()]);
        }
    }
    if n < s.len() {
        assert(all[blank.len() + n] == s[n]);
    }
    text::lemma_run_is(all, white, blank.len() + n);
    assert(all.skip(blank.len() + n) == s.skip(n));
    let line = "--"@ + inside + seq!['\n'] + s;
    assert(line[0] == '-');
    text::lemma_run_is(line, white, 0);
    assert(line.skip(0) == line);
    assert(line.take(2) == "--"@);
    lemma_line_ends(inside, s);
    assert(line.skip(inside.len() as int + 3) == s);
    if text::find("/*"@ + inside + "*/"@ + s, "*/"@) == Some(2 + inside.len()) {
        let block = "/*"@ + inside + "*/"@ + s;
        assert(block[0] == '/');
        text::lemma_run_is(block, white, 0);
        assert(block.skip(0) == block);
        assert(block.take(2) == "/*"@);
        assert(!at_line_comment(block)) by {
            assert(block.take(2)[0] == '/');
        }
        assert(block.skip(inside.len() as int + 4) == s);
    }
    if s.len() > 0 && !text::is_white(s[0]) && s[0] != '-' && s[0] != '/' {
        text::lemma_run_is(s, white, 0);
        assert(s.skip(0) == s);
        if at_line_comment(s) {
            assert(s.take(2)[0] == s[0]);
        }
        if at_block_comment(s) {
            assert(s.take(2)[0] == s[0]);
        }
    }
}

/// A comment in front of a buffer does not change what kind of buffer it is.
pub proof fn law_a_comment_in_front_does_not_matter(inside: Seq<char>, s: Seq<char>)
    requires
        !inside.contains('\n'),
    ensures
        federated("--"@ + inside + seq!['\n'] + s) <==> federated(s),
{
    reveal_strlit("--");
    law_only_white_space_and_comments_are_passed_over(Seq::empty(), inside, s);
    let line = "--"@ + inside + seq!['\n'] + s;
    lemma_trivia(s);
    assert(line.skip(trivia(line) as int) == s.skip(trivia(s) as int));
}

/// A name is usable exactly where it is letters, digits and underscores and does not begin
/// with a digit, and only then has nothing wrong with it.
pub proof fn law_a_name_is_refused_only_for_a_reason(alias: Seq<char>)
    ensures
        name_problem(alias) is None <==> alias.len() > 0 && !('0' <= alias[0] <= '9') && forall|i: int|
            0 <= i < alias.len() ==> ('a' <= (#[trigger] alias[i]) <= 'z') || ('A' <= alias[i]
                <= 'Z') || ('0' <= alias[i] <= '9') || alias[i] == '_',
{
}

/// A name that is declared twice is refused, whatever is declared under it.
pub proof fn law_a_name_is_claimed_once(s: Seq<char>, at: nat, taken: Seq<ImportView>)
    ensures
        ({
            let b = at + trivia(s.skip(at as int));
            (at <= s.len() && peek(s.skip(b as int)) is Some && is_kind(
                peek(s.skip(b as int))->Some_0,
            ) && declaration(s.skip(b as int)) is Ok && claims(
                taken,
                declaration(s.skip(b as int))->Ok_0.0.alias(),
            )) ==> declarations(s, at, taken) is Err
        }),
{
}

} // verus!
