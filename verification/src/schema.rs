//! Cached schema snapshots, and the search that reads across them.

use crate::model::{
    self, ColumnInfo, ColumnInfoView, TableKind, TableSchema, TableSchemaView,
};
use crate::order::{self, Ranked};
use crate::table;
use crate::text;
use std::sync::Arc;
use vstd::prelude::*;
use vstd::string::*;

verus! {

/// Search stops here: this is already more than anyone reads.
pub const MAX_HITS: usize = 100;

/// The tables of one database of one source.
#[derive(Debug)]
pub struct Snapshot {
    pub source: String,
    pub database: String,
    pub tables: Vec<TableSchema>,
}

#[verifier::ext_equal]
pub struct SnapshotView {
    pub source: Seq<char>,
    pub database: Seq<char>,
    pub tables: Seq<TableSchemaView>,
}

impl View for Snapshot {
    type V = SnapshotView;

    open spec fn view(&self) -> SnapshotView {
        SnapshotView {
            source: self.source@,
            database: self.database@,
            tables: model::schemas_view(self.tables@),
        }
    }
}

pub open spec fn snapshots_view(snapshots: Seq<Arc<Snapshot>>) -> Seq<SnapshotView> {
    Seq::new(snapshots.len(), |i: int| (*snapshots[i])@)
}

/// How many columns those tables have.
pub open spec fn columns_in(tables: Seq<TableSchemaView>) -> nat
    decreases tables.len(),
{
    if tables.len() == 0 {
        0
    } else {
        columns_in(tables.drop_last()) + tables.last().columns.len()
    }
}

impl Snapshot {
    pub fn column_count(&self) -> (n: u128)
        ensures
            n == columns_in(self@.tables),
    {
        let ghost all = self@.tables;
        let mut n: u128 = 0;
        let mut i: usize = 0;
        assert(all.take(0) =~= Seq::<TableSchemaView>::empty());
        while i < self.tables.len()
            invariant
                i <= self.tables.len(),
                all == self@.tables,
                n == columns_in(all.take(i as int)),
                n <= i * usize::MAX,
            decreases self.tables.len() - i,
        {
            assert(all.take(i as int + 1).drop_last() =~= all.take(i as int));
            assert(all.take(i as int + 1).last() == self.tables@[i as int]@);
            let more: usize = self.tables[i].columns.len();
            assert(i * usize::MAX + usize::MAX == (i + 1) * usize::MAX) by (nonlinear_arith);
            assert((i + 1) * usize::MAX <= u128::MAX) by (nonlinear_arith)
                requires
                    0 <= i < usize::MAX,
            ;
            n = n + more as u128;
            i = i + 1;
        }
        assert(all.take(i as int) =~= all);
        n
    }
}

// --------------------------------------------------------------------------- hits

/// What a hit is: a table, or a column of one.
#[derive(Debug, Clone, Copy, PartialEq, Eq, Structural)]
pub enum HitKind {
    Table,
    View,
    Column,
}

/// Something a search found.
#[derive(Debug, Clone)]
pub struct Hit {
    pub kind: HitKind,
    pub source: String,
    pub database: String,
    pub schema: String,
    pub table: String,
    /// Absent for a table.
    pub column: Option<String>,
    /// The engine's spelling of the type, for a column.
    pub data_type: Option<String>,
    pub is_primary_key: bool,
    /// Lower is better.
    pub rank: u8,
}

#[verifier::ext_equal]
pub struct HitView {
    pub kind: HitKind,
    pub source: Seq<char>,
    pub database: Seq<char>,
    pub schema: Seq<char>,
    pub table: Seq<char>,
    pub column: Option<Seq<char>>,
    pub data_type: Option<Seq<char>>,
    pub is_primary_key: bool,
    pub rank: u8,
}

impl View for Hit {
    type V = HitView;

    open spec fn view(&self) -> HitView {
        HitView {
            kind: self.kind,
            source: self.source@,
            database: self.database@,
            schema: self.schema@,
            table: self.table@,
            column: text::opt(self.column),
            data_type: text::opt(self.data_type),
            is_primary_key: self.is_primary_key,
            rank: self.rank,
        }
    }
}

pub open spec fn hits_view(hits: Seq<Hit>) -> Seq<HitView> {
    Seq::new(hits.len(), |i: int| hits[i]@)
}

/// How well a name matches, whatever its case: exactly, at its beginning, anywhere, or
/// not at all. `needle` is in lower case already.
pub open spec fn ranked(name: Seq<char>, needle: Seq<char>) -> Option<u8> {
    let lowered = text::lowercase(name);
    if lowered == needle {
        Some(0)
    } else if text::starts_with(lowered, needle) {
        Some(1)
    } else if text::contains(lowered, needle) {
        Some(2)
    } else {
        None
    }
}

pub fn rank(haystack: &str, needle: &str) -> (r: Option<u8>)
    ensures
        r == ranked(haystack@, needle@),
{
    let lowered = text::to_lowercase(haystack);
    if text::same(&lowered, needle) {
        Some(0)
    } else if text::begins(&lowered, needle) {
        Some(1)
    } else if text::holds(&lowered, needle) {
        Some(2)
    } else {
        None
    }
}

/// How well a column matches: by its name, or less well by its type, so that `numeric`
/// finds every column declared that way.
pub open spec fn column_rank(column: ColumnInfoView, needle: Seq<char>) -> Option<u8> {
    match ranked(column.name, needle) {
        Some(rank) => Some(rank),
        None => match ranked(column.data_type, needle) {
            Some(rank) => Some((rank + 3) as u8),
            None => None,
        },
    }
}

fn rank_column(column: &ColumnInfo, needle: &str) -> (r: Option<u8>)
    ensures
        r == column_rank(column@, needle@),
{
    match rank(&column.name, needle) {
        Some(found) => Some(found),
        None => match rank(&column.data_type, needle) {
            Some(found) => Some(found + 3),
            None => None,
        },
    }
}

pub open spec fn table_hit(s: SnapshotView, t: TableSchemaView, rank: u8) -> HitView {
    HitView {
        kind: match t.kind {
            TableKind::View => HitKind::View,
            TableKind::Table => HitKind::Table,
        },
        source: s.source,
        database: s.database,
        schema: t.schema,
        table: t.name,
        column: None,
        data_type: None,
        is_primary_key: false,
        rank,
    }
}

pub open spec fn column_hit(
    s: SnapshotView,
    t: TableSchemaView,
    c: ColumnInfoView,
    rank: u8,
) -> HitView {
    HitView {
        kind: HitKind::Column,
        source: s.source,
        database: s.database,
        schema: t.schema,
        table: t.name,
        column: Some(c.name),
        data_type: Some(c.data_type),
        is_primary_key: c.is_primary_key,
        rank,
    }
}

/// What a search finds among the first `n` columns of a table.
pub open spec fn column_hits(s: SnapshotView, t: TableSchemaView, needle: Seq<char>, n: nat) -> Seq<
    HitView,
>
    decreases n,
{
    if n == 0 {
        Seq::empty()
    } else {
        let before = column_hits(s, t, needle, (n - 1) as nat);
        match column_rank(t.columns[n - 1], needle) {
            Some(rank) => before.push(column_hit(s, t, t.columns[n - 1], rank)),
            None => before,
        }
    }
}

/// What a search finds in a table: itself, and then its columns.
pub open spec fn table_hits(s: SnapshotView, t: TableSchemaView, needle: Seq<char>) -> Seq<
    HitView,
> {
    (match ranked(t.name, needle) {
        Some(rank) => seq![table_hit(s, t, rank)],
        None => Seq::empty(),
    }) + column_hits(s, t, needle, t.columns.len())
}

/// What a search finds in the first `n` tables of a snapshot.
pub open spec fn snapshot_hits(s: SnapshotView, needle: Seq<char>, n: nat) -> Seq<HitView>
    decreases n,
{
    if n == 0 {
        Seq::empty()
    } else {
        snapshot_hits(s, needle, (n - 1) as nat) + table_hits(s, s.tables[n - 1], needle)
    }
}

/// What a search finds in those snapshots.
pub open spec fn all_hits(snapshots: Seq<SnapshotView>, needle: Seq<char>) -> Seq<HitView>
    decreases snapshots.len(),
{
    if snapshots.len() == 0 {
        Seq::empty()
    } else {
        all_hits(snapshots.drop_last(), needle) + snapshot_hits(
            snapshots.last(),
            needle,
            snapshots.last().tables.len(),
        )
    }
}

// -------------------------------------------------------------------------- order

pub open spec fn option_before(a: Option<Seq<char>>, b: Option<Seq<char>>) -> bool {
    match (a, b) {
        (None, Some(_)) => true,
        (Some(x), Some(y)) => table::before(x, y),
        _ => false,
    }
}

pub open spec fn is_column(hit: HitView) -> bool {
    hit.kind is Column
}

/// The better match first, a table before its columns, and then by where it is.
pub open spec fn hit_before(a: HitView, b: HitView) -> bool {
    if a.rank != b.rank {
        a.rank < b.rank
    } else if is_column(a) != is_column(b) {
        is_column(b)
    } else if a.source != b.source {
        table::before(a.source, b.source)
    } else if a.schema != b.schema {
        table::before(a.schema, b.schema)
    } else if a.table != b.table {
        table::before(a.table, b.table)
    } else {
        option_before(a.column, b.column)
    }
}

pub open spec fn by_rank() -> spec_fn(HitView, HitView) -> bool {
    |a: HitView, b: HitView| hit_before(a, b)
}

fn option_comes_before(a: &Option<String>, b: &Option<String>) -> (r: bool)
    ensures
        r == option_before(text::opt(*a), text::opt(*b)),
{
    match (a, b) {
        (None, Some(_)) => true,
        (Some(x), Some(y)) => table::comes_before(x, y),
        _ => false,
    }
}

proof fn lemma_text(a: Seq<char>, b: Seq<char>, c: Seq<char>)
    ensures
        !(table::before(a, b) && table::before(b, a)),
        a != b ==> table::before(a, b) || table::before(b, a),
        table::before(a, b) && table::before(b, c) ==> table::before(a, c),
        !table::before(a, b) && !table::before(b, c) ==> !table::before(a, c),
{
    if table::before(a, b) && table::before(b, a) {
        table::lemma_before_transitive(a, b, a);
        table::lemma_before_irreflexive(a);
    }
    table::lemma_before_total(a, b);
    if table::before(a, b) && table::before(b, c) {
        table::lemma_before_transitive(a, b, c);
    }
    table::lemma_not_before(a, b, c);
}

proof fn lemma_texts(a: Seq<char>, b: Seq<char>, c: Seq<char>)
    ensures
        !(table::before(a, b) && table::before(b, a)),
        !(table::before(b, c) && table::before(c, b)),
        !(table::before(a, c) && table::before(c, a)),
        a != b ==> table::before(a, b) || table::before(b, a),
        b != c ==> table::before(b, c) || table::before(c, b),
        a != c ==> table::before(a, c) || table::before(c, a),
        table::before(a, b) && table::before(b, c) ==> table::before(a, c),
        table::before(c, b) && table::before(b, a) ==> table::before(c, a),
        !table::before(a, b) && !table::before(b, c) ==> !table::before(a, c),
{
    lemma_text(a, b, c);
    lemma_text(b, c, a);
    lemma_text(a, c, b);
    lemma_text(c, b, a);
}

impl Ranked for Hit {
    open spec fn precedes(&self, other: &Self) -> bool {
        hit_before(self@, other@)
    }

    fn ahead_of(&self, other: &Self) -> (r: bool) {
        let a = self.kind == HitKind::Column;
        let b = other.kind == HitKind::Column;
        if self.rank != other.rank {
            self.rank < other.rank
        } else if a != b {
            b
        } else if !text::same(&self.source, &other.source) {
            table::comes_before(&self.source, &other.source)
        } else if !text::same(&self.schema, &other.schema) {
            table::comes_before(&self.schema, &other.schema)
        } else if !text::same(&self.table, &other.table) {
            table::comes_before(&self.table, &other.table)
        } else {
            option_comes_before(&self.column, &other.column)
        }
    }

    proof fn lemma_asymmetric(a: &Self, b: &Self) {
        let (x, y) = (a@, b@);
        lemma_text(x.source, y.source, x.source);
        lemma_text(x.schema, y.schema, x.schema);
        lemma_text(x.table, y.table, x.table);
        if x.column is Some && y.column is Some {
            lemma_text(x.column->0, y.column->0, x.column->0);
        }
    }

    proof fn lemma_steps(a: &Self, b: &Self, c: &Self) {
        let (x, y, z) = (a@, b@, c@);
        lemma_texts(x.source, y.source, z.source);
        lemma_texts(x.schema, y.schema, z.schema);
        lemma_texts(x.table, y.table, z.table);
        if x.column is Some && y.column is Some && z.column is Some {
            lemma_texts(x.column->0, y.column->0, z.column->0);
        }
    }
}

// -------------------------------------------------------------------------- cache

/// Snapshots, one per database of each source.
pub struct SchemaCache {
    pub snapshots: Vec<Arc<Snapshot>>,
}

/// What is indexed of one database: how many columns.
#[verifier::ext_equal]
pub struct IndexedView {
    pub source: Seq<char>,
    pub database: Seq<char>,
    pub columns: nat,
}

/// One database that is indexed, and how many columns of it.
pub struct Indexed {
    pub source: String,
    pub database: String,
    pub columns: u128,
}

impl View for Indexed {
    type V = IndexedView;

    open spec fn view(&self) -> IndexedView {
        IndexedView {
            source: self.source@,
            database: self.database@,
            columns: self.columns as nat,
        }
    }
}

pub open spec fn indexed_before(a: IndexedView, b: IndexedView) -> bool {
    if a.source != b.source {
        table::before(a.source, b.source)
    } else if a.database != b.database {
        table::before(a.database, b.database)
    } else {
        a.columns < b.columns
    }
}

pub open spec fn by_index() -> spec_fn(IndexedView, IndexedView) -> bool {
    |a: IndexedView, b: IndexedView| indexed_before(a, b)
}

pub open spec fn index_of(snapshots: Seq<SnapshotView>) -> Seq<IndexedView> {
    Seq::new(
        snapshots.len(),
        |i: int|
            IndexedView {
                source: snapshots[i].source,
                database: snapshots[i].database,
                columns: columns_in(snapshots[i].tables),
            },
    )
}

impl Ranked for Indexed {
    open spec fn precedes(&self, other: &Self) -> bool {
        indexed_before(self@, other@)
    }

    fn ahead_of(&self, other: &Self) -> (r: bool) {
        if !text::same(&self.source, &other.source) {
            table::comes_before(&self.source, &other.source)
        } else if !text::same(&self.database, &other.database) {
            table::comes_before(&self.database, &other.database)
        } else {
            self.columns < other.columns
        }
    }

    proof fn lemma_asymmetric(a: &Self, b: &Self) {
        lemma_text(a.source@, b.source@, a.source@);
        lemma_text(a.database@, b.database@, a.database@);
    }

    proof fn lemma_steps(a: &Self, b: &Self, c: &Self) {
        lemma_texts(a.source@, b.source@, c.source@);
        lemma_texts(a.database@, b.database@, c.database@);
    }
}

/// Where the snapshot of a database is, from `from` on.
pub open spec fn found(
    snapshots: Seq<SnapshotView>,
    source: Seq<char>,
    database: Seq<char>,
    from: nat,
) -> Option<nat>
    decreases snapshots.len() - from,
{
    if from >= snapshots.len() {
        None
    } else if snapshots[from as int].source == source && snapshots[from as int].database
        == database {
        Some(from)
    } else {
        found(snapshots, source, database, from + 1)
    }
}

/// Those snapshots with one more, in the place of the one of the same database if there
/// is one.
pub open spec fn kept(snapshots: Seq<SnapshotView>, snapshot: SnapshotView) -> Seq<SnapshotView> {
    match found(snapshots, snapshot.source, snapshot.database, 0) {
        Some(at) => snapshots.update(at as int, snapshot),
        None => snapshots.push(snapshot),
    }
}

/// Those snapshots without the ones of a source.
pub open spec fn without(snapshots: Seq<SnapshotView>, source: Seq<char>) -> Seq<SnapshotView>
    decreases snapshots.len(),
{
    if snapshots.len() == 0 {
        Seq::empty()
    } else {
        let before = without(snapshots.drop_last(), source);
        if snapshots.last().source == source {
            before
        } else {
            before.push(snapshots.last())
        }
    }
}

proof fn lemma_found(
    snapshots: Seq<SnapshotView>,
    source: Seq<char>,
    database: Seq<char>,
    from: nat,
)
    ensures
        match found(snapshots, source, database, from) {
            Some(at) => from <= at < snapshots.len() && snapshots[at as int].source == source
                && snapshots[at as int].database == database,
            None => forall|i: int|
                from <= i < snapshots.len() ==> (#[trigger] snapshots[i]).source != source
                    || snapshots[i].database != database,
        },
    decreases snapshots.len() - from,
{
    if from < snapshots.len() && !(snapshots[from as int].source == source
        && snapshots[from as int].database == database) {
        lemma_found(snapshots, source, database, from + 1);
    }
}

/// No database has two snapshots.
pub open spec fn distinct(snapshots: Seq<SnapshotView>) -> bool {
    forall|i: int, j: int|
        #![trigger snapshots[i], snapshots[j]]
        0 <= i < j < snapshots.len() ==> snapshots[i].source != snapshots[j].source
            || snapshots[i].database != snapshots[j].database
}

impl View for SchemaCache {
    type V = Seq<SnapshotView>;

    open spec fn view(&self) -> Seq<SnapshotView> {
        snapshots_view(self.snapshots@)
    }
}

impl SchemaCache {
    pub open spec fn wf(&self) -> bool {
        distinct(self@)
    }

    pub fn new() -> (r: SchemaCache)
        ensures
            r.wf(),
            r@.len() == 0,
    {
        SchemaCache { snapshots: Vec::new() }
    }

    fn place(&self, source: &str, database: &str) -> (r: Option<usize>)
        ensures
            match r {
                Some(at) => found(self@, source@, database@, 0) == Some(at as nat) && at
                    < self@.len(),
                None => found(self@, source@, database@, 0) is None,
            },
    {
        let ghost all = self@;
        let mut i: usize = 0;
        while i < self.snapshots.len()
            invariant
                i <= self.snapshots.len(),
                all == self@,
                found(all, source@, database@, 0) == found(all, source@, database@, i as nat),
            decreases self.snapshots.len() - i,
        {
            assert(all[i as int] == (*self.snapshots@[i as int])@);
            if text::same(&self.snapshots[i].source, source) && text::same(
                &self.snapshots[i].database,
                database,
            ) {
                return Some(i);
            }
            i = i + 1;
        }
        None
    }

    /// The snapshot of a database, if there is one.
    pub fn get(&self, source: &str, database: &str) -> (r: Option<Arc<Snapshot>>)
        ensures
            match (r, found(self@, source@, database@, 0)) {
                (Some(snapshot), Some(at)) => (*snapshot)@ == self@[at as int],
                (None, None) => true,
                _ => false,
            },
    {
        match self.place(source, database) {
            Some(at) => Some(self.snapshots[at].clone()),
            None => None,
        }
    }

    /// Keep a snapshot, instead of any earlier one of the same database.
    pub fn put(&mut self, snapshot: Snapshot) -> (r: Arc<Snapshot>)
        requires
            old(self).wf(),
        ensures
            final(self).wf(),
            final(self)@ == kept(old(self)@, snapshot@),
            (*r)@ == snapshot@,
    {
        let ghost all = self@;
        let place = self.place(&snapshot.source, &snapshot.database);
        let ghost shown = snapshot@;
        let shared = Arc::new(snapshot);
        proof {
            lemma_found(all, shown.source, shown.database, 0);
        }
        match place {
            Some(at) => {
                self.snapshots.set(at, shared.clone());
                assert(self@ =~= all.update(at as int, shown));
            },
            None => {
                self.snapshots.push(shared.clone());
                assert(self@ =~= all.push(shown));
            },
        }
        shared
    }

    /// Forget everything about a source, so that a stale schema cannot outlive the
    /// connection it describes.
    pub fn forget(&mut self, source: &str)
        requires
            old(self).wf(),
        ensures
            final(self).wf(),
            final(self)@ == without(old(self)@, source@),
    {
        let ghost all = self@;
        let mut left: Vec<Arc<Snapshot>> = Vec::new();
        let mut i: usize = 0;
        assert(snapshots_view(left@) =~= without(all.take(0), source@));
        while i < self.snapshots.len()
            invariant
                i <= self.snapshots.len(),
                all == self@,
                snapshots_view(left@) == without(all.take(i as int), source@),
            decreases self.snapshots.len() - i,
        {
            let ghost before = snapshots_view(left@);
            assert(all.take(i as int + 1).drop_last() =~= all.take(i as int));
            assert(all.take(i as int + 1).last() == (*self.snapshots@[i as int])@);
            if !text::same(&self.snapshots[i].source, source) {
                left.push(self.snapshots[i].clone());
                assert(snapshots_view(left@) =~= before.push((*self.snapshots@[i as int])@));
            }
            i = i + 1;
        }
        assert(all.take(i as int) =~= all);
        proof {
            lemma_without(all, source@);
        }
        self.snapshots = left;
    }

    /// What is indexed, for saying how much of the search is covered.
    pub fn indexed(&self) -> (r: Vec<Indexed>)
        ensures
            Seq::new(r@.len(), |i: int| r@[i]@) == order::sorted_by(index_of(self@), by_index()),
    {
        let ghost all = index_of(self@);
        let ghost f = |x: Indexed| x@;
        let mut out: Vec<Indexed> = Vec::new();
        let mut i: usize = 0;
        assert(out@.map_values(f) =~= all.take(0));
        while i < self.snapshots.len()
            invariant
                i <= self.snapshots.len(),
                all == index_of(self@),
                f == (|x: Indexed| x@),
                out@.map_values(f) == all.take(i as int),
            decreases self.snapshots.len() - i,
        {
            let ghost before = out@.map_values(f);
            let entry = Indexed {
                source: self.snapshots[i].source.clone(),
                database: self.snapshots[i].database.clone(),
                columns: self.snapshots[i].column_count(),
            };
            assert(self@[i as int] == (*self.snapshots@[i as int])@);
            assert(entry@ =~= all[i as int]);
            out.push(entry);
            assert(out@.map_values(f) =~= before.push(all[i as int]));
            assert(all.take(i as int + 1) =~= all.take(i as int).push(all[i as int]));
            i = i + 1;
        }
        assert(all.take(i as int) =~= all);
        let r = order::sort(out);
        proof {
            order::lemma_sorted_views(out@, f, by_index());
            assert(r@.map_values(f) =~= Seq::new(r@.len(), |i: int| r@[i]@));
        }
        r
    }

    /// Search every snapshot for a part of a name, whatever its case. What was probably
    /// meant comes first: exact names, then beginnings, then anything that holds it;
    /// tables ahead of columns that match as well.
    pub fn search(&self, needle: &str, limit: usize) -> (r: Vec<Hit>)
        ensures
            hits_view(r@) == searched(self@, needle@, limit as nat),
    {
        let needle_text = text::to_lowercase(&text::trimmed(needle));
        let ghost wanted = needle_text@;
        if needle_text.as_str().is_empty() {
            let none: Vec<Hit> = Vec::new();
            assert(hits_view(none@) =~= Seq::<HitView>::empty());
            return none;
        }
        let ghost all = self@;
        let mut hits: Vec<Hit> = Vec::new();
        let mut i: usize = 0;
        assert(hits_view(hits@) =~= all_hits(all.take(0), wanted));
        while i < self.snapshots.len()
            invariant
                i <= self.snapshots.len(),
                all == self@,
                needle_text@ == wanted,
                hits_view(hits@) == all_hits(all.take(i as int), wanted),
            decreases self.snapshots.len() - i,
        {
            assert(all.take(i as int + 1).drop_last() =~= all.take(i as int));
            assert(all.take(i as int + 1).last() == (*self.snapshots@[i as int])@);
            search_snapshot(&self.snapshots[i], &needle_text, &mut hits);
            i = i + 1;
        }
        assert(all.take(i as int) =~= all);
        let ghost found = hits_view(hits@);
        let mut sorted = order::sort(hits);
        proof {
            let f = |h: Hit| h@;
            order::lemma_sorted_views(hits@, f, by_rank());
            assert(hits@.map_values(f) =~= found);
            assert(sorted@.map_values(f) =~= hits_view(sorted@));
        }
        let ghost ordered = hits_view(sorted@);
        let most: usize = if limit < MAX_HITS {
            limit
        } else {
            MAX_HITS
        };
        if sorted.len() > most {
            sorted.truncate(most);
            assert(hits_view(sorted@) =~= ordered.take(most as int));
        }
        sorted
    }
}

/// At most so many of those.
pub open spec fn at_most(hits: Seq<HitView>, limit: nat) -> Seq<HitView> {
    let most = if limit < MAX_HITS {
        limit as int
    } else {
        MAX_HITS as int
    };
    if hits.len() > most {
        hits.take(most)
    } else {
        hits
    }
}

/// What a search answers.
pub open spec fn searched(snapshots: Seq<SnapshotView>, needle: Seq<char>, limit: nat) -> Seq<
    HitView,
> {
    let wanted = text::lowercase(text::trim(needle));
    if wanted.len() == 0 {
        Seq::empty()
    } else {
        at_most(order::sorted_by(all_hits(snapshots, wanted), by_rank()), limit)
    }
}

fn search_table(snapshot: &Snapshot, table: &TableSchema, needle: &str, hits: &mut Vec<Hit>)
    ensures
        hits_view(final(hits)@) == hits_view(old(hits)@) + table_hits(snapshot@, table@, needle@),
{
    let ghost start = hits_view(hits@);
    let ghost own: Seq<HitView> = match ranked(table@.name, needle@) {
        Some(rank) => seq![table_hit(snapshot@, table@, rank)],
        None => Seq::empty(),
    };
    if let Some(rank) = rank(&table.name, needle) {
        let hit = Hit {
            kind: match table.kind {
                TableKind::View => HitKind::View,
                TableKind::Table => HitKind::Table,
            },
            source: snapshot.source.clone(),
            database: snapshot.database.clone(),
            schema: table.schema.clone(),
            table: table.name.clone(),
            column: None,
            data_type: None,
            is_primary_key: false,
            rank,
        };
        let ghost now = hit@;
        hits.push(hit);
        assert(hits_view(hits@) =~= start.push(now));
    }
    assert(hits_view(hits@) =~= start + own);
    let mut i: usize = 0;
    assert(start + own + column_hits(snapshot@, table@, needle@, 0) =~= start + own);
    while i < table.columns.len()
        invariant
            i <= table.columns.len(),
            hits_view(hits@) == start + own + column_hits(
                snapshot@,
                table@,
                needle@,
                i as nat,
            ),
        decreases table.columns.len() - i,
    {
        let ghost before = hits_view(hits@);
        let ghost so_far = column_hits(snapshot@, table@, needle@, i as nat);
        assert(table@.columns[i as int] == table.columns@[i as int]@);
        if let Some(rank) = rank_column(&table.columns[i], needle) {
            let hit = Hit {
                kind: HitKind::Column,
                source: snapshot.source.clone(),
                database: snapshot.database.clone(),
                schema: table.schema.clone(),
                table: table.name.clone(),
                column: Some(table.columns[i].name.clone()),
                data_type: Some(table.columns[i].data_type.clone()),
                is_primary_key: table.columns[i].is_primary_key,
                rank,
            };
            let ghost now = hit@;
            hits.push(hit);
            assert(hits_view(hits@) =~= before.push(now));
            assert((start + own + so_far).push(now) =~= start + own + so_far.push(now));
        }
        i = i + 1;
    }
    let ghost columns = column_hits(snapshot@, table@, needle@, table@.columns.len());
    assert(start + own + columns =~= start + (own + columns));
}

fn search_snapshot(snapshot: &Snapshot, needle: &str, hits: &mut Vec<Hit>)
    ensures
        hits_view(final(hits)@) == hits_view(old(hits)@) + snapshot_hits(
            snapshot@,
            needle@,
            snapshot@.tables.len(),
        ),
{
    let ghost start = hits_view(hits@);
    let mut i: usize = 0;
    assert(start + snapshot_hits(snapshot@, needle@, 0) =~= start);
    while i < snapshot.tables.len()
        invariant
            i <= snapshot.tables.len(),
            hits_view(hits@) == start + snapshot_hits(snapshot@, needle@, i as nat),
        decreases snapshot.tables.len() - i,
    {
        let ghost so_far = snapshot_hits(snapshot@, needle@, i as nat);
        assert(snapshot@.tables[i as int] == snapshot.tables@[i as int]@);
        search_table(snapshot, &snapshot.tables[i], needle, hits);
        let ghost more = table_hits(snapshot@, snapshot@.tables[i as int], needle@);
        assert((start + so_far) + more =~= start + (so_far + more));
        i = i + 1;
    }
}

// --------------------------------------------------------------------------- laws

proof fn lemma_without(snapshots: Seq<SnapshotView>, source: Seq<char>)
    ensures
        forall|i: int|
            0 <= i < without(snapshots, source).len() ==> (#[trigger] without(
                snapshots,
                source,
            )[i]).source != source && snapshots.contains(without(snapshots, source)[i]),
        distinct(snapshots) ==> distinct(without(snapshots, source)),
    decreases snapshots.len(),
{
    let all = without(snapshots, source);
    if snapshots.len() > 0 {
        let first = snapshots.drop_last();
        let before = without(first, source);
        lemma_without(first, source);
        assert forall|i: int| 0 <= i < all.len() implies (#[trigger] all[i]).source != source
            && snapshots.contains(all[i]) by {
            if i < before.len() {
                assert(all[i] == before[i]);
                let k = choose|k: int| 0 <= k < first.len() && first[k] == before[i];
                assert(snapshots[k] == all[i]);
            } else {
                assert(all[i] == snapshots[snapshots.len() - 1]);
            }
        }
        if distinct(snapshots) {
            assert forall|i: int, j: int|
                #![trigger first[i], first[j]]
                0 <= i < j < first.len() implies first[i].source != first[j].source
                || first[i].database != first[j].database by {
                assert(first[i] == snapshots[i] && first[j] == snapshots[j]);
            }
            assert forall|i: int, j: int|
                #![trigger all[i], all[j]]
                0 <= i < j < all.len() implies all[i].source != all[j].source || all[i].database
                != all[j].database by {
                assert(all[i] == before[i]);
                if j < before.len() {
                    assert(all[j] == before[j]);
                } else {
                    let k = choose|k: int| 0 <= k < first.len() && first[k] == before[i];
                    assert(snapshots[k] == all[i]);
                    assert(all[j] == snapshots[snapshots.len() - 1]);
                }
            }
        }
    }
}

/// What a cache was given last is what it gives back.
pub proof fn law_a_snapshot_that_was_put_is_found(
    snapshots: Seq<SnapshotView>,
    snapshot: SnapshotView,
)
    ensures
        found(kept(snapshots, snapshot), snapshot.source, snapshot.database, 0) matches Some(at)
            && kept(snapshots, snapshot)[at as int] == snapshot,
        distinct(snapshots) ==> distinct(kept(snapshots, snapshot)),
{
    lemma_found(snapshots, snapshot.source, snapshot.database, 0);
    let all = kept(snapshots, snapshot);
    lemma_found(all, snapshot.source, snapshot.database, 0);
    match found(snapshots, snapshot.source, snapshot.database, 0) {
        Some(at) => {
            assert(all[at as int] == snapshot);
            lemma_first(snapshots, snapshot, 0, at);
        },
        None => {
            assert(all[snapshots.len() as int] == snapshot);
            let at = found(all, snapshot.source, snapshot.database, 0)->0;
            if at < snapshots.len() {
                assert(all[at as int] == snapshots[at as int]);
            }
        },
    }
}

proof fn lemma_first(snapshots: Seq<SnapshotView>, snapshot: SnapshotView, from: nat, at: nat)
    requires
        found(snapshots, snapshot.source, snapshot.database, from) == Some(at),
        from <= at < snapshots.len(),
    ensures
        found(
            snapshots.update(at as int, snapshot),
            snapshot.source,
            snapshot.database,
            from,
        ) == Some(at),
    decreases at - from,
{
    let s = snapshots[from as int];
    if s.source == snapshot.source && s.database == snapshot.database {
    } else {
        lemma_found(snapshots, snapshot.source, snapshot.database, from + 1);
        lemma_first(snapshots, snapshot, from + 1, at);
    }
}

/// Once a source is forgotten nothing of it is left.
pub proof fn law_a_forgotten_source_is_gone(
    snapshots: Seq<SnapshotView>,
    source: Seq<char>,
    database: Seq<char>,
)
    ensures
        found(without(snapshots, source), source, database, 0) is None,
        forall|i: int|
            0 <= i < without(snapshots, source).len() ==> (#[trigger] without(
                snapshots,
                source,
            )[i]).source != source,
{
    lemma_without(snapshots, source);
    lemma_found(without(snapshots, source), source, database, 0);
}

/// The answer to a search is in order and holds no more than it may. What it holds was
/// found in the snapshots, each hit as often as there, and nothing that was found and left
/// out ranks ahead of what is in it.
pub proof fn law_a_search_is_ranked_and_bounded(
    snapshots: Seq<SnapshotView>,
    needle: Seq<char>,
    limit: nat,
)
    ensures
        searched(snapshots, needle, limit).len() <= limit,
        searched(snapshots, needle, limit).len() <= MAX_HITS,
        forall|i: int, j: int|
            #![trigger searched(snapshots, needle, limit)[i], searched(snapshots, needle, limit)[j]]
            0 <= i < j < searched(snapshots, needle, limit).len() ==> !hit_before(
                searched(snapshots, needle, limit)[j],
                searched(snapshots, needle, limit)[i],
            ),
        ({
            let all = all_hits(snapshots, text::lowercase(text::trim(needle)));
            let kept = searched(snapshots, needle, limit);
            &&& kept.to_multiset().subset_of(all.to_multiset())
            &&& forall|h: HitView, i: int|
                #![trigger all.to_multiset().count(h), kept[i]]
                all.to_multiset().count(h) > kept.to_multiset().count(h) && 0 <= i < kept.len()
                    ==> !hit_before(h, kept[i])
        }),
{
    let wanted = text::lowercase(text::trim(needle));
    let all = all_hits(snapshots, wanted);
    let kept = searched(snapshots, needle, limit);
    lemma_hits_in_order(all);
    if wanted.len() == 0 {
        assert(kept.to_multiset().subset_of(all.to_multiset())) by {
            kept.to_multiset_ensures();
            assert forall|h: HitView| #[trigger] kept.to_multiset().count(h)
                <= all.to_multiset().count(h) by {
                if kept.to_multiset().count(h) > 0 {
                    assert(kept.contains(h));
                }
            }
        }
    } else {
        let full = order::sorted_by(all, by_rank());
        order::lemma_sorted_by_multiset(all, by_rank());
        let tail = full.skip(kept.len() as int);
        assert(full == kept + tail);
        vstd::seq_lib::lemma_multiset_commutative(kept, tail);
        assert forall|h: HitView, i: int|
            #![trigger all.to_multiset().count(h), kept[i]]
            all.to_multiset().count(h) > kept.to_multiset().count(h) && 0 <= i
                < kept.len() implies !hit_before(h, kept[i]) by {
            tail.to_multiset_ensures();
            assert(tail.contains(h));
            let j = choose|j: int| 0 <= j < tail.len() && tail[j] == h;
            assert(full[kept.len() + j] == h);
            assert(full[i] == kept[i]);
        }
    }
}

proof fn lemma_hits_in_order(hits: Seq<HitView>)
    ensures
        forall|i: int, j: int|
            #![trigger order::sorted_by(hits, by_rank())[i], order::sorted_by(hits, by_rank())[j]]
            0 <= i < j < order::sorted_by(hits, by_rank()).len() ==> !hit_before(
                order::sorted_by(hits, by_rank())[j],
                order::sorted_by(hits, by_rank())[i],
            ),
    decreases hits.len(),
{
    if hits.len() > 0 {
        lemma_hits_in_order(hits.drop_last());
        lemma_place_hit(order::sorted_by(hits.drop_last(), by_rank()), hits.last());
    }
}

proof fn lemma_hit_steps(x: HitView, y: HitView, z: HitView)
    ensures
        hit_before(x, y) ==> !hit_before(y, x),
        !hit_before(x, y) && !hit_before(y, z) ==> !hit_before(x, z),
{
    lemma_texts(x.source, y.source, z.source);
    lemma_texts(x.schema, y.schema, z.schema);
    lemma_texts(x.table, y.table, z.table);
    if x.column is Some && y.column is Some {
        lemma_text(x.column->0, y.column->0, x.column->0);
        if z.column is Some {
            lemma_texts(x.column->0, y.column->0, z.column->0);
        }
    }
}

proof fn lemma_place_hit(s: Seq<HitView>, x: HitView)
    requires
        forall|i: int, j: int|
            #![trigger s[i], s[j]]
            0 <= i < j < s.len() ==> !hit_before(s[j], s[i]),
    ensures
        ({
            let p = order::placed_by(s, x, by_rank());
            &&& forall|i: int, j: int|
                #![trigger p[i], p[j]]
                0 <= i < j < p.len() ==> !hit_before(p[j], p[i])
            &&& forall|i: int|
                0 <= i < p.len() ==> (#[trigger] p[i]) == x || s.contains(p[i])
            &&& p.len() == s.len() + 1
        }),
    decreases s.len(),
{
    let p = order::placed_by(s, x, by_rank());
    if s.len() == 0 || !hit_before(x, s.last()) {
        assert forall|i: int, j: int|
            #![trigger p[i], p[j]]
            0 <= i < j < p.len() implies !hit_before(p[j], p[i]) by {
            if j == s.len() && i < s.len() - 1 {
                let last = s.len() - 1;
                assert(!hit_before(s[last], s[i]));
                lemma_hit_steps(x, s[last], s[i]);
            }
        }
        assert forall|i: int| 0 <= i < p.len() implies (#[trigger] p[i]) == x || s.contains(
            p[i],
        ) by {
            if i < s.len() {
                assert(p[i] == s[i]);
            }
        }
    } else {
        let t = s.drop_last();
        let last = s.last();
        assert forall|i: int, j: int|
            #![trigger t[i], t[j]]
            0 <= i < j < t.len() implies !hit_before(t[j], t[i]) by {
            assert(t[i] == s[i] && t[j] == s[j]);
        }
        lemma_place_hit(t, x);
        let q = order::placed_by(t, x, by_rank());
        assert forall|i: int, j: int|
            #![trigger p[i], p[j]]
            0 <= i < j < p.len() implies !hit_before(p[j], p[i]) by {
            if j == q.len() {
                if q[i] == x {
                    lemma_hit_steps(x, last, x);
                } else {
                    let k = choose|k: int| 0 <= k < t.len() && t[k] == q[i];
                    assert(s[k] == q[i]);
                    assert(!hit_before(s[s.len() - 1], s[k]));
                }
            } else {
                assert(p[i] == q[i] && p[j] == q[j]);
            }
        }
        assert forall|i: int| 0 <= i < p.len() implies (#[trigger] p[i]) == x || s.contains(
            p[i],
        ) by {
            if i < q.len() {
                assert(p[i] == q[i]);
                if q[i] != x {
                    let k = choose|k: int| 0 <= k < t.len() && t[k] == q[i];
                    assert(s[k] == p[i]);
                }
            } else {
                assert(p[i] == s[s.len() - 1]);
            }
        }
    }
}

/// A text stands somewhere in another.
pub open spec fn stands_in(part: Seq<char>, whole: Seq<char>) -> bool {
    exists|k: int|
        0 <= k && k + part.len() <= whole.len() && #[trigger] whole.subrange(
            k,
            k + part.len(),
        ) == part
}

proof fn lemma_stands_in(part: Seq<char>, whole: Seq<char>)
    ensures
        stands_in(part, whole) <==> text::contains(whole, part),
        text::starts_with(whole, part) ==> stands_in(part, whole),
        whole == part ==> stands_in(part, whole),
{
    if stands_in(part, whole) {
        let k = choose|k: int|
            0 <= k && k + part.len() <= whole.len() && #[trigger] whole.subrange(
                k,
                k + part.len(),
            ) == part;
        assert(whole.skip(k).take(part.len() as int) == part);
        assert(text::starts_with(whole.skip(k), part));
    }
    if text::contains(whole, part) {
        let k = choose|k: int|
            0 <= k <= whole.len() && text::starts_with(#[trigger] whole.skip(k), part);
        assert(whole.subrange(k, k + part.len()) == whole.skip(k).take(part.len() as int));
    }
    if text::starts_with(whole, part) {
        assert(whole.subrange(0, 0int + part.len()) == whole.take(part.len() as int));
    }
    if whole == part {
        assert(whole.subrange(0, 0int + part.len()) == part);
    }
}

proof fn lemma_ranked(name: Seq<char>, needle: Seq<char>)
    ensures
        ranked(name, needle) is Some <==> stands_in(needle, text::lowercase(name)),
        ranked(name, needle) matches Some(rank) ==> rank <= 2,
{
    lemma_stands_in(needle, text::lowercase(name));
}

/// A column that a search for `needle` is about: the needle stands in its name or its type.
pub open spec fn is_about(column: ColumnInfoView, needle: Seq<char>) -> bool {
    stands_in(needle, text::lowercase(column.name)) || stands_in(
        needle,
        text::lowercase(column.data_type),
    )
}

/// A hit that says where a table is.
pub open spec fn points_at(hit: HitView, s: SnapshotView, t: TableSchemaView) -> bool {
    &&& hit.source == s.source
    &&& hit.database == s.database
    &&& hit.schema == t.schema
    &&& hit.table == t.name
}

proof fn lemma_column_found(s: SnapshotView, t: TableSchemaView, needle: Seq<char>, n: nat, c: int)
    requires
        0 <= c < n <= t.columns.len(),
        is_about(t.columns[c], needle),
    ensures
        exists|i: int|
            0 <= i < column_hits(s, t, needle, n).len() && names_column(
                #[trigger] column_hits(s, t, needle, n)[i],
                s,
                t,
                t.columns[c],
            ),
    decreases n,
{
    lemma_ranked(t.columns[c].name, needle);
    lemma_ranked(t.columns[c].data_type, needle);
    let all = column_hits(s, t, needle, n);
    let before = column_hits(s, t, needle, (n - 1) as nat);
    if c == n - 1 {
        assert(names_column(all[before.len() as int], s, t, t.columns[c]));
    } else {
        lemma_column_found(s, t, needle, (n - 1) as nat, c);
        let i = choose|i: int|
            0 <= i < before.len() && names_column(#[trigger] before[i], s, t, t.columns[c]);
        assert(all[i] == before[i]);
    }
}

/// A hit on a column of a table.
pub open spec fn names_column(
    hit: HitView,
    s: SnapshotView,
    t: TableSchemaView,
    c: ColumnInfoView,
) -> bool {
    &&& points_at(hit, s, t)
    &&& hit.kind is Column
    &&& hit.column == Some(c.name)
    &&& hit.data_type == Some(c.data_type)
    &&& hit.is_primary_key == c.is_primary_key
}

/// A hit on a table or a view itself.
pub open spec fn names_table(hit: HitView, s: SnapshotView, t: TableSchemaView) -> bool {
    &&& points_at(hit, s, t)
    &&& hit.kind is View <==> t.kind is View
    &&& hit.kind is Table <==> t.kind is Table
    &&& hit.column is None
    &&& hit.data_type is None
    &&& !hit.is_primary_key
}

proof fn lemma_table_in_snapshot(s: SnapshotView, needle: Seq<char>, n: nat, t: int, j: int)
    requires
        0 <= t < n <= s.tables.len(),
        0 <= j < table_hits(s, s.tables[t], needle).len(),
    ensures
        snapshot_hits(s, needle, n).contains(table_hits(s, s.tables[t], needle)[j]),
    decreases n,
{
    let before = snapshot_hits(s, needle, (n - 1) as nat);
    let last = table_hits(s, s.tables[n - 1], needle);
    let all = snapshot_hits(s, needle, n);
    let hit = table_hits(s, s.tables[t], needle)[j];
    if t == n - 1 {
        assert(all[before.len() + j] == hit);
    } else {
        lemma_table_in_snapshot(s, needle, (n - 1) as nat, t, j);
        let i = choose|i: int| 0 <= i < before.len() && before[i] == hit;
        assert(all[i] == hit);
    }
}

proof fn lemma_hit_in_all(
    snapshots: Seq<SnapshotView>,
    needle: Seq<char>,
    s: int,
    t: int,
    j: int,
)
    requires
        0 <= s < snapshots.len(),
        0 <= t < snapshots[s].tables.len(),
        0 <= j < table_hits(snapshots[s], snapshots[s].tables[t], needle).len(),
    ensures
        all_hits(snapshots, needle).contains(
            table_hits(snapshots[s], snapshots[s].tables[t], needle)[j],
        ),
    decreases snapshots.len(),
{
    let hit = table_hits(snapshots[s], snapshots[s].tables[t], needle)[j];
    let first = snapshots.drop_last();
    let before = all_hits(first, needle);
    let last = snapshot_hits(snapshots.last(), needle, snapshots.last().tables.len());
    let all = all_hits(snapshots, needle);
    if s == snapshots.len() - 1 {
        lemma_table_in_snapshot(snapshots[s], needle, snapshots[s].tables.len(), t, j);
        let i = choose|i: int| 0 <= i < last.len() && last[i] == hit;
        assert(all[before.len() + i] == hit);
    } else {
        lemma_hit_in_all(first, needle, s, t, j);
        let i = choose|i: int| 0 <= i < before.len() && before[i] == hit;
        assert(all[i] == hit);
    }
}

/// Every table and every view is found by any part of its name, whatever its case, and
/// every column by any part of its name or of its type.
pub proof fn law_every_match_is_found(
    snapshots: Seq<SnapshotView>,
    needle: Seq<char>,
    s: int,
    t: int,
)
    requires
        0 <= s < snapshots.len(),
        0 <= t < snapshots[s].tables.len(),
    ensures
        stands_in(needle, text::lowercase(snapshots[s].tables[t].name)) ==> exists|i: int|
            0 <= i < all_hits(snapshots, needle).len() && names_table(
                #[trigger] all_hits(snapshots, needle)[i],
                snapshots[s],
                snapshots[s].tables[t],
            ),
        forall|c: int|
            0 <= c < snapshots[s].tables[t].columns.len() && is_about(
                #[trigger] snapshots[s].tables[t].columns[c],
                needle,
            ) ==> exists|i: int|
                0 <= i < all_hits(snapshots, needle).len() && names_column(
                    #[trigger] all_hits(snapshots, needle)[i],
                    snapshots[s],
                    snapshots[s].tables[t],
                    snapshots[s].tables[t].columns[c],
                ),
{
    let snapshot = snapshots[s];
    let table = snapshot.tables[t];
    let own = table_hits(snapshot, table, needle);
    let inside = column_hits(snapshot, table, needle, table.columns.len());
    let all = all_hits(snapshots, needle);
    lemma_ranked(table.name, needle);
    if stands_in(needle, text::lowercase(table.name)) {
        assert(names_table(own[0], snapshot, table));
        lemma_hit_in_all(snapshots, needle, s, t, 0);
        let i = choose|i: int| 0 <= i < all.len() && all[i] == own[0];
        assert(names_table(all[i], snapshot, table));
    }
    assert forall|c: int|
        0 <= c < table.columns.len() && is_about(#[trigger] table.columns[c], needle) implies exists|
        i: int,
    |
        0 <= i < all.len() && names_column(
            #[trigger] all[i],
            snapshot,
            table,
            table.columns[c],
        ) by {
        lemma_column_found(snapshot, table, needle, table.columns.len(), c);
        let j = choose|j: int|
            0 <= j < inside.len() && names_column(
                #[trigger] inside[j],
                snapshot,
                table,
                table.columns[c],
            );
        let k = own.len() - inside.len() + j;
        assert(own[k] == inside[j]);
        lemma_hit_in_all(snapshots, needle, s, t, k);
        let i = choose|i: int| 0 <= i < all.len() && all[i] == own[k];
        assert(names_column(all[i], snapshot, table, table.columns[c]));
    }
}

/// What a hit was found by: the name of its column, or of its table.
pub open spec fn found_by(hit: HitView) -> Seq<char> {
    match hit.column {
        Some(column) => column,
        None => hit.table,
    }
}

/// How good a match is: the whole name, its beginning, a part of it, and for a column that
/// matches by its type alone the same three after those.
pub open spec fn as_good_as(hit: HitView, needle: Seq<char>) -> bool {
    let name = text::lowercase(found_by(hit));
    &&& hit.rank <= 5
    &&& hit.rank == 0 <==> name == needle
    &&& hit.rank <= 1 <==> needle.len() <= name.len() && name.subrange(0, needle.len() as int)
        == needle
    &&& hit.rank <= 2 <==> stands_in(needle, name)
    &&& hit.rank > 2 ==> match hit.data_type {
        Some(declared) => {
            let declared = text::lowercase(declared);
            &&& stands_in(needle, declared)
            &&& hit.rank == 3 <==> declared == needle
            &&& hit.rank <= 4 <==> needle.len() <= declared.len() && declared.subrange(
                0,
                needle.len() as int,
            ) == needle
        },
        None => false,
    }
}

/// A hit comes from a table of the snapshots, or from one of its columns.
pub open spec fn comes_from(hit: HitView, snapshots: Seq<SnapshotView>) -> bool {
    exists|s: int, t: int|
        {
            &&& 0 <= s < snapshots.len()
            &&& 0 <= t < snapshots[s].tables.len()
            &&& #[trigger] is_of(hit, snapshots[s], snapshots[s].tables[t])
        }
}

pub open spec fn is_of(hit: HitView, s: SnapshotView, t: TableSchemaView) -> bool {
    names_table(hit, s, t) || exists|c: int|
        0 <= c < t.columns.len() && names_column(hit, s, t, #[trigger] t.columns[c])
}

proof fn lemma_prefix(name: Seq<char>, needle: Seq<char>)
    ensures
        text::starts_with(text::lowercase(name), needle) <==> needle.len() <= text::lowercase(
            name,
        ).len() && text::lowercase(name).subrange(0, needle.len() as int) == needle,
        text::lowercase(name) == needle ==> text::starts_with(text::lowercase(name), needle),
{
    let s = text::lowercase(name);
    if needle.len() <= s.len() {
        assert(s.subrange(0, needle.len() as int) == s.take(needle.len() as int));
    }
    if s == needle {
        assert(s.take(needle.len() as int) == s);
    }
}

proof fn lemma_column_hits(s: SnapshotView, t: TableSchemaView, needle: Seq<char>, n: nat, i: int)
    requires
        n <= t.columns.len(),
        0 <= i < column_hits(s, t, needle, n).len(),
    ensures
        is_of(column_hits(s, t, needle, n)[i], s, t),
        as_good_as(column_hits(s, t, needle, n)[i], needle),
    decreases n,
{
    if n > 0 {
        let before = column_hits(s, t, needle, (n - 1) as nat);
        let all = column_hits(s, t, needle, n);
        if i < before.len() {
            lemma_column_hits(s, t, needle, (n - 1) as nat, i);
            assert(all[i] == before[i]);
        } else {
            let c = t.columns[n - 1];
            lemma_stands_in(needle, text::lowercase(c.name));
            lemma_stands_in(needle, text::lowercase(c.data_type));
            lemma_prefix(c.name, needle);
            lemma_prefix(c.data_type, needle);
            assert(names_column(all[i], s, t, t.columns[n - 1]));
        }
    }
}

proof fn lemma_table_hits(s: SnapshotView, t: TableSchemaView, needle: Seq<char>, i: int)
    requires
        0 <= i < table_hits(s, t, needle).len(),
    ensures
        is_of(table_hits(s, t, needle)[i], s, t),
        as_good_as(table_hits(s, t, needle)[i], needle),
{
    let inside = column_hits(s, t, needle, t.columns.len());
    let own = table_hits(s, t, needle);
    let k = own.len() - inside.len();
    if i >= k {
        lemma_column_hits(s, t, needle, t.columns.len(), i - k);
        assert(own[i] == inside[i - k]);
    } else {
        lemma_stands_in(needle, text::lowercase(t.name));
        lemma_prefix(t.name, needle);
        assert(names_table(own[i], s, t));
    }
}

proof fn lemma_snapshot_hits(s: SnapshotView, needle: Seq<char>, n: nat, i: int) -> (t: int)
    requires
        n <= s.tables.len(),
        0 <= i < snapshot_hits(s, needle, n).len(),
    ensures
        0 <= t < n,
        is_of(snapshot_hits(s, needle, n)[i], s, s.tables[t]),
        as_good_as(snapshot_hits(s, needle, n)[i], needle),
    decreases n,
{
    let before = snapshot_hits(s, needle, (n - 1) as nat);
    let all = snapshot_hits(s, needle, n);
    if i < before.len() {
        assert(all[i] == before[i]);
        lemma_snapshot_hits(s, needle, (n - 1) as nat, i)
    } else {
        lemma_table_hits(s, s.tables[n - 1], needle, i - before.len());
        assert(all[i] == table_hits(s, s.tables[n - 1], needle)[i - before.len()]);
        n - 1
    }
}

/// Nothing else is found: every hit is a table or a column of the snapshots in which the
/// needle stands, and its rank says how well it matches.
pub proof fn law_every_hit_is_a_match(snapshots: Seq<SnapshotView>, needle: Seq<char>, i: int)
    requires
        0 <= i < all_hits(snapshots, needle).len(),
    ensures
        comes_from(all_hits(snapshots, needle)[i], snapshots),
        as_good_as(all_hits(snapshots, needle)[i], needle),
    decreases snapshots.len(),
{
    let first = snapshots.drop_last();
    let before = all_hits(first, needle);
    let all = all_hits(snapshots, needle);
    let hit = all[i];
    if i < before.len() {
        law_every_hit_is_a_match(first, needle, i);
        assert(hit == before[i]);
        let (s, t) = choose|s: int, t: int|
            {
                &&& 0 <= s < first.len()
                &&& 0 <= t < first[s].tables.len()
                &&& #[trigger] is_of(hit, first[s], first[s].tables[t])
            };
        assert(first[s] == snapshots[s]);
        assert(is_of(hit, snapshots[s], snapshots[s].tables[t]));
    } else {
        let last = snapshots.last();
        let t = lemma_snapshot_hits(last, needle, last.tables.len(), i - before.len());
        assert(hit == snapshot_hits(last, needle, last.tables.len())[i - before.len()]);
        assert(is_of(hit, snapshots[snapshots.len() - 1], snapshots[snapshots.len() - 1].tables[t]));
    }
}

/// How many hits a table gives: one for itself and one for each column, where they match.
pub proof fn law_a_match_is_one_hit(s: SnapshotView, t: TableSchemaView, needle: Seq<char>)
    ensures
        table_hits(s, t, needle).len() == t.columns.filter(
            |c: ColumnInfoView| is_about(c, needle),
        ).len() + (if stands_in(needle, text::lowercase(t.name)) {
            1nat
        } else {
            0nat
        }),
{
    lemma_ranked(t.name, needle);
    lemma_count_columns(s, t, needle, t.columns.len());
    assert(t.columns.take(t.columns.len() as int) == t.columns);
}

proof fn lemma_count_columns(s: SnapshotView, t: TableSchemaView, needle: Seq<char>, n: nat)
    requires
        n <= t.columns.len(),
    ensures
        column_hits(s, t, needle, n).len() == t.columns.take(n as int).filter(
            |c: ColumnInfoView| is_about(c, needle),
        ).len(),
    decreases n,
{
    reveal(Seq::filter);
    if n > 0 {
        let part = t.columns.take(n as int);
        assert(part.drop_last() == t.columns.take(n - 1));
        lemma_count_columns(s, t, needle, (n - 1) as nat);
        lemma_ranked(part.last().name, needle);
        lemma_ranked(part.last().data_type, needle);
    }
}

/// What comes first in an answer: the better match, then a table ahead of a column, then by
/// source, schema, table and column, each in the order of its text.
pub proof fn law_hits_are_ordered_by_how_well_they_match(a: HitView, b: HitView)
    ensures
        a.rank < b.rank ==> hit_before(a, b) && !hit_before(b, a),
        a.rank == b.rank && !(a.kind is Column) && b.kind is Column ==> hit_before(a, b)
            && !hit_before(b, a),
        a.rank == b.rank && a.kind == b.kind && table::before(a.source, b.source) ==> hit_before(
            a,
            b,
        ),
        a.rank == b.rank && a.kind == b.kind && a.source == b.source && table::before(
            a.schema,
            b.schema,
        ) ==> hit_before(a, b),
        a.rank == b.rank && a.kind == b.kind && a.source == b.source && a.schema == b.schema
            && table::before(a.table, b.table) ==> hit_before(a, b),
        a.rank == b.rank && a.kind == b.kind && a.source == b.source && a.schema == b.schema
            && a.table == b.table && (a.column matches Some(x) && b.column matches Some(y)
            && table::before(x, y)) ==> hit_before(a, b),
{
    table::lemma_before_irreflexive(a.source);
    table::lemma_before_irreflexive(a.schema);
    table::lemma_before_irreflexive(a.table);
}

/// Nothing that was found is left out of an answer that has room for it, and a search for
/// nothing finds nothing.
pub proof fn law_a_search_leaves_out_only_what_has_no_room(
    snapshots: Seq<SnapshotView>,
    needle: Seq<char>,
    limit: nat,
)
    ensures
        ({
            let wanted = text::lowercase(text::trim(needle));
            let all = all_hits(snapshots, wanted);
            let kept = searched(snapshots, needle, limit);
            let most = if limit < 100 {
                limit
            } else {
                100
            };
            &&& wanted.len() == 0 ==> kept.len() == 0
            &&& wanted.len() > 0 && all.len() <= most ==> kept.to_multiset() == all.to_multiset()
            &&& wanted.len() > 0 && all.len() > most ==> kept.len() == most
        }),
{
    let wanted = text::lowercase(text::trim(needle));
    let all = all_hits(snapshots, wanted);
    order::lemma_sorted_by_multiset(all, by_rank());
}

} // verus!
