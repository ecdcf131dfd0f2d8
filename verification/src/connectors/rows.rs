//! What every server has in common: results that stream in batches, cells that may not
//! decode, and catalogues that arrive one column at a time.

use crate::json::{Json, JsonView};
use crate::model::{
    self, ColumnInfo, ColumnInfoView, ColumnMeta, RowBatch, TableKind, TableSchema,
    TableSchemaView, BATCH_ROWS,
};
use crate::text;
use std::sync::Arc;
use vstd::prelude::*;
use vstd::string::*;

verus! {

// ------------------------------------------------------------------------ batches

/// Rows on their way out, gathered until there are enough of them to send.
pub struct Batcher {
    /// Whether the columns of the current result were sent.
    pub described: bool,
    pub buffered: Vec<Vec<Json>>,
}

impl Batcher {
    /// Fewer rows wait than make a batch.
    pub open spec fn wf(&self) -> bool {
        self.buffered@.len() < BATCH_ROWS
    }

    pub fn new() -> (r: Batcher)
        ensures
            r.wf(),
            !r.described,
            r.buffered@.len() == 0,
    {
        Batcher { described: false, buffered: Vec::new() }
    }

    /// The columns of a result, which come before its first row.
    pub fn describe(&mut self, columns: Vec<ColumnMeta>) -> (r: RowBatch)
        requires
            old(self).wf(),
        ensures
            final(self).wf(),
            final(self).described,
            final(self).buffered == old(self).buffered,
            r matches RowBatch::Columns(sent) && *sent == columns,
    {
        self.described = true;
        RowBatch::Columns(Arc::new(columns))
    }

    /// One more row: a batch, where it completes one.
    pub fn push(&mut self, row: Vec<Json>) -> (r: Option<RowBatch>)
        requires
            old(self).wf(),
        ensures
            final(self).wf(),
            final(self).described == old(self).described,
            ({
                let all = old(self).buffered@.push(row);
                if all.len() >= BATCH_ROWS {
                    &&& r matches Some(RowBatch::Rows(rows)) && rows@ == all
                    &&& final(self).buffered@.len() == 0
                } else {
                    &&& r is None
                    &&& final(self).buffered@ == all
                }
            }),
    {
        self.buffered.push(row);
        if self.buffered.len() >= BATCH_ROWS {
            self.flush()
        } else {
            None
        }
    }

    /// What is waiting, if anything is.
    pub fn flush(&mut self) -> (r: Option<RowBatch>)
        ensures
            final(self).wf(),
            final(self).described == old(self).described,
            final(self).buffered@.len() == 0,
            if old(self).buffered@.len() == 0 {
                r is None
            } else {
                r matches Some(RowBatch::Rows(rows)) && rows@ == old(self).buffered@
            },
    {
        if self.buffered.len() == 0 {
            return None;
        }
        let mut rows: Vec<Vec<Json>> = Vec::new();
        std::mem::swap(&mut rows, &mut self.buffered);
        Some(RowBatch::Rows(rows))
    }

    /// A statement of a batch of them is done: what is waiting goes out, and one that
    /// had no rows says how many it touched.
    pub fn end_statement(&mut self, affected: u64) -> (r: (Option<RowBatch>, Option<RowBatch>))
        ensures
            final(self).wf(),
            !final(self).described,
            final(self).buffered@.len() == 0,
            if old(self).buffered@.len() == 0 {
                r.0 is None
            } else {
                r.0 matches Some(RowBatch::Rows(rows)) && rows@ == old(self).buffered@
            },
            if old(self).described {
                r.1 is None
            } else {
                r.1 matches Some(RowBatch::Affected(n)) && n == affected
            },
    {
        let described = self.described;
        let rest = self.flush();
        self.described = false;
        let touched = if described {
            None
        } else {
            Some(RowBatch::Affected(affected))
        };
        (rest, touched)
    }

    /// Nothing follows. A statement that returned nothing at all says so.
    pub fn finish(self) -> (r: Option<RowBatch>)
        ensures
            if !self.described {
                r matches Some(RowBatch::Affected(n)) && n == 0
            } else if self.buffered@.len() == 0 {
                r is None
            } else {
                r matches Some(RowBatch::Rows(rows)) && rows@ == self.buffered@
            },
    {
        let Batcher { described, buffered } = self;
        if !described {
            Some(RowBatch::Affected(0))
        } else if buffered.len() == 0 {
            None
        } else {
            Some(RowBatch::Rows(buffered))
        }
    }
}

/// The batches rows make as they are pushed, and what is left waiting.
pub open spec fn batched<T>(rows: Seq<T>) -> (Seq<Seq<T>>, Seq<T>)
    decreases rows.len(),
{
    if rows.len() == 0 {
        (Seq::empty(), Seq::empty())
    } else {
        let (out, waiting) = batched(rows.drop_last());
        let all = waiting.push(rows.last());
        if all.len() >= BATCH_ROWS {
            (out.push(all), Seq::empty())
        } else {
            (out, all)
        }
    }
}

pub open spec fn strung<T>(batches: Seq<Seq<T>>) -> Seq<T>
    decreases batches.len(),
{
    if batches.len() == 0 {
        Seq::empty()
    } else {
        strung(batches.drop_last()) + batches.last()
    }
}

/// Batching neither drops, repeats nor reorders a row, every batch is full, and fewer
/// rows are left waiting than make one.
pub proof fn law_batches_are_the_rows<T>(rows: Seq<T>)
    ensures
        strung(batched(rows).0) + batched(rows).1 == rows,
        forall|i: int|
            0 <= i < batched(rows).0.len() ==> (#[trigger] batched(rows).0[i]).len()
                == BATCH_ROWS,
        batched(rows).1.len() < BATCH_ROWS,
    decreases rows.len(),
{
    if rows.len() == 0 {
        assert(strung(batched(rows).0) + batched(rows).1 =~= rows);
    } else {
        law_batches_are_the_rows(rows.drop_last());
        let (out, waiting) = batched(rows.drop_last());
        let all = waiting.push(rows.last());
        assert(rows == rows.drop_last().push(rows.last()));
        assert(strung(out) + all =~= rows);
        if all.len() >= BATCH_ROWS {
            assert(out.push(all).drop_last() == out);
            assert(strung(out.push(all)) + Seq::<T>::empty() =~= strung(out) + all);
        }
    }
}

// -------------------------------------------------------------------------- cells

/// A cell as a driver handed it over.
#[derive(Debug)]
pub enum Raw {
    Null,
    Json(Json),
    Bytes(Vec<u8>),
    /// It would not decode, and why.
    Unreadable(String),
}

/// A cell as JSON. Bytes go in hexadecimal behind `mark`.
pub open spec fn shown(raw: Raw, mark: Seq<char>, upper: bool) -> JsonView {
    match raw {
        Raw::Null => JsonView::Null,
        Raw::Json(json) => json@,
        Raw::Bytes(bytes) => JsonView::Text(mark + digits(bytes@, upper)),
        Raw::Unreadable(why) => JsonView::Text(complaint(why@)),
    }
}

pub open spec fn complaint(why: Seq<char>) -> Seq<char> {
    "<decode error: "@ + why + ">"@
}

/// Bytes in hexadecimal, in either case.
pub open spec fn digits(bytes: Seq<u8>, upper: bool) -> Seq<char> {
    if upper {
        capital(text::hex(bytes))
    } else {
        text::hex(bytes)
    }
}

pub open spec fn capital_char(c: char) -> char {
    if 'a' <= c && c <= 'f' {
        ((c as u32) - 32) as char
    } else {
        c
    }
}

pub open spec fn capital(s: Seq<char>) -> Seq<char> {
    Seq::new(s.len(), |i: int| capital_char(s[i]))
}

fn capitals(s: &str) -> (r: String)
    ensures
        r@ == capital(s@),
{
    let v = text::chars_of(s);
    let mut out = String::new();
    let mut i: usize = 0;
    while i < v.len()
        invariant
            i <= v.len(),
            v@ == s@,
            out@ == capital(s@.take(i as int)),
        decreases v.len() - i,
    {
        let c = v[i];
        let upper = match c {
            'a' => 'A',
            'b' => 'B',
            'c' => 'C',
            'd' => 'D',
            'e' => 'E',
            'f' => 'F',
            _ => c,
        };
        out.push(upper);
        assert(capital(s@.take(i as int + 1)) =~= capital(s@.take(i as int)).push(
            capital_char(c),
        ));
        i = i + 1;
    }
    assert(s@.take(i as int) == s@);
    out
}

/// Bytes in hexadecimal behind a mark.
pub fn marked_hex(bytes: &[u8], mark: &str, upper: bool) -> (r: String)
    ensures
        r@ == mark@ + digits(bytes@, upper),
{
    let hex = text::hex_of(bytes);
    if upper {
        mark.to_owned().concat(&capitals(&hex))
    } else {
        mark.to_owned().concat(&hex)
    }
}

pub fn show(raw: Raw, mark: &str, upper: bool) -> (r: Json)
    ensures
        r@ == shown(raw, mark@, upper),
{
    match raw {
        Raw::Null => Json::Null,
        Raw::Json(json) => json,
        Raw::Bytes(bytes) => Json::Text(marked_hex(&bytes, mark, upper)),
        Raw::Unreadable(why) => Json::Text(
            "<decode error: ".to_owned().concat(&why).concat(">"),
        ),
    }
}

pub open spec fn no_decoder(kind: Seq<char>) -> Seq<char> {
    "<unsupported type "@ + kind + ">"@
}

/// What stands for a cell whose type nothing decodes.
pub fn unsupported(kind: &str) -> (r: Json)
    ensures
        r@ == JsonView::Text(no_decoder(kind@)),
{
    Json::Text("<unsupported type ".to_owned().concat(kind).concat(">"))
}

// ---------------------------------------------------------------------- snapshots

/// One column of a whole database, with the table it belongs to.
#[derive(Debug)]
pub struct SnapshotRow {
    pub schema: String,
    pub table: String,
    pub kind: TableKind,
    pub column: ColumnInfo,
}

#[verifier::ext_equal]
pub struct SnapshotRowView {
    pub schema: Seq<char>,
    pub table: Seq<char>,
    pub kind: TableKind,
    pub column: ColumnInfoView,
}

impl View for SnapshotRow {
    type V = SnapshotRowView;

    open spec fn view(&self) -> SnapshotRowView {
        SnapshotRowView {
            schema: self.schema@,
            table: self.table@,
            kind: self.kind,
            column: self.column@,
        }
    }
}

pub open spec fn snapshot_view(rows: Seq<SnapshotRow>) -> Seq<SnapshotRowView> {
    Seq::new(rows.len(), |i: int| rows[i]@)
}

/// Rows that arrive grouped by table, as tables: a row that names the table before it
/// adds a column to that, any other begins one.
pub open spec fn gathered(rows: Seq<SnapshotRowView>) -> Seq<TableSchemaView>
    decreases rows.len(),
{
    if rows.len() == 0 {
        Seq::empty()
    } else {
        let before = gathered(rows.drop_last());
        let row = rows.last();
        if before.len() > 0 && before.last().schema == row.schema && before.last().name
            == row.table {
            before.drop_last().push(
                TableSchemaView {
                    columns: before.last().columns.push(row.column),
                    ..before.last()
                },
            )
        } else {
            before.push(
                TableSchemaView {
                    schema: row.schema,
                    name: row.table,
                    kind: row.kind,
                    columns: seq![row.column],
                },
            )
        }
    }
}

pub fn gather(rows: Vec<SnapshotRow>) -> (r: Vec<TableSchema>)
    ensures
        model::schemas_view(r@) == gathered(snapshot_view(rows@)),
{
    let ghost all = snapshot_view(rows@);
    let ghost given = rows@;
    let mut tables: Vec<TableSchema> = Vec::new();
    assert(model::schemas_view(tables@) == gathered(all.take(0)));
    for found in iter: rows.into_iter()
        invariant
            iter.seq() == given,
            all == snapshot_view(given),
            model::schemas_view(tables@) == gathered(all.take(iter.index())),
    {
        let ghost n = iter.index();
        let SnapshotRow { schema, table, kind, column } = found;
        let ghost row = all[n];
        let ghost before = model::schemas_view(tables@);
        assert(all.take(n + 1).drop_last() == all.take(n));
        assert(all.take(n + 1).last() == row);
        let same = if tables.len() > 0 {
            let last = &tables[tables.len() - 1];
            text::same(&last.schema, &schema) && text::same(&last.name, &table)
        } else {
            false
        };
        let current = if same { tables.pop() } else { None };
        match current {
            Some(last) => {
                let mut last = last;
                let ghost earlier = model::infos_view(last.columns@);
                assert(model::schemas_view(tables@) =~= before.drop_last());
                last.columns.push(column);
                assert(model::infos_view(last.columns@) =~= earlier.push(row.column));
                let ghost now = last@;
                tables.push(last);
                assert(model::schemas_view(tables@) =~= before.drop_last().push(now));
            },
            None => {
                let mut columns: Vec<ColumnInfo> = Vec::new();
                columns.push(column);
                assert(model::infos_view(columns@) =~= seq![row.column]);
                let made = TableSchema { schema, name: table, kind, columns };
                let ghost now = made@;
                tables.push(made);
                assert(model::schemas_view(tables@) =~= before.push(now));
            },
        }
    }
    assert(all.take(all.len() as int) == all);
    tables
}

/// The columns of those tables, one after the other.
pub open spec fn all_columns(tables: Seq<TableSchemaView>) -> Seq<ColumnInfoView>
    decreases tables.len(),
{
    if tables.len() == 0 {
        Seq::empty()
    } else {
        all_columns(tables.drop_last()) + tables.last().columns
    }
}

/// No column is lost on the way into a snapshot or changes places, and no table in it is
/// without one.
pub proof fn law_a_snapshot_keeps_every_column(rows: Seq<SnapshotRowView>)
    ensures
        all_columns(gathered(rows)) == Seq::new(rows.len(), |i: int| rows[i].column),
        forall|i: int|
            0 <= i < gathered(rows).len() ==> (#[trigger] gathered(rows)[i]).columns.len() > 0,
    decreases rows.len(),
{
    let tables = gathered(rows);
    let columns = Seq::new(rows.len(), |i: int| rows[i].column);
    if rows.len() == 0 {
        assert(all_columns(tables) =~= columns);
    } else {
        law_a_snapshot_keeps_every_column(rows.drop_last());
        let before = gathered(rows.drop_last());
        let row = rows.last();
        let earlier = Seq::new(rows.drop_last().len(), |i: int| rows.drop_last()[i].column);
        assert(columns =~= earlier.push(row.column));
        if before.len() > 0 && before.last().schema == row.schema && before.last().name
            == row.table {
            assert(tables.drop_last() == before.drop_last());
            assert(all_columns(tables) =~= all_columns(before).push(row.column));
            assert forall|i: int| 0 <= i < tables.len() implies (#[trigger] tables[i]).columns.len()
                > 0 by {
                if i < before.len() - 1 {
                    assert(tables[i] == before[i]);
                }
            }
        } else {
            assert(tables.drop_last() == before);
            assert(all_columns(tables) =~= all_columns(before).push(row.column));
            assert forall|i: int| 0 <= i < tables.len() implies (#[trigger] tables[i]).columns.len()
                > 0 by {
                if i < before.len() {
                    assert(tables[i] == before[i]);
                }
            }
        }
    }
}

/// Two hexadecimal digits spell a byte, in the case that was asked for.
pub open spec fn byte_at(s: Seq<char>, at: int, upper: bool, b: u8) -> bool {
    if upper {
        &&& '0' <= s[at] <= '9' || 'A' <= s[at] <= 'F'
        &&& '0' <= s[at + 1] <= '9' || 'A' <= s[at + 1] <= 'F'
        &&& capital_value(s[at]) * 16 + capital_value(s[at + 1]) == b
    } else {
        text::spells_byte(s[at], s[at + 1], b)
    }
}

/// The value of a hexadecimal digit, in capitals.
pub open spec fn capital_value(c: char) -> int {
    if '0' <= c <= '9' {
        c as int - '0' as int
    } else {
        c as int - 'A' as int + 10
    }
}

/// A cell is shown as it was read. Null and nothing else is null, a value is itself, bytes
/// are two digits each behind the mark, and a cell that would not decode says why.
pub proof fn law_a_cell_is_shown_as_it_was_read(raw: Raw, mark: Seq<char>, upper: bool)
    ensures
        match raw {
            Raw::Null => shown(raw, mark, upper) is Null,
            Raw::Json(json) => shown(raw, mark, upper) == json@,
            Raw::Bytes(bytes) => match shown(raw, mark, upper) {
                JsonView::Text(t) => {
                    &&& t.len() == mark.len() + 2 * bytes@.len()
                    &&& t.take(mark.len() as int) == mark
                    &&& forall|i: int|
                        0 <= i < bytes@.len() ==> byte_at(
                            t,
                            mark.len() + 2 * i,
                            upper,
                            #[trigger] bytes@[i],
                        )
                },
                _ => false,
            },
            Raw::Unreadable(why) => shown(raw, mark, upper) == JsonView::Text(
                "<decode error: "@ + why@ + ">"@,
            ),
        },
{
    match raw {
        Raw::Bytes(bytes) => {
            text::law_hexadecimal_spells_the_bytes(bytes@);
            let hex = text::hex(bytes@);
            let t = mark + digits(bytes@, upper);
            assert(t.take(mark.len() as int) == mark);
            assert forall|i: int| 0 <= i < bytes@.len() implies byte_at(
                t,
                mark.len() + 2 * i,
                upper,
                #[trigger] bytes@[i],
            ) by {
                assert(text::spells_byte(hex[2 * i], hex[2 * i + 1], bytes@[i]));
                assert(t[mark.len() + 2 * i] == digits(bytes@, upper)[2 * i]);
                assert(t[mark.len() + 2 * i + 1] == digits(bytes@, upper)[2 * i + 1]);
                if upper {
                    lemma_capital(hex[2 * i]);
                    lemma_capital(hex[2 * i + 1]);
                }
            }
        },
        _ => {},
    }
}

proof fn lemma_capital(c: char)
    requires
        '0' <= c <= '9' || 'a' <= c <= 'f',
    ensures
        '0' <= capital_char(c) <= '9' || 'A' <= capital_char(c) <= 'F',
        capital_value(capital_char(c)) == text::hex_value(c),
{
}

/// A table of a snapshot is what its rows say it is.
pub open spec fn is_table_of(table: TableSchemaView, row: SnapshotRowView) -> bool {
    &&& table.schema == row.schema
    &&& table.name == row.table
}

/// A row of the catalogue is a column of one of those tables, under the row's names.
pub open spec fn has_row(tables: Seq<TableSchemaView>, row: SnapshotRowView) -> bool {
    exists|t: int|
        0 <= t < tables.len() && is_table_of(#[trigger] tables[t], row)
            && tables[t].columns.contains(row.column)
}

/// A table is there because of a row, which says what kind it is and gives its first column.
pub open spec fn begun_by(table: TableSchemaView, row: SnapshotRowView) -> bool {
    &&& is_table_of(table, row)
    &&& table.kind == row.kind
    &&& table.columns.len() > 0
    &&& table.columns[0] == row.column
}

pub open spec fn is_begun(table: TableSchemaView, rows: Seq<SnapshotRowView>) -> bool {
    exists|i: int| 0 <= i < rows.len() && begun_by(table, #[trigger] rows[i])
}

proof fn lemma_rows_stay(rows: Seq<SnapshotRowView>, i: int)
    requires
        0 <= i < rows.len() - 1,
        has_row(gathered(rows.drop_last()), rows[i]),
    ensures
        has_row(gathered(rows), rows[i]),
{
    let before = gathered(rows.drop_last());
    let after = gathered(rows);
    let row = rows[i];
    let t = choose|t: int|
        0 <= t < before.len() && is_table_of(#[trigger] before[t], row)
            && before[t].columns.contains(row.column);
    let k = before[t].columns.index_of(row.column);
    assert(after[t].columns[k] == row.column);
    assert(is_table_of(after[t], row));
}

proof fn lemma_last_row(rows: Seq<SnapshotRowView>)
    requires
        rows.len() > 0,
    ensures
        has_row(gathered(rows), rows.last()),
        gathered(rows).len() > 0,
        is_table_of(gathered(rows).last(), rows.last()),
{
    let after = gathered(rows);
    let t = after.len() - 1;
    let k = after[t].columns.len() - 1;
    assert(after[t].columns[k] == rows.last().column);
    assert(is_table_of(after[t], rows.last()));
}

proof fn lemma_begun_stays(rows: Seq<SnapshotRowView>, t: int)
    requires
        0 <= t < gathered(rows.drop_last()).len(),
        rows.len() > 0,
        is_begun(gathered(rows.drop_last())[t], rows.drop_last()),
    ensures
        is_begun(gathered(rows)[t], rows),
{
    let fewer = rows.drop_last();
    let before = gathered(fewer);
    let i = choose|i: int| 0 <= i < fewer.len() && begun_by(before[t], #[trigger] fewer[i]);
    assert(rows[i] == fewer[i]);
    assert(gathered(rows)[t].columns[0] == before[t].columns[0]);
    assert(begun_by(gathered(rows)[t], rows[i]));
}

/// Every row of a catalogue is a column of a table with the row's names, and every table is
/// there because of a row that begins it and says what kind it is.
#[verifier::spinoff_prover]
pub proof fn law_a_snapshot_has_the_tables_its_rows_name(rows: Seq<SnapshotRowView>)
    ensures
        forall|i: int| 0 <= i < rows.len() ==> has_row(gathered(rows), #[trigger] rows[i]),
        forall|t: int|
            0 <= t < gathered(rows).len() ==> is_begun(#[trigger] gathered(rows)[t], rows),
    decreases rows.len(),
{
    if rows.len() > 0 {
        let fewer = rows.drop_last();
        law_a_snapshot_has_the_tables_its_rows_name(fewer);
        assert forall|i: int| 0 <= i < rows.len() implies has_row(
            gathered(rows),
            #[trigger] rows[i],
        ) by {
            if i == rows.len() - 1 {
                lemma_last_row(rows);
            } else {
                assert(has_row(gathered(fewer), fewer[i]));
                lemma_rows_stay(rows, i);
            }
        }
        assert forall|t: int| 0 <= t < gathered(rows).len() implies is_begun(
            #[trigger] gathered(rows)[t],
            rows,
        ) by {
            if t < gathered(fewer).len() {
                assert(is_begun(gathered(fewer)[t], fewer));
                lemma_begun_stays(rows, t);
            } else {
                assert(begun_by(gathered(rows)[t], rows[rows.len() - 1]));
            }
        }
    }
}

/// A table and the next are two tables.
pub open spec fn begins_anew(tables: Seq<TableSchemaView>, t: int) -> bool {
    tables[t].schema != tables[t - 1].schema || tables[t].name != tables[t - 1].name
}

/// A table that goes on is not begun again.
#[verifier::spinoff_prover]
pub proof fn law_a_table_that_goes_on_is_not_begun_again(rows: Seq<SnapshotRowView>)
    ensures
        forall|t: int| 0 < t < gathered(rows).len() ==> #[trigger] begins_anew(gathered(rows), t),
    decreases rows.len(),
{
    if rows.len() > 0 {
        let before = gathered(rows.drop_last());
        let after = gathered(rows);
        law_a_table_that_goes_on_is_not_begun_again(rows.drop_last());
        assert forall|t: int| 0 < t < after.len() implies #[trigger] begins_anew(after, t) by {
            if t < before.len() {
                assert(begins_anew(before, t));
            }
        }
    }
}

/// What is left when nothing follows goes out: the rows that were waiting, all of them, or
/// word that there was nothing.
pub proof fn law_what_is_left_goes_out(batcher: Batcher, r: Option<RowBatch>)
    requires
        call_ensures(Batcher::finish, (batcher,), r),
    ensures
        batcher.described && batcher.buffered@.len() > 0 ==> (r matches Some(RowBatch::Rows(rows))
            && rows@ == batcher.buffered@),
        batcher.described && batcher.buffered@.len() == 0 ==> r is None,
        !batcher.described ==> (r matches Some(RowBatch::Affected(n)) && n == 0),
{
}

} // verus!
