//! One socket, one query at a time.

use crate::error::Error;
use crate::json::Json;
use crate::model::{ColumnMeta, RowBatch};
use crate::text;
use std::sync::Arc;
use vstd::prelude::*;
use vstd::string::*;

verus! {

/// How many rows a query may send back where nobody says.
pub const DEFAULT_MAX_ROWS: u64 = 50_000;

/// What a client asks for.
pub struct QueryRequest {
    pub source_id: String,
    /// Which database on the source to run against. Defaults to the source's own.
    pub database: Option<String>,
    pub sql: String,
    /// Stop after this many rows. `0` means no cap.
    pub max_rows: Option<u64>,
}

/// What a setting says of the cap: a number, where it is one.
pub open spec fn configured(setting: Option<Seq<char>>) -> nat {
    match setting {
        Some(s) => match text::number(s) {
            Some(n) => if n <= u64::MAX {
                n
            } else {
                DEFAULT_MAX_ROWS as nat
            },
            None => DEFAULT_MAX_ROWS as nat,
        },
        None => DEFAULT_MAX_ROWS as nat,
    }
}

/// How many rows a query may send back before it is stopped.
///
/// A `select *` typed by reflex over a few million rows would take the browser tab with it.
/// The client sends its own value; `setting` is for anything that does not.
pub fn max_rows(request: &QueryRequest, setting: Option<&str>) -> (r: Option<u64>)
    ensures
        ({
            let n = match request.max_rows {
                Some(n) => n as nat,
                None => configured(text::opt_str(setting)),
            };
            r == (if n > 0 {
                Some(n as u64)
            } else {
                None
            })
        }),
{
    let configured: u64 = match request.max_rows {
        Some(n) => n,
        None => match setting {
            Some(s) => match text::parse_u64(s) {
                Some(n) => n,
                None => DEFAULT_MAX_ROWS,
            },
            None => DEFAULT_MAX_ROWS,
        },
    };
    if configured > 0 {
        Some(configured)
    } else {
        None
    }
}

/// Whether a control message asks to cancel.
pub fn is_cancel(kind: &str) -> (r: bool)
    ensures
        r == (kind@ == "cancel"@),
{
    text::same(kind, "cancel")
}

pub enum ServerMessage {
    Columns { columns: Arc<Vec<ColumnMeta>> },
    Rows { rows: Vec<Vec<Json>> },
    Affected { rows_affected: u64 },
    End {
        rows: u128,
        elapsed_ms: u64,
        /// The cap was hit and the query was stopped: there were more rows.
        truncated: bool,
    },
    Cancelled,
    Error { message: String },
}

/// What is to be said of a query that ended without a result.
pub fn closing(outcome: Option<Error>) -> (r: ServerMessage)
    ensures
        match outcome {
            Some(e) => r matches ServerMessage::Error { message } && message@ == e@.message(),
            None => r is Cancelled,
        },
{
    match outcome {
        Some(e) => ServerMessage::Error { message: e.message() },
        None => ServerMessage::Cancelled,
    }
}

/// What is to be said of a request that could not be read.
pub fn bad_request(why: &str) -> (r: ServerMessage)
    ensures
        r matches ServerMessage::Error { message } && message@ == "bad request: "@ + why@,
{
    ServerMessage::Error { message: "bad request: ".to_owned().concat(why) }
}

/// A result on its way to the socket, stopping at a cap.
pub struct Pump {
    pub cap: Option<u64>,
    pub rows: u128,
    pub truncated: bool,
}

/// How many more rows may go.
pub open spec fn left(cap: Option<u64>, rows: nat) -> Option<int> {
    match cap {
        Some(cap) => Some(cap - rows),
        None => None,
    }
}

/// What of a batch goes: all of it, or what the cap leaves room for.
pub open spec fn going(cap: Option<u64>, rows: nat, batch: Seq<Vec<Json>>) -> Seq<Vec<Json>> {
    match left(cap, rows) {
        Some(n) => if batch.len() > n {
            batch.take(n)
        } else {
            batch
        },
        None => batch,
    }
}

/// Whether a batch is more than the cap leaves room for. Strictly more, so a result that
/// lands exactly on the cap is reported whole.
pub open spec fn overflows(cap: Option<u64>, rows: nat, batch: Seq<Vec<Json>>) -> bool {
    left(cap, rows) matches Some(n) && batch.len() > n
}

impl Pump {
    pub open spec fn wf(&self) -> bool {
        self.cap matches Some(cap) ==> self.rows <= cap
    }

    pub fn new(cap: Option<u64>) -> (r: Pump)
        ensures
            r.wf(),
            r.cap == cap,
            r.rows == 0,
            !r.truncated,
    {
        Pump { cap, rows: 0, truncated: false }
    }

    /// What is to be sent of a batch, if anything. Once the result is truncated the query
    /// is to be dropped, which is what cancels it.
    pub fn take(&mut self, batch: RowBatch) -> (r: Option<ServerMessage>)
        requires
            old(self).wf(),
            !old(self).truncated,
            old(self).rows + u64::MAX <= u128::MAX,
        ensures
            final(self).wf(),
            final(self).cap == old(self).cap,
            match batch {
                RowBatch::Columns(columns) => r == Some(ServerMessage::Columns { columns })
                    && *final(self) == *old(self),
                RowBatch::Affected(n) => r == Some(ServerMessage::Affected { rows_affected: n })
                    && *final(self) == *old(self),
                RowBatch::Rows(rows) => {
                    let sent = going(old(self).cap, old(self).rows as nat, rows@);
                    &&& final(self).rows == old(self).rows + sent.len()
                    &&& final(self).truncated == overflows(
                        old(self).cap,
                        old(self).rows as nat,
                        rows@,
                    )
                    &&& if sent.len() > 0 {
                        r matches Some(ServerMessage::Rows { rows: out }) && out@ == sent
                    } else {
                        r is None
                    }
                },
            },
    {
        match batch {
            RowBatch::Columns(columns) => Some(ServerMessage::Columns { columns }),
            RowBatch::Affected(n) => Some(ServerMessage::Affected { rows_affected: n }),
            RowBatch::Rows(rows) => {
                let mut rows = rows;
                if let Some(cap) = self.cap {
                    let room: u64 = cap - self.rows as u64;
                    if rows.len() as u64 > room {
                        rows.truncate(room as usize);
                        self.truncated = true;
                    }
                }
                self.rows = self.rows + rows.len() as u128;
                if rows.len() > 0 {
                    Some(ServerMessage::Rows { rows })
                } else {
                    None
                }
            },
        }
    }

    /// The last message of a result.
    pub fn end(&self, elapsed_ms: u64) -> (r: ServerMessage)
        ensures
            r == (ServerMessage::End { rows: self.rows, elapsed_ms, truncated: self.truncated }),
    {
        ServerMessage::End { rows: self.rows, elapsed_ms, truncated: self.truncated }
    }
}

// --------------------------------------------------------------------------- laws

/// All the rows of some batches.
pub open spec fn all_rows(batches: Seq<Seq<Vec<Json>>>) -> Seq<Vec<Json>>
    decreases batches.len(),
{
    if batches.len() == 0 {
        Seq::empty()
    } else {
        all_rows(batches.drop_last()) + batches.last()
    }
}

/// The rows that go, batch after batch, until the result is truncated; and whether it is.
pub open spec fn pumped(cap: Option<u64>, batches: Seq<Seq<Vec<Json>>>) -> (Seq<Vec<Json>>, bool)
    decreases batches.len(),
{
    if batches.len() == 0 {
        (Seq::empty(), false)
    } else {
        let (sent, truncated) = pumped(cap, batches.drop_last());
        if truncated {
            (sent, true)
        } else {
            (
                sent + going(cap, sent.len(), batches.last()),
                overflows(cap, sent.len(), batches.last()),
            )
        }
    }
}

/// However a result is cut into batches, what arrives is its beginning, no longer than the
/// cap; and it is called truncated exactly when there was more.
pub proof fn law_a_cap_keeps_the_beginning(cap: Option<u64>, batches: Seq<Seq<Vec<Json>>>)
    ensures
        ({
            let (sent, truncated) = pumped(cap, batches);
            let all = all_rows(batches);
            match cap {
                None => sent == all && !truncated,
                Some(cap) => truncated == (all.len() > cap) && sent == (if all.len() > cap {
                    all.take(cap as int)
                } else {
                    all
                }),
            }
        }),
    decreases batches.len(),
{
    if batches.len() > 0 {
        let first = batches.drop_last();
        law_a_cap_keeps_the_beginning(cap, first);
        let (before, was) = pumped(cap, first);
        let (sent, truncated) = pumped(cap, batches);
        let all = all_rows(batches);
        match cap {
            None => {
                assert(sent =~= all);
            },
            Some(cap) => {
                if all.len() > cap {
                    assert(sent =~= all.take(cap as int));
                } else {
                    assert(sent =~= all);
                }
            },
        }
    }
}

/// The limit on rows is the one that was set, where that is a number, and the default
/// otherwise.
pub proof fn law_the_limit_is_the_one_that_was_set(n: nat, other: Seq<char>)
    ensures
        n <= u64::MAX ==> configured(Some(text::decimal(n))) == n,
        configured(None) == DEFAULT_MAX_ROWS,
        text::number(other) is None ==> configured(Some(other)) == DEFAULT_MAX_ROWS,
{
    text::lemma_decimal(n);
}

} // verus!
