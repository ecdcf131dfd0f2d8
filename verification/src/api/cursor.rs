//! A query held open across requests, handing out one page at a time.
//!
//! To run the query again with an offset for each page would be slower, and wrong: a
//! statement with no `ORDER BY` may hand back another order on the second run, so page two
//! could repeat or skip rows of page one. Reading further down a stream that was never
//! restarted cannot do that.

use crate::error::Error;
use crate::json::Json;
use crate::model::RowBatch;
use vstd::prelude::*;

verus! {

/// Where a cursor stands: the rows that overflowed the last page, how many rows the page
/// is to hold, and how many it holds so far.
#[verifier::ext_equal]
pub struct Standing {
    pub carried: Seq<Vec<Json>>,
    pub want: nat,
    pub sent: nat,
}

/// What happens to a cursor.
#[verifier::ext_equal]
pub enum Event {
    /// A page of so many rows is asked for.
    Page(nat),
    /// The query gives rows.
    Rows(Seq<Vec<Json>>),
    /// The query gives something else: its columns, or a count.
    Other,
}

impl Standing {
    /// How many more rows the page takes.
    pub open spec fn room(self) -> int {
        self.want - self.sent
    }

    /// What an event hands out.
    pub open spec fn handed(self, event: Event) -> Seq<Vec<Json>> {
        match event {
            Event::Page(want) => first(self.carried, want as int),
            Event::Rows(rows) => first(rows, self.room()),
            Event::Other => Seq::empty(),
        }
    }

    pub open spec fn after(self, event: Event) -> Standing {
        match event {
            Event::Page(want) => Standing {
                carried: rest(self.carried, want as int),
                want,
                sent: first(self.carried, want as int).len(),
            },
            Event::Rows(rows) => Standing {
                carried: rest(rows, self.room()),
                want: self.want,
                sent: self.sent + first(rows, self.room()).len(),
            },
            Event::Other => self,
        }
    }

    /// Rows are only read when none is waiting.
    pub open spec fn allows(self, event: Event) -> bool {
        event is Rows ==> self.carried.len() == 0
    }

    /// Whether the page is full and something is known to follow it.
    pub open spec fn full(self) -> bool {
        self.sent >= self.want && self.carried.len() > 0
    }
}

pub open spec fn first(rows: Seq<Vec<Json>>, n: int) -> Seq<Vec<Json>> {
    if rows.len() > n {
        rows.take(n)
    } else {
        rows
    }
}

pub open spec fn rest(rows: Seq<Vec<Json>>, n: int) -> Seq<Vec<Json>> {
    if rows.len() > n {
        rows.skip(n)
    } else {
        Seq::empty()
    }
}

/// What is to be done next for the page.
pub enum Chunk {
    /// Send this, and then ask what is next.
    Batch(RowBatch),
    /// Read the next batch of the query. Whether anything follows a full page is only
    /// knowable by looking.
    Read,
    /// The page is complete. `more` is false once the result is exhausted.
    PageEnd { more: bool },
    Failed(Error),
}

/// A running query, positioned wherever the last page left off.
pub struct Cursor {
    pub carried: Vec<Vec<Json>>,
    pub want: usize,
    pub sent: usize,
    /// Set once the result has run out.
    pub finished: bool,
}

impl View for Cursor {
    type V = Standing;

    open spec fn view(&self) -> Standing {
        Standing { carried: self.carried@, want: self.want as nat, sent: self.sent as nat }
    }
}

impl Cursor {
    /// A page is not overfull, and rows wait only where a page is full.
    pub open spec fn wf(&self) -> bool {
        self.sent <= self.want && (self.sent < self.want ==> self.carried@.len() == 0)
    }

    /// A query that is open, with nothing read of it.
    pub fn open() -> (r: Cursor)
        ensures
            r.wf(),
            !r.finished,
            r@ == (Standing { carried: Seq::empty(), want: 0, sent: 0 }),
    {
        Cursor { carried: Vec::new(), want: 0, sent: 0, finished: false }
    }

    /// Ask for the next page. `None` once the cursor is spent, so that a stray request
    /// after the last page does nothing. Whatever overflowed the last page opens this one.
    pub fn request(&mut self, rows: usize) -> (r: Option<Chunk>)
        ensures
            final(self).finished == old(self).finished,
            match r {
                None => old(self).finished && *final(self) == *old(self),
                Some(chunk) => {
                    &&& !old(self).finished
                    &&& final(self).wf()
                    &&& final(self)@ == old(self)@.after(Event::Page(rows as nat))
                    &&& if old(self).carried@.len() > 0 {
                        chunk matches Chunk::Batch(RowBatch::Rows(batch)) && batch@ == old(self)@.handed(Event::Page(rows as nat))
                    } else {
                        chunk == final(self).due()
                    }
                },
            },
    {
        if self.finished {
            return None;
        }
        self.want = rows;
        self.sent = 0;
        if self.carried.len() == 0 {
            return Some(self.next_chunk());
        }
        let mut batch: Vec<Vec<Json>> = Vec::new();
        std::mem::swap(&mut batch, &mut self.carried);
        if batch.len() > rows {
            self.carried = batch.split_off(rows);
        }
        self.sent = batch.len();
        Some(Chunk::Batch(RowBatch::Rows(batch)))
    }

    /// What is due when nothing is waiting to be sent.
    pub open spec fn due(&self) -> Chunk {
        if self@.full() {
            Chunk::PageEnd { more: true }
        } else {
            Chunk::Read
        }
    }

    /// What is next, once what was handed out is sent.
    pub fn next_chunk(&self) -> (r: Chunk)
        ensures
            r == self.due(),
    {
        if self.sent >= self.want && self.carried.len() > 0 {
            Chunk::PageEnd { more: true }
        } else {
            Chunk::Read
        }
    }

    /// Take what the query gave. A batch that overflows the page is split, and its tail
    /// waits.
    pub fn take(&mut self, batch: Result<RowBatch, Error>) -> (r: Chunk)
        requires
            old(self).wf(),
            old(self).carried@.len() == 0,
        ensures
            final(self).wf(),
            match batch {
                Err(e) => r == Chunk::Failed(e) && final(self).finished && final(self)@ == old(self)@,
                Ok(RowBatch::Rows(rows)) => {
                    let handed = old(self)@.handed(Event::Rows(rows@));
                    &&& final(self)@ == old(self)@.after(Event::Rows(rows@))
                    &&& final(self).finished == old(self).finished
                    &&& if handed.len() > 0 {
                        r matches Chunk::Batch(RowBatch::Rows(sent)) && sent@ == handed
                    } else {
                        r == final(self).due()
                    }
                },
                Ok(other) => r == Chunk::Batch(other) && *final(self) == *old(self),
            },
    {
        match batch {
            Err(e) => {
                self.finished = true;
                Chunk::Failed(e)
            },
            Ok(RowBatch::Rows(rows)) => {
                let mut rows = rows;
                let room: usize = self.want - self.sent;
                if rows.len() > room {
                    self.carried = rows.split_off(room);
                }
                self.sent = self.sent + rows.len();
                if rows.len() > 0 {
                    Chunk::Batch(RowBatch::Rows(rows))
                } else {
                    self.next_chunk()
                }
            },
            Ok(other) => Chunk::Batch(other),
        }
    }

    /// The query has nothing more to give.
    pub fn exhaust(&mut self) -> (r: Chunk)
        ensures
            r == (Chunk::PageEnd { more: false }),
            *final(self) == (Cursor { finished: true, ..*old(self) }),
    {
        self.finished = true;
        Chunk::PageEnd { more: false }
    }
}

// --------------------------------------------------------------------------- laws

pub open spec fn after_all(start: Standing, events: Seq<Event>) -> Standing
    decreases events.len(),
{
    if events.len() == 0 {
        start
    } else {
        after_all(start, events.drop_last()).after(events.last())
    }
}

/// Everything that is handed out, page after page.
pub open spec fn handed_all(start: Standing, events: Seq<Event>) -> Seq<Vec<Json>>
    decreases events.len(),
{
    if events.len() == 0 {
        Seq::empty()
    } else {
        handed_all(start, events.drop_last()) + after_all(start, events.drop_last()).handed(
            events.last(),
        )
    }
}

/// Everything the query gives.
pub open spec fn given_all(events: Seq<Event>) -> Seq<Vec<Json>>
    decreases events.len(),
{
    if events.len() == 0 {
        Seq::empty()
    } else {
        given_all(events.drop_last()) + (match events.last() {
            Event::Rows(rows) => rows,
            _ => Seq::empty(),
        })
    }
}

pub open spec fn allowed(start: Standing, events: Seq<Event>) -> bool
    decreases events.len(),
{
    events.len() == 0 || (allowed(start, events.drop_last()) && after_all(
        start,
        events.drop_last(),
    ).allows(events.last()))
}

/// Over any number of pages, the rows handed out are the rows of the query, in order: none
/// is skipped and none repeated, and what is not handed out yet is what is carried.
pub proof fn law_no_row_is_lost_or_repeated(start: Standing, events: Seq<Event>)
    requires
        allowed(start, events),
        start.sent <= start.want,
    ensures
        handed_all(start, events) + after_all(start, events).carried == start.carried + given_all(
            events,
        ),
        after_all(start, events).sent <= after_all(start, events).want,
    decreases events.len(),
{
    if events.len() == 0 {
        assert(handed_all(start, events) + start.carried =~= start.carried + given_all(events));
    } else {
        let before = events.drop_last();
        let s = after_all(start, before);
        law_no_row_is_lost_or_repeated(start, before);
        let e = events.last();
        let out = handed_all(start, before);
        let handed = s.handed(e);
        let next = s.after(e);
        match e {
            Event::Page(want) => {
                assert(handed + next.carried =~= s.carried);
                assert(out + handed + next.carried =~= out + (handed + next.carried));
                assert(given_all(events) =~= given_all(before));
            },
            Event::Rows(rows) => {
                assert(handed + next.carried =~= rows);
                assert(s.carried =~= Seq::empty());
                assert(out + s.carried =~= out);
                assert(out + handed + next.carried =~= out + (handed + next.carried));
                assert(start.carried + given_all(events) =~= (start.carried + given_all(before))
                    + rows);
            },
            Event::Other => {
                assert(out + handed =~= out);
                assert(given_all(events) =~= given_all(before));
            },
        }
    }
}

/// What a page comes to: the rows it hands out, whether it says that more follows, where
/// it leaves the cursor, and what it leaves unread of the query.
#[verifier::ext_equal]
pub struct Page {
    pub sent: Seq<Vec<Json>>,
    pub more: bool,
    pub standing: Standing,
    pub unread: Seq<Event>,
}

/// A page that has handed out `sent` so far, read on to its end: it ends once it is full
/// and something is known to follow, or once the query has nothing more to give.
pub open spec fn read_on(standing: Standing, sent: Seq<Vec<Json>>, unread: Seq<Event>) -> Page
    decreases unread.len(),
{
    if standing.full() {
        Page { sent, more: true, standing, unread }
    } else if unread.len() == 0 {
        Page { sent, more: false, standing, unread }
    } else {
        read_on(
            standing.after(unread[0]),
            sent + standing.handed(unread[0]),
            unread.skip(1),
        )
    }
}

/// A page of `want` rows.
pub open spec fn page(standing: Standing, want: nat, unread: Seq<Event>) -> Page {
    let event = Event::Page(want);
    read_on(standing.after(event), standing.handed(event), unread)
}

/// Page after page.
pub open spec fn pages(standing: Standing, wants: Seq<nat>, unread: Seq<Event>) -> Page
    decreases wants.len(),
{
    if wants.len() == 0 {
        Page { sent: Seq::empty(), more: true, standing, unread }
    } else {
        let before = pages(standing, wants.drop_last(), unread);
        let last = page(before.standing, wants.last(), before.unread);
        Page { sent: before.sent + last.sent, ..last }
    }
}

pub open spec fn total(wants: Seq<nat>) -> nat
    decreases wants.len(),
{
    if wants.len() == 0 {
        0
    } else {
        total(wants.drop_last()) + wants.last()
    }
}

/// What a query gives: rows and other things, and no request.
pub open spec fn is_query(events: Seq<Event>) -> bool {
    forall|i: int| 0 <= i < events.len() ==> !(#[trigger] events[i] is Page)
}

proof fn lemma_given(events: Seq<Event>)
    requires
        events.len() > 0,
    ensures
        given_all(events) == given_all(events.take(1)) + given_all(events.skip(1)),
        given_all(events.take(1)) == (match events[0] {
            Event::Rows(rows) => rows,
            _ => Seq::empty(),
        }),
    decreases events.len(),
{
    let one = events.take(1);
    assert(one.drop_last() == Seq::<Event>::empty());
    assert(given_all(one) == given_all(one.drop_last()) + (match events[0] {
        Event::Rows(rows) => rows,
        _ => Seq::empty(),
    }));
    if events.len() == 1 {
        assert(events.skip(1) == Seq::<Event>::empty());
        assert(events == one);
    } else {
        lemma_given(events.drop_last());
        assert(events.drop_last().take(1) == one);
        assert(events.drop_last().skip(1) == events.skip(1).drop_last());
    }
}

proof fn lemma_read_on(standing: Standing, sent: Seq<Vec<Json>>, unread: Seq<Event>)
    requires
        standing.sent <= standing.want,
        standing.sent < standing.want ==> standing.carried.len() == 0,
        is_query(unread),
    ensures
        ({
            let page = read_on(standing, sent, unread);
            let left = standing.carried + given_all(unread);
            &&& page.sent == sent + first(left, standing.room())
            &&& page.more == (left.len() > standing.room())
            &&& page.standing.carried + given_all(page.unread) == rest(left, standing.room())
            &&& is_query(page.unread)
        }),
    decreases unread.len(),
{
    let left = standing.carried + given_all(unread);
    let room = standing.room();
    if standing.full() {
        assert(first(left, room) == Seq::<Vec<Json>>::empty());
    } else if unread.len() == 0 {
        assert(left == Seq::<Vec<Json>>::empty());
    } else {
        let event = unread[0];
        let next = standing.after(event);
        let tail = unread.skip(1);
        lemma_given(unread);
        assert forall|i: int| 0 <= i < tail.len() implies !(#[trigger] tail[i] is Page) by {
            assert(tail[i] == unread[i + 1]);
        }
        lemma_read_on(next, sent + standing.handed(event), tail);
        let after = next.carried + given_all(tail);
        assert(sent + standing.handed(event) + first(after, next.room()) == sent + first(
            left,
            room,
        ));
        assert(rest(after, next.room()) == rest(left, room));
    }
}

/// A page holds exactly as many rows as were asked for, or all that were left: the next
/// ones of the query, in order. It says that more follows exactly when some row is not
/// handed out yet, and leaves those rows for the pages after it.
pub proof fn law_a_page_is_what_was_asked_for(standing: Standing, want: nat, unread: Seq<Event>)
    requires
        is_query(unread),
    ensures
        ({
            let page = page(standing, want, unread);
            let left = standing.carried + given_all(unread);
            &&& page.sent == first(left, want as int)
            &&& page.more == (left.len() > want)
            &&& page.standing.carried + given_all(page.unread) == rest(left, want as int)
            &&& is_query(page.unread)
        }),
{
    let event = Event::Page(want);
    let next = standing.after(event);
    let left = standing.carried + given_all(unread);
    lemma_read_on(next, standing.handed(event), unread);
    let after = next.carried + given_all(unread);
    assert(standing.handed(event) + first(after, next.room()) == first(left, want as int));
    assert(rest(after, next.room()) == rest(left, want as int));
}

/// Over any number of pages of one query, what is handed out is its first rows, in order
/// and each once: as many as were asked for altogether, or all there are.
pub proof fn law_pages_hand_out_the_first_rows(wants: Seq<nat>, query: Seq<Event>)
    requires
        is_query(query),
    ensures
        ({
            let start = Standing { carried: Seq::empty(), want: 0, sent: 0 };
            let pages = pages(start, wants, query);
            let rows = given_all(query);
            &&& pages.sent == first(rows, total(wants) as int)
            &&& pages.standing.carried + given_all(pages.unread) == rest(rows, total(wants) as int)
            &&& is_query(pages.unread)
        }),
    decreases wants.len(),
{
    let start = Standing { carried: Seq::empty(), want: 0, sent: 0 };
    let rows = given_all(query);
    if wants.len() == 0 {
        assert(first(rows, 0) == Seq::<Vec<Json>>::empty());
        assert(start.carried + rows == rest(rows, 0));
    } else {
        law_pages_hand_out_the_first_rows(wants.drop_last(), query);
        let before = pages(start, wants.drop_last(), query);
        law_a_page_is_what_was_asked_for(before.standing, wants.last(), before.unread);
        let n = total(wants.drop_last()) as int;
        let want = wants.last() as int;
        assert(first(rows, n) + first(rest(rows, n), want) == first(rows, n + want));
        assert(rest(rest(rows, n), want) == rest(rows, n + want));
    }
}

/// A page holds no more rows than were asked for, and a row waits for the next one only
/// once it is full.
pub proof fn law_a_page_is_never_overfull(standing: Standing, event: Event)
    requires
        standing.sent <= standing.want,
        standing.allows(event),
        event is Other ==> standing.sent < standing.want ==> standing.carried.len() == 0,
    ensures
        standing.after(event).sent <= standing.after(event).want,
        standing.after(event).sent < standing.after(event).want ==> standing.after(
            event,
        ).carried.len() == 0,
{
}

} // verus!
