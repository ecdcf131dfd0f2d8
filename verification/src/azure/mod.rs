//! Azure: signing in to Entra ID, and reading a storage account.

pub mod entra;
pub mod storage;

use crate::error::Error;
use crate::table::Table;
use entra::{DeviceCode, Tokens};
use vstd::prelude::*;
use vstd::string::*;

verus! {

/// How far a sign-in has come.
pub enum Progress {
    Pending,
    Ready(Tokens),
    Failed(String),
}

/// A sign-in in flight, waited on by a browser somewhere and polled by the UI.
///
/// Tickets exist so that the tokens never travel to the page: the dialogue starts a
/// sign-in, watches it finish, and then registers the source quoting a ticket.
pub struct SignIn {
    pub progress: Progress,
    /// What to show while it is pending, for the device-code flow.
    pub prompt: Option<DeviceCode>,
    /// When it was begun, in nanoseconds of a clock that does not go back.
    pub started: u128,
}

/// How long an unfinished sign-in is kept, in nanoseconds: fifteen minutes, longer
/// than either flow can legitimately take.
pub const TICKET_LIFETIME: u128 = 900_000_000_000;

/// What the UI is told while it waits.
#[derive(Debug, Clone)]
pub enum Status {
    Pending,
    Ready { account: String },
    Failed { error: String },
    /// Swept, or never issued.
    Unknown,
}

/// The value of a [`Status`].
pub enum StatusView {
    Pending,
    Ready { account: Seq<char> },
    Failed { error: Seq<char> },
    Unknown,
}

impl View for Status {
    type V = StatusView;

    open spec fn view(&self) -> StatusView {
        match *self {
            Status::Pending => StatusView::Pending,
            Status::Ready { account } => StatusView::Ready { account: account@ },
            Status::Failed { error } => StatusView::Failed { error: error@ },
            Status::Unknown => StatusView::Unknown,
        }
    }
}

/// The sign-ins in flight, by ticket.
pub struct SignIns {
    tickets: Table<SignIn>,
}

impl View for SignIns {
    type V = Map<Seq<char>, SignIn>;

    closed spec fn view(&self) -> Map<Seq<char>, SignIn> {
        self.tickets@
    }
}

/// Still worth keeping at `now`.
pub open spec fn lasting(sign_in: SignIn, now: u128) -> bool {
    now - sign_in.started < TICKET_LIFETIME
}

/// What the UI is told about a ticket.
pub open spec fn status_of(tickets: Map<Seq<char>, SignIn>, ticket: Seq<char>) -> StatusView {
    if !tickets.contains_key(ticket) {
        StatusView::Unknown
    } else {
        match tickets[ticket].progress {
            Progress::Pending => StatusView::Pending,
            Progress::Ready(tokens) => StatusView::Ready { account: tokens.account@ },
            Progress::Failed(error) => StatusView::Failed { error: error@ },
        }
    }
}

/// The tokens a ticket stands for, once its sign-in is finished.
pub open spec fn tokens_held(tickets: Map<Seq<char>, SignIn>, ticket: Seq<char>) -> Option<Tokens> {
    if tickets.contains_key(ticket) && tickets[ticket].progress is Ready {
        Some(tickets[ticket].progress->Ready_0)
    } else {
        None
    }
}

impl SignIns {
    pub closed spec fn wf(&self) -> bool {
        self.tickets.wf()
    }

    pub fn new() -> (r: Self)
        ensures
            r.wf(),
            r@ == Map::<Seq<char>, SignIn>::empty(),
    {
        SignIns { tickets: Table::new() }
    }

    /// Drop what has been waiting too long.
    fn sweep(&mut self, now: u128)
        requires
            old(self).wf(),
        ensures
            final(self).wf(),
            final(self)@ == old(self)@.restrict(
                Set::new(|k: Seq<char>| old(self)@.contains_key(k) && lasting(old(self)@[k], now)),
            ),
    {
        let ghost was = self.tickets;
        let mut stay: Vec<bool> = Vec::new();
        let mut i: usize = 0;
        while i < self.tickets.len()
            invariant
                i <= self.tickets.rows().len(),
                self.tickets == was,
                stay@.len() == i,
                forall|j: int|
                    0 <= j < i ==> #[trigger] stay@[j] == lasting(was.rows()[j].1, now),
            decreases self.tickets.rows().len() - i,
        {
            let started = self.tickets.value_at(i).started;
            stay.push(now < started || now - started < TICKET_LIFETIME);
            i = i + 1;
        }
        self.tickets.keep(&stay);
        proof {
            let want = was@.restrict(
                Set::new(|k: Seq<char>| was@.contains_key(k) && lasting(was@[k], now)),
            );
            assert forall|k: Seq<char>| self.tickets@.contains_key(k) == want.contains_key(k) by {
                if was@.contains_key(k) {
                    let j = was.lemma_key(k);
                    was.lemma_stays(stay@, j);
                    assert(stay@[j] == lasting(was.rows()[j].1, now));
                }
            }
            assert(self.tickets@ =~= want);
        }
    }

    /// Remember a sign-in, sweeping the ones that have been waiting too long.
    pub fn insert(&mut self, ticket: String, sign_in: SignIn, now: u128)
        requires
            old(self).wf(),
        ensures
            final(self).wf(),
            final(self)@ == old(self)@.restrict(
                Set::new(|k: Seq<char>| old(self)@.contains_key(k) && lasting(old(self)@[k], now)),
            ).insert(ticket@, sign_in),
    {
        self.sweep(now);
        self.tickets.insert(ticket, sign_in);
    }

    /// Begin a sign-in: a ticket of its own, nothing known yet.
    pub fn begin(&mut self, prompt: Option<DeviceCode>, now: u128) -> (ticket: String)
        requires
            old(self).wf(),
        ensures
            final(self).wf(),
            ticket@.len() == 36,
            final(self)@ == old(self)@.restrict(
                Set::new(|k: Seq<char>| old(self)@.contains_key(k) && lasting(old(self)@[k], now)),
            ).insert(ticket@, SignIn { progress: Progress::Pending, prompt, started: now }),
    {
        let ticket = new_ticket();
        self.insert(
            ticket.clone(),
            SignIn { progress: Progress::Pending, prompt, started: now },
            now,
        );
        ticket
    }

    /// Record how a sign-in ended. A ticket that is gone was swept or already
    /// redeemed, and there is nothing to record.
    pub fn finish(&mut self, ticket: &str, outcome: Result<Tokens, Error>)
        requires
            old(self).wf(),
        ensures
            final(self).wf(),
            !old(self)@.contains_key(ticket@) ==> final(self)@ == old(self)@,
            old(self)@.contains_key(ticket@) ==> {
                let was = old(self)@[ticket@];
                &&& final(self)@.dom() == old(self)@.dom()
                &&& forall|k: Seq<char>|
                    k != ticket@ && old(self)@.contains_key(k) ==> #[trigger] final(self)@[k]
                        == old(self)@[k]
                &&& final(self)@[ticket@].prompt == was.prompt
                &&& final(self)@[ticket@].started == was.started
                &&& match outcome {
                    Ok(tokens) => final(self)@[ticket@].progress == Progress::Ready(tokens),
                    Err(e) => final(self)@[ticket@].progress matches Progress::Failed(m) && m@
                        == e@.message(),
                }
            },
    {
        let ghost before = self.tickets@;
        match self.tickets.remove(ticket) {
            None => {
                assert(before.remove(ticket@) =~= before);
            },
            Some(held) => {
                let progress = match outcome {
                    Ok(tokens) => Progress::Ready(tokens),
                    Err(e) => Progress::Failed(e.message()),
                };
                self.tickets.insert(
                    ticket.to_owned(),
                    SignIn { progress, prompt: held.prompt, started: held.started },
                );
                assert(self.tickets@.dom() =~= before.dom());
            },
        }
    }

    pub fn status(&self, ticket: &str) -> (r: Status)
        requires
            self.wf(),
        ensures
            r@ == status_of(self@, ticket@),
    {
        match self.tickets.get(ticket) {
            None => Status::Unknown,
            Some(sign_in) => match &sign_in.progress {
                Progress::Pending => Status::Pending,
                Progress::Ready(tokens) => Status::Ready { account: tokens.account.clone() },
                Progress::Failed(error) => Status::Failed { error: error.clone() },
            },
        }
    }

    /// The tokens of a finished sign-in, left where they are: testing a source must
    /// not spend the sign-in that saving it is going to need.
    pub fn peek(&self, ticket: &str) -> (r: Option<Tokens>)
        requires
            self.wf(),
        ensures
            r == tokens_held(self@, ticket@),
    {
        match self.tickets.get(ticket) {
            None => None,
            Some(sign_in) => match &sign_in.progress {
                Progress::Ready(tokens) => Some(tokens.clone()),
                _ => None,
            },
        }
    }

    /// Take the tokens out. One use: a ticket is spent registering one source.
    pub fn redeem(&mut self, ticket: &str) -> (r: Option<Tokens>)
        requires
            old(self).wf(),
        ensures
            final(self).wf(),
            r == tokens_held(old(self)@, ticket@),
            r is Some ==> final(self)@ == old(self)@.remove(ticket@),
            r is None ==> final(self)@ == old(self)@,
    {
        let taken = self.peek(ticket);
        if taken.is_some() {
            let _ = self.tickets.remove(ticket);
        }
        taken
    }

    /// What a pending device sign-in is waiting to be told.
    pub fn prompt(&self, ticket: &str) -> (r: Option<DeviceCode>)
        requires
            self.wf(),
        ensures
            r == (if self@.contains_key(ticket@) {
                self@[ticket@].prompt
            } else {
                None
            }),
    {
        match self.tickets.get(ticket) {
            None => None,
            Some(sign_in) => match &sign_in.prompt {
                Some(code) => Some(code.clone()),
                None => None,
            },
        }
    }
}

/// `uuid::Uuid::new_v4` in its hyphenated form: thirty-six characters. Which ones is
/// chance.
#[verifier::external_body]
fn new_ticket() -> (r: String)
    ensures
        r@.len() == 36,
{
    uuid::Uuid::new_v4().to_string()
}

/// A ticket is good for one source: once redeemed it is unknown, and redeeming it
/// again gives nothing.
pub proof fn law_a_ticket_is_spent_once(tickets: Map<Seq<char>, SignIn>, ticket: Seq<char>)
    ensures
        tokens_held(tickets.remove(ticket), ticket) is None,
        status_of(tickets.remove(ticket), ticket) == StatusView::Unknown,
{
}

/// How a sign-in stands is what became of it, and a ticket nobody knows is unknown.
pub proof fn law_a_ticket_says_how_its_sign_in_stands(
    tickets: Map<Seq<char>, SignIn>,
    ticket: Seq<char>,
)
    ensures
        status_of(tickets, ticket) is Unknown <==> !tickets.contains_key(ticket),
        tickets.contains_key(ticket) ==> match tickets[ticket].progress {
            Progress::Pending => status_of(tickets, ticket) is Pending && tokens_held(
                tickets,
                ticket,
            ) is None,
            Progress::Ready(tokens) => status_of(tickets, ticket) == (StatusView::Ready {
                account: tokens.account@,
            }) && tokens_held(tickets, ticket) == Some(tokens),
            Progress::Failed(why) => status_of(tickets, ticket) == (StatusView::Failed {
                error: why@,
            }) && tokens_held(tickets, ticket) is None,
        },
        !tickets.contains_key(ticket) ==> tokens_held(tickets, ticket) is None,
{
}

} // verus!
