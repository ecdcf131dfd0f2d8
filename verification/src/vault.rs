//! Where source credentials live.
//!
//! A keychain entry holds only so much, so a long secret is kept in several: its
//! parts under the id and a number, and under the id itself a header saying how many
//! there are. What is written, read and removed is decided here, as steps on single
//! entries; the memory vault carries them out itself, and for the OS keychain they
//! are handed back to be carried out.

use crate::error::{Error, ErrorView};
use crate::table::Table;
use crate::text;
use vstd::prelude::*;
use vstd::string::*;

verus! {

/// The service name credentials are filed under in the OS keychain.
pub const SERVICE: &'static str = "alkyon";

/// How much one keychain entry will be asked to hold, in UTF-16 code units. Windows
/// takes 2560 bytes, which is 1280 of them; this is well under it.
pub const CHUNK: usize = 1_000;

/// What announces, under the id itself, a secret kept in more than one entry. A
/// leading U+0001 is not something anyone types into a password box.
pub const PARTS: &'static str = "\u{1}alkyon-parts:";

/// How many parts a header may promise, and how many entries a store sweeps.
pub const MAX_PARTS: usize = 16;

/// One operation on one entry of the keychain.
#[derive(Debug, Clone)]
pub enum Step {
    Put { key: String, secret: String },
    /// Removing an entry that is not there succeeds.
    Forget { key: String },
}

/// The value of a [`Step`].
pub enum StepView {
    Put { key: Seq<char>, secret: Seq<char> },
    Forget { key: Seq<char> },
}

impl View for Step {
    type V = StepView;

    open spec fn view(&self) -> StepView {
        match *self {
            Step::Put { key, secret } => StepView::Put { key: key@, secret: secret@ },
            Step::Forget { key } => StepView::Forget { key: key@ },
        }
    }
}

pub open spec fn step_views(v: Seq<Step>) -> Seq<StepView> {
    Seq::new(v.len(), |i: int| v[i]@)
}

/// The entries of a keychain: what stands under each key.
pub type Entries = Map<Seq<char>, Seq<char>>;

/// The entries after one step.
pub open spec fn after(entries: Entries, step: StepView) -> Entries {
    match step {
        StepView::Put { key, secret } => entries.insert(key, secret),
        StepView::Forget { key } => entries.remove(key),
    }
}

/// The entries after some steps, in order.
pub open spec fn after_all(entries: Entries, steps: Seq<StepView>) -> Entries
    decreases steps.len(),
{
    if steps.len() == 0 {
        entries
    } else {
        after(after_all(entries, steps.drop_last()), steps.last())
    }
}

/// How many UTF-16 code units a string takes: what the platform limit counts.
pub fn units(secret: &str) -> (n: u128)
    ensures
        n == text::units(secret@),
{
    let v = text::chars_of(secret);
    let mut n: u128 = 0;
    let mut i: usize = 0;
    while i < v.len()
        invariant
            i <= v.len(),
            v@ == secret@,
            n <= 2 * i,
            n == text::units(secret@.take(i as int)),
        decreases v.len() - i,
    {
        assert(secret@.take(i as int + 1).drop_last() == secret@.take(i as int));
        n = n + text::unit_width_of(v[i]) as u128;
        i = i + 1;
    }
    assert(secret@.take(i as int) == secret@);
    n
}

/// The pieces of the first characters of a secret, and the piece being filled: a
/// character that would not fit begins the next.
pub open spec fn filled(secret: Seq<char>) -> (Seq<Seq<char>>, Seq<char>)
    decreases secret.len(),
{
    if secret.len() == 0 {
        (Seq::empty(), Seq::empty())
    } else {
        let (parts, part) = filled(secret.drop_last());
        let c = secret.last();
        if text::units(part) + text::unit_width(c) > CHUNK {
            (parts.push(part), seq![c])
        } else {
            (parts, part.push(c))
        }
    }
}

/// A secret in pieces no entry will refuse.
pub open spec fn pieces(secret: Seq<char>) -> Seq<Seq<char>> {
    let (parts, part) = filled(secret);
    if part.len() > 0 {
        parts.push(part)
    } else {
        parts
    }
}

/// Split into pieces no entry will refuse, never through the middle of a character.
pub fn split(secret: &str) -> (r: Vec<String>)
    ensures
        text::views(r@) == pieces(secret@),
{
    let v = text::chars_of(secret);
    let mut parts: Vec<String> = Vec::new();
    let mut part = String::new();
    let mut length: usize = 0;
    let mut i: usize = 0;
    assert(text::views(parts@) == Seq::<Seq<char>>::empty());
    assert(secret@.take(0) == Seq::<char>::empty());
    while i < v.len()
        invariant
            i <= v.len(),
            v@ == secret@,
            filled(secret@.take(i as int)) == (text::views(parts@), part@),
            length == text::units(part@),
            length <= CHUNK,
        decreases v.len() - i,
    {
        let c = v[i];
        let w = text::unit_width_of(c);
        let ghost before = text::views(parts@);
        let ghost held = part@;
        proof {
            assert(secret@.take(i as int + 1).drop_last() == secret@.take(i as int));
            reveal_with_fuel(text::units, 2);
        }
        if length + w > CHUNK {
            parts.push(part);
            assert(text::views(parts@) == before.push(held));
            part = String::new();
            length = 0;
        }
        let ghost mid = part@;
        part.push(c);
        length = length + w;
        proof {
            assert(part@.drop_last() == mid);
            if mid.len() == 0 {
                assert(part@ == seq![c]);
            }
        }
        i = i + 1;
    }
    assert(secret@.take(i as int) == secret@);
    if !part.as_str().is_empty() {
        let ghost before = text::views(parts@);
        let ghost held = part@;
        parts.push(part);
        assert(text::views(parts@) == before.push(held));
    }
    parts
}

/// Where part `n` of a long secret lives.
pub open spec fn part_at(id: Seq<char>, n: nat) -> Seq<char> {
    id + "#"@ + text::decimal(n)
}

/// Where part `n` of a long secret lives: under the id, so a keychain still shows
/// them together.
pub fn part_key(id: &str, n: usize) -> (r: String)
    ensures
        r@ == part_at(id@, n as nat),
{
    id.to_owned().concat("#").concat(&text::decimal_of(n as u64))
}

/// The parts a secret is kept in: none where it fits in one entry.
pub open spec fn parts_of(secret: Seq<char>) -> Seq<Seq<char>> {
    if text::units(secret) <= CHUNK {
        Seq::empty()
    } else {
        pieces(secret)
    }
}

/// Writing the first `n` parts.
pub open spec fn put_parts(id: Seq<char>, parts: Seq<Seq<char>>, n: nat) -> Seq<StepView>
    decreases n,
{
    if n == 0 {
        Seq::empty()
    } else {
        put_parts(id, parts, (n - 1) as nat).push(
            StepView::Put { key: part_at(id, n), secret: parts[n - 1] },
        )
    }
}

/// Removing every part past `keep`, up to part `n`.
pub open spec fn sweep_upto(id: Seq<char>, keep: nat, n: nat) -> Seq<StepView>
    decreases n,
{
    if n <= keep {
        Seq::empty()
    } else {
        sweep_upto(id, keep, (n - 1) as nat).push(StepView::Forget { key: part_at(id, n) })
    }
}

/// What is written under the id itself.
pub open spec fn head_of(secret: Seq<char>) -> Seq<char> {
    let parts = parts_of(secret);
    if parts.len() == 0 {
        secret
    } else {
        PARTS@ + text::decimal(parts.len())
    }
}

/// Storing a secret: the parts, then the header, then the removal of what the last
/// secret needed and this one does not.
pub open spec fn store_steps(id: Seq<char>, secret: Seq<char>) -> Seq<StepView> {
    let parts = parts_of(secret);
    put_parts(id, parts, parts.len()).push(
        StepView::Put { key: id, secret: head_of(secret) },
    ) + sweep_upto(id, parts.len(), MAX_PARTS as nat)
}

/// Removing a secret: its entry, and every part it could have.
pub open spec fn delete_steps(id: Seq<char>) -> Seq<StepView> {
    seq![StepView::Forget { key: id }] + sweep_upto(id, 0, MAX_PARTS as nat)
}

/// The steps that store a secret, in as many entries as the platform will take.
///
/// A secret that fits is written as it is: no marker, no parts. The parts of one that
/// does not go in before the header, so a load that arrives in between finds the old
/// secret whole.
pub fn plan_store(id: &str, secret: &str) -> (r: Vec<Step>)
    ensures
        step_views(r@) == store_steps(id@, secret@),
{
    let parts = if units(secret) <= CHUNK as u128 {
        Vec::new()
    } else {
        split(secret)
    };
    let ghost all = parts_of(secret@);
    assert(text::views(parts@) == all);
    let mut steps: Vec<Step> = Vec::new();
    let mut n: usize = 0;
    assert(step_views(steps@) == Seq::<StepView>::empty());
    while n < parts.len()
        invariant
            n <= parts.len(),
            text::views(parts@) == all,
            step_views(steps@) == put_parts(id@, all, n as nat),
        decreases parts.len() - n,
    {
        let ghost before = step_views(steps@);
        let step = Step::Put { key: part_key(id, n + 1), secret: parts[n].clone() };
        let ghost s = step@;
        steps.push(step);
        assert(step_views(steps@) == before.push(s));
        n = n + 1;
    }
    let head = if parts.len() == 0 {
        secret.to_owned()
    } else {
        PARTS.to_owned().concat(&text::decimal_of(parts.len() as u64))
    };
    let ghost before = step_views(steps@);
    let step = Step::Put { key: id.to_owned(), secret: head };
    let ghost s = step@;
    steps.push(step);
    assert(step_views(steps@) == before.push(s));
    sweep(id, parts.len(), &mut steps);
    steps
}

/// Add the steps that drop every part past `keep`.
pub fn sweep(id: &str, keep: usize, steps: &mut Vec<Step>)
    ensures
        step_views(final(steps)@) == step_views(old(steps)@) + sweep_upto(
            id@,
            keep as nat,
            MAX_PARTS as nat,
        ),
{
    let ghost start = step_views(steps@);
    let mut n: usize = if keep < MAX_PARTS {
        keep
    } else {
        MAX_PARTS
    };
    assert(start + Seq::<StepView>::empty() == start);
    while n < MAX_PARTS
        invariant
            n <= MAX_PARTS,
            keep <= n || n == MAX_PARTS,
            step_views(steps@) == start + sweep_upto(id@, keep as nat, n as nat),
        decreases MAX_PARTS - n,
    {
        let ghost before = step_views(steps@);
        let step = Step::Forget { key: part_key(id, n + 1) };
        let ghost s = step@;
        steps.push(step);
        n = n + 1;
        proof {
            assert(step_views(steps@) == before.push(s));
            let done = sweep_upto(id@, keep as nat, (n - 1) as nat);
            assert((start + done).push(s) == start + done.push(s));
        }
    }
}

/// The steps that remove a secret. Removing one that is not there succeeds, so
/// removing a source is idempotent.
pub fn plan_delete(id: &str) -> (r: Vec<Step>)
    ensures
        step_views(r@) == delete_steps(id@),
{
    let mut steps: Vec<Step> = Vec::new();
    let step = Step::Forget { key: id.to_owned() };
    let ghost s = step@;
    steps.push(step);
    assert(step_views(steps@) == seq![s]);
    sweep(id, 0, &mut steps);
    steps
}

/// How many parts a header promises: `None` where it is no header, and no number
/// where it promises what cannot be.
pub open spec fn promised(head: Seq<char>) -> Option<Option<nat>> {
    if !text::starts_with(head, PARTS@) {
        None
    } else {
        Some(
            match text::number(text::trim(head.skip(PARTS@.len() as int))) {
                Some(n) => if 1 <= n <= MAX_PARTS {
                    Some(n)
                } else {
                    None
                },
                None => None,
            },
        )
    }
}

/// The first `n` parts, one after another, or the number of the first that is
/// missing.
pub open spec fn rejoined(entries: Entries, id: Seq<char>, n: nat) -> Result<Seq<char>, nat>
    decreases n,
{
    if n == 0 {
        Ok(Seq::empty())
    } else {
        match rejoined(entries, id, (n - 1) as nat) {
            Err(k) => Err(k),
            Ok(t) => if entries.contains_key(part_at(id, n)) {
                Ok(t + entries[part_at(id, n)])
            } else {
                Err(n)
            },
        }
    }
}

/// What the entries hold for an id.
pub open spec fn secret_in(entries: Entries, id: Seq<char>) -> Result<
    Option<Seq<char>>,
    ErrorView,
> {
    if !entries.contains_key(id) {
        Ok(None)
    } else {
        let head = entries[id];
        match promised(head) {
            None => Ok(Some(head)),
            Some(None) => Err(
                ErrorView::BadRequest(
                    "the credential for `"@ + id + "` says it is in "@ + head.skip(
                        PARTS@.len() as int,
                    ) + " parts, which it cannot be"@,
                ),
            ),
            Some(Some(count)) => match rejoined(entries, id, count) {
                Ok(t) => Ok(Some(t)),
                Err(n) => Err(
                    ErrorView::MissingSecret(
                        id + " (part "@ + text::decimal(n) + " of "@ + text::decimal(count)
                            + ")"@,
                    ),
                ),
            },
        }
    }
}

/// What a table of entries stands for.
pub open spec fn entries_of(t: Map<Seq<char>, String>) -> Entries {
    t.map_values(|s: String| s@)
}

/// How many parts follow a header: the entries to ask the keychain for before
/// [`read`]. None for a secret kept whole, and none for a header that promises what
/// cannot be.
pub fn parts_promised(head: &str) -> (r: usize)
    ensures
        r == (match promised(head@) {
            Some(Some(n)) => n,
            _ => 0,
        }),
        r <= MAX_PARTS,
{
    match promise(head) {
        Some(Some(n)) => n,
        _ => 0,
    }
}

fn promise(head: &str) -> (r: Option<Option<usize>>)
    ensures
        match r {
            None => promised(head@) is None,
            Some(None) => promised(head@) == Some(None::<nat>),
            Some(Some(n)) => promised(head@) == Some(Some(n as nat)) && 1 <= n <= MAX_PARTS,
        },
{
    if !text::begins(head, PARTS) {
        return None;
    }
    let v = text::chars_of(head);
    let from = PARTS.unicode_len();
    assert(v@.subrange(from as int, v@.len() as int) == head@.skip(from as int));
    let said = text::trimmed_slice(&v, from, v.len());
    match text::parse_u64(&said) {
        Some(n) => if 1 <= n && n <= 16 {
            Some(Some(n as usize))
        } else {
            Some(None)
        },
        None => Some(None),
    }
}

/// Read a secret out of the entries that hold it.
///
/// A missing part is an error rather than a shorter secret: half a token looks like a
/// wrong password.
pub fn read(entries: &Table<String>, id: &str) -> (r: Result<Option<String>, Error>)
    requires
        entries.wf(),
    ensures
        match r {
            Ok(t) => secret_in(entries_of(entries@), id@) == Ok::<Option<Seq<char>>, ErrorView>(
                text::opt(t),
            ),
            Err(e) => secret_in(entries_of(entries@), id@) == Err::<Option<Seq<char>>, ErrorView>(
                e@,
            ),
        },
{
    let ghost all = entries_of(entries@);
    let head = match entries.get(id) {
        Some(head) => head,
        None => return Ok(None),
    };
    assert(all[id@] == head@);
    let count = match promise(head) {
        None => return Ok(Some(head.clone())),
        Some(None) => {
            let v = text::chars_of(head);
            let from = PARTS.unicode_len();
            let said = text::slice(&v, from, v.len());
            assert(said@ == head@.skip(from as int));
            return Err(
                Error::BadRequest(
                    "the credential for `".to_owned().concat(id).concat(
                        "` says it is in ",
                    ).concat(&said).concat(" parts, which it cannot be"),
                ),
            );
        },
        Some(Some(n)) => n,
    };
    let mut secret = String::new();
    let mut n: usize = 0;
    while n < count
        invariant
            n <= count <= MAX_PARTS,
            entries.wf(),
            all == entries_of(entries@),
            all.contains_key(id@),
            promised(all[id@]) == Some(Some(count as nat)),
            rejoined(all, id@, n as nat) == Ok::<Seq<char>, nat>(secret@),
        decreases count - n,
    {
        let key = part_key(id, n + 1);
        match entries.get(&key) {
            Some(part) => {
                secret.append(part);
            },
            None => {
                proof {
                    assert(!all.contains_key(part_at(id@, (n + 1) as nat)));
                    lemma_rejoined_stops(all, id@, (n + 1) as nat, count as nat);
                }
                return Err(
                    Error::MissingSecret(
                        id.to_owned().concat(" (part ").concat(
                            &text::decimal_of((n + 1) as u64),
                        ).concat(" of ").concat(&text::decimal_of(count as u64)).concat(")"),
                    ),
                );
            },
        }
        n = n + 1;
    }
    Ok(Some(secret))
}

proof fn lemma_rejoined_stops(entries: Entries, id: Seq<char>, k: nat, n: nat)
    requires
        k <= n,
        rejoined(entries, id, k) == Err::<Seq<char>, nat>(k),
    ensures
        rejoined(entries, id, n) == Err::<Seq<char>, nat>(k),
    decreases n,
{
    if k < n {
        lemma_rejoined_stops(entries, id, k, (n - 1) as nat);
    }
}

/// Where source credentials live: the OS keychain, or the memory of this process.
/// `Memory` is for containers without a keychain, where secrets are not meant to
/// outlive the process.
pub enum Vault {
    Keyring,
    Memory(Table<String>),
}

impl Vault {
    pub open spec fn wf(&self) -> bool {
        match *self {
            Vault::Keyring => true,
            Vault::Memory(entries) => entries.wf(),
        }
    }

    /// The entries it has, `keychain` being what the OS keychain holds.
    pub open spec fn entries(&self, keychain: Entries) -> Entries {
        match *self {
            Vault::Keyring => keychain,
            Vault::Memory(entries) => entries_of(entries@),
        }
    }

    /// From `before` to `self`, with `left` still to be carried out on the keychain,
    /// those steps are taken: a memory vault has taken them and leaves none, and the
    /// keychain is left all of them.
    pub open spec fn took(&self, before: &Vault, steps: Seq<StepView>, left: Seq<StepView>) -> bool {
        match (*before, *self) {
            (Vault::Keyring, Vault::Keyring) => left == steps,
            (Vault::Memory(_), Vault::Memory(_)) => left.len() == 0 && self.entries(Map::empty())
                == after_all(before.entries(Map::empty()), steps),
            _ => false,
        }
    }

    pub fn memory() -> (r: Self)
        ensures
            r.wf(),
            r is Memory,
            forall|k: Entries| #[trigger] r.entries(k) == Map::<Seq<char>, Seq<char>>::empty(),
    {
        let r = Vault::Memory(Table::new());
        assert forall|k: Entries| #[trigger] r.entries(k) == Map::<Seq<char>, Seq<char>>::empty() by {
            assert(r.entries(k) =~= Map::<Seq<char>, Seq<char>>::empty());
        }
        r
    }

    /// `memory` opts out of the keychain. Anything else, nothing at all included,
    /// uses it.
    pub fn from_setting(setting: Option<&str>) -> (r: Self)
        ensures
            r.wf(),
            r is Memory <==> text::opt_str(setting) == Some("memory"@),
            r matches Vault::Memory(entries) ==> entries@ == Map::<Seq<char>, String>::empty(),
    {
        match setting {
            Some(t) => if text::same(t, "memory") {
                Vault::Memory(Table::new())
            } else {
                Vault::Keyring
            },
            None => Vault::Keyring,
        }
    }

    pub fn describe(&self) -> (r: &'static str)
        ensures
            r@ == (match *self {
                Vault::Keyring => "os keychain"@,
                Vault::Memory(_) => "memory"@,
            }),
    {
        match self {
            Vault::Keyring => "os keychain",
            Vault::Memory(_) => "memory",
        }
    }

    /// Take some steps, or hand them back where they are the keychain's to take.
    fn take(&mut self, steps: Vec<Step>) -> (left: Vec<Step>)
        requires
            old(self).wf(),
        ensures
            final(self).wf(),
            final(self).took(old(self), step_views(steps@), step_views(left@)),
    {
        match self {
            Vault::Keyring => steps,
            Vault::Memory(entries) => {
                run(entries, &steps);
                let left: Vec<Step> = Vec::new();
                assert(step_views(left@).len() == 0);
                left
            },
        }
    }

    /// Store a secret. What is returned is left for the keychain to carry out.
    pub fn store(&mut self, id: &str, secret: &str) -> (left: Vec<Step>)
        requires
            old(self).wf(),
        ensures
            final(self).wf(),
            final(self).took(old(self), store_steps(id@, secret@), step_views(left@)),
    {
        let steps = plan_store(id, secret);
        self.take(steps)
    }

    /// Remove a secret. What is returned is left for the keychain to carry out.
    pub fn delete(&mut self, id: &str) -> (left: Vec<Step>)
        requires
            old(self).wf(),
        ensures
            final(self).wf(),
            final(self).took(old(self), delete_steps(id@), step_views(left@)),
    {
        let steps = plan_delete(id);
        self.take(steps)
    }

    /// Load a secret. `keychain` is what was read from the OS keychain, and not looked
    /// at by a memory vault. `None` means there is no entry, which is not an error.
    pub fn load(&self, id: &str, keychain: &Table<String>) -> (r: Result<Option<String>, Error>)
        requires
            self.wf(),
            keychain.wf(),
        ensures
            match r {
                Ok(t) => secret_in(self.entries(entries_of(keychain@)), id@) == Ok::<
                    Option<Seq<char>>,
                    ErrorView,
                >(text::opt(t)),
                Err(e) => secret_in(self.entries(entries_of(keychain@)), id@) == Err::<
                    Option<Seq<char>>,
                    ErrorView,
                >(e@),
            },
    {
        match self {
            Vault::Keyring => read(keychain, id),
            Vault::Memory(entries) => read(entries, id),
        }
    }
}

/// Carry out some steps on a table of entries.
pub fn run(entries: &mut Table<String>, steps: &Vec<Step>)
    requires
        old(entries).wf(),
    ensures
        final(entries).wf(),
        entries_of(final(entries)@) == after_all(entries_of(old(entries)@), step_views(steps@)),
{
    let ghost all = step_views(steps@);
    let ghost start = entries_of(entries@);
    let mut i: usize = 0;
    assert(all.take(0) == Seq::<StepView>::empty());
    while i < steps.len()
        invariant
            i <= steps.len(),
            entries.wf(),
            all == step_views(steps@),
            entries_of(entries@) == after_all(start, all.take(i as int)),
        decreases steps.len() - i,
    {
        let ghost before = entries@;
        proof {
            assert(all.take(i as int + 1).drop_last() == all.take(i as int));
            assert(all.take(i as int + 1).last() == all[i as int]);
        }
        match &steps[i] {
            Step::Put { key, secret } => {
                entries.insert(key.clone(), secret.clone());
                assert(entries_of(entries@) =~= entries_of(before).insert(key@, secret@));
            },
            Step::Forget { key } => {
                let _ = entries.remove(key);
                assert(entries_of(entries@) =~= entries_of(before).remove(key@));
            },
        }
        i = i + 1;
    }
    assert(all.take(i as int) == all);
}

// ------------------------------------------------------------------------ laws

proof fn lemma_filled(secret: Seq<char>)
    ensures
        ({
            let (parts, part) = filled(secret);
            &&& text::concat_all(parts) + part == secret
            &&& text::units(part) <= CHUNK
            &&& secret.len() > 0 ==> part.len() > 0
            &&& forall|i: int|
                0 <= i < parts.len() ==> 0 < (#[trigger] parts[i]).len() && text::units(parts[i])
                    <= CHUNK
        }),
    decreases secret.len(),
{
    if secret.len() == 0 {
        assert(text::concat_all(Seq::empty()) + Seq::<char>::empty() == secret);
    } else {
        let (parts, part) = filled(secret.drop_last());
        lemma_filled(secret.drop_last());
        let c = secret.last();
        assert(secret == secret.drop_last().push(c));
        reveal_with_fuel(text::units, 2);
        if text::units(part) + text::unit_width(c) > CHUNK {
            let more = parts.push(part);
            assert(more.drop_last() == parts);
            assert(text::concat_all(more) + seq![c] == secret);
            assert(seq![c].drop_last() == Seq::<char>::empty());
            if secret.drop_last().len() == 0 {
                assert(part.len() == 0);
            }
        } else {
            assert(part.push(c).drop_last() == part);
            assert(text::concat_all(parts) + part.push(c) == secret);
        }
    }
}

/// The pieces of a secret, one after another, are the secret; each holds something,
/// and none more than one entry takes.
pub proof fn law_pieces_fit_and_rejoin(secret: Seq<char>)
    ensures
        text::concat_all(pieces(secret)) == secret,
        forall|i: int|
            0 <= i < pieces(secret).len() ==> 0 < (#[trigger] pieces(secret)[i]).len()
                && text::units(pieces(secret)[i]) <= CHUNK,
{
    lemma_filled(secret);
    let (parts, part) = filled(secret);
    if part.len() > 0 {
        assert(parts.push(part).drop_last() == parts);
    } else {
        assert(text::concat_all(parts) + part == text::concat_all(parts));
    }
}

/// No two parts of an id share an entry, and none is the id's own.
proof fn lemma_part_keys(id: Seq<char>, a: nat, b: nat)
    ensures
        part_at(id, a) != id,
        part_at(id, a) == part_at(id, b) ==> a == b,
{
    reveal_strlit("#");
    text::lemma_decimal(a);
    text::lemma_decimal(b);
    assert(part_at(id, a).len() > id.len());
    let n = id.len() as int + 1;
    assert(part_at(id, a).skip(n) == text::decimal(a));
    assert(part_at(id, b).skip(n) == text::decimal(b));
}

pub proof fn lemma_after_concat(entries: Entries, a: Seq<StepView>, b: Seq<StepView>)
    ensures
        after_all(entries, a + b) == after_all(after_all(entries, a), b),
    decreases b.len(),
{
    if b.len() == 0 {
        assert(a + b == a);
    } else {
        assert((a + b).drop_last() == a + b.drop_last());
        lemma_after_concat(entries, a, b.drop_last());
    }
}

proof fn lemma_put_parts(entries: Entries, id: Seq<char>, parts: Seq<Seq<char>>, n: nat)
    requires
        n <= parts.len(),
    ensures
        ({
            let now = after_all(entries, put_parts(id, parts, n));
            &&& forall|i: nat|
                1 <= i <= n ==> now.contains_key(#[trigger] part_at(id, i)) && now[part_at(id, i)]
                    == parts[i - 1]
            &&& forall|k: Seq<char>|
                #![trigger now.contains_key(k)]
                (forall|i: nat| 1 <= i <= n ==> k != #[trigger] part_at(id, i)) ==> (
                now.contains_key(k) == entries.contains_key(k)) && (entries.contains_key(k)
                    ==> now[k] == entries[k])
        }),
    decreases n,
{
    if n > 0 {
        let m = (n - 1) as nat;
        lemma_put_parts(entries, id, parts, m);
        let steps = put_parts(id, parts, n);
        assert(steps.drop_last() == put_parts(id, parts, m));
        let was = after_all(entries, put_parts(id, parts, m));
        let now = after_all(entries, steps);
        assert(now == was.insert(part_at(id, n), parts[n - 1]));
        assert forall|i: nat| 1 <= i <= n implies now.contains_key(#[trigger] part_at(id, i))
            && now[part_at(id, i)] == parts[i - 1] by {
            lemma_part_keys(id, i, n);
        }
        assert forall|k: Seq<char>|
            #![trigger now.contains_key(k)]
            (forall|i: nat| 1 <= i <= n ==> k != #[trigger] part_at(id, i)) implies (
        now.contains_key(k) == entries.contains_key(k)) && (entries.contains_key(k) ==> now[k]
            == entries[k]) by {
            assert(k != part_at(id, n));
            assert(was.contains_key(k) == now.contains_key(k));
        }
    }
}

proof fn lemma_sweep(entries: Entries, id: Seq<char>, keep: nat, n: nat)
    ensures
        ({
            let now = after_all(entries, sweep_upto(id, keep, n));
            &&& forall|i: nat| keep < i <= n ==> !now.contains_key(#[trigger] part_at(id, i))
            &&& forall|k: Seq<char>|
                #![trigger now.contains_key(k)]
                (forall|i: nat| keep < i <= n ==> k != #[trigger] part_at(id, i)) ==> (
                now.contains_key(k) == entries.contains_key(k)) && (entries.contains_key(k)
                    ==> now[k] == entries[k])
        }),
    decreases n,
{
    if n > keep {
        let m = (n - 1) as nat;
        lemma_sweep(entries, id, keep, m);
        let steps = sweep_upto(id, keep, n);
        assert(steps.drop_last() == sweep_upto(id, keep, m));
        let was = after_all(entries, sweep_upto(id, keep, m));
        let now = after_all(entries, steps);
        assert(now == was.remove(part_at(id, n)));
        assert forall|i: nat| keep < i <= n implies !now.contains_key(#[trigger] part_at(id, i)) by {
            if i < n {
                assert(!was.contains_key(part_at(id, i)));
            }
        }
        assert forall|k: Seq<char>|
            #![trigger now.contains_key(k)]
            (forall|i: nat| keep < i <= n ==> k != #[trigger] part_at(id, i)) implies (
        now.contains_key(k) == entries.contains_key(k)) && (entries.contains_key(k) ==> now[k]
            == entries[k]) by {
            assert(k != part_at(id, n));
            assert(was.contains_key(k) == now.contains_key(k));
        }
    }
}

/// What the entries are after a secret is stored: the header under the id, the parts
/// under theirs, no part beyond them, and everything else as it was.
proof fn lemma_stored(entries: Entries, id: Seq<char>, secret: Seq<char>)
    ensures
        ({
            let parts = parts_of(secret);
            let now = after_all(entries, store_steps(id, secret));
            &&& now.contains_key(id)
            &&& now[id] == head_of(secret)
            &&& forall|i: nat|
                1 <= i <= parts.len() ==> now.contains_key(#[trigger] part_at(id, i))
                    && now[part_at(id, i)] == parts[i - 1]
            &&& forall|i: nat|
                parts.len() < i <= MAX_PARTS ==> !now.contains_key(#[trigger] part_at(id, i))
            &&& forall|k: Seq<char>|
                #![trigger now.contains_key(k)]
                k != id && (forall|i: nat|
                    1 <= i <= parts.len() || i <= MAX_PARTS ==> k != #[trigger] part_at(id, i))
                    ==> (now.contains_key(k) == entries.contains_key(k)) && (
                entries.contains_key(k) ==> now[k] == entries[k])
        }),
{
    let parts = parts_of(secret);
    let puts = put_parts(id, parts, parts.len());
    let put = StepView::Put { key: id, secret: head_of(secret) };
    let first = puts.push(put);
    let swept = sweep_upto(id, parts.len(), MAX_PARTS as nat);
    lemma_after_concat(entries, first, swept);
    assert(first.drop_last() == puts);
    let a = after_all(entries, puts);
    let b = after_all(entries, first);
    assert(b == a.insert(id, head_of(secret)));
    let now = after_all(b, swept);
    lemma_put_parts(entries, id, parts, parts.len());
    lemma_sweep(b, id, parts.len(), MAX_PARTS as nat);
    assert forall|i: nat| id != #[trigger] part_at(id, i) by {
        lemma_part_keys(id, i, i);
    }
    assert(now.contains_key(id) == b.contains_key(id));
    assert forall|i: nat| 1 <= i <= parts.len() implies now.contains_key(#[trigger] part_at(id, i))
        && now[part_at(id, i)] == parts[i - 1] by {
        let k = part_at(id, i);
        assert(a.contains_key(k));
        assert forall|j: nat| parts.len() < j <= MAX_PARTS implies k != #[trigger] part_at(
            id,
            j,
        ) by {
            lemma_part_keys(id, i, j);
        }
        assert(now.contains_key(k) == b.contains_key(k));
    }
    assert forall|k: Seq<char>|
        #![trigger now.contains_key(k)]
        k != id && (forall|i: nat|
            1 <= i <= parts.len() || i <= MAX_PARTS ==> k != #[trigger] part_at(id, i)) implies (
    now.contains_key(k) == entries.contains_key(k)) && (entries.contains_key(k) ==> now[k]
        == entries[k]) by {
        assert(now.contains_key(k) == b.contains_key(k));
        assert(a.contains_key(k) == b.contains_key(k));
    }
}

proof fn lemma_rejoined(entries: Entries, id: Seq<char>, parts: Seq<Seq<char>>, n: nat)
    requires
        n <= parts.len(),
        forall|i: nat|
            1 <= i <= n ==> entries.contains_key(#[trigger] part_at(id, i)) && entries[part_at(
                id,
                i,
            )] == parts[i - 1],
    ensures
        rejoined(entries, id, n) == Ok::<Seq<char>, nat>(text::concat_all(parts.take(n as int))),
    decreases n,
{
    if n > 0 {
        let m = (n - 1) as nat;
        lemma_rejoined(entries, id, parts, m);
        assert(parts.take(n as int).drop_last() == parts.take(m as int));
        assert(entries.contains_key(part_at(id, n)));
    }
}

/// A header is read back as the number it was written with.
proof fn lemma_promised(n: nat)
    requires
        1 <= n <= MAX_PARTS,
    ensures
        promised(PARTS@ + text::decimal(n)) == Some(Some(n)),
{
    let head = PARTS@ + text::decimal(n);
    assert(head.take(PARTS@.len() as int) == PARTS@);
    assert(head.skip(PARTS@.len() as int) == text::decimal(n));
    text::lemma_decimal(n);
    let d = text::decimal(n);
    assert(text::is_ascii_digit(d[0]));
    assert(text::is_ascii_digit(d.last()));
    assert(text::run(d, text::white()) == 0);
    assert(d.skip(0) == d);
    assert(text::run_back(d, text::white()) == 0);
    assert(d.take(d.len() as int) == d);
}

/// What is stored is what is loaded, however long it is and whatever was there
/// before: up to the number of parts a header may promise, and except for a short
/// secret that itself begins like a header.
pub proof fn law_load_gives_back_what_was_stored(
    entries: Entries,
    id: Seq<char>,
    secret: Seq<char>,
)
    requires
        parts_of(secret).len() <= MAX_PARTS,
        parts_of(secret).len() == 0 ==> !text::starts_with(secret, PARTS@),
    ensures
        secret_in(after_all(entries, store_steps(id, secret)), id) == Ok::<
            Option<Seq<char>>,
            ErrorView,
        >(Some(secret)),
{
    let parts = parts_of(secret);
    let now = after_all(entries, store_steps(id, secret));
    lemma_stored(entries, id, secret);
    if parts.len() > 0 {
        lemma_promised(parts.len());
        lemma_rejoined(now, id, parts, parts.len());
        assert(parts.take(parts.len() as int) == parts);
        law_pieces_fit_and_rejoin(secret);
    }
}

/// A secret that fits is stored as it is, under the id and nowhere else.
pub proof fn law_a_short_secret_is_one_entry(entries: Entries, id: Seq<char>, secret: Seq<char>)
    requires
        text::units(secret) <= CHUNK,
    ensures
        ({
            let now = after_all(entries, store_steps(id, secret));
            &&& now.contains_key(id) && now[id] == secret
            &&& forall|i: nat| 1 <= i <= MAX_PARTS ==> !now.contains_key(#[trigger] part_at(id, i))
        }),
{
    lemma_stored(entries, id, secret);
}

/// Parts do not outlive the secret that needed them, and nothing filed under another
/// key is touched.
pub proof fn law_storing_leaves_nothing_behind(entries: Entries, id: Seq<char>, secret: Seq<char>)
    ensures
        ({
            let parts = parts_of(secret);
            let now = after_all(entries, store_steps(id, secret));
            &&& forall|i: nat|
                parts.len() < i <= MAX_PARTS ==> !now.contains_key(#[trigger] part_at(id, i))
            &&& forall|k: Seq<char>|
                #![trigger now.contains_key(k)]
                k != id && (forall|i: nat| k != #[trigger] part_at(id, i)) ==> (now.contains_key(k)
                    == entries.contains_key(k)) && (entries.contains_key(k) ==> now[k]
                    == entries[k])
        }),
{
    lemma_stored(entries, id, secret);
    let parts = parts_of(secret);
    let now = after_all(entries, store_steps(id, secret));
    assert forall|k: Seq<char>|
        #![trigger now.contains_key(k)]
        k != id && (forall|i: nat| k != #[trigger] part_at(id, i)) implies (now.contains_key(k)
        == entries.contains_key(k)) && (entries.contains_key(k) ==> now[k] == entries[k]) by {
        assert forall|i: nat| 1 <= i <= parts.len() || i <= MAX_PARTS implies k
            != #[trigger] part_at(id, i) by {}
        assert(now.contains_key(k) == entries.contains_key(k));
    }
}

/// After a removal there is nothing to load and no part is left; doing it twice
/// changes nothing more, and no other key is touched.
pub proof fn law_delete_leaves_nothing(entries: Entries, id: Seq<char>)
    ensures
        ({
            let now = after_all(entries, delete_steps(id));
            &&& secret_in(now, id) == Ok::<Option<Seq<char>>, ErrorView>(None)
            &&& forall|i: nat| 1 <= i <= MAX_PARTS ==> !now.contains_key(#[trigger] part_at(id, i))
            &&& after_all(now, delete_steps(id)) == now
            &&& forall|k: Seq<char>|
                #![trigger now.contains_key(k)]
                k != id && (forall|i: nat| k != #[trigger] part_at(id, i)) ==> (now.contains_key(k)
                    == entries.contains_key(k)) && (entries.contains_key(k) ==> now[k]
                    == entries[k])
        }),
{
    let now = after_all(entries, delete_steps(id));
    lemma_deleted(entries, id);
    lemma_deleted(now, id);
    let again = after_all(now, delete_steps(id));
    assert forall|k: Seq<char>| again.contains_key(k) == now.contains_key(k) && (
    again.contains_key(k) ==> again[k] == now[k]) by {
        if k == id {
        } else if exists|i: nat| 0 < i <= MAX_PARTS && k == #[trigger] part_at(id, i) {
            let i = choose|i: nat| 0 < i <= MAX_PARTS && k == #[trigger] part_at(id, i);
            assert(!now.contains_key(part_at(id, i)));
            assert(!again.contains_key(part_at(id, i)));
        }
    }
    assert(again =~= now);
}

proof fn lemma_deleted(entries: Entries, id: Seq<char>)
    ensures
        ({
            let now = after_all(entries, delete_steps(id));
            &&& !now.contains_key(id)
            &&& forall|i: nat| 0 < i <= MAX_PARTS ==> !now.contains_key(#[trigger] part_at(id, i))
            &&& forall|k: Seq<char>|
                #![trigger now.contains_key(k)]
                k != id && (forall|i: nat|
                    0 < i <= MAX_PARTS ==> k != #[trigger] part_at(id, i)) ==> (
                now.contains_key(k) == entries.contains_key(k)) && (entries.contains_key(k)
                    ==> now[k] == entries[k])
        }),
{
    let first = seq![StepView::Forget { key: id }];
    let swept = sweep_upto(id, 0, MAX_PARTS as nat);
    lemma_after_concat(entries, first, swept);
    reveal_with_fuel(after_all, 2);
    assert(first.drop_last() == Seq::<StepView>::empty());
    let a = after_all(entries, first);
    assert(a == entries.remove(id));
    lemma_sweep(a, id, 0, MAX_PARTS as nat);
    let now = after_all(a, swept);
    assert forall|i: nat| id != #[trigger] part_at(id, i) by {
        lemma_part_keys(id, i, i);
    }
    assert(now.contains_key(id) == a.contains_key(id));
    assert forall|k: Seq<char>|
        #![trigger now.contains_key(k)]
        k != id && (forall|i: nat| 0 < i <= MAX_PARTS ==> k != #[trigger] part_at(id, i)) implies (
    now.contains_key(k) == entries.contains_key(k)) && (entries.contains_key(k) ==> now[k]
        == entries[k]) by {
        assert(a.contains_key(k) == entries.contains_key(k));
    }
}

/// A part that is missing is an error, not a shorter secret.
pub proof fn law_a_missing_part_is_no_shorter_secret(
    entries: Entries,
    id: Seq<char>,
    count: nat,
    n: nat,
)
    requires
        entries.contains_key(id),
        promised(entries[id]) == Some(Some(count)),
        1 <= n <= count,
        !entries.contains_key(part_at(id, n)),
    ensures
        secret_in(entries, id) is Err,
{
    lemma_rejoined_fails(entries, id, n, count);
}

proof fn lemma_rejoined_fails(entries: Entries, id: Seq<char>, n: nat, count: nat)
    requires
        1 <= n <= count,
        !entries.contains_key(part_at(id, n)),
    ensures
        rejoined(entries, id, count) is Err,
    decreases count,
{
    if n < count {
        lemma_rejoined_fails(entries, id, n, (count - 1) as nat);
    }
}

/// No entry of one id is an entry of the other.
pub open spec fn apart(id: Seq<char>, other: Seq<char>) -> bool {
    &&& id != other
    &&& forall|i: nat| other != #[trigger] part_at(id, i)
    &&& forall|i: nat| id != #[trigger] part_at(other, i)
    &&& forall|i: nat, j: nat|
        #![trigger part_at(id, i), part_at(other, j)]
        part_at(id, i) != part_at(other, j)
}

proof fn lemma_same_parts(a: Entries, b: Entries, id: Seq<char>, n: nat)
    requires
        forall|i: nat|
            (#[trigger] a.contains_key(part_at(id, i)) == b.contains_key(part_at(id, i))) && (
            a.contains_key(part_at(id, i)) ==> a[part_at(id, i)] == b[part_at(id, i)]),
    ensures
        rejoined(a, id, n) == rejoined(b, id, n),
    decreases n,
{
    if n > 0 {
        lemma_same_parts(a, b, id, (n - 1) as nat);
        assert(a.contains_key(part_at(id, n)) == b.contains_key(part_at(id, n)));
    }
}

/// Neither storing a secret nor removing one changes what is held for an id whose entries
/// are apart from it.
pub proof fn law_another_secret_is_left_alone(
    entries: Entries,
    id: Seq<char>,
    secret: Seq<char>,
    other: Seq<char>,
)
    requires
        apart(id, other),
    ensures
        secret_in(after_all(entries, store_steps(id, secret)), other) == secret_in(entries, other),
        secret_in(after_all(entries, delete_steps(id)), other) == secret_in(entries, other),
{
    let stored = after_all(entries, store_steps(id, secret));
    let deleted = after_all(entries, delete_steps(id));
    law_storing_leaves_nothing_behind(entries, id, secret);
    law_delete_leaves_nothing(entries, id);
    assert(stored.contains_key(other) == entries.contains_key(other));
    assert(deleted.contains_key(other) == entries.contains_key(other));
    assert forall|i: nat|
        (#[trigger] stored.contains_key(part_at(other, i)) == entries.contains_key(
            part_at(other, i),
        )) && (stored.contains_key(part_at(other, i)) ==> stored[part_at(other, i)]
            == entries[part_at(other, i)]) by {
        let k = part_at(other, i);
        assert forall|j: nat| k != #[trigger] part_at(id, j) by {}
        assert(k != id);
    }
    assert forall|i: nat|
        (#[trigger] deleted.contains_key(part_at(other, i)) == entries.contains_key(
            part_at(other, i),
        )) && (deleted.contains_key(part_at(other, i)) ==> deleted[part_at(other, i)]
            == entries[part_at(other, i)]) by {
        let k = part_at(other, i);
        assert forall|j: nat| k != #[trigger] part_at(id, j) by {}
        assert(k != id);
    }
    if entries.contains_key(other) {
        if let Some(Some(count)) = promised(entries[other]) {
            lemma_same_parts(stored, entries, other, count);
            lemma_same_parts(deleted, entries, other, count);
        }
    }
}

/// Taking some steps and then others is taking all of them.
pub proof fn lemma_took(
    a: Vault,
    b: Vault,
    c: Vault,
    first: Seq<StepView>,
    left: Seq<StepView>,
    second: Seq<StepView>,
    more: Seq<StepView>,
)
    requires
        b.took(&a, first, left),
        c.took(&b, second, more),
    ensures
        c.took(&a, first + second, left + more),
{
    lemma_after_concat(a.entries(Map::empty()), first, second);
}

} // verus!
