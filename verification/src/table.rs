//! What is kept by name: entries under string keys, in the order of the keys.

use crate::text;
use vstd::prelude::*;
use vstd::string::*;

verus! {

/// Whether `a` comes before `b` in the order of strings: by the first character in
/// which they differ, and a string before everything it begins.
pub open spec fn before(a: Seq<char>, b: Seq<char>) -> bool
    decreases a.len(),
{
    if b.len() == 0 {
        false
    } else if a.len() == 0 {
        true
    } else if a[0] == b[0] {
        before(a.skip(1), b.skip(1))
    } else {
        a[0] < b[0]
    }
}

pub proof fn lemma_before_irreflexive(a: Seq<char>)
    ensures
        !before(a, a),
    decreases a.len(),
{
    if a.len() > 0 {
        lemma_before_irreflexive(a.skip(1));
    }
}

pub proof fn lemma_before_transitive(a: Seq<char>, b: Seq<char>, c: Seq<char>)
    requires
        before(a, b),
        before(b, c),
    ensures
        before(a, c),
    decreases a.len(),
{
    if a.len() > 0 && b.len() > 0 && c.len() > 0 && a[0] == b[0] && b[0] == c[0] {
        lemma_before_transitive(a.skip(1), b.skip(1), c.skip(1));
    }
}

pub proof fn lemma_before_total(a: Seq<char>, b: Seq<char>)
    ensures
        before(a, b) || before(b, a) || a == b,
    decreases a.len(),
{
    if a.len() > 0 && b.len() > 0 && a[0] == b[0] {
        lemma_before_total(a.skip(1), b.skip(1));
        if a.skip(1) == b.skip(1) {
            assert(a == seq![a[0]] + a.skip(1));
            assert(b == seq![b[0]] + b.skip(1));
        }
    } else if a.len() == 0 && b.len() == 0 {
        assert(a == b);
    }
}

/// Where neither of two strings comes before the next, the first does not come before
/// the last.
pub proof fn lemma_not_before(a: Seq<char>, b: Seq<char>, c: Seq<char>)
    ensures
        !before(a, b) && !before(b, c) ==> !before(a, c),
{
    if !before(a, b) && !before(b, c) && before(a, c) {
        lemma_before_total(a, b);
        lemma_before_total(b, c);
        if a == b {
        } else if b == c {
        } else {
            lemma_before_transitive(c, b, a);
            lemma_before_transitive(a, c, a);
            lemma_before_irreflexive(a);
        }
    }
}

pub fn comes_before(a: &str, b: &str) -> (r: bool)
    ensures
        r == before(a@, b@),
{
    let v = text::chars_of(a);
    let w = text::chars_of(b);
    let mut i: usize = 0;
    assert(v@.skip(0) == v@);
    assert(w@.skip(0) == w@);
    loop
        invariant
            i <= v.len(),
            i <= w.len(),
            v@ == a@,
            w@ == b@,
            before(a@, b@) == before(v@.skip(i as int), w@.skip(i as int)),
        decreases v.len() - i,
    {
        let ghost x = v@.skip(i as int);
        let ghost y = w@.skip(i as int);
        if i == w.len() {
            return false;
        }
        if i == v.len() {
            return true;
        }
        assert(x[0] == v@[i as int]);
        assert(y[0] == w@[i as int]);
        if v[i] != w[i] {
            return v[i] < w[i];
        }
        assert(x.skip(1) == v@.skip(i + 1));
        assert(y.skip(1) == w@.skip(i + 1));
        i = i + 1;
    }
}

/// Entries under string keys, each key once, in the order of the keys.
#[derive(Debug, Clone)]
pub struct Table<V> {
    entries: Vec<(String, V)>,
}

impl<V> Table<V> {
    /// The entries, key and value, in order.
    pub closed spec fn rows(&self) -> Seq<(String, V)> {
        self.entries@
    }

    /// The keys, in order.
    pub open spec fn keys(&self) -> Seq<Seq<char>> {
        Seq::new(self.rows().len(), |i: int| self.rows()[i].0@)
    }

    /// What keeps a table a table: its keys are in order, so none occurs twice.
    pub open spec fn wf(&self) -> bool {
        forall|i: int, j: int|
            0 <= i < j < self.keys().len() ==> before(#[trigger] self.keys()[i], #[trigger] self.keys()[j])
    }
}

impl<V> View for Table<V> {
    type V = Map<Seq<char>, V>;

    /// What stands under each key.
    open spec fn view(&self) -> Map<Seq<char>, V> {
        Map::new(
            |k: Seq<char>| self.keys().contains(k),
            |k: Seq<char>| self.rows()[self.keys().index_of(k)].1,
        )
    }
}

impl<V> Table<V> {
    /// The entry in a row is what the table has under the row's key.
    pub proof fn lemma_row(&self, i: int)
        requires
            self.wf(),
            0 <= i < self.rows().len(),
        ensures
            self@.contains_key(self.rows()[i].0@),
            self@[self.rows()[i].0@] == self.rows()[i].1,
    {
        let k = self.rows()[i].0@;
        assert(self.keys()[i] == k);
        assert(self.keys().contains(k));
        let j = self.keys().index_of(k);
        assert(self.keys()[j] == k);
        lemma_before_irreflexive(k);
    }

    /// What the table has under a key, a row holds.
    pub proof fn lemma_key(&self, k: Seq<char>) -> (i: int)
        requires
            self.wf(),
            self@.contains_key(k),
        ensures
            0 <= i < self.rows().len(),
            self.rows()[i].0@ == k,
            self.rows()[i].1 == self@[k],
    {
        let i = self.keys().index_of(k);
        assert(self.keys()[i] == k);
        i
    }

    pub fn new() -> (r: Self)
        ensures
            r.wf(),
            r@ == Map::<Seq<char>, V>::empty(),
            r.rows().len() == 0,
    {
        let r = Table { entries: Vec::new() };
        assert(r@ == Map::<Seq<char>, V>::empty());
        r
    }

    pub fn len(&self) -> (n: usize)
        ensures
            n == self.rows().len(),
    {
        self.entries.len()
    }

    /// Take out the last entry.
    pub fn take_last(&mut self) -> (r: (String, V))
        requires
            old(self).wf(),
            old(self).rows().len() > 0,
        ensures
            final(self).wf(),
            final(self).rows() == old(self).rows().drop_last(),
            r == old(self).rows().last(),
    {
        let ghost was = *self;
        let r = self.entries.pop();
        proof {
            assert(self.rows() == was.rows().drop_last());
            assert forall|i: int, j: int| 0 <= i < j < self.keys().len() implies before(
                #[trigger] self.keys()[i],
                #[trigger] self.keys()[j],
            ) by {
                assert(before(was.keys()[i], was.keys()[j]));
            }
        }
        r.unwrap()
    }

    pub fn key_at(&self, i: usize) -> (r: &String)
        requires
            i < self.rows().len(),
        ensures
            r@ == self.keys()[i as int],
            *r == self.rows()[i as int].0,
    {
        &self.entries[i].0
    }

    pub fn value_at(&self, i: usize) -> (r: &V)
        requires
            i < self.rows().len(),
        ensures
            *r == self.rows()[i as int].1,
    {
        &self.entries[i].1
    }

    /// Where a key is, or where it would go.
    fn place(&self, key: &str) -> (r: (usize, bool))
        requires
            self.wf(),
        ensures
            r.0 <= self.rows().len(),
            forall|j: int| 0 <= j < r.0 ==> before(#[trigger] self.keys()[j], key@),
            r.1 ==> r.0 < self.rows().len() && self.keys()[r.0 as int] == key@,
            !r.1 ==> forall|j: int| r.0 <= j < self.keys().len() ==> before(key@, #[trigger] self.keys()[j]),
            r.1 == self@.contains_key(key@),
    {
        let mut i: usize = 0;
        while i < self.entries.len() && comes_before(&self.entries[i].0, key)
            invariant
                i <= self.entries.len(),
                forall|j: int| 0 <= j < i ==> before(#[trigger] self.keys()[j], key@),
            decreases self.entries.len() - i,
        {
            i = i + 1;
        }
        if i < self.entries.len() && text::same(&self.entries[i].0, key) {
            proof {
                self.lemma_row(i as int);
            }
            return (i, true);
        }
        proof {
            assert forall|j: int| i <= j < self.keys().len() implies before(
                key@,
                #[trigger] self.keys()[j],
            ) by {
                lemma_before_total(self.keys()[i as int], key@);
                if j > i {
                    lemma_before_transitive(key@, self.keys()[i as int], self.keys()[j]);
                }
            }
            if self@.contains_key(key@) {
                let j = self.lemma_key(key@);
                assert(self.keys()[j] == key@);
                lemma_before_irreflexive(key@);
            }
        }
        (i, false)
    }

    pub fn get(&self, key: &str) -> (r: Option<&V>)
        requires
            self.wf(),
        ensures
            match r {
                Some(v) => self@.contains_key(key@) && *v == self@[key@],
                None => !self@.contains_key(key@),
            },
    {
        let (i, found) = self.place(key);
        if found {
            proof {
                self.lemma_row(i as int);
            }
            Some(&self.entries[i].1)
        } else {
            None
        }
    }

    pub fn contains_key(&self, key: &str) -> (r: bool)
        requires
            self.wf(),
        ensures
            r == self@.contains_key(key@),
    {
        self.place(key).1
    }

    /// Put `value` under `key`, in place of whatever was there.
    pub fn insert(&mut self, key: String, value: V)
        requires
            old(self).wf(),
        ensures
            final(self).wf(),
            final(self)@ == old(self)@.insert(key@, value),
    {
        let ghost was = *self;
        let ghost k = key@;
        let (i, found) = self.place(&key);
        if found {
            let _ = self.entries.remove(i);
        }
        let ghost mid = *self;
        self.entries.insert(i, (key, value));
        proof {
            let now = *self;
            let m: int = if found { 0 } else { 1 };
            assert(now.keys().len() == was.keys().len() + m);
            assert(forall|j: int| 0 <= j < i ==> now.keys()[j] == was.keys()[j]);
            assert(now.keys()[i as int] == k);
            assert(forall|j: int| i < j < now.keys().len() ==> now.keys()[j] == was.keys()[j - m]);
            assert forall|a: int, b: int| 0 <= a < b < now.keys().len() implies before(
                #[trigger] now.keys()[a],
                #[trigger] now.keys()[b],
            ) by {
                if b > i && a >= i {
                    if found {
                        assert(was.keys()[i as int] == k);
                    }
                    assert(now.keys()[b] == was.keys()[b - m]);
                    if a > i {
                        assert(now.keys()[a] == was.keys()[a - m]);
                    }
                } else if b > i {
                    assert(now.keys()[b] == was.keys()[b - m]);
                    assert(now.keys()[a] == was.keys()[a]);
                } else if b == i {
                    assert(now.keys()[a] == was.keys()[a]);
                } else {
                    assert(now.keys()[a] == was.keys()[a]);
                    assert(now.keys()[b] == was.keys()[b]);
                }
            }
            assert(now.wf());
            let want = was@.insert(k, value);
            assert forall|x: Seq<char>| now@.contains_key(x) == want.contains_key(x) by {
                if now@.contains_key(x) {
                    let j = now.lemma_key(x);
                    if j != i {
                        let j0 = if j < i { j } else { j - m };
                        assert(was.rows()[j0].0@ == x);
                        was.lemma_row(j0);
                    }
                }
                if want.contains_key(x) {
                    if x == k {
                        now.lemma_row(i as int);
                    } else {
                        let j = was.lemma_key(x);
                        let j1 = if j < i { j } else { j + m };
                        assert(now.rows()[j1].0@ == x);
                        now.lemma_row(j1);
                    }
                }
            }
            assert forall|x: Seq<char>| now@.contains_key(x) implies now@[x] == want[x] by {
                let j = now.lemma_key(x);
                if j == i {
                    now.lemma_row(i as int);
                } else {
                    let j0 = if j < i { j } else { j - m };
                    assert(was.rows()[j0] == now.rows()[j]);
                    was.lemma_row(j0);
                    if x == k {
                        now.lemma_row(i as int);
                        lemma_before_irreflexive(k);
                        assert(now.keys()[j] == now.keys()[i as int]);
                    }
                }
            }
            assert(now@ =~= want);
        }
    }

    /// Whether the row of a key is to stay.
    pub open spec fn stays(&self, stay: Seq<bool>, k: Seq<char>) -> bool {
        exists|j: int| 0 <= j < self.rows().len() && #[trigger] self.rows()[j].0@ == k && stay[j]
    }

    /// A key has one row, so whether it stays is what is told of that row.
    pub proof fn lemma_stays(&self, stay: Seq<bool>, j: int)
        requires
            self.wf(),
            0 <= j < self.rows().len(),
        ensures
            self.stays(stay, self.rows()[j].0@) == stay[j],
    {
        let k = self.rows()[j].0@;
        assert(self.keys()[j] == k);
        if self.stays(stay, k) {
            let i = choose|i: int|
                0 <= i < self.rows().len() && #[trigger] self.rows()[i].0@ == k && stay[i];
            assert(self.keys()[i] == k);
            lemma_before_irreflexive(k);
        }
    }

    /// Keep the rows that are to stay, told row by row.
    pub fn keep(&mut self, stay: &Vec<bool>)
        requires
            old(self).wf(),
            stay.len() == old(self).rows().len(),
        ensures
            final(self).wf(),
            forall|k: Seq<char>|
                #[trigger] final(self)@.contains_key(k) <==> old(self)@.contains_key(k) && old(self).stays(stay@, k),
            forall|k: Seq<char>| #[trigger]
                final(self)@.contains_key(k) ==> final(self)@[k] == old(self)@[k],
    {
        let ghost was = *self;
        let ghost start = self@;
        let mut kept: Table<V> = Table::new();
        let mut i: usize = self.len();
        let ghost n = self.rows().len() as int;
        while i > 0
            invariant
                self.wf(),
                was.wf(),
                i == self.rows().len(),
                i <= n,
                n == was.rows().len(),
                n == stay.len(),
                start == was@,
                kept.wf(),
                forall|j: int| 0 <= j < i ==> self.rows()[j] == was.rows()[j],
                forall|k: Seq<char>|
                    kept@.contains_key(k) <==> exists|j: int|
                        i <= j < n && #[trigger] was.rows()[j].0@ == k && stay@[j],
                forall|k: Seq<char>| kept@.contains_key(k) ==> kept@[k] == start[k],
            decreases i,
        {
            i = i - 1;
            let key = self.key_at(i).clone();
            proof {
                was.lemma_row(i as int);
                self.lemma_row(i as int);
            }
            let ghost before = kept@;
            let taken = self.take_last();
            if stay[i] {
                kept.insert(key, taken.1);
            }
            proof {
                assert forall|k: Seq<char>|
                    kept@.contains_key(k) <==> exists|j: int|
                        i <= j < n && #[trigger] was.rows()[j].0@ == k && stay@[j] by {
                    if kept@.contains_key(k) {
                        if before.contains_key(k) {
                            let j = choose|j: int|
                                i + 1 <= j < n && #[trigger] was.rows()[j].0@ == k && stay@[j];
                            assert(was.rows()[j].0@ == k);
                        } else {
                            assert(was.rows()[i as int].0@ == k);
                        }
                    }
                    if exists|j: int|
                        i <= j < n && #[trigger] was.rows()[j].0@ == k && stay@[j] {
                        let j = choose|j: int|
                            i <= j < n && #[trigger] was.rows()[j].0@ == k && stay@[j];
                        if j > i {
                            assert(before.contains_key(k));
                        }
                    }
                }
            }
        }
        self.entries = kept.entries;
        proof {
            let now = *self;
            assert(now@ == kept@);
            assert forall|k: Seq<char>| #[trigger]
                now@.contains_key(k) <==> was@.contains_key(k) && was.stays(stay@, k) by {
                if now@.contains_key(k) {
                    let j = choose|j: int|
                        0 <= j < n && #[trigger] was.rows()[j].0@ == k && stay@[j];
                    was.lemma_row(j);
                }
            }
        }
    }

    /// Take out whatever is under `key`.
    pub fn remove(&mut self, key: &str) -> (r: Option<V>)
        requires
            old(self).wf(),
        ensures
            final(self).wf(),
            final(self)@ == old(self)@.remove(key@),
            match r {
                Some(v) => old(self)@.contains_key(key@) && v == old(self)@[key@],
                None => !old(self)@.contains_key(key@),
            },
    {
        let ghost was = *self;
        let (i, found) = self.place(key);
        if !found {
            assert(was@.remove(key@) =~= was@);
            return None;
        }
        proof {
            was.lemma_row(i as int);
        }
        let (_, v) = self.entries.remove(i);
        proof {
            let now = *self;
            let k = key@;
            assert(forall|j: int| 0 <= j < i ==> now.keys()[j] == was.keys()[j]);
            assert(forall|j: int| i <= j < now.keys().len() ==> now.keys()[j] == was.keys()[j + 1]);
            assert forall|a: int, b: int| 0 <= a < b < now.keys().len() implies before(
                #[trigger] now.keys()[a],
                #[trigger] now.keys()[b],
            ) by {
                let a0 = if a < i { a } else { a + 1 };
                let b0 = if b < i { b } else { b + 1 };
                assert(before(was.keys()[a0], was.keys()[b0]));
            }
            assert(now.wf());
            let want = was@.remove(k);
            assert forall|x: Seq<char>| now@.contains_key(x) == want.contains_key(x) by {
                if now@.contains_key(x) {
                    let j = now.lemma_key(x);
                    let j0 = if j < i { j } else { j + 1 };
                    assert(was.rows()[j0] == now.rows()[j]);
                    was.lemma_row(j0);
                    if x == k {
                        assert(was.keys()[j0] == was.keys()[i as int]);
                        lemma_before_irreflexive(k);
                    }
                }
                if want.contains_key(x) {
                    let j = was.lemma_key(x);
                    if j == i {
                        assert(was.keys()[j] == x);
                    }
                    let j1 = if j < i { j } else { j - 1 };
                    assert(now.rows()[j1] == was.rows()[j]);
                    now.lemma_row(j1);
                }
            }
            assert forall|x: Seq<char>| now@.contains_key(x) implies now@[x] == want[x] by {
                let j = now.lemma_key(x);
                let j0 = if j < i { j } else { j + 1 };
                assert(was.rows()[j0] == now.rows()[j]);
                was.lemma_row(j0);
                if x == k {
                    assert(was.keys()[j0] == was.keys()[i as int]);
                    lemma_before_irreflexive(k);
                }
            }
            assert(now@ =~= want);
        }
        Some(v)
    }
}

} // verus!
