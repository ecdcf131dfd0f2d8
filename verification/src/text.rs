//! Text, as a sequence of characters.
//!
//! The contracts of this crate speak of `Seq<char>`. Here is the small vocabulary
//! they share: trimming, splitting, finding, replacing, counting and spelling
//! numbers, each as a spec function with the function that computes it.

use vstd::prelude::*;
use vstd::string::*;
use vstd::utf8::*;

verus! {

/// `String::push`: the character goes at the end.
pub assume_specification[ String::push ](s: &mut String, c: char)
    ensures
        final(s)@ == old(s)@.push(c),
;

/// The characters of a string, one by one.
pub fn chars_of(s: &str) -> (v: Vec<char>)
    ensures
        v@ == s@,
{
    let mut v: Vec<char> = Vec::new();
    for c in it: s.chars()
        invariant
            it.seq() == s@,
            v@ == s@.take(it.index() as int),
    {
        v.push(c);
        assert(v@ == s@.take(it.index() as int + 1));
    }
    assert(s@.take(s@.len() as int) == s@);
    v
}

/// The string those characters spell.
pub fn string_of(v: &[char]) -> (s: String)
    ensures
        s@ == v@,
{
    let mut s = String::new();
    let mut i: usize = 0;
    while i < v.len()
        invariant
            i <= v.len(),
            s@ == v@.take(i as int),
        decreases v.len() - i,
    {
        s.push(v[i]);
        i = i + 1;
        assert(s@ == v@.take(i as int));
    }
    assert(v@.take(v@.len() as int) == v@);
    s
}

/// Whether two strings hold the same characters.
pub fn same(a: &str, b: &str) -> (r: bool)
    ensures
        r == (a@ == b@),
{
    a.to_owned() == b.to_owned()
}

// ------------------------------------------------------------------ characters

pub open spec fn is_ascii_digit(c: char) -> bool {
    '0' <= c && c <= '9'
}

pub open spec fn is_ascii_letter(c: char) -> bool {
    ('a' <= c && c <= 'z') || ('A' <= c && c <= 'Z')
}

pub fn ascii_digit(c: char) -> (r: bool)
    ensures
        r == is_ascii_digit(c),
{
    '0' <= c && c <= '9'
}

pub fn ascii_letter(c: char) -> (r: bool)
    ensures
        r == is_ascii_letter(c),
{
    ('a' <= c && c <= 'z') || ('A' <= c && c <= 'Z')
}

/// An upper-case ASCII letter becomes its lower-case one; anything else stays.
pub open spec fn lower_char(c: char) -> char {
    if 'A' <= c && c <= 'Z' {
        (c as u32 + 32) as char
    } else {
        c
    }
}

pub fn lowered_char(c: char) -> (r: char)
    ensures
        r == lower_char(c),
{
    if 'A' <= c && c <= 'Z' {
        ((c as u8) + 32) as char
    } else {
        c
    }
}


/// No character comes before the first.
pub proof fn lemma_char(c: char)
    ensures
        '\u{0}' <= c,
{
}

/// The White_Space property of Unicode.
pub open spec fn is_white(c: char) -> bool {
    let n = c as u32;
    ||| 0x9 <= n <= 0xd
    ||| n == 0x20
    ||| n == 0x85
    ||| n == 0xa0
    ||| n == 0x1680
    ||| 0x2000 <= n <= 0x200a
    ||| n == 0x2028
    ||| n == 0x2029
    ||| n == 0x202f
    ||| n == 0x205f
    ||| n == 0x3000
}

pub fn white_char(c: char) -> (r: bool)
    ensures
        r == is_white(c),
{
    let n: u32 = c as u32;
    (0x9 <= n && n <= 0xd) || n == 0x20 || n == 0x85 || n == 0xa0 || n == 0x1680
        || (0x2000 <= n && n <= 0x200a) || n == 0x2028 || n == 0x2029 || n == 0x202f
        || n == 0x205f || n == 0x3000
}

/// Whether a character beyond ASCII is alphabetic or numeric, by Unicode's derived
/// properties.
pub uninterp spec fn unicode_alphanumeric(c: char) -> bool;

/// Whether a character is alphabetic or numeric.
pub open spec fn is_alphanumeric(c: char) -> bool {
    if (c as u32) < 128 {
        is_ascii_letter(c) || is_ascii_digit(c)
    } else {
        unicode_alphanumeric(c)
    }
}

/// `char::is_alphanumeric`: of the ASCII characters the letters and the digits; of
/// the others, a function of the character.
#[verifier::external_body]
pub(crate) fn alphanumeric_char(c: char) -> (r: bool)
    ensures
        r == (if (c as u32) < 128 {
            is_ascii_letter(c) || is_ascii_digit(c)
        } else {
            unicode_alphanumeric(c)
        }),
{
    c.is_alphanumeric()
}

/// A string that is not all ASCII in lower case, by Unicode's full case mapping.
pub uninterp spec fn unicode_lowercase(s: Seq<char>) -> Seq<char>;

/// A string in lower case.
pub open spec fn lowercase(s: Seq<char>) -> Seq<char> {
    if is_ascii_chars(s) {
        ascii_lower(s)
    } else {
        unicode_lowercase(s)
    }
}

/// No character is a capital letter of ASCII.
pub open spec fn no_capitals(s: Seq<char>) -> bool {
    forall|i: int| 0 <= i < s.len() ==> !('A' <= #[trigger] s[i] <= 'Z')
}

/// `str::to_lowercase`: a string of ASCII characters has its letters lowered and
/// nothing else touched; for any other, the result is a function of the string. Of
/// either, no capital letter of ASCII is left.
#[verifier::external_body]
pub(crate) fn to_lowercase(s: &str) -> (r: String)
    ensures
        r@ == (if is_ascii_chars(s@) {
            ascii_lower(s@)
        } else {
            unicode_lowercase(s@)
        }),
        no_capitals(r@),
{
    s.to_lowercase()
}

/// A character that is not ASCII in lower case, by Unicode's mapping of it alone.
pub uninterp spec fn unicode_lowercase_char(c: char) -> Seq<char>;

/// A character in lower case, which may take more than one.
pub open spec fn lowered(c: char) -> Seq<char> {
    if (c as u32) < 128 {
        seq![lower_char(c)]
    } else {
        unicode_lowercase_char(c)
    }
}

/// `char::to_lowercase`: an ASCII letter becomes its small one and any other ASCII
/// character itself; for any other, the result is a function of the character.
#[verifier::external_body]
pub(crate) fn lowercase_char(c: char) -> (r: String)
    ensures
        r@ == (if (c as u32) < 128 {
            seq![lower_char(c)]
        } else {
            unicode_lowercase_char(c)
        }),
{
    c.to_lowercase().to_string()
}

/// A string with its ASCII letters in lower case.
pub open spec fn ascii_lower(s: Seq<char>) -> Seq<char> {
    Seq::new(s.len(), |i: int| lower_char(s[i]))
}

pub fn to_ascii_lower(s: &str) -> (r: String)
    ensures
        r@ == ascii_lower(s@),
{
    let v = chars_of(s);
    let mut out = String::new();
    let mut i: usize = 0;
    while i < v.len()
        invariant
            i <= v.len(),
            v@ == s@,
            out@ == ascii_lower(s@).take(i as int),
        decreases v.len() - i,
    {
        out.push(lowered_char(v[i]));
        i = i + 1;
        assert(out@ == ascii_lower(s@).take(i as int));
    }
    assert(ascii_lower(s@).take(i as int) == ascii_lower(s@));
    out
}

/// Equal but for the case of ASCII letters.
pub open spec fn same_but_case(a: Seq<char>, b: Seq<char>) -> bool {
    ascii_lower(a) == ascii_lower(b)
}

pub fn eq_ignore_case(a: &str, b: &str) -> (r: bool)
    ensures
        r == same_but_case(a@, b@),
{
    to_ascii_lower(a) == to_ascii_lower(b)
}

// ------------------------------------------------------------------------ runs

/// How many characters at the front satisfy `f` before one does not.
pub open spec fn run(s: Seq<char>, f: spec_fn(char) -> bool) -> nat
    decreases s.len(),
{
    if s.len() == 0 || !f(s[0]) {
        0
    } else {
        1 + run(s.skip(1), f)
    }
}

/// How many characters at the back satisfy `f` before one does not.
pub open spec fn run_back(s: Seq<char>, f: spec_fn(char) -> bool) -> nat
    decreases s.len(),
{
    if s.len() == 0 || !f(s.last()) {
        0
    } else {
        1 + run_back(s.drop_last(), f)
    }
}

/// `run` counts exactly: everything before it satisfies `f`, and what follows does not.
pub proof fn lemma_run(s: Seq<char>, f: spec_fn(char) -> bool)
    ensures
        run(s, f) <= s.len(),
        forall|i: int| 0 <= i < run(s, f) ==> f(#[trigger] s[i]),
        run(s, f) < s.len() ==> !f(s[run(s, f) as int]),
    decreases s.len(),
{
    if s.len() == 0 || !f(s[0]) {
    } else {
        lemma_run(s.skip(1), f);
        assert forall|i: int| 0 <= i < run(s, f) implies f(#[trigger] s[i]) by {
            if i > 0 {
                assert(s[i] == s.skip(1)[i - 1]);
            }
        }
    }
}

/// Only one count fits.
pub proof fn lemma_run_is(s: Seq<char>, f: spec_fn(char) -> bool, n: int)
    requires
        0 <= n <= s.len(),
        forall|i: int| 0 <= i < n ==> f(#[trigger] s[i]),
        n < s.len() ==> !f(s[n]),
    ensures
        run(s, f) == n,
{
    lemma_run(s, f);
    let m = run(s, f) as int;
    if m < n {
        assert(f(s[m]));
    }
    if n < m {
        assert(f(s[n]));
    }
}

pub proof fn lemma_run_back(s: Seq<char>, f: spec_fn(char) -> bool)
    ensures
        run_back(s, f) <= s.len(),
        forall|i: int| s.len() - run_back(s, f) <= i < s.len() ==> f(#[trigger] s[i]),
        run_back(s, f) < s.len() ==> !f(s[s.len() - run_back(s, f) - 1]),
    decreases s.len(),
{
    if s.len() == 0 || !f(s.last()) {
    } else {
        lemma_run_back(s.drop_last(), f);
        assert forall|i: int| s.len() - run_back(s, f) <= i < s.len() implies f(
            #[trigger] s[i],
        ) by {
            if i < s.len() - 1 {
                assert(s[i] == s.drop_last()[i]);
            }
        }
    }
}

pub proof fn lemma_run_back_is(s: Seq<char>, f: spec_fn(char) -> bool, n: int)
    requires
        0 <= n <= s.len(),
        forall|i: int| s.len() - n <= i < s.len() ==> f(#[trigger] s[i]),
        n < s.len() ==> !f(s[s.len() - n - 1]),
    ensures
        run_back(s, f) == n,
{
    lemma_run_back(s, f);
    let m = run_back(s, f) as int;
    if m < n {
        assert(f(s[s.len() - m - 1]));
    }
    if n < m {
        assert(f(s[s.len() - n - 1]));
    }
}

/// Being white space, as a predicate to run by.
pub open spec fn white() -> spec_fn(char) -> bool {
    |c: char| is_white(c)
}

/// Being any character but `c`.
pub open spec fn other_than(c: char) -> spec_fn(char) -> bool {
    |x: char| x != c
}

/// Where `c` first stands, or the length where it does not.
pub open spec fn position(s: Seq<char>, c: char) -> nat {
    run(s, other_than(c))
}

/// How many characters from `from` on come before the next `c`.
pub fn position_from(v: &Vec<char>, from: usize, c: char) -> (n: usize)
    requires
        from <= v.len(),
    ensures
        n == position(v@.skip(from as int), c),
        from + n <= v.len(),
{
    let mut i: usize = from;
    while i < v.len() && v[i] != c
        invariant
            from <= i <= v.len(),
            forall|j: int| from <= j < i ==> v@[j] != c,
        decreases v.len() - i,
    {
        i = i + 1;
    }
    proof {
        let s = v@.skip(from as int);
        assert forall|j: int| 0 <= j < i - from implies other_than(c)(#[trigger] s[j]) by {
            assert(s[j] == v@[from + j]);
        }
        if i < v.len() {
            assert(s[i - from] == v@[i as int]);
        }
        lemma_run_is(s, other_than(c), i - from);
    }
    i - from
}

// -------------------------------------------------------------------- trimming

pub open spec fn trim_start(s: Seq<char>) -> Seq<char> {
    s.skip(run(s, white()) as int)
}

pub open spec fn trim_end(s: Seq<char>) -> Seq<char> {
    s.take(s.len() - run_back(s, white()))
}

/// Without the white space at either end.
pub open spec fn trim(s: Seq<char>) -> Seq<char> {
    trim_end(trim_start(s))
}

/// How much white space stands at `from`.
pub fn white_from(v: &Vec<char>, from: usize) -> (n: usize)
    requires
        from <= v.len(),
    ensures
        n == run(v@.skip(from as int), white()),
        from + n <= v.len(),
{
    let mut i: usize = from;
    while i < v.len() && white_char(v[i])
        invariant
            from <= i <= v.len(),
            forall|j: int| from <= j < i ==> is_white(v@[j]),
        decreases v.len() - i,
    {
        i = i + 1;
    }
    proof {
        let s = v@.skip(from as int);
        assert forall|j: int| 0 <= j < i - from implies white()(#[trigger] s[j]) by {
            assert(s[j] == v@[from + j]);
        }
        if i < v.len() {
            assert(s[i - from] == v@[i as int]);
        }
        lemma_run_is(s, white(), i - from);
    }
    i - from
}

/// The characters from `from` up to `to`, as a string.
pub fn slice(v: &Vec<char>, from: usize, to: usize) -> (r: String)
    requires
        from <= to <= v.len(),
    ensures
        r@ == v@.subrange(from as int, to as int),
{
    let mut r = String::new();
    let mut i: usize = from;
    while i < to
        invariant
            from <= i <= to <= v.len(),
            r@ == v@.subrange(from as int, i as int),
        decreases to - i,
    {
        r.push(v[i]);
        i = i + 1;
        assert(r@ == v@.subrange(from as int, i as int));
    }
    r
}

/// The characters from `from` up to `to`, without the white space round them.
pub fn trimmed_slice(v: &Vec<char>, from: usize, to: usize) -> (r: String)
    requires
        from <= to <= v.len(),
    ensures
        r@ == trim(v@.subrange(from as int, to as int)),
{
    let ghost s = v@.subrange(from as int, to as int);
    let mut a: usize = from;
    while a < to && white_char(v[a])
        invariant
            from <= a <= to <= v.len(),
            forall|j: int| from <= j < a ==> is_white(v@[j]),
        decreases to - a,
    {
        a = a + 1;
    }
    let mut b: usize = to;
    while b > a && white_char(v[b - 1])
        invariant
            from <= a <= b <= to <= v.len(),
            forall|j: int| b <= j < to ==> is_white(v@[j]),
        decreases b,
    {
        b = b - 1;
    }
    proof {
        assert forall|j: int| 0 <= j < a - from implies white()(#[trigger] s[j]) by {
            assert(s[j] == v@[from + j]);
        }
        if a < to {
            assert(s[a - from] == v@[a as int]);
        }
        lemma_run_is(s, white(), a - from);
        let t = trim_start(s);
        assert(t == v@.subrange(a as int, to as int));
        assert forall|j: int| t.len() - (to - b) <= j < t.len() implies white()(
            #[trigger] t[j],
        ) by {
            assert(t[j] == v@[a + j]);
        }
        if b > a {
            assert(t[t.len() - (to - b) - 1] == v@[b - 1]);
        }
        lemma_run_back_is(t, white(), to - b);
        assert(trim(s) == v@.subrange(a as int, b as int));
    }
    slice(v, a, b)
}

/// The string without the white space at either end.
pub fn trimmed(s: &str) -> (r: String)
    ensures
        r@ == trim(s@),
{
    let v = chars_of(s);
    assert(v@.subrange(0, v@.len() as int) == s@);
    trimmed_slice(&v, 0, v.len())
}

/// The string without the white space it begins with.
pub fn trimmed_start(s: &str) -> (r: String)
    ensures
        r@ == trim_start(s@),
{
    let v = chars_of(s);
    assert(v@.skip(0) == s@);
    let n = white_from(&v, 0);
    let r = slice(&v, n, v.len());
    assert(r@ == s@.skip(n as int));
    r
}

/// Nothing but white space, or nothing at all.
pub open spec fn is_blank(s: Seq<char>) -> bool {
    forall|i: int| 0 <= i < s.len() ==> is_white(#[trigger] s[i])
}

/// What trims to nothing is blank, and what is blank trims to nothing.
pub proof fn lemma_blank(s: Seq<char>)
    ensures
        trim(s).len() == 0 <==> is_blank(s),
{
    lemma_run(s, white());
    let n = run(s, white()) as int;
    let t = trim_start(s);
    lemma_run_back(t, white());
    if is_blank(s) {
        if n < s.len() {
            assert(is_white(s[n]));
        }
    } else if trim(s).len() == 0 {
        let i = choose|i: int| 0 <= i < s.len() && !is_white(#[trigger] s[i]);
        if i < n {
            assert(white()(s[i]));
        } else {
            assert(t[i - n] == s[i]);
            assert(white()(t[i - n]));
        }
    }
}

pub fn blank(s: &str) -> (r: bool)
    ensures
        r == (trim(s@).len() == 0),
        r == is_blank(s@),
{
    proof {
        lemma_blank(s@);
    }
    trimmed(s).as_str().is_empty()
}

// ----------------------------------------------------------- prefixes, splitting

/// Whether `s` begins with `p`.
pub open spec fn starts_with(s: Seq<char>, p: Seq<char>) -> bool {
    p.len() <= s.len() && s.take(p.len() as int) == p
}

pub open spec fn ends_with(s: Seq<char>, p: Seq<char>) -> bool {
    p.len() <= s.len() && s.skip(s.len() - p.len()) == p
}

/// Whether the characters at `from` spell `p`.
pub fn stands_at(v: &Vec<char>, from: usize, p: &str) -> (r: bool)
    requires
        from <= v.len(),
    ensures
        r == starts_with(v@.skip(from as int), p@),
{
    let w = chars_of(p);
    let ghost s = v@.skip(from as int);
    if w.len() > v.len() - from {
        return false;
    }
    let mut i: usize = 0;
    while i < w.len()
        invariant
            i <= w.len() <= v.len() - from,
            from <= v.len(),
            w@ == p@,
            s == v@.skip(from as int),
            forall|j: int| 0 <= j < i ==> s[j] == w@[j],
        decreases w.len() - i,
    {
        if v[from + i] != w[i] {
            assert(s.take(p@.len() as int)[i as int] != p@[i as int]);
            return false;
        }
        i = i + 1;
    }
    assert(s.take(p@.len() as int) == p@);
    true
}

pub fn begins(s: &str, p: &str) -> (r: bool)
    ensures
        r == starts_with(s@, p@),
{
    let v = chars_of(s);
    assert(v@.skip(0) == s@);
    stands_at(&v, 0, p)
}

pub fn ends(s: &str, p: &str) -> (r: bool)
    ensures
        r == ends_with(s@, p@),
{
    let v = chars_of(s);
    let n: usize = p.unicode_len();
    if n > v.len() {
        return false;
    }
    let r = stands_at(&v, v.len() - n, p);
    proof {
        let t = s@.skip(s@.len() - p@.len());
        assert(t.take(p@.len() as int) == t);
    }
    r
}

/// Where `p` first stands in `s`, if anywhere.
pub open spec fn find(s: Seq<char>, p: Seq<char>) -> Option<nat>
    decreases s.len(),
{
    if starts_with(s, p) {
        Some(0nat)
    } else if s.len() == 0 {
        None
    } else {
        match find(s.skip(1), p) {
            Some(n) => Some(n + 1),
            None => None,
        }
    }
}

/// Whether `p` stands anywhere in `s`.
pub open spec fn contains(s: Seq<char>, p: Seq<char>) -> bool {
    exists|i: int| 0 <= i <= s.len() && starts_with(#[trigger] s.skip(i), p)
}

/// `find` gives the first place where `p` stands.
pub proof fn lemma_find(s: Seq<char>, p: Seq<char>)
    ensures
        match find(s, p) {
            Some(n) => {
                &&& n + p.len() <= s.len()
                &&& starts_with(s.skip(n as int), p)
                &&& forall|i: int| 0 <= i < n ==> !starts_with(#[trigger] s.skip(i), p)
            },
            None => forall|i: int| 0 <= i <= s.len() ==> !starts_with(#[trigger] s.skip(i), p),
        },
        find(s, p) is Some <==> contains(s, p),
    decreases s.len(),
{
    assert(s.skip(0) == s);
    if starts_with(s, p) {
        assert(starts_with(s.skip(0), p));
    } else if s.len() == 0 {
        assert forall|i: int| 0 <= i <= s.len() implies !starts_with(#[trigger] s.skip(i), p) by {
            assert(s.skip(i) == s);
        }
    } else {
        let t = s.skip(1);
        lemma_find(t, p);
        match find(t, p) {
            Some(n) => {
                assert(s.skip(n as int + 1) == t.skip(n as int));
                assert forall|i: int| 0 <= i < n + 1 implies !starts_with(
                    #[trigger] s.skip(i),
                    p,
                ) by {
                    if i > 0 {
                        assert(s.skip(i) == t.skip(i - 1));
                    }
                }
                assert(starts_with(s.skip(n as int + 1), p));
            },
            None => {
                assert forall|i: int| 0 <= i <= s.len() implies !starts_with(
                    #[trigger] s.skip(i),
                    p,
                ) by {
                    if i > 0 {
                        assert(s.skip(i) == t.skip(i - 1));
                    }
                }
            },
        }
    }
}

/// Only one place is the first.
pub proof fn lemma_find_is(s: Seq<char>, p: Seq<char>, n: int)
    requires
        0 <= n <= s.len(),
        starts_with(s.skip(n), p),
        forall|i: int| 0 <= i < n ==> !starts_with(#[trigger] s.skip(i), p),
    ensures
        find(s, p) == Some(n as nat),
{
    lemma_find(s, p);
    match find(s, p) {
        Some(m) => {
            if m < n {
                assert(!starts_with(s.skip(m as int), p));
            }
            if n < m {
                assert(!starts_with(s.skip(n), p));
            }
        },
        None => {
            assert(!starts_with(s.skip(n), p));
        },
    }
}

/// Where `p` first stands at or after `from`, counted from `from`.
pub fn find_from(v: &Vec<char>, from: usize, p: &str) -> (r: Option<usize>)
    requires
        from <= v.len(),
    ensures
        match r {
            Some(n) => find(v@.skip(from as int), p@) == Some(n as nat) && from + n + p@.len()
                <= v.len(),
            None => find(v@.skip(from as int), p@) is None,
        },
{
    let ghost s = v@.skip(from as int);
    let mut i: usize = from;
    loop
        invariant
            from <= i <= v.len(),
            s == v@.skip(from as int),
            forall|j: int| 0 <= j < i - from ==> !starts_with(#[trigger] s.skip(j), p@),
        decreases v.len() - i,
    {
        proof {
            assert(s.skip(i - from) == v@.skip(i as int));
        }
        if stands_at(v, i, p) {
            proof {
                lemma_find_is(s, p@, i - from);
                lemma_find(s, p@);
            }
            return Some(i - from);
        }
        if i == v.len() {
            proof {
                lemma_find(s, p@);
                if find(s, p@) is Some {
                    let n = find(s, p@).unwrap();
                    assert(!starts_with(s.skip(n as int), p@));
                }
            }
            return None;
        }
        i = i + 1;
    }
}

pub fn holds(s: &str, p: &str) -> (r: bool)
    ensures
        r == contains(s@, p@),
{
    let v = chars_of(s);
    assert(v@.skip(0) == s@);
    proof {
        lemma_find(s@, p@);
    }
    find_from(&v, 0, p).is_some()
}

/// Whether a character stands anywhere in a string.
pub fn holds_char(s: &str, c: char) -> (r: bool)
    ensures
        r == s@.contains(c),
{
    let v = chars_of(s);
    let mut i: usize = 0;
    while i < v.len()
        invariant
            i <= v.len(),
            v@ == s@,
            forall|j: int| 0 <= j < i ==> v@[j] != c,
        decreases v.len() - i,
    {
        if v[i] == c {
            return true;
        }
        i = i + 1;
    }
    false
}

/// The two sides of the first `c`.
pub open spec fn split_once(s: Seq<char>, c: char) -> Option<(Seq<char>, Seq<char>)> {
    let n = position(s, c) as int;
    if n < s.len() {
        Some((s.take(n), s.skip(n + 1)))
    } else {
        None
    }
}

/// The two sides of the last `c`.
pub open spec fn rsplit_once(s: Seq<char>, c: char) -> Option<(Seq<char>, Seq<char>)> {
    let n = run_back(s, other_than(c)) as int;
    if n < s.len() {
        Some((s.take(s.len() - n - 1), s.skip(s.len() - n)))
    } else {
        None
    }
}

pub fn split_first(s: &str, c: char) -> (r: Option<(String, String)>)
    ensures
        match r {
            Some((a, b)) => split_once(s@, c) == Some((a@, b@)),
            None => split_once(s@, c) is None,
        },
{
    let v = chars_of(s);
    assert(v@.skip(0) == s@);
    proof {
        lemma_run(s@, other_than(c));
    }
    let n = position_from(&v, 0, c);
    if n == v.len() {
        return None;
    }
    assert(v@.subrange(0, n as int) == s@.take(n as int));
    assert(v@.subrange(n as int + 1, v@.len() as int) == s@.skip(n as int + 1));
    Some((slice(&v, 0, n), slice(&v, n + 1, v.len())))
}

pub fn split_last(s: &str, c: char) -> (r: Option<(String, String)>)
    ensures
        match r {
            Some((a, b)) => rsplit_once(s@, c) == Some((a@, b@)),
            None => rsplit_once(s@, c) is None,
        },
{
    let v = chars_of(s);
    let mut i: usize = v.len();
    while i > 0 && v[i - 1] != c
        invariant
            i <= v.len(),
            forall|j: int| i <= j < v.len() ==> v@[j] != c,
        decreases i,
    {
        i = i - 1;
    }
    proof {
        assert forall|j: int| s@.len() - (v@.len() - i) <= j < s@.len() implies other_than(c)(
            #[trigger] s@[j],
        ) by {
            assert(s@[j] == v@[j]);
        }
        lemma_run_back_is(s@, other_than(c), v@.len() - i);
    }
    if i == 0 {
        return None;
    }
    assert(v@.subrange(0, i as int - 1) == s@.take(i as int - 1));
    assert(v@.subrange(i as int, v@.len() as int) == s@.skip(i as int));
    Some((slice(&v, 0, i - 1), slice(&v, i, v.len())))
}

/// The pieces between one `c` and the next; a string without any is one piece.
pub open spec fn split(s: Seq<char>, c: char) -> Seq<Seq<char>>
    decreases s.len(),
{
    let n = position(s, c) as int;
    if n < s.len() {
        seq![s.take(n)] + split(s.skip(n + 1), c)
    } else {
        seq![s]
    }
}

/// What a list of strings holds.
pub open spec fn views(v: Seq<String>) -> Seq<Seq<char>> {
    Seq::new(v.len(), |i: int| v[i]@)
}

/// What an optional string holds.
pub open spec fn opt(o: Option<String>) -> Option<Seq<char>> {
    match o {
        Some(t) => Some(t@),
        None => None,
    }
}

/// What an optional string slice holds.
pub open spec fn opt_str(o: Option<&str>) -> Option<Seq<char>> {
    match o {
        Some(t) => Some(t@),
        None => None,
    }
}

pub fn clone_opt(o: &Option<String>) -> (r: Option<String>)
    ensures
        r == *o,
{
    match o {
        Some(t) => Some(t.clone()),
        None => None,
    }
}

pub fn own_opt(o: Option<&str>) -> (r: Option<String>)
    ensures
        opt(r) == opt_str(o),
{
    match o {
        Some(t) => Some(t.to_owned()),
        None => None,
    }
}

pub fn clone_all(v: &Vec<String>) -> (r: Vec<String>)
    ensures
        r@ == v@,
{
    let mut r: Vec<String> = Vec::new();
    let mut i: usize = 0;
    while i < v.len()
        invariant
            i <= v.len(),
            r@ == v@.take(i as int),
        decreases v.len() - i,
    {
        r.push(v[i].clone());
        i = i + 1;
        assert(r@ == v@.take(i as int));
    }
    assert(v@.take(i as int) == v@);
    r
}

/// A string as Rust's `Debug` writes it: quoted, with what would not print escaped.
pub uninterp spec fn debug_text(s: Seq<char>) -> Seq<char>;

/// `<str as Debug>::fmt`, through `format!("{:?}")`: the result is a function of the
/// string.
#[verifier::external_body]
pub(crate) fn debug_of(s: &str) -> (r: String)
    ensures
        r@ == debug_text(s@),
{
    format!("{s:?}")
}

pub fn split_all(s: &str, c: char) -> (r: Vec<String>)
    ensures
        views(r@) == split(s@, c),
        r.len() > 0,
{
    let v = chars_of(s);
    let mut out: Vec<String> = Vec::new();
    let mut from: usize = 0;
    proof {
        assert(s@.skip(0) == s@);
        assert(views(out@) + split(s@, c) == split(s@, c));
    }
    loop
        invariant_except_break
            split(s@, c) == views(out@) + split(s@.skip(from as int), c),
        invariant
            from <= v.len(),
            v@ == s@,
        ensures
            views(out@) == split(s@, c),
            out.len() > 0,
        decreases v.len() - from,
    {
        let ghost rest = s@.skip(from as int);
        let n = position_from(&v, from, c);
        let ghost before = out@;
        proof {
            lemma_run(rest, other_than(c));
        }
        if n == v.len() - from {
            assert(v@.subrange(from as int, v@.len() as int) == rest);
            out.push(slice(&v, from, v.len()));
            assert(views(out@) == views(before).push(rest));
            assert(views(before) + seq![rest] == views(before).push(rest));
            break;
        }
        out.push(slice(&v, from, from + n));
        proof {
            assert(v@.subrange(from as int, from + n) == rest.take(n as int));
            assert(rest.skip(n as int + 1) == s@.skip(from + n + 1));
            assert(views(out@) == views(before).push(rest.take(n as int)));
            assert(views(before) + (seq![rest.take(n as int)] + split(
                rest.skip(n as int + 1),
                c,
            )) == views(out@) + split(s@.skip(from + n + 1), c));
        }
        from = from + n + 1;
    }
    out
}

// ------------------------------------------------------------ replacing, joining

/// Every `c` replaced by `with`.
pub open spec fn replace_char(s: Seq<char>, c: char, with: Seq<char>) -> Seq<char>
    decreases s.len(),
{
    if s.len() == 0 {
        Seq::empty()
    } else {
        replace_char(s.drop_last(), c, with) + (if s.last() == c {
            with
        } else {
            seq![s.last()]
        })
    }
}

pub fn replaced(s: &str, c: char, with: &str) -> (r: String)
    ensures
        r@ == replace_char(s@, c, with@),
{
    let v = chars_of(s);
    let mut out = String::new();
    let mut i: usize = 0;
    assert(s@.take(0) == Seq::<char>::empty());
    while i < v.len()
        invariant
            i <= v.len(),
            v@ == s@,
            out@ == replace_char(s@.take(i as int), c, with@),
        decreases v.len() - i,
    {
        proof {
            assert(s@.take(i as int + 1).drop_last() == s@.take(i as int));
            assert(out@.push(v@[i as int]) == out@ + seq![v@[i as int]]);
        }
        if v[i] == c {
            out.append(with);
        } else {
            out.push(v[i]);
        }
        i = i + 1;
    }
    assert(s@.take(i as int) == s@);
    out
}

/// The parts with `sep` between each and the next.
pub open spec fn join(parts: Seq<Seq<char>>, sep: Seq<char>) -> Seq<char>
    decreases parts.len(),
{
    if parts.len() == 0 {
        Seq::empty()
    } else if parts.len() == 1 {
        parts[0]
    } else {
        join(parts.drop_last(), sep) + sep + parts.last()
    }
}

pub fn joined(parts: &Vec<String>, sep: &str) -> (r: String)
    ensures
        r@ == join(views(parts@), sep@),
{
    if parts.len() == 0 {
        return String::new();
    }
    let mut out = parts[0].clone();
    let mut i: usize = 1;
    let ghost all = views(parts@);
    assert(all.take(1).len() == 1);
    while i < parts.len()
        invariant
            1 <= i <= parts.len(),
            all == views(parts@),
            out@ == join(all.take(i as int), sep@),
        decreases parts.len() - i,
    {
        proof {
            assert(all.take(i as int + 1).drop_last() == all.take(i as int));
        }
        out.append(sep);
        out.append(&parts[i]);
        i = i + 1;
    }
    assert(all.take(i as int) == all);
    out
}

/// `c`, `n` times.
pub open spec fn repeat(c: char, n: nat) -> Seq<char> {
    Seq::new(n, |i: int| c)
}

pub fn repeated(c: char, n: usize) -> (r: String)
    ensures
        r@ == repeat(c, n as nat),
{
    let mut r = String::new();
    let mut i: usize = 0;
    while i < n
        invariant
            i <= n,
            r@ == repeat(c, i as nat),
        decreases n - i,
    {
        r.push(c);
        i = i + 1;
        assert(r@ == repeat(c, i as nat));
    }
    r
}

// -------------------------------------------------------------------- counting

/// How often `c` stands in `s`.
pub open spec fn count(s: Seq<char>, c: char) -> nat
    decreases s.len(),
{
    if s.len() == 0 {
        0
    } else {
        count(s.drop_last(), c) + (if s.last() == c {
            1nat
        } else {
            0nat
        })
    }
}

pub proof fn lemma_count_bound(s: Seq<char>, c: char)
    ensures
        count(s, c) <= s.len(),
    decreases s.len(),
{
    if s.len() > 0 {
        lemma_count_bound(s.drop_last(), c);
    }
}

pub proof fn lemma_count_concat(a: Seq<char>, b: Seq<char>, c: char)
    ensures
        count(a + b, c) == count(a, c) + count(b, c),
    decreases b.len(),
{
    if b.len() == 0 {
        assert(a + b == a);
    } else {
        assert((a + b).drop_last() == a + b.drop_last());
        lemma_count_concat(a, b.drop_last(), c);
    }
}

pub proof fn lemma_count_repeat(c: char, n: nat)
    ensures
        count(repeat(c, n), c) == n,
    decreases n,
{
    if n > 0 {
        assert(repeat(c, n).drop_last() == repeat(c, (n - 1) as nat));
        lemma_count_repeat(c, (n - 1) as nat);
    }
}

pub fn count_before(v: &Vec<char>, to: usize, c: char) -> (n: usize)
    requires
        to <= v.len(),
    ensures
        n == count(v@.take(to as int), c),
        n <= to,
{
    let mut n: usize = 0;
    let mut i: usize = 0;
    while i < to
        invariant
            i <= to <= v.len(),
            n <= i,
            n == count(v@.take(i as int), c),
        decreases to - i,
    {
        assert(v@.take(i as int + 1).drop_last() == v@.take(i as int));
        if v[i] == c {
            n = n + 1;
        }
        i = i + 1;
    }
    n
}

// --------------------------------------------------------------------- numbers

pub open spec fn power_of_ten(k: nat) -> nat
    decreases k,
{
    if k == 0 {
        1
    } else {
        10 * power_of_ten((k - 1) as nat)
    }
}

/// A number below a power of ten has no more digits than that power.
pub proof fn lemma_decimal_len(n: nat, k: nat)
    requires
        n < power_of_ten(k),
        k > 0,
    ensures
        decimal(n).len() <= k,
    decreases k,
{
    if n >= 10 {
        assert(power_of_ten(1) == 10) by {
            reveal_with_fuel(power_of_ten, 2);
        }
        assert(k > 1);
        assert(n / 10 < power_of_ten((k - 1) as nat));
        lemma_decimal_len(n / 10, (k - 1) as nat);
    }
}

/// No 64-bit number has more than twenty digits.
pub proof fn lemma_decimal_short(n: nat)
    requires
        n <= u64::MAX,
    ensures
        decimal(n).len() <= 20,
{
    reveal_with_fuel(power_of_ten, 21);
    lemma_decimal_len(n, 20);
}

/// The digit for a value below ten.
pub open spec fn digit(n: nat) -> char {
    (('0' as u32) + n) as char
}

/// A number in decimal.
pub open spec fn decimal(n: nat) -> Seq<char>
    decreases n,
{
    if n < 10 {
        seq![digit(n)]
    } else {
        decimal(n / 10).push(digit(n % 10))
    }
}

/// A number that may be negative, in decimal.
pub open spec fn signed(n: int) -> Seq<char> {
    if n < 0 {
        seq!['-'] + decimal((-n) as nat)
    } else {
        decimal(n as nat)
    }
}

pub fn decimal_of(n: u64) -> (r: String)
    ensures
        r@ == decimal(n as nat),
{
    decimal_wide(n as u128)
}

pub fn decimal_wide(n: u128) -> (r: String)
    ensures
        r@ == decimal(n as nat),
    decreases n,
{
    let d: u8 = (n % 10) as u8;
    let c: char = (48u8 + d) as char;
    if n < 10 {
        let mut r = String::new();
        r.push(c);
        assert(r@ == seq![digit(n as nat)]);
        r
    } else {
        let mut r = decimal_wide(n / 10);
        r.push(c);
        r
    }
}

/// A number with a zero in front where it has one digit.
pub open spec fn two_digits(n: nat) -> Seq<char> {
    if n < 10 {
        seq!['0'] + decimal(n)
    } else {
        decimal(n)
    }
}

pub fn two_digits_of(n: u64) -> (r: String)
    ensures
        r@ == two_digits(n as nat),
{
    if n < 10 {
        let mut r = String::new();
        r.push('0');
        r.append(&decimal_of(n));
        assert(r@ == seq!['0'] + decimal(n as nat));
        r
    } else {
        decimal_of(n)
    }
}

// ------------------------------------------------------------------- byte widths

/// How many bytes a character takes in UTF-8.
pub open spec fn width(c: char) -> nat {
    let n = c as u32;
    if n < 0x80 {
        1
    } else if n < 0x800 {
        2
    } else if n < 0x10000 {
        3
    } else {
        4
    }
}

pub fn char_width(c: char) -> (r: usize)
    ensures
        r == width(c),
        1 <= r <= 4,
{
    let n: u32 = c as u32;
    if n < 0x80 {
        1
    } else if n < 0x800 {
        2
    } else if n < 0x10000 {
        3
    } else {
        4
    }
}

/// How many bytes a string takes in UTF-8.
pub open spec fn bytes_len(s: Seq<char>) -> nat
    decreases s.len(),
{
    if s.len() == 0 {
        0
    } else {
        bytes_len(s.drop_last()) + width(s.last())
    }
}

pub proof fn lemma_bytes_len_concat(a: Seq<char>, b: Seq<char>)
    ensures
        bytes_len(a + b) == bytes_len(a) + bytes_len(b),
    decreases b.len(),
{
    if b.len() == 0 {
        assert(a + b == a);
    } else {
        assert((a + b).drop_last() == a + b.drop_last());
        lemma_bytes_len_concat(a, b.drop_last());
    }
}

pub proof fn lemma_bytes_len_bounds(s: Seq<char>)
    ensures
        s.len() <= bytes_len(s) <= 4 * s.len(),
    decreases s.len(),
{
    if s.len() > 0 {
        lemma_bytes_len_bounds(s.drop_last());
    }
}

// -------------------------------------------------------------- reading numbers

/// The value of a digit.
pub open spec fn digit_value(c: char) -> nat {
    (c as u32 - '0' as u32) as nat
}

pub open spec fn all_digits(s: Seq<char>) -> bool {
    forall|i: int| 0 <= i < s.len() ==> is_ascii_digit(#[trigger] s[i])
}

/// The value of a row of digits.
pub open spec fn value(s: Seq<char>) -> nat
    decreases s.len(),
{
    if s.len() == 0 {
        0
    } else {
        value(s.drop_last()) * 10 + digit_value(s.last())
    }
}

/// The digits of a number: all of it, or all but a leading plus sign.
pub open spec fn digits_of(s: Seq<char>) -> Seq<char> {
    if s.len() > 0 && s[0] == '+' {
        s.skip(1)
    } else {
        s
    }
}

/// The number a text spells, if it spells one: digits, at least one, with or without
/// a plus sign in front.
pub open spec fn number(s: Seq<char>) -> Option<nat> {
    let d = digits_of(s);
    if d.len() > 0 && all_digits(d) {
        Some(value(d))
    } else {
        None
    }
}

/// The number a text spells, where it is one that fits.
pub fn parse_u64(s: &str) -> (r: Option<u64>)
    ensures
        r == (match number(s@) {
            Some(n) => if n <= u64::MAX {
                Some(n as u64)
            } else {
                None
            },
            None => None,
        }),
{
    let v = chars_of(s);
    let from: usize = if v.len() > 0 && v[0] == '+' {
        1
    } else {
        0
    };
    let ghost d = digits_of(s@);
    assert(d == s@.skip(from as int));
    if v.len() == from {
        return None;
    }
    let mut n: u64 = 0;
    let mut over = false;
    let mut i: usize = from;
    assert(d.take(0).len() == 0);
    while i < v.len()
        invariant
            from <= i <= v.len(),
            v@ == s@,
            d == s@.skip(from as int),
            d == digits_of(s@),
            d.len() > 0,
            all_digits(d.take(i - from)),
            over ==> value(d.take(i - from)) > u64::MAX,
            !over ==> n == value(d.take(i - from)),
        decreases v.len() - i,
    {
        let c = v[i];
        let ghost k = i - from;
        assert(d[k] == c);
        if !ascii_digit(c) {
            assert(!is_ascii_digit(d[k]));
            return None;
        }
        let x: u64 = (c as u32 - 48) as u64;
        proof {
            assert(d.take(k + 1).drop_last() == d.take(k));
            assert(d.take(k + 1).last() == c);
            assert forall|j: int| 0 <= j < k + 1 implies is_ascii_digit(
                #[trigger] d.take(k + 1)[j],
            ) by {
                if j < k {
                    assert(d.take(k + 1)[j] == d.take(k)[j]);
                }
            }
        }
        if !over {
            if n > 1844674407370955161 || (n == 1844674407370955161 && x > 5) {
                over = true;
            } else {
                n = n * 10 + x;
            }
        }
        i = i + 1;
    }
    assert(d.take(i - from) == d);
    if over {
        None
    } else {
        Some(n)
    }
}

/// Every digit of a number spelled in decimal is a digit, and they spell it.
pub proof fn lemma_decimal(n: nat)
    ensures
        decimal(n).len() > 0,
        all_digits(decimal(n)),
        value(decimal(n)) == n,
        number(decimal(n)) == Some(n),
    decreases n,
{
    reveal_with_fuel(value, 2);
    if n < 10 {
        assert(decimal(n).drop_last() == Seq::<char>::empty());
    } else {
        lemma_decimal(n / 10);
        let d = decimal(n);
        assert(d.drop_last() == decimal(n / 10));
        assert forall|i: int| 0 <= i < d.len() implies is_ascii_digit(#[trigger] d[i]) by {
            if i < d.len() - 1 {
                assert(d[i] == decimal(n / 10)[i]);
            }
        }
        assert(value(d) == n / 10 * 10 + n % 10);
    }
    assert(is_ascii_digit(decimal(n)[0]));
    assert(digits_of(decimal(n)) == decimal(n));
}

// -------------------------------------------------------------- UTF-16 code units

/// How many UTF-16 code units a character takes.
pub open spec fn unit_width(c: char) -> nat {
    if (c as u32) < 0x10000 {
        1
    } else {
        2
    }
}

/// How many UTF-16 code units a string takes.
pub open spec fn units(s: Seq<char>) -> nat
    decreases s.len(),
{
    if s.len() == 0 {
        0
    } else {
        units(s.drop_last()) + unit_width(s.last())
    }
}

pub fn unit_width_of(c: char) -> (n: usize)
    ensures
        n == unit_width(c),
        1 <= n <= 2,
{
    if (c as u32) < 0x10000 {
        1
    } else {
        2
    }
}

/// The parts one after another.
pub open spec fn concat_all(parts: Seq<Seq<char>>) -> Seq<char>
    decreases parts.len(),
{
    if parts.len() == 0 {
        Seq::empty()
    } else {
        concat_all(parts.drop_last()) + parts.last()
    }
}

// ----------------------------------------------------- stripping and substituting

/// Without a prefix, however often it stands there.
pub open spec fn strip_all(s: Seq<char>, p: Seq<char>) -> Seq<char>
    decreases s.len(),
{
    if p.len() > 0 && starts_with(s, p) {
        strip_all(s.skip(p.len() as int), p)
    } else {
        s
    }
}

pub fn stripped_all(s: &str, p: &str) -> (r: String)
    requires
        p@.len() > 0,
    ensures
        r@ == strip_all(s@, p@),
{
    let v = chars_of(s);
    let n = p.unicode_len();
    let mut at: usize = 0;
    assert(s@.skip(0) == s@);
    while stands_at(&v, at, p)
        invariant
            at <= v.len(),
            n == p@.len(),
            n > 0,
            v@ == s@,
            strip_all(s@, p@) == strip_all(s@.skip(at as int), p@),
        decreases v.len() - at,
    {
        proof {
            assert(s@.skip(at as int).skip(n as int) == s@.skip(at + n));
        }
        at = at + n;
    }
    let r = slice(&v, at, v.len());
    assert(r@ == s@.skip(at as int));
    r
}

/// Being a certain character.
pub open spec fn exactly(c: char) -> spec_fn(char) -> bool {
    |x: char| x == c
}

/// Without the run of `c` it begins with.
pub open spec fn strip_start(s: Seq<char>, c: char) -> Seq<char> {
    s.skip(run(s, exactly(c)) as int)
}

/// Without the run of `c` it ends with.
pub open spec fn strip_end(s: Seq<char>, c: char) -> Seq<char> {
    s.take(s.len() - run_back(s, exactly(c)))
}

/// Without the runs of `c` at either end.
pub open spec fn strip(s: Seq<char>, c: char) -> Seq<char> {
    strip_end(strip_start(s, c), c)
}

pub fn stripped_start(s: &str, c: char) -> (r: String)
    ensures
        r@ == strip_start(s@, c),
{
    let v = chars_of(s);
    let mut a: usize = 0;
    while a < v.len() && v[a] == c
        invariant
            a <= v.len(),
            v@ == s@,
            forall|j: int| 0 <= j < a ==> exactly(c)(#[trigger] s@[j]),
        decreases v.len() - a,
    {
        a = a + 1;
    }
    proof {
        lemma_run_is(s@, exactly(c), a as int);
    }
    let r = slice(&v, a, v.len());
    assert(r@ == s@.skip(a as int));
    r
}

pub fn stripped_end(s: &str, c: char) -> (r: String)
    ensures
        r@ == strip_end(s@, c),
{
    let v = chars_of(s);
    let mut b: usize = v.len();
    while b > 0 && v[b - 1] == c
        invariant
            b <= v.len(),
            v@ == s@,
            forall|j: int| b <= j < v.len() ==> exactly(c)(#[trigger] s@[j]),
        decreases b,
    {
        b = b - 1;
    }
    proof {
        lemma_run_back_is(s@, exactly(c), v@.len() - b);
    }
    let r = slice(&v, 0, b);
    assert(r@ == s@.take(b as int));
    r
}

pub fn stripped(s: &str, c: char) -> (r: String)
    ensures
        r@ == strip(s@, c),
{
    stripped_end(&stripped_start(s, c), c)
}

/// The first `p` replaced by `with`.
pub open spec fn replace_first(s: Seq<char>, p: Seq<char>, with: Seq<char>) -> Seq<char> {
    match find(s, p) {
        Some(n) => s.take(n as int) + with + s.skip((n + p.len()) as int),
        None => s,
    }
}

pub fn replaced_first(s: &str, p: &str, with: &str) -> (r: String)
    ensures
        r@ == replace_first(s@, p@, with@),
{
    let v = chars_of(s);
    assert(v@.skip(0) == s@);
    match find_from(&v, 0, p) {
        Some(n) => {
            let m = p.unicode_len();
            let head = slice(&v, 0, n);
            let tail = slice(&v, n + m, v.len());
            assert(head@ == s@.take(n as int));
            assert(tail@ == s@.skip(n + m));
            head.concat(with).concat(&tail)
        },
        None => s.to_owned(),
    }
}

/// The two sides of the first `p`.
pub open spec fn cut(s: Seq<char>, p: Seq<char>) -> Option<(Seq<char>, Seq<char>)> {
    match find(s, p) {
        Some(n) => Some((s.take(n as int), s.skip((n + p.len()) as int))),
        None => None,
    }
}

pub fn cut_at(s: &str, p: &str) -> (r: Option<(String, String)>)
    ensures
        match r {
            Some((a, b)) => cut(s@, p@) == Some((a@, b@)),
            None => cut(s@, p@) is None,
        },
{
    let v = chars_of(s);
    assert(v@.skip(0) == s@);
    match find_from(&v, 0, p) {
        Some(n) => {
            let m = p.unicode_len();
            let head = slice(&v, 0, n);
            let tail = slice(&v, n + m, v.len());
            assert(head@ == s@.take(n as int));
            assert(tail@ == s@.skip(n + m));
            Some((head, tail))
        },
        None => None,
    }
}

/// What follows a prefix, if that is how it begins.
pub open spec fn after_prefix(s: Seq<char>, p: Seq<char>) -> Option<Seq<char>> {
    if starts_with(s, p) {
        Some(s.skip(p.len() as int))
    } else {
        None
    }
}

pub fn strip_prefix(s: &str, p: &str) -> (r: Option<String>)
    ensures
        opt(r) == after_prefix(s@, p@),
{
    let v = chars_of(s);
    assert(v@.skip(0) == s@);
    if stands_at(&v, 0, p) {
        let m = p.unicode_len();
        let r = slice(&v, m, v.len());
        assert(r@ == s@.skip(m as int));
        Some(r)
    } else {
        None
    }
}

/// Every `p` replaced by `with`, read from the left.
pub open spec fn replace_all(s: Seq<char>, p: Seq<char>, with: Seq<char>) -> Seq<char>
    decreases s.len(),
{
    match find(s, p) {
        Some(n) => if p.len() > 0 && n + p.len() <= s.len() {
            s.take(n as int) + with + replace_all(s.skip((n + p.len()) as int), p, with)
        } else {
            s
        },
        None => s,
    }
}

pub fn replaced_all(s: &str, p: &str, with: &str) -> (r: String)
    requires
        p@.len() > 0,
    ensures
        r@ == replace_all(s@, p@, with@),
{
    let v = chars_of(s);
    let m = p.unicode_len();
    let mut out = String::new();
    let mut at: usize = 0;
    assert(s@.skip(0) == s@);
    assert(Seq::<char>::empty() + replace_all(s@, p@, with@) == replace_all(s@, p@, with@));
    loop
        invariant
            at <= v.len(),
            v@ == s@,
            m == p@.len(),
            m > 0,
            out@ + replace_all(s@.skip(at as int), p@, with@) == replace_all(s@, p@, with@),
        decreases v.len() - at,
    {
        let ghost rest = s@.skip(at as int);
        let ghost before = out@;
        match find_from(&v, at, p) {
            Some(n) => {
                let head = slice(&v, at, at + n);
                assert(head@ == rest.take(n as int));
                out.append(&head);
                out.append(with);
                proof {
                    assert(rest.skip((n + m) as int) == s@.skip(at + n + m));
                    let more = replace_all(s@.skip(at + n + m), p@, with@);
                    assert(before + (rest.take(n as int) + with@ + more) == (before + rest.take(
                        n as int,
                    ) + with@) + more);
                }
                at = at + n + m;
            },
            None => {
                let tail = slice(&v, at, v.len());
                assert(tail@ == rest);
                out.append(&tail);
                return out;
            },
        }
    }
}

/// `true` or `false`.
pub open spec fn truth(b: bool) -> Seq<char> {
    if b {
        "true"@
    } else {
        "false"@
    }
}

pub fn truth_of(b: bool) -> (r: &'static str)
    ensures
        r@ == truth(b),
{
    if b {
        "true"
    } else {
        "false"
    }
}

pub fn signed_of(n: i128) -> (r: String)
    ensures
        r@ == signed(n as int),
{
    if n < 0 {
        let mut r = String::new();
        r.push('-');
        let m: u128 = (-(n + 1)) as u128 + 1;
        r.append(&decimal_wide(m));
        assert(r@ == seq!['-'] + decimal(m as nat));
        r
    } else {
        decimal_wide(n as u128)
    }
}

/// The text of bytes that are not valid UTF-8, with what is broken replaced.
pub uninterp spec fn repaired(bytes: Seq<u8>) -> Seq<char>;

/// The text those bytes spell, with what is broken replaced.
pub open spec fn lossy(bytes: Seq<u8>) -> Seq<char> {
    if valid_utf8(bytes) {
        decode_utf8(bytes)
    } else {
        repaired(bytes)
    }
}

/// `String::from_utf8_lossy`: valid UTF-8 as it is; for anything else, a function of
/// the bytes.
#[verifier::external_body]
pub(crate) fn from_utf8_lossy(bytes: &[u8]) -> (r: String)
    ensures
        r@ == (if valid_utf8(bytes@) {
            decode_utf8(bytes@)
        } else {
            repaired(bytes@)
        }),
{
    String::from_utf8_lossy(bytes).into_owned()
}

/// A lower-case hexadecimal digit.
pub open spec fn hex_char(n: u8) -> char {
    if n < 10 {
        (0x30 + n) as char
    } else {
        (0x57 + n) as char
    }
}

/// Bytes in lower-case hexadecimal, two digits each.
pub open spec fn hex(bytes: Seq<u8>) -> Seq<char>
    decreases bytes.len(),
{
    if bytes.len() == 0 {
        Seq::empty()
    } else {
        hex(bytes.drop_last()) + seq![hex_char(bytes.last() / 16), hex_char(bytes.last() % 16)]
    }
}

fn hex_char_of(n: u8) -> (c: char)
    requires
        n < 16,
    ensures
        c == hex_char(n),
{
    if n < 10 {
        (0x30u8 + n) as char
    } else {
        (0x57u8 + n) as char
    }
}

pub fn hex_of(bytes: &[u8]) -> (r: String)
    ensures
        r@ == hex(bytes@),
{
    let mut out = String::new();
    let mut i: usize = 0;
    assert(bytes@.take(0) == Seq::<u8>::empty());
    while i < bytes.len()
        invariant
            i <= bytes.len(),
            out@ == hex(bytes@.take(i as int)),
        decreases bytes.len() - i,
    {
        let b = bytes[i];
        let ghost before = out@;
        assert(bytes@.take(i as int + 1).drop_last() == bytes@.take(i as int));
        out.push(hex_char_of(b / 16));
        out.push(hex_char_of(b % 16));
        assert(out@ == before + seq![hex_char(b / 16), hex_char(b % 16)]);
        i = i + 1;
    }
    assert(bytes@.take(i as int) == bytes@);
    out
}

// ------------------------------------------------------------------------- laws

/// Two lists joined are the one joined, the separator, and the other joined: nothing
/// stands before the first part, behind the last, or between two but the separator.
pub proof fn law_joining_goes_part_by_part(a: Seq<Seq<char>>, b: Seq<Seq<char>>, sep: Seq<char>)
    ensures
        a.len() == 0 ==> join(a, sep) == Seq::<char>::empty(),
        a.len() == 1 ==> join(a, sep) == a[0],
        a.len() > 0 && b.len() > 0 ==> join(a + b, sep) == join(a, sep) + sep + join(b, sep),
    decreases b.len(),
{
    if a.len() > 0 && b.len() > 0 {
        assert((a + b).drop_last() == a + b.drop_last());
        assert((a + b).last() == b.last());
        if b.len() == 1 {
            assert(a + b.drop_last() == a);
        } else {
            law_joining_goes_part_by_part(a, b.drop_last(), sep);
            let before = join(b.drop_last(), sep);
            assert(join(a, sep) + sep + before + sep + b.last() == join(a, sep) + sep + (before
                + sep + b.last()));
        }
    }
}

/// The value a row of hexadecimal digits has, one of them.
pub open spec fn hex_value(c: char) -> int {
    if '0' <= c <= '9' {
        c as int - '0' as int
    } else {
        c as int - 'a' as int + 10
    }
}

/// Two lower-case digits spell a byte.
pub open spec fn spells_byte(high: char, low: char, b: u8) -> bool {
    &&& '0' <= high <= '9' || 'a' <= high <= 'f'
    &&& '0' <= low <= '9' || 'a' <= low <= 'f'
    &&& hex_value(high) * 16 + hex_value(low) == b
}

/// Bytes written in hexadecimal can be read back: two digits each, in order.
pub proof fn law_hexadecimal_spells_the_bytes(bytes: Seq<u8>)
    ensures
        hex(bytes).len() == 2 * bytes.len(),
        forall|i: int|
            0 <= i < bytes.len() ==> spells_byte(
                hex(bytes)[2 * i],
                hex(bytes)[2 * i + 1],
                #[trigger] bytes[i],
            ),
    decreases bytes.len(),
{
    if bytes.len() > 0 {
        law_hexadecimal_spells_the_bytes(bytes.drop_last());
        let n = bytes.len() - 1;
        let before = hex(bytes.drop_last());
        assert forall|i: int| 0 <= i < bytes.len() implies spells_byte(
            hex(bytes)[2 * i],
            hex(bytes)[2 * i + 1],
            #[trigger] bytes[i],
        ) by {
            if i < n {
                assert(bytes.drop_last()[i] == bytes[i]);
                assert(hex(bytes)[2 * i] == before[2 * i]);
                assert(hex(bytes)[2 * i + 1] == before[2 * i + 1]);
            } else {
                let b = bytes[i];
                assert(hex(bytes)[2 * i] == hex_char(b / 16));
                assert(hex(bytes)[2 * i + 1] == hex_char(b % 16));
            }
        }
    }
}

/// A text that is a whole number: digits with no zero too many in front, behind a minus
/// sign where it is negative.
pub open spec fn is_number(s: Seq<char>, n: int) -> bool {
    let digits = if n < 0 {
        s.skip(1)
    } else {
        s
    };
    &&& n < 0 ==> s.len() > 0 && s[0] == '-'
    &&& digits.len() > 0
    &&& all_digits(digits)
    &&& value(digits) == if n < 0 {
        -n
    } else {
        n
    }
    &&& digits[0] == '0' ==> digits.len() == 1
}

proof fn lemma_no_zero_in_front(n: nat)
    ensures
        decimal(n)[0] == '0' ==> n == 0,
    decreases n,
{
    if n >= 10 {
        lemma_no_zero_in_front(n / 10);
        lemma_decimal(n / 10);
        assert(decimal(n)[0] == decimal(n / 10)[0]);
    }
}

/// A number is written in the digits that spell it.
pub proof fn law_a_number_is_written_in_its_digits(n: int)
    ensures
        is_number(signed(n), n),
{
    let m = if n < 0 {
        (-n) as nat
    } else {
        n as nat
    };
    lemma_decimal(m);
    lemma_no_zero_in_front(m);
    if n < 0 {
        assert(signed(n).skip(1) == decimal(m));
    }
}

/// A row of digits is one number only, so two numbers are never written alike.
pub proof fn law_two_numbers_are_written_apart(m: int, n: int)
    requires
        signed(m) == signed(n),
    ensures
        m == n,
{
    law_a_number_is_written_in_its_digits(m);
    law_a_number_is_written_in_its_digits(n);
    if m >= 0 && n < 0 {
        assert(is_ascii_digit(signed(m)[0]));
    }
    if n >= 0 && m < 0 {
        assert(is_ascii_digit(signed(n)[0]));
    }
}

/// What is trimmed has no white space at either end, and what was taken away is nothing
/// else.
pub proof fn law_trimming_takes_only_the_white_space(s: Seq<char>)
    ensures
        exists|before: Seq<char>, after: Seq<char>|
            {
                &&& #[trigger] (before + trim(s) + after) == s
                &&& forall|i: int| 0 <= i < before.len() ==> is_white(#[trigger] before[i])
                &&& forall|i: int| 0 <= i < after.len() ==> is_white(#[trigger] after[i])
            },
        trim(s).len() > 0 ==> !is_white(trim(s)[0]) && !is_white(trim(s).last()),
{
    lemma_run(s, white());
    let front = run(s, white());
    let rest = trim_start(s);
    lemma_run_back(rest, white());
    let back = run_back(rest, white());
    let before = s.take(front as int);
    let after = rest.skip(rest.len() - back);
    assert(before + trim(s) + after == s);
    assert forall|i: int| 0 <= i < before.len() implies is_white(#[trigger] before[i]) by {
        assert(white()(s[i]));
    }
    assert forall|i: int| 0 <= i < after.len() implies is_white(#[trigger] after[i]) by {
        assert(white()(rest[rest.len() - back + i]));
    }
    if trim(s).len() > 0 {
        assert(trim(s)[0] == s[front as int]);
        assert(!white()(s[front as int]));
        assert(trim(s).last() == rest[rest.len() - back - 1]);
        assert(!white()(rest[rest.len() - back - 1]));
    }
}

/// Cutting at a character takes that one occurrence of it and nothing else: the first
/// from the left, or the first from the right, and no cut only where there is none.
pub proof fn law_a_cut_takes_one_character(s: Seq<char>, c: char)
    ensures
        split_once(s, c) is None <==> !s.contains(c),
        rsplit_once(s, c) is None <==> !s.contains(c),
        split_once(s, c) matches Some((a, b)) ==> s == a + seq![c] + b && !a.contains(c),
        rsplit_once(s, c) matches Some((a, b)) ==> s == a + seq![c] + b && !b.contains(c),
{
    let f = other_than(c);
    lemma_run(s, f);
    lemma_run_back(s, f);
    let n = run(s, f) as int;
    let m = run_back(s, f) as int;
    if n < s.len() {
        assert(!f(s[n]));
        assert(s[n] == c);
        assert(s.contains(c));
        let a = s.take(n);
        assert(s == a + seq![c] + s.skip(n + 1));
        assert forall|i: int| 0 <= i < a.len() implies a[i] != c by {
            assert(f(s[i]));
        }
    } else {
        assert forall|i: int| 0 <= i < s.len() implies s[i] != c by {
            assert(f(s[i]));
        }
    }
    if m < s.len() {
        let k = s.len() - m - 1;
        assert(!f(s[k]));
        assert(s[k] == c);
        assert(s.contains(c));
        let b = s.skip(k + 1);
        assert(s == s.take(k) + seq![c] + b);
        assert forall|i: int| 0 <= i < b.len() implies b[i] != c by {
            assert(f(s[k + 1 + i]));
        }
    } else {
        assert forall|i: int| 0 <= i < s.len() implies s[i] != c by {
            assert(f(s[i]));
        }
    }
}

/// Splitting at a character loses nothing else: joined by it, the parts are the text
/// again, and none of them holds it.
pub proof fn law_what_is_split_joins_again(s: Seq<char>, c: char)
    ensures
        split(s, c).len() > 0,
        join(split(s, c), seq![c]) == s,
        forall|i: int| 0 <= i < split(s, c).len() ==> !(#[trigger] split(s, c)[i]).contains(c),
    decreases s.len(),
{
    law_a_cut_takes_one_character(s, c);
    match split_once(s, c) {
        None => {
            law_joining_goes_part_by_part(seq![s], seq![s], seq![c]);
        },
        Some((a, b)) => {
            law_what_is_split_joins_again(b, c);
            law_joining_goes_part_by_part(seq![a], split(b, c), seq![c]);
            let parts = split(s, c);
            assert forall|i: int| 0 <= i < parts.len() implies !(#[trigger] parts[i]).contains(
                c,
            ) by {
                if i > 0 {
                    assert(parts[i] == split(b, c)[i - 1]);
                }
            }
        },
    }
}

/// Parts that were joined are the parts again when they are split, where none of them holds
/// the character between.
pub proof fn law_what_is_joined_splits_again(parts: Seq<Seq<char>>, c: char)
    requires
        parts.len() > 0,
        forall|i: int| 0 <= i < parts.len() ==> !(#[trigger] parts[i]).contains(c),
    ensures
        split(join(parts, seq![c]), c) == parts,
    decreases parts.len(),
{
    let first = parts[0];
    let f = other_than(c);
    let s = join(parts, seq![c]);
    assert(!first.contains(c));
    assert forall|i: int| 0 <= i < first.len() implies f(#[trigger] first[i]) by {
        assert(first.contains(first[i]));
    }
    if parts.len() == 1 {
        assert(s == first);
        lemma_run_is(s, f, s.len() as int);
        assert(parts == seq![first]);
    } else {
        let rest = parts.skip(1);
        assert(parts == seq![first] + rest);
        law_joining_goes_part_by_part(seq![first], rest, seq![c]);
        law_joining_goes_part_by_part(rest, rest, seq![c]);
        assert(join(seq![first], seq![c]) == first);
        let tail = join(rest, seq![c]);
        assert(s == first + seq![c] + tail);
        assert forall|i: int| 0 <= i < first.len() implies f(#[trigger] s[i]) by {
            assert(s[i] == first[i]);
        }
        lemma_run_is(s, f, first.len() as int);
        assert(s.take(first.len() as int) == first);
        assert(s.skip(first.len() as int + 1) == tail);
        assert forall|i: int| 0 <= i < rest.len() implies !(#[trigger] rest[i]).contains(c) by {
            assert(rest[i] == parts[i + 1]);
        }
        law_what_is_joined_splits_again(rest, c);
    }
}

/// Lower case changes the capital letters, each to its own small one, and nothing else.
pub proof fn law_lower_case_changes_only_capitals(s: Seq<char>)
    ensures
        ascii_lower(s).len() == s.len(),
        forall|i: int|
            0 <= i < s.len() ==> {
                let c = #[trigger] ascii_lower(s)[i];
                if 'A' <= s[i] <= 'Z' {
                    c as int == s[i] as int + 32
                } else {
                    c == s[i]
                }
            },
        same_but_case(s, ascii_lower(s)),
        ascii_lower(ascii_lower(s)) == ascii_lower(s),
{
    let low = ascii_lower(s);
    assert forall|i: int| 0 <= i < s.len() implies {
        let c = #[trigger] ascii_lower(s)[i];
        if 'A' <= s[i] <= 'Z' {
            c as int == s[i] as int + 32
        } else {
            c == s[i]
        }
    } by {
        lemma_char(s[i]);
    }
    assert(ascii_lower(low) =~= low);
}

/// Replacing a character changes that one and leaves the others where they stand.
pub proof fn law_only_that_character_is_replaced(s: Seq<char>, t: Seq<char>, c: char, with: Seq<char>)
    ensures
        replace_char(Seq::empty(), c, with) == Seq::<char>::empty(),
        replace_char(seq![c], c, with) == with,
        forall|d: char| d != c ==> #[trigger] replace_char(seq![d], c, with) == seq![d],
        replace_char(s + t, c, with) == replace_char(s, c, with) + replace_char(t, c, with),
    decreases t.len(),
{
    let none = Seq::<char>::empty();
    assert(seq![c].drop_last() == none);
    assert(none + with == with);
    assert forall|d: char| d != c implies #[trigger] replace_char(seq![d], c, with) == seq![d] by {
        assert(seq![d].drop_last() == none);
        reveal_with_fuel(replace_char, 2);
        assert(none + seq![d] == seq![d]);
    }
    if t.len() == 0 {
        assert(s + t == s);
        assert(replace_char(s, c, with) + none == replace_char(s, c, with));
    } else {
        law_only_that_character_is_replaced(s, t.drop_last(), c, with);
        assert((s + t).drop_last() == s + t.drop_last());
        assert((s + t).last() == t.last());
    }
}

/// Replacing a text replaces every occurrence of it, from the front, and nothing where it
/// does not occur.
pub proof fn law_every_occurrence_is_replaced(
    before: Seq<char>,
    p: Seq<char>,
    after: Seq<char>,
    with: Seq<char>,
)
    requires
        p.len() > 0,
        find(before + p + after, p) == Some(before.len()),
    ensures
        replace_all(before + p + after, p, with) == before + with + replace_all(after, p, with),
        replace_first(before + p + after, p, with) == before + with + after,
        !contains(after, p) ==> replace_all(after, p, with) == after && replace_first(
            after,
            p,
            with,
        ) == after,
{
    let s = before + p + after;
    assert(s.take(before.len() as int) == before);
    assert(s.skip((before.len() + p.len()) as int) == after);
    lemma_find(after, p);
}

} // verus!
