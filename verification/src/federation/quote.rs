//! Names and values, made safe to stand in SQL.

use crate::text;
use vstd::prelude::*;
use vstd::string::*;

verus! {

/// Between two marks, with every mark inside doubled.
pub open spec fn quoted(s: Seq<char>, mark: char) -> Seq<char> {
    seq![mark] + text::replace_char(s, mark, seq![mark, mark]) + seq![mark]
}

/// A name as SQL writes it between double quotes.
pub open spec fn identifier(name: Seq<char>) -> Seq<char> {
    quoted(name, '"')
}

/// A value as SQL writes it between single quotes.
pub open spec fn literal(value: Seq<char>) -> Seq<char> {
    quoted(value, '\'')
}

pub fn quote_identifier(name: &str) -> (r: String)
    ensures
        r@ == identifier(name@),
{
    proof {
        reveal_strlit("\"");
        reveal_strlit("\"\"");
        assert("\""@ =~= seq!['"']);
        assert("\"\""@ =~= seq!['"', '"']);
    }
    "\"".to_owned().concat(&text::replaced(name, '"', "\"\"")).concat("\"")
}

pub fn quote_literal(value: &str) -> (r: String)
    ensures
        r@ == literal(value@),
{
    proof {
        reveal_strlit("'");
        reveal_strlit("''");
        assert("'"@ =~= seq!['\'']);
        assert("''"@ =~= seq!['\'', '\'']);
    }
    "'".to_owned().concat(&text::replaced(value, '\'', "''")).concat("'")
}

/// Each value quoted, with a comma between.
pub open spec fn literals(values: Seq<Seq<char>>) -> Seq<char> {
    text::join(Seq::new(values.len(), |i: int| literal(values[i])), ", "@)
}

pub fn quote_all(values: &Vec<String>) -> (r: Vec<String>)
    ensures
        text::views(r@) == Seq::new(values@.len(), |i: int| literal(values@[i]@)),
{
    let mut out: Vec<String> = Vec::new();
    let mut i: usize = 0;
    while i < values.len()
        invariant
            i <= values.len(),
            out.len() == i,
            forall|j: int| 0 <= j < i ==> (#[trigger] out@[j])@ == literal(values@[j]@),
        decreases values.len() - i,
    {
        out.push(quote_literal(&values[i]));
        i = i + 1;
    }
    assert(text::views(out@) == Seq::new(values@.len(), |j: int| literal(values@[j]@)));
    out
}

pub fn quoted_list(values: &Vec<String>) -> (r: String)
    ensures
        r@ == literals(text::views(values@)),
{
    let out = quote_all(values);
    assert(text::views(out@) == Seq::new(
        text::views(values@).len(),
        |i: int| literal(text::views(values@)[i]),
    ));
    text::joined(&out, ", ")
}

/// What SQL reads from inside a quoted text: up to the first mark that is not doubled,
/// a doubled one standing for itself. The value, and what follows the closing mark;
/// nothing where the text never ends.
pub open spec fn unquote(s: Seq<char>, mark: char) -> Option<(Seq<char>, Seq<char>)>
    decreases s.len(),
{
    if s.len() == 0 {
        None
    } else if s[0] != mark {
        match unquote(s.skip(1), mark) {
            Some((value, rest)) => Some((seq![s[0]] + value, rest)),
            None => None,
        }
    } else if s.len() > 1 && s[1] == mark {
        match unquote(s.skip(2), mark) {
            Some((value, rest)) => Some((seq![mark] + value, rest)),
            None => None,
        }
    } else {
        Some((Seq::empty(), s.skip(1)))
    }
}

proof fn lemma_replace_front(s: Seq<char>, c: char, with: Seq<char>)
    requires
        s.len() > 0,
    ensures
        text::replace_char(s, c, with) == (if s[0] == c {
            with
        } else {
            seq![s[0]]
        }) + text::replace_char(s.skip(1), c, with),
    decreases s.len(),
{
    let first = if s[0] == c {
        with
    } else {
        seq![s[0]]
    };
    if s.len() == 1 {
        assert(s.drop_last() == Seq::<char>::empty());
        assert(s.skip(1) == Seq::<char>::empty());
        reveal_with_fuel(text::replace_char, 2);
        assert(Seq::<char>::empty() + first == first + Seq::<char>::empty());
    } else {
        let last = if s.last() == c {
            with
        } else {
            seq![s.last()]
        };
        lemma_replace_front(s.drop_last(), c, with);
        assert(s.drop_last().skip(1) == s.skip(1).drop_last());
        let mid = text::replace_char(s.skip(1).drop_last(), c, with);
        assert(s.skip(1).last() == s.last());
        assert((first + mid) + last == first + (mid + last));
    }
}

/// Whatever the value is, SQL reads back exactly it, and nothing of what follows: a
/// quote in a value cannot end the literal it sits in.
pub proof fn law_quoting_is_read_back_whole(value: Seq<char>, mark: char, rest: Seq<char>)
    requires
        rest.len() == 0 || rest[0] != mark,
    ensures
        unquote(quoted(value, mark).skip(1) + rest, mark) == Some((value, rest)),
    decreases value.len(),
{
    let inside = text::replace_char(value, mark, seq![mark, mark]);
    let s = quoted(value, mark).skip(1) + rest;
    assert(s == inside + seq![mark] + rest);
    if value.len() == 0 {
        assert(s.skip(1) == rest);
        assert(value == Seq::<char>::empty());
        if rest.len() > 0 {
            assert(s[1] == rest[0]);
        }
    } else {
        let tail = value.skip(1);
        lemma_replace_front(value, mark, seq![mark, mark]);
        law_quoting_is_read_back_whole(tail, mark, rest);
        let t = quoted(tail, mark).skip(1) + rest;
        assert(t == text::replace_char(tail, mark, seq![mark, mark]) + seq![mark] + rest);
        assert(value == seq![value[0]] + tail);
        if value[0] == mark {
            assert(s[0] == mark && s[1] == mark);
            assert(s.skip(2) == t);
        } else {
            assert(s[0] == value[0]);
            assert(s.skip(1) == t);
        }
    }
}

/// A name stands between double quotes and a value between single ones, and SQL reads each
/// back as what it was.
pub proof fn law_names_and_values_are_told_apart(s: Seq<char>)
    ensures
        identifier(s)[0] == '"',
        unquote(identifier(s).skip(1), '"') == Some((s, Seq::<char>::empty())),
        literal(s)[0] == '\'',
        unquote(literal(s).skip(1), '\'') == Some((s, Seq::<char>::empty())),
{
    let none = Seq::<char>::empty();
    law_quoting_is_read_back_whole(s, '"', none);
    law_quoting_is_read_back_whole(s, '\'', none);
    assert(identifier(s).skip(1) + none == identifier(s).skip(1));
    assert(literal(s).skip(1) + none == literal(s).skip(1));
}

/// A list of values grows by a comma and the next value.
pub proof fn law_a_list_of_values_has_each_in_order(values: Seq<Seq<char>>, next: Seq<char>)
    ensures
        literals(Seq::empty()) == Seq::<char>::empty(),
        literals(seq![next]) == literal(next),
        values.len() > 0 ==> literals(values.push(next)) == literals(values) + ", "@ + literal(
            next,
        ),
{
    let a = Seq::new(values.len(), |i: int| literal(values[i]));
    let b = Seq::new(values.push(next).len(), |i: int| literal(values.push(next)[i]));
    assert(b.drop_last() == a);
    let one = Seq::new(1, |i: int| literal(seq![next][i]));
    assert(Seq::new(seq![next].len(), |i: int| literal(seq![next][i])) == one);
    assert(one.len() == 1 && one[0] == literal(next));
}

} // verus!
