//! What an engine answers with, as JSON.

use crate::json::{self, Json, JsonView};
use crate::model::LogicalType;
use crate::text;
use vstd::prelude::*;
use vstd::string::*;

verus! {

/// How finely a time is counted.
#[derive(Debug, Clone, Copy, PartialEq, Eq, Structural)]
pub enum Unit {
    Second,
    Millisecond,
    Microsecond,
    Nanosecond,
}

/// One value of the engine.
#[derive(Debug)]
pub enum Cell {
    Null,
    Bool(bool),
    Int(i64),
    UInt(u64),
    Huge(i128),
    UHuge(u128),
    /// A floating-point number as JSON writes it; nothing where JSON has no way to.
    Float(Option<String>),
    Text(String),
    Bytes(Vec<u8>),
    /// The exact digits.
    Decimal(String),
    /// Days since the epoch.
    Date(i32),
    /// Since the epoch.
    Timestamp(Unit, i64),
    /// Since midnight.
    Time(Unit, i64),
    Interval { months: i32, days: i32, nanos: i64 },
    List(Vec<Cell>),
    Struct(Vec<(String, Cell)>),
    /// A map: its keys need not be text.
    Pairs(Vec<(Cell, Cell)>),
    Union(Box<Cell>),
    /// A kind of value this was never told about, as it is written out.
    Other(String),
}

/// A cell as it came out of a row.
#[derive(Debug)]
pub enum Fetched {
    /// It could not be read, and why.
    Unreadable(String),
    /// The bytes of a text.
    Text(Vec<u8>),
    Value(Cell),
}

/// The column types an engine reports.
#[derive(Debug, Clone, Copy, PartialEq, Eq, Structural)]
pub enum Kind {
    Boolean,
    TinyInt,
    SmallInt,
    Int,
    BigInt,
    UTinyInt,
    USmallInt,
    UInt,
    UBigInt,
    HugeInt,
    UHugeInt,
    Float,
    Double,
    Decimal,
    Date32,
    Time64,
    Timestamp,
    Text,
    Enum,
    Blob,
    /// Intervals, lists, structs, maps and unions.
    Other,
}

// ------------------------------------------------------------------ column types

/// What a column of that kind holds, whatever the engine.
pub open spec fn holds(kind: Kind) -> LogicalType {
    match kind {
        Kind::Boolean => LogicalType::Bool,
        Kind::TinyInt | Kind::SmallInt | Kind::Int | Kind::BigInt => LogicalType::Int,
        Kind::UTinyInt | Kind::USmallInt | Kind::UInt | Kind::UBigInt => LogicalType::Int,
        Kind::Float | Kind::Double => LogicalType::Float,
        Kind::Decimal | Kind::HugeInt | Kind::UHugeInt => LogicalType::Decimal,
        Kind::Date32 => LogicalType::Date,
        Kind::Time64 => LogicalType::Time,
        Kind::Timestamp => LogicalType::Timestamp,
        Kind::Text | Kind::Enum => LogicalType::Text,
        Kind::Blob => LogicalType::Binary,
        Kind::Other => LogicalType::Unknown,
    }
}

/// What a result column holds, in the vocabulary every connector shares.
///
/// Not cosmetic: importing a result into a federated query re-types every column from
/// what is reported here.
pub fn logical_of(kind: Kind) -> (r: LogicalType)
    ensures
        r == holds(kind),
{
    match kind {
        Kind::Boolean => LogicalType::Bool,
        Kind::TinyInt | Kind::SmallInt | Kind::Int | Kind::BigInt => LogicalType::Int,
        Kind::UTinyInt | Kind::USmallInt | Kind::UInt | Kind::UBigInt => LogicalType::Int,
        Kind::Float | Kind::Double => LogicalType::Float,
        // 128-bit integers are wider than JSON's, so they travel as exact digits.
        Kind::Decimal | Kind::HugeInt | Kind::UHugeInt => LogicalType::Decimal,
        Kind::Date32 => LogicalType::Date,
        Kind::Time64 => LogicalType::Time,
        Kind::Timestamp => LogicalType::Timestamp,
        Kind::Text | Kind::Enum => LogicalType::Text,
        Kind::Blob => LogicalType::Binary,
        Kind::Other => LogicalType::Unknown,
    }
}

// ------------------------------------------------------------------------- times

/// How many of a unit make a second.
pub open spec fn per_second(unit: Unit) -> int {
    match unit {
        Unit::Second => 1,
        Unit::Millisecond => 1_000,
        Unit::Microsecond => 1_000_000,
        Unit::Nanosecond => 1_000_000_000,
    }
}

/// How many nanoseconds a unit is.
pub open spec fn nanos_each(unit: Unit) -> int {
    match unit {
        Unit::Second => 1_000_000_000,
        Unit::Millisecond => 1_000_000,
        Unit::Microsecond => 1_000,
        Unit::Nanosecond => 1,
    }
}

/// Whole seconds, and what is left in nanoseconds, which is never negative.
pub fn split_unit(unit: Unit, value: i64) -> (r: (i64, u32))
    ensures
        r.0 == value as int / per_second(unit),
        r.1 == (value as int % per_second(unit)) * nanos_each(unit),
        0 <= r.1 < 1_000_000_000,
{
    match unit {
        Unit::Second => (value, 0),
        Unit::Millisecond => split(value, 1_000, 1_000_000),
        Unit::Microsecond => split(value, 1_000_000, 1_000),
        Unit::Nanosecond => split(value, 1_000_000_000, 1),
    }
}

fn split(value: i64, per: i64, nanos: u32) -> (r: (i64, u32))
    requires
        0 < per,
        per * nanos == 1_000_000_000,
    ensures
        r.0 == value as int / per as int,
        r.1 == (value as int % per as int) * nanos,
        0 <= r.1 < 1_000_000_000,
{
    let rest: i64 = match value.checked_rem_euclid(per) {
        Some(rest) => rest,
        None => 0,
    };
    let seconds: i64 = match value.checked_div_euclid(per) {
        Some(seconds) => seconds,
        None => 0,
    };
    assert(0 <= rest * nanos < 1_000_000_000) by (nonlinear_arith)
        requires
            0 <= rest < per,
            per * nanos == 1_000_000_000,
            0 <= nanos,
    ;
    assert(i64::MIN <= value as int / per as int <= i64::MAX) by (nonlinear_arith)
        requires
            i64::MIN <= value <= i64::MAX,
            0 < per,
    ;
    assert(0 <= rest <= u32::MAX) by (nonlinear_arith)
        requires
            0 <= rest < per,
            per * nanos == 1_000_000_000,
            0 <= nanos,
    ;
    (seconds, rest as u32 * nanos)
}

/// The date so many seconds after the epoch falls on, in ISO-8601, where the calendar
/// reaches it.
pub uninterp spec fn date_at(seconds: int) -> Option<Seq<char>>;

/// `chrono::DateTime::from_timestamp` and the `Display` of its date: a function of the
/// seconds.
#[verifier::external_body]
fn calendar_date(seconds: i64) -> (r: Option<String>)
    ensures
        text::opt(r) == date_at(seconds as int),
{
    chrono::DateTime::from_timestamp(seconds, 0).map(|when| when.date_naive().to_string())
}

/// The date and time of day of a moment, in ISO-8601, where the calendar reaches it.
pub uninterp spec fn moment_at(seconds: int, nanos: nat) -> Option<Seq<char>>;

/// `chrono::DateTime::from_timestamp`, written as a date, a space and a time of day
/// with as much of a fraction as there is: a function of the seconds and nanoseconds.
#[verifier::external_body]
fn calendar_moment(seconds: i64, nanos: u32) -> (r: Option<String>)
    ensures
        text::opt(r) == moment_at(seconds as int, nanos as nat),
{
    chrono::DateTime::from_timestamp(seconds, nanos).map(
        |when| when.naive_utc().format("%Y-%m-%d %H:%M:%S%.f").to_string(),
    )
}

/// A time of day in ISO-8601.
pub uninterp spec fn clock_at(seconds: nat, nanos: nat) -> Option<Seq<char>>;

/// `chrono::NaiveTime::from_num_seconds_from_midnight_opt`, written with as much of a
/// fraction as there is: a function of the seconds and nanoseconds, and nothing for a
/// time past the end of the day.
#[verifier::external_body]
fn clock_time(seconds: u32, nanos: u32) -> (r: Option<String>)
    requires
        nanos < 1_000_000_000,
    ensures
        text::opt(r) == clock_at(seconds as nat, nanos as nat),
        r is Some <==> seconds < 86_400,
{
    chrono::NaiveTime::from_num_seconds_from_midnight_opt(seconds, nanos).map(
        |time| time.format("%H:%M:%S%.f").to_string(),
    )
}

/// What was written out, or the bare number outside what a calendar can hold.
pub open spec fn or_number(written: Option<Seq<char>>, number: int) -> Seq<char> {
    match written {
        Some(written) => written,
        None => text::signed(number),
    }
}

/// [`or_number`], computed.
pub fn else_number(written: Option<String>, number: i64) -> (r: String)
    ensures
        r@ == or_number(text::opt(written), number as int),
{
    match written {
        Some(written) => written,
        None => text::signed_of(number as i128),
    }
}

pub open spec fn date(days: int) -> Seq<char> {
    or_number(date_at(days * 86_400), days)
}

pub fn date_text(days: i32) -> (r: String)
    ensures
        r@ == date(days as int),
{
    else_number(calendar_date(days as i64 * 86_400), days as i64)
}

pub open spec fn timestamp(unit: Unit, value: int) -> Seq<char> {
    let seconds = value / per_second(unit);
    let nanos = (value % per_second(unit)) * nanos_each(unit);
    or_number(moment_at(seconds, nanos as nat), value)
}

pub fn timestamp_text(unit: Unit, value: i64) -> (r: String)
    ensures
        r@ == timestamp(unit, value as int),
{
    let (seconds, nanos) = split_unit(unit, value);
    else_number(calendar_moment(seconds, nanos), value)
}

/// A time of day; the bare number where it is before midnight or past the end of the
/// day.
pub open spec fn time(unit: Unit, value: int) -> Seq<char> {
    let seconds = value / per_second(unit);
    let nanos = (value % per_second(unit)) * nanos_each(unit);
    if 0 <= seconds < 86_400 {
        or_number(clock_at(seconds as nat, nanos as nat), value)
    } else {
        text::signed(value)
    }
}

pub fn time_text(unit: Unit, value: i64) -> (r: String)
    ensures
        r@ == time(unit, value as int),
{
    let (seconds, nanos) = split_unit(unit, value);
    if 0 <= seconds && seconds <= u32::MAX as i64 {
        else_number(clock_time(seconds as u32, nanos), value)
    } else {
        text::signed_of(value as i128)
    }
}

// --------------------------------------------------------------------- intervals

/// The ending of a noun that so many of something takes.
pub open spec fn ending(n: int) -> Seq<char> {
    if n == 1 || n == -1 {
        ""@
    } else {
        "s"@
    }
}

pub fn plural(n: i64) -> (r: &'static str)
    ensures
        r@ == ending(n as int),
{
    if n == 1 || n == -1 {
        ""
    } else {
        "s"
    }
}

/// A number at least two characters wide: a zero in front of a single digit. The sign
/// of a negative number is one of the two.
pub open spec fn padded(n: int) -> Seq<char> {
    if n >= 0 {
        text::two_digits(n as nat)
    } else {
        text::signed(n)
    }
}

fn padded_of(n: i64) -> (r: String)
    ensures
        r@ == padded(n as int),
{
    if n >= 0 {
        text::two_digits_of(n as u64)
    } else {
        text::signed_of(n as i128)
    }
}

/// Division that rounds toward zero.
pub open spec fn toward_zero(n: int, d: int) -> int {
    if n >= 0 {
        n / d
    } else {
        -((-n) / d)
    }
}

/// What is left by [`toward_zero`]: it has the sign of `n`.
pub open spec fn left_over(n: int, d: int) -> int {
    n - toward_zero(n, d) * d
}

fn divide(n: i64, d: i64) -> (r: (i64, i64))
    requires
        0 < d,
        -i64::MAX <= n,
    ensures
        r.0 == toward_zero(n as int, d as int),
        r.1 == left_over(n as int, d as int),
{
    let m: u64 = if n >= 0 {
        n as u64
    } else {
        (-n) as u64
    };
    let q: u64 = m / d as u64;
    let rest: u64 = m % d as u64;
    assert(m as int == q as int * d as int + rest as int && q <= m && rest <= m) by (nonlinear_arith)
        requires
            q == m / d as u64,
            rest == m % d as u64,
            0 < d,
    ;
    if n >= 0 {
        (q as i64, rest as i64)
    } else {
        assert(-(q as int * d as int) == (-(q as int)) * d as int) by (nonlinear_arith);
        (-(q as i64), -(rest as i64))
    }
}

/// A number below a billion in nine digits.
pub open spec fn nine_digits(n: nat) -> Seq<char> {
    text::repeat('0', (9 - text::decimal(n).len()) as nat) + text::decimal(n)
}

proof fn lemma_digits(n: nat, k: nat)
    requires
        k >= 1,
        n < vstd::arithmetic::power::pow(10, k),
    ensures
        1 <= text::decimal(n).len() <= k,
    decreases k,
{
    reveal_with_fuel(vstd::arithmetic::power::pow, 2);
    if n >= 10 {
        if k == 1 {
            assert(vstd::arithmetic::power::pow(10, 1) == 10);
        } else {
            assert(n / 10 < vstd::arithmetic::power::pow(10, (k - 1) as nat)) by (nonlinear_arith)
                requires
                    n < 10 * vstd::arithmetic::power::pow(10, (k - 1) as nat),
            ;
            lemma_digits(n / 10, (k - 1) as nat);
        }
    }
}

fn nine_digits_of(n: u64) -> (r: String)
    requires
        n < 1_000_000_000,
    ensures
        r@ == nine_digits(n as nat),
{
    let digits = text::decimal_of(n);
    proof {
        reveal_with_fuel(vstd::arithmetic::power::pow, 10);
        assert(vstd::arithmetic::power::pow(10, 9) == 1_000_000_000);
        lemma_digits(n as nat, 9);
    }
    let m = digits.as_str().unicode_len();
    text::repeated('0', 9 - m).concat(&digits)
}

/// The clock part of an interval.
pub open spec fn clock(nanos: int) -> Seq<char> {
    let seconds = nanos / 1_000_000_000;
    let fraction = nanos % 1_000_000_000;
    let rest = left_over(seconds, 3_600);
    let whole = padded(toward_zero(seconds, 3_600)) + ":"@ + padded(toward_zero(rest, 60)) + ":"@
        + padded(left_over(rest, 60));
    if fraction == 0 {
        whole
    } else {
        text::strip_end(whole + "."@ + nine_digits(fraction as nat), '0')
    }
}

fn clock_of(nanos: i64) -> (r: String)
    ensures
        r@ == clock(nanos as int),
{
    let (seconds, fraction) = split(nanos, 1_000_000_000, 1);
    assert(seconds == nanos as int / 1_000_000_000);
    let (hours, rest) = divide(seconds, 3_600);
    assert(-3_600 < rest < 3_600) by (nonlinear_arith)
        requires
            rest == left_over(seconds as int, 3_600),
    ;
    let (minutes, left) = divide(rest, 60);
    let whole = padded_of(hours).concat(":").concat(&padded_of(minutes)).concat(":").concat(
        &padded_of(left),
    );
    if fraction == 0 {
        whole
    } else {
        text::stripped_end(&whole.concat(".").concat(&nine_digits_of(fraction as u64)), '0')
    }
}

/// So many of something, or nothing where there are none.
pub open spec fn some_of(n: int, noun: Seq<char>) -> Seq<Seq<char>> {
    if n == 0 {
        Seq::empty()
    } else {
        seq![text::signed(n) + noun + ending(n)]
    }
}

/// Months, days and a clock, those of them that are not zero; `00:00:00` where all are.
///
/// Months and days stay apart from the clock on purpose: a month is not thirty days,
/// and a day is not always twenty-four hours.
pub open spec fn interval(months: int, days: int, nanos: int) -> Seq<char> {
    let parts = some_of(months, " month"@) + some_of(days, " day"@);
    text::join(
        if nanos != 0 || parts.len() == 0 {
            parts.push(clock(nanos))
        } else {
            parts
        },
        " "@,
    )
}

pub fn interval_text(months: i32, days: i32, nanos: i64) -> (r: String)
    ensures
        r@ == interval(months as int, days as int, nanos as int),
{
    let mut parts: Vec<String> = Vec::new();
    assert(text::views(parts@) == Seq::<Seq<char>>::empty());
    if months != 0 {
        parts.push(
            text::signed_of(months as i128).concat(" month").concat(plural(months as i64)),
        );
    }
    assert(text::views(parts@) == some_of(months as int, " month"@));
    if days != 0 {
        parts.push(text::signed_of(days as i128).concat(" day").concat(plural(days as i64)));
    }
    assert(text::views(parts@) == some_of(months as int, " month"@) + some_of(
        days as int,
        " day"@,
    ));
    let ghost before = text::views(parts@);
    if nanos != 0 || parts.len() == 0 {
        parts.push(clock_of(nanos));
        assert(text::views(parts@) == before.push(clock(nanos as int)));
    }
    text::joined(&parts, " ")
}

// ------------------------------------------------------------------------- values

/// A number while it fits in sixty-four bits, its exact digits as text beyond that.
pub open spec fn exact(n: int) -> JsonView {
    if i64::MIN <= n <= i64::MAX {
        json::whole(n)
    } else {
        JsonView::Text(text::signed(n))
    }
}

/// A JSON number while the value fits one, exact digits as text beyond that.
pub fn hugeint(fits: Option<i64>, digits: String) -> (r: Json)
    ensures
        r@ == (match fits {
            Some(n) => json::whole(n as int),
            None => JsonView::Text(digits@),
        }),
{
    match fits {
        Some(n) => json::whole_of(n),
        None => Json::Text(digits),
    }
}

/// Bytes, as hexadecimal behind a mark.
pub open spec fn hexed(bytes: Seq<u8>) -> Seq<char> {
    "\\x"@ + text::hex(bytes)
}

pub fn hex(bytes: &[u8]) -> (r: String)
    ensures
        r@ == text::hex(bytes@),
{
    text::hex_of(bytes)
}

/// A value as JSON, including the ones that are not scalars: a decimal as its exact
/// digits, a date or a time as ISO-8601, a list as an array, a struct as an object.
pub open spec fn shown(cell: Cell) -> JsonView
    decreases cell,
{
    match cell {
        Cell::Null => JsonView::Null,
        Cell::Bool(b) => JsonView::Bool(b),
        Cell::Int(n) => json::whole(n as int),
        Cell::UInt(n) => json::whole(n as int),
        Cell::Huge(n) => exact(n as int),
        Cell::UHuge(n) => exact(n as int),
        Cell::Float(n) => match n {
            Some(n) => JsonView::Number(n@),
            None => JsonView::Null,
        },
        Cell::Text(t) => JsonView::Text(t@),
        Cell::Bytes(b) => JsonView::Text(hexed(b@)),
        Cell::Decimal(d) => JsonView::Text(d@),
        Cell::Date(days) => JsonView::Text(date(days as int)),
        Cell::Timestamp(unit, n) => JsonView::Text(timestamp(unit, n as int)),
        Cell::Time(unit, n) => JsonView::Text(time(unit, n as int)),
        Cell::Interval { months, days, nanos } => JsonView::Text(
            interval(months as int, days as int, nanos as int),
        ),
        Cell::List(items) => JsonView::Array(
            Seq::new(
                items@.len(),
                |i: int|
                    if 0 <= i < items@.len() {
                        shown(items@[i])
                    } else {
                        JsonView::Null
                    },
            ),
        ),
        Cell::Struct(fields) => JsonView::Object(
            Seq::new(
                fields@.len(),
                |i: int|
                    if 0 <= i < fields@.len() {
                        (fields@[i].0@, shown(fields@[i].1))
                    } else {
                        (Seq::empty(), JsonView::Null)
                    },
            ),
        ),
        Cell::Pairs(entries) => JsonView::Array(
            Seq::new(
                entries@.len(),
                |i: int|
                    if 0 <= i < entries@.len() {
                        JsonView::Object(
                            seq![
                                ("key"@, shown(entries@[i].0)),
                                ("value"@, shown(entries@[i].1)),
                            ],
                        )
                    } else {
                        JsonView::Null
                    },
            ),
        ),
        Cell::Union(inner) => shown(*inner),
        Cell::Other(written) => JsonView::Text(written@),
    }
}

pub fn value_to_json(cell: &Cell) -> (r: Json)
    ensures
        r@ == shown(*cell),
    decreases cell,
{
    match cell {
        Cell::Null => Json::Null,
        Cell::Bool(b) => Json::Bool(*b),
        Cell::Int(n) => json::whole_of(*n),
        Cell::UInt(n) => Json::Number(text::signed_of(*n as i128)),
        Cell::Huge(n) => {
            let fits: Option<i64> = if i64::MIN as i128 <= *n && *n <= i64::MAX as i128 {
                Some(*n as i64)
            } else {
                None
            };
            hugeint(fits, text::signed_of(*n))
        },
        Cell::UHuge(n) => {
            let fits: Option<i64> = if *n <= i64::MAX as u128 {
                Some(*n as i64)
            } else {
                None
            };
            hugeint(fits, text::decimal_wide(*n))
        },
        Cell::Float(n) => match n {
            Some(n) => Json::Number(n.clone()),
            None => Json::Null,
        },
        Cell::Text(t) => Json::Text(t.clone()),
        Cell::Bytes(b) => Json::Text("\\x".to_owned().concat(&hex(b))),
        Cell::Decimal(d) => Json::Text(d.clone()),
        Cell::Date(days) => Json::Text(date_text(*days)),
        Cell::Timestamp(unit, n) => Json::Text(timestamp_text(*unit, *n)),
        Cell::Time(unit, n) => Json::Text(time_text(*unit, *n)),
        Cell::Interval { months, days, nanos } => Json::Text(interval_text(*months, *days, *nanos)),
        Cell::List(items) => {
            let mut out: Vec<Json> = Vec::new();
            let mut i: usize = 0;
            while i < items.len()
                invariant
                    i <= items.len(),
                    out.len() == i,
                    *cell == Cell::List(*items),
                    forall|j: int| 0 <= j < i ==> (#[trigger] out@[j])@ == shown(items@[j]),
                decreases items.len() - i,
            {
                assert(decreases_to!(*cell => cell->List_0));
                assert(decreases_to!(items@ => items@[i as int]));
                out.push(value_to_json(&items[i]));
                i = i + 1;
            }
            let r = Json::Array(out);
            assert(r@->Array_0 =~= shown(*cell)->Array_0);
            r
        },
        Cell::Struct(fields) => {
            let mut out: Vec<(String, Json)> = Vec::new();
            let mut i: usize = 0;
            while i < fields.len()
                invariant
                    i <= fields.len(),
                    out.len() == i,
                    *cell == Cell::Struct(*fields),
                    forall|j: int|
                        0 <= j < i ==> (#[trigger] out@[j]).0@ == fields@[j].0@ && out@[j].1@
                            == shown(fields@[j].1),
                decreases fields.len() - i,
            {
                assert(decreases_to!(*cell => cell->Struct_0));
                assert(decreases_to!(fields@ => fields@[i as int]));
                out.push((fields[i].0.clone(), value_to_json(&fields[i].1)));
                i = i + 1;
            }
            let r = Json::Object(out);
            assert(r@->Object_0 =~= shown(*cell)->Object_0);
            r
        },
        Cell::Pairs(entries) => {
            let mut out: Vec<Json> = Vec::new();
            let mut i: usize = 0;
            while i < entries.len()
                invariant
                    i <= entries.len(),
                    out.len() == i,
                    *cell == Cell::Pairs(*entries),
                    forall|j: int|
                        0 <= j < i ==> (#[trigger] out@[j])@ == JsonView::Object(
                            seq![
                                ("key"@, shown(entries@[j].0)),
                                ("value"@, shown(entries@[j].1)),
                            ],
                        ),
                decreases entries.len() - i,
            {
                assert(decreases_to!(*cell => cell->Pairs_0));
                assert(decreases_to!(entries@ => entries@[i as int]));
                let mut pair: Vec<(String, Json)> = Vec::new();
                pair.push(("key".to_owned(), value_to_json(&entries[i].0)));
                pair.push(("value".to_owned(), value_to_json(&entries[i].1)));
                let entry = Json::Object(pair);
                assert(entry@->Object_0 =~= seq![
                    ("key"@, shown(entries@[i as int].0)),
                    ("value"@, shown(entries@[i as int].1)),
                ]);
                out.push(entry);
                i = i + 1;
            }
            let r = Json::Array(out);
            assert(r@->Array_0 =~= shown(*cell)->Array_0);
            r
        },
        Cell::Union(inner) => value_to_json(inner),
        Cell::Other(written) => Json::Text(written.clone()),
    }
}

/// A fetched cell as JSON: why, for one that could not be read.
pub open spec fn fetched(cell: Fetched) -> JsonView {
    match cell {
        Fetched::Unreadable(why) => JsonView::Text("<decode error: "@ + why@ + ">"@),
        Fetched::Text(bytes) => JsonView::Text(text::lossy(bytes@)),
        Fetched::Value(value) => shown(value),
    }
}

pub fn cell_to_json(cell: &Fetched) -> (r: Json)
    ensures
        r@ == fetched(*cell),
{
    match cell {
        Fetched::Unreadable(why) => Json::Text(
            "<decode error: ".to_owned().concat(why).concat(">"),
        ),
        Fetched::Text(bytes) => Json::Text(text::from_utf8_lossy(bytes)),
        Fetched::Value(value) => value_to_json(value),
    }
}

/// No digit of a whole number is lost on the way: its digits are what is shown, as a
/// number or as text.
pub proof fn law_no_digit_is_lost(n: int)
    ensures
        exact(n) == JsonView::Number(text::signed(n)) || exact(n) == JsonView::Text(
            text::signed(n),
        ),
{
}

/// A time splits into whole seconds and a remainder that is never negative, and the two
/// make the time again.
pub proof fn law_a_time_splits_without_loss(unit: Unit, value: int)
    ensures
        ({
            let seconds = value / per_second(unit);
            let rest = value % per_second(unit);
            &&& seconds * per_second(unit) + rest == value
            &&& 0 <= rest * nanos_each(unit) < 1_000_000_000
        }),
{
    let per = per_second(unit);
    vstd::arithmetic::div_mod::lemma_fundamental_div_mod(value, per);
    assert(per * (value / per) == (value / per) * per) by (nonlinear_arith);
    let each = nanos_each(unit);
    assert(0 <= (value % per) * each < 1_000_000_000) by (nonlinear_arith)
        requires
            0 <= value % per < per,
            per * each == 1_000_000_000,
            each > 0,
    ;
}

/// Nothing at all, or a floating-point number that JSON has no way to write.
pub open spec fn is_nothing(cell: Cell) -> bool
    decreases cell,
{
    match cell {
        Cell::Null => true,
        Cell::Float(None) => true,
        Cell::Union(inner) => is_nothing(*inner),
        _ => false,
    }
}

/// Only nothing is shown as null: a cell that holds a value always shows one.
pub proof fn law_only_nothing_is_shown_as_null(cell: Cell)
    ensures
        shown(cell) is Null <==> is_nothing(cell),
    decreases cell,
{
    match cell {
        Cell::Union(inner) => {
            law_only_nothing_is_shown_as_null(*inner);
        },
        _ => {},
    }
}

/// A number is shown as the number it is, in the digits that spell it, and one that is too
/// wide for JSON as those digits in a text.
pub proof fn law_a_number_is_shown_as_it_is(cell: Cell)
    ensures
        match cell {
            Cell::Int(n) => match shown(cell) {
                JsonView::Number(digits) => text::is_number(digits, n as int),
                _ => false,
            },
            Cell::UInt(n) => match shown(cell) {
                JsonView::Number(digits) => text::is_number(digits, n as int),
                _ => false,
            },
            Cell::Huge(n) => match shown(cell) {
                JsonView::Number(digits) => -0x8000_0000_0000_0000 <= n <= 0x7fff_ffff_ffff_ffff
                    && text::is_number(digits, n as int),
                JsonView::Text(digits) => !(-0x8000_0000_0000_0000 <= n <= 0x7fff_ffff_ffff_ffff)
                    && text::is_number(digits, n as int),
                _ => false,
            },
            Cell::UHuge(n) => match shown(cell) {
                JsonView::Number(digits) => n <= 0x7fff_ffff_ffff_ffff && text::is_number(
                    digits,
                    n as int,
                ),
                JsonView::Text(digits) => n > 0x7fff_ffff_ffff_ffff && text::is_number(
                    digits,
                    n as int,
                ),
                _ => false,
            },
            Cell::Float(Some(digits)) => shown(cell) == JsonView::Number(digits@),
            Cell::Decimal(digits) => shown(cell) == JsonView::Text(digits@),
            Cell::Bool(b) => shown(cell) == JsonView::Bool(b),
            _ => true,
        },
{
    match cell {
        Cell::Int(n) => {
            text::law_a_number_is_written_in_its_digits(n as int);
        },
        Cell::UInt(n) => {
            text::law_a_number_is_written_in_its_digits(n as int);
        },
        Cell::Huge(n) => {
            text::law_a_number_is_written_in_its_digits(n as int);
        },
        Cell::UHuge(n) => {
            text::law_a_number_is_written_in_its_digits(n as int);
        },
        _ => {},
    }
}

/// Two floating-point numbers with different digits are shown differently.
pub proof fn law_floats_are_shown_apart(a: String, b: String)
    requires
        a@ != b@,
    ensures
        shown(Cell::Float(Some(a))) != shown(Cell::Float(Some(b))),
        shown(Cell::Float(Some(a))) != shown(Cell::Float(None)),
        shown(Cell::Float(Some(a))) != shown(Cell::Null),
{
}

/// Text is shown as it is, and bytes as two hexadecimal digits each behind a backslash and
/// an x.
pub proof fn law_text_and_bytes_are_shown_whole(cell: Cell)
    ensures
        match cell {
            Cell::Text(t) => shown(cell) == JsonView::Text(t@),
            Cell::Other(t) => shown(cell) == JsonView::Text(t@),
            Cell::Bytes(b) => match shown(cell) {
                JsonView::Text(t) => {
                    &&& t.len() == 2 + 2 * b@.len()
                    &&& t[0] == '\\' && t[1] == 'x'
                    &&& forall|i: int|
                        0 <= i < b@.len() ==> text::spells_byte(
                            t[2 + 2 * i],
                            t[3 + 2 * i],
                            #[trigger] b@[i],
                        )
                },
                _ => false,
            },
            _ => true,
        },
{
    match cell {
        Cell::Bytes(b) => {
            reveal_strlit("\\x");
            text::law_hexadecimal_spells_the_bytes(b@);
            let t = hexed(b@);
            let h = text::hex(b@);
            assert forall|i: int| 0 <= i < b@.len() implies text::spells_byte(
                t[2 + 2 * i],
                t[3 + 2 * i],
                #[trigger] b@[i],
            ) by {
                assert(t[2 + 2 * i] == h[2 * i]);
                assert(t[3 + 2 * i] == h[2 * i + 1]);
            }
        },
        _ => {},
    }
}

/// What is made of parts is shown with all of them, in order, each as it would be shown on
/// its own: the items of a list, the fields of a struct under their names, the entries of a
/// map as a key and a value. A union is shown as what it holds.
pub proof fn law_parts_are_shown_in_order(cell: Cell)
    ensures
        match cell {
            Cell::List(items) => match shown(cell) {
                JsonView::Array(out) => {
                    &&& out.len() == items@.len()
                    &&& forall|i: int| 0 <= i < out.len() ==> #[trigger] out[i] == shown(items@[i])
                },
                _ => false,
            },
            Cell::Struct(fields) => match shown(cell) {
                JsonView::Object(out) => {
                    &&& out.len() == fields@.len()
                    &&& forall|i: int|
                        0 <= i < out.len() ==> (#[trigger] out[i]).0 == fields@[i].0@ && out[i].1
                            == shown(fields@[i].1)
                },
                _ => false,
            },
            Cell::Pairs(entries) => match shown(cell) {
                JsonView::Array(out) => {
                    &&& out.len() == entries@.len()
                    &&& forall|i: int|
                        0 <= i < out.len() ==> #[trigger] out[i] == JsonView::Object(
                            seq![
                                ("key"@, shown(entries@[i].0)),
                                ("value"@, shown(entries@[i].1)),
                            ],
                        )
                },
                _ => false,
            },
            Cell::Union(inner) => shown(cell) == shown(*inner),
            _ => true,
        },
{
}

/// A cell that could not be read says so and why; one that could is shown as its value.
pub proof fn law_a_cell_that_cannot_be_read_says_why(why: String, value: Cell)
    ensures
        fetched(Fetched::Unreadable(why)) == JsonView::Text("<decode error: "@ + why@ + ">"@),
        fetched(Fetched::Value(value)) == shown(value),
{
}

/// The bytes of a text are shown as the text they spell.
pub proof fn law_a_text_is_shown_as_it_was_written(s: String, bytes: Vec<u8>)
    requires
        bytes@ == vstd::utf8::encode_utf8(s@),
    ensures
        fetched(Fetched::Text(bytes)) == JsonView::Text(s@),
        fetched(Fetched::Text(bytes)) == shown(Cell::Text(s)),
{
    vstd::utf8::encode_utf8_valid_utf8(s@);
    vstd::utf8::encode_utf8_decode_utf8(s@);
}

/// A moment counted in any unit is that moment: so many seconds and nanoseconds after the
/// epoch, or before it, as the calendar writes them, and the bare count where the calendar
/// does not reach.
pub proof fn law_a_moment_is_the_same_in_every_unit(seconds: int, nanos: nat)
    requires
        nanos < 1_000_000_000,
    ensures
        moment_at(seconds, nanos) matches Some(t) ==> {
            &&& timestamp(Unit::Nanosecond, seconds * 1_000_000_000 + nanos) == t
            &&& nanos % 1_000 == 0 ==> timestamp(
                Unit::Microsecond,
                seconds * 1_000_000 + nanos as int / 1_000,
            ) == t
            &&& nanos % 1_000_000 == 0 ==> timestamp(
                Unit::Millisecond,
                seconds * 1_000 + nanos as int / 1_000_000,
            ) == t
            &&& nanos == 0 ==> timestamp(Unit::Second, seconds) == t
        },
        moment_at(seconds, nanos) is None ==> text::is_number(
            timestamp(Unit::Nanosecond, seconds * 1_000_000_000 + nanos),
            seconds * 1_000_000_000 + nanos,
        ),
        moment_at(seconds, 0) is None ==> text::is_number(
            timestamp(Unit::Second, seconds),
            seconds,
        ),
{
    text::law_a_number_is_written_in_its_digits(seconds);
    text::law_a_number_is_written_in_its_digits(seconds * 1_000_000_000 + nanos);
    let us = seconds * 1_000_000 + nanos as int / 1_000;
    if nanos % 1_000 == 0 {
        assert(us / 1_000_000 == seconds && (us % 1_000_000) * 1_000 == nanos);
    }
    let ms = seconds * 1_000 + nanos as int / 1_000_000;
    if nanos % 1_000_000 == 0 {
        assert(ms / 1_000 == seconds && (ms % 1_000) * 1_000_000 == nanos);
    }
    let ns = seconds * 1_000_000_000 + nanos;
    assert(ns / 1_000_000_000 == seconds && ns % 1_000_000_000 == nanos);
}

/// A time of day counted in any unit is that time, and the bare count where it is no time
/// of a day.
pub proof fn law_a_time_is_the_same_in_every_unit(seconds: int, nanos: nat)
    requires
        nanos < 1_000_000_000,
    ensures
        0 <= seconds < 86_400 ==> (clock_at(seconds as nat, nanos) matches Some(t) ==> {
            &&& time(Unit::Nanosecond, seconds * 1_000_000_000 + nanos) == t
            &&& nanos % 1_000 == 0 ==> time(
                Unit::Microsecond,
                seconds * 1_000_000 + nanos as int / 1_000,
            ) == t
            &&& nanos % 1_000_000 == 0 ==> time(
                Unit::Millisecond,
                seconds * 1_000 + nanos as int / 1_000_000,
            ) == t
            &&& nanos == 0 ==> time(Unit::Second, seconds) == t
        }),
        !(0 <= seconds < 86_400) ==> {
            &&& text::is_number(
                time(Unit::Nanosecond, seconds * 1_000_000_000 + nanos),
                seconds * 1_000_000_000 + nanos,
            )
            &&& text::is_number(time(Unit::Second, seconds), seconds)
        },
{
    text::law_a_number_is_written_in_its_digits(seconds);
    text::law_a_number_is_written_in_its_digits(seconds * 1_000_000_000 + nanos);
    let us = seconds * 1_000_000 + nanos as int / 1_000;
    if nanos % 1_000 == 0 {
        assert(us / 1_000_000 == seconds && (us % 1_000_000) * 1_000 == nanos);
    }
    let ms = seconds * 1_000 + nanos as int / 1_000_000;
    if nanos % 1_000_000 == 0 {
        assert(ms / 1_000 == seconds && (ms % 1_000) * 1_000_000 == nanos);
    }
    let ns = seconds * 1_000_000_000 + nanos;
    assert(ns / 1_000_000_000 == seconds && ns % 1_000_000_000 == nanos);
}

/// A day is the date of its midnight, and the bare number of days where the calendar does
/// not reach; a date, a moment and a time are each shown as the text that writes them.
pub proof fn law_times_are_shown_as_they_are_written(cell: Cell)
    ensures
        match cell {
            Cell::Date(days) => match date_at(days * 86_400) {
                Some(t) => shown(cell) == JsonView::Text(t),
                None => match shown(cell) {
                    JsonView::Text(t) => text::is_number(t, days as int),
                    _ => false,
                },
            },
            Cell::Timestamp(unit, n) => shown(cell) == JsonView::Text(timestamp(unit, n as int)),
            Cell::Time(unit, n) => shown(cell) == JsonView::Text(time(unit, n as int)),
            Cell::Interval { months, days, nanos } => shown(cell) == JsonView::Text(
                interval(months as int, days as int, nanos as int),
            ),
            _ => true,
        },
{
    match cell {
        Cell::Date(days) => {
            text::law_a_number_is_written_in_its_digits(days as int);
        },
        _ => {},
    }
}

/// So many months, or days.
pub open spec fn counts(n: int, one: Seq<char>, many: Seq<char>) -> Seq<char> {
    text::signed(n) + if n == 1 || n == -1 {
        one
    } else {
        many
    }
}

/// The parts of an interval stay what they are: months are not turned into days nor days
/// into hours, and a part is left out only where it is zero.
pub proof fn law_an_interval_keeps_its_parts(months: int, days: int, nanos: int)
    ensures
        ({
            let m = counts(months, " month"@, " months"@);
            let d = counts(days, " day"@, " days"@);
            interval(months, days, nanos) == if months == 0 && days == 0 {
                clock(nanos)
            } else if nanos == 0 {
                if days == 0 {
                    m
                } else if months == 0 {
                    d
                } else {
                    m + " "@ + d
                }
            } else if days == 0 {
                m + " "@ + clock(nanos)
            } else if months == 0 {
                d + " "@ + clock(nanos)
            } else {
                m + " "@ + d + " "@ + clock(nanos)
            }
        }),
{
    let m = counts(months, " month"@, " months"@);
    let d = counts(days, " day"@, " days"@);
    reveal_strlit("");
    reveal_strlit("s");
    reveal_strlit(" month");
    reveal_strlit(" months");
    reveal_strlit(" day");
    reveal_strlit(" days");
    assert(" months"@ == " month"@ + "s"@);
    assert(" days"@ == " day"@ + "s"@);
    assert(months != 0 ==> some_of(months, " month"@) == seq![m]) by {
        assert(text::signed(months) + " month"@ + ending(months) == m);
    }
    assert(days != 0 ==> some_of(days, " day"@) == seq![d]) by {
        assert(text::signed(days) + " day"@ + ending(days) == d);
    }
    let c = clock(nanos);
    let parts = some_of(months, " month"@) + some_of(days, " day"@);
    reveal_with_fuel(text::join, 4);
    if months != 0 && days != 0 {
        assert(parts == seq![m, d]);
        assert(parts.drop_last() == seq![m]);
        assert(parts.push(c).drop_last() == parts);
    } else if months != 0 {
        assert(parts == seq![m]);
        assert(parts.push(c).drop_last() == parts);
    } else if days != 0 {
        assert(parts == seq![d]);
        assert(parts.push(c).drop_last() == parts);
    } else {
        assert(parts == Seq::<Seq<char>>::empty());
        assert(parts.push(c) == seq![c]);
    }
}

/// A number two digits wide, at least.
pub open spec fn at_least_two(s: Seq<char>, n: int) -> bool {
    if n < 10 {
        s.len() == 2 && s[0] == '0' && text::is_number(s.skip(1), n)
    } else {
        text::is_number(s, n)
    }
}

/// A clock of whole seconds is its hours, minutes and seconds.
pub proof fn law_a_clock_is_its_hours_minutes_and_seconds(hours: int, minutes: int, seconds: int)
    requires
        hours >= 0,
        0 <= minutes < 60,
        0 <= seconds < 60,
    ensures
        exists|h: Seq<char>, m: Seq<char>, s: Seq<char>|
            {
                &&& at_least_two(h, hours)
                &&& at_least_two(m, minutes)
                &&& at_least_two(s, seconds)
                &&& clock((hours * 3_600 + minutes * 60 + seconds) * 1_000_000_000)
                    == #[trigger] (h + ":"@ + m + ":"@ + s)
            },
{
    let total = hours * 3_600 + minutes * 60 + seconds;
    let nanos = total * 1_000_000_000;
    assert(nanos / 1_000_000_000 == total && nanos % 1_000_000_000 == 0);
    assert(toward_zero(total, 3_600) == hours);
    let rest = left_over(total, 3_600);
    assert(rest == minutes * 60 + seconds);
    assert(toward_zero(rest, 60) == minutes);
    assert(left_over(rest, 60) == seconds);
    lemma_at_least_two(hours);
    lemma_at_least_two(minutes);
    lemma_at_least_two(seconds);
    let h = padded(hours);
    let m = padded(minutes);
    let s = padded(seconds);
    assert(clock(nanos) == h + ":"@ + m + ":"@ + s);
}

proof fn lemma_at_least_two(n: int)
    requires
        n >= 0,
    ensures
        at_least_two(padded(n), n),
{
    text::law_a_number_is_written_in_its_digits(n);
    if n < 10 {
        assert(padded(n).skip(1) == text::signed(n));
    }
}

/// A fraction of a second stands behind the whole seconds, behind a point, in the digits
/// of its nanoseconds, up to the last that is not zero.
pub proof fn law_a_fraction_keeps_its_digits(seconds: int, fraction: int)
    requires
        0 < fraction < 1_000_000_000,
    ensures
        exists|digits: Seq<char>, zeros: nat|
            {
                &&& clock(seconds * 1_000_000_000 + fraction) == clock(seconds * 1_000_000_000)
                    + "."@ + digits
                &&& 0 < digits.len()
                &&& digits.last() != '0'
                &&& digits.len() + zeros == 9
                &&& text::all_digits(digits)
                &&& text::value(#[trigger] (digits + text::repeat('0', zeros))) == fraction
            },
{
    let nanos = seconds * 1_000_000_000 + fraction;
    let even = seconds * 1_000_000_000;
    assert(nanos / 1_000_000_000 == seconds && nanos % 1_000_000_000 == fraction);
    assert(even / 1_000_000_000 == seconds && even % 1_000_000_000 == 0);
    let whole = clock(even);
    let nine = nine_digits(fraction as nat);
    let s = whole + "."@ + nine;
    reveal_strlit(".");
    assert(clock(nanos) == text::strip_end(s, '0'));
    lemma_nine_digits(fraction as nat);
    lemma_not_all_zeros(nine);
    let f = text::exactly('0');
    text::lemma_run_back(nine, f);
    let zeros = text::run_back(nine, f);
    let n = whole.len() + 1;
    assert forall|i: int| s.len() - zeros <= i < s.len() implies f(#[trigger] s[i]) by {
        assert(s[i] == nine[i - n]);
        assert(f(nine[i - n]));
    }
    assert(s[s.len() - zeros - 1] == nine[nine.len() - zeros - 1]);
    text::lemma_run_back_is(s, f, zeros as int);
    let digits = nine.take(nine.len() - zeros);
    assert(digits + text::repeat('0', zeros) == nine) by {
        assert forall|i: int| nine.len() - zeros <= i < nine.len() implies nine[i] == '0' by {
            assert(f(nine[i]));
        }
    }
    assert(s.take(s.len() - zeros) == whole + "."@ + digits);
    assert(!f(nine[nine.len() - zeros - 1]));
    assert forall|i: int| 0 <= i < digits.len() implies text::is_ascii_digit(
        #[trigger] digits[i],
    ) by {
        assert(digits[i] == nine[i]);
    }
}

proof fn lemma_nine_digits(n: nat)
    requires
        0 < n < 1_000_000_000,
    ensures
        nine_digits(n).len() == 9,
        text::all_digits(nine_digits(n)),
        text::value(nine_digits(n)) == n,
{
    reveal_with_fuel(vstd::arithmetic::power::pow, 10);
    assert(vstd::arithmetic::power::pow(10, 9) == 1_000_000_000);
    lemma_digits(n, 9);
    text::lemma_decimal(n);
    let k = (9 - text::decimal(n).len()) as nat;
    lemma_zeros_in_front(k, text::decimal(n));
    let nine = nine_digits(n);
    assert forall|i: int| 0 <= i < nine.len() implies text::is_ascii_digit(#[trigger] nine[i]) by {
        if i >= k {
            assert(nine[i] == text::decimal(n)[i - k]);
        }
    }
}

proof fn lemma_zeros_in_front(k: nat, s: Seq<char>)
    ensures
        text::value(text::repeat('0', k) + s) == text::value(s),
    decreases k + s.len(),
{
    let zeros = text::repeat('0', k);
    let all = zeros + s;
    if s.len() > 0 {
        lemma_zeros_in_front(k, s.drop_last());
        assert(all.drop_last() == zeros + s.drop_last());
    } else if k > 0 {
        let fewer = text::repeat('0', (k - 1) as nat);
        assert(all.drop_last() == fewer + s);
        lemma_zeros_in_front((k - 1) as nat, s);
        assert(text::value(s) == 0);
    } else {
        assert(all == s);
    }
}

proof fn lemma_not_all_zeros(s: Seq<char>)
    requires
        text::value(s) > 0,
    ensures
        text::run_back(s, text::exactly('0')) < s.len(),
{
    let f = text::exactly('0');
    text::lemma_run_back(s, f);
    if text::run_back(s, f) == s.len() {
        assert forall|i: int| 0 <= i < s.len() implies s[i] == '0' by {
            assert(f(s[i]));
        }
        assert(s == text::repeat('0', s.len()) + Seq::<char>::empty());
        lemma_zeros_in_front(s.len(), Seq::empty());
    }
}

/// What a column holds is told by its kind: whole numbers up to sixty-four bits are
/// numbers, and wider ones exact decimals, since what shows them must not round them.
pub proof fn law_a_column_holds_what_its_kind_says()
    ensures
        holds(Kind::Boolean) is Bool,
        holds(Kind::TinyInt) is Int && holds(Kind::SmallInt) is Int,
        holds(Kind::Int) is Int && holds(Kind::BigInt) is Int,
        holds(Kind::UTinyInt) is Int && holds(Kind::USmallInt) is Int,
        holds(Kind::UInt) is Int && holds(Kind::UBigInt) is Int,
        holds(Kind::HugeInt) is Decimal && holds(Kind::UHugeInt) is Decimal,
        holds(Kind::Decimal) is Decimal,
        holds(Kind::Float) is Float && holds(Kind::Double) is Float,
        holds(Kind::Date32) is Date && holds(Kind::Time64) is Time,
        holds(Kind::Timestamp) is Timestamp,
        holds(Kind::Text) is Text && holds(Kind::Enum) is Text,
        holds(Kind::Blob) is Binary,
        holds(Kind::Other) is Unknown,
{
}

/// A cell that holds a value is never answered with null, and a floating-point number is
/// answered with its own digits.
pub proof fn law_a_value_is_never_answered_with_null(cell: &Cell, r: Json)
    requires
        call_ensures(value_to_json, (cell,), r),
    ensures
        r@ is Null <==> is_nothing(*cell),
        *cell matches Cell::Float(Some(digits)) ==> r@ == JsonView::Number(digits@),
        *cell matches Cell::Text(t) ==> r@ == JsonView::Text(t@),
        *cell matches Cell::Bool(b) ==> r@ == JsonView::Bool(b),
{
    law_only_nothing_is_shown_as_null(*cell);
}

} // verus!
