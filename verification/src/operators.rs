//! Leaf-condition operators: one pure function of the resolved field value,
//! the condition's static value and, for cross-field operators, a second
//! resolved field.
//!
//! Regular expressions and date parsing are done by the `regex` and `chrono`
//! crates; their results enter the specification through the named results
//! `regex_match`, `parsed_datetime` and `parsed_naive_date`. The current time,
//! used by `within_days`, is an argument of `apply_at`.
use vstd::prelude::*;
use chrono::Datelike;
use crate::json::{Value, JValue, values_equal};
use crate::number::{Number, num_order, abs, compare_numbers, compare_int_number};
use crate::schema::Operator;
use crate::text::{
    Ord3, lex_order, seq_contains, seq_starts_with, seq_ends_with, chars_of, compare_chars,
    contains_chars, starts_with_chars, ends_with_chars, str_eq,
};

verus! {

// ---------------------------------------------------------------------------
// Outside results
// ---------------------------------------------------------------------------

/// Whether `pattern`, compiled by the `regex` crate, matches somewhere in
/// `text`; `None` when the pattern does not compile.
pub uninterp spec fn regex_match(pattern: Seq<char>, text: Seq<char>) -> Option<bool>;

/// The instant denoted by `s` as read by `chrono` (`DateTime<Utc>` from a
/// relaxed RFC 3339 text): Unix seconds and the sub-second nanoseconds.
pub uninterp spec fn parsed_datetime(s: Seq<char>) -> Option<(i64, u32)>;

/// The calendar date denoted by `s` as read by `chrono` (`NaiveDate`), as its
/// day number counted from 0001-01-01 (day 1).
pub uninterp spec fn parsed_naive_date(s: Seq<char>) -> Option<i32>;

/// `Regex::new(pattern)` then `Regex::is_match(text)`.
///
/// The result is `regex_match(pattern, text)`: `None` when compilation
/// fails, otherwise whether the compiled pattern matches `text`. What the
/// pattern language means is left to the `regex` crate.
#[verifier::external_body]
fn regex_is_match(pattern: &str, text: &str) -> (r: Option<bool>)
    ensures
        r == regex_match(pattern@, text@),
{
    match regex::Regex::new(pattern) {
        Ok(re) => Some(re.is_match(text)),
        Err(_) => None,
    }
}

/// `s.parse::<DateTime<Utc>>()`, then `timestamp()` and
/// `timestamp_subsec_nanos()` of the parsed instant.
///
/// The result is `parsed_datetime(s)`; which texts parse is left to `chrono`.
#[verifier::external_body]
fn parse_datetime_utc(s: &str) -> (r: Option<(i64, u32)>)
    ensures
        r == parsed_datetime(s@),
{
    match s.parse::<chrono::DateTime<chrono::Utc>>() {
        Ok(dt) => Some((dt.timestamp(), dt.timestamp_subsec_nanos())),
        Err(_) => None,
    }
}

/// `s.parse::<NaiveDate>()`, then `num_days_from_ce()` of the parsed date.
///
/// The result is `parsed_naive_date(s)`; which texts parse is left to
/// `chrono`.
#[verifier::external_body]
fn parse_naive_date_days(s: &str) -> (r: Option<i32>)
    ensures
        r == parsed_naive_date(s@),
{
    match s.parse::<chrono::NaiveDate>() {
        Ok(d) => Some(d.num_days_from_ce()),
        Err(_) => None,
    }
}

/// `Utc::now()`, as Unix seconds and sub-second nanoseconds. Nothing is
/// claimed of the reading: it is the clock.
#[verifier::external_body]
pub(crate) fn utc_now() -> (r: (i64, u32)) {
    let now = chrono::Utc::now();
    (now.timestamp(), now.timestamp_subsec_nanos())
}

// ---------------------------------------------------------------------------
// Value accessors
// ---------------------------------------------------------------------------

pub open spec fn str_of(v: JValue) -> Option<Seq<char>> {
    match v {
        JValue::Str(s) => Some(s),
        _ => None,
    }
}

pub open spec fn num_of(v: JValue) -> Option<Number> {
    match v {
        JValue::Number(n) => Some(n),
        _ => None,
    }
}

pub open spec fn opt_str(c: Option<JValue>) -> Option<Seq<char>> {
    match c {
        Some(v) => str_of(v),
        None => None,
    }
}

pub open spec fn opt_num(c: Option<JValue>) -> Option<Number> {
    match c {
        Some(v) => num_of(v),
        None => None,
    }
}

pub open spec fn or_null(c: Option<JValue>) -> JValue {
    match c {
        Some(v) => v,
        None => JValue::Null,
    }
}

/// View of an optional borrowed value.
pub open spec fn opt_view(c: Option<&Value>) -> Option<JValue> {
    match c {
        Some(v) => Some(v@),
        None => None,
    }
}

fn as_str(v: &Value) -> (r: Option<&str>)
    ensures
        match r {
            Some(s) => str_of(v@) == Some(s@),
            None => str_of(v@) is None,
        },
{
    match v {
        Value::String(s) => Some(s.as_str()),
        _ => None,
    }
}

fn as_number(v: &Value) -> (r: Option<Number>)
    ensures
        r == num_of(v@),
{
    match v {
        Value::Number(n) => Some(*n),
        _ => None,
    }
}

fn opt_as_str<'a>(c: Option<&'a Value>) -> (r: Option<&'a str>)
    ensures
        match r {
            Some(s) => opt_str(opt_view(c)) == Some(s@),
            None => opt_str(opt_view(c)) is None,
        },
{
    match c {
        Some(v) => as_str(v),
        None => None,
    }
}

fn opt_as_number(c: Option<&Value>) -> (r: Option<Number>)
    ensures
        r == opt_num(opt_view(c)),
{
    match c {
        Some(v) => as_number(v),
        None => None,
    }
}

// ---------------------------------------------------------------------------
// Comparison
// ---------------------------------------------------------------------------

/// Equality with numbers compared by value (`1` equals `1.0`).
pub open spec fn loose_eq(a: JValue, b: JValue) -> bool {
    match (a, b) {
        (JValue::Number(x), JValue::Number(y)) => num_order(x, y) == Ord3::Equal,
        _ => a == b,
    }
}

/// Order of two numbers or of two strings; other pairs are unordered.
pub open spec fn loose_order(a: JValue, b: JValue) -> Option<Ord3> {
    match (a, b) {
        (JValue::Number(x), JValue::Number(y)) => Some(num_order(x, y)),
        (JValue::Str(x), JValue::Str(y)) => Some(lex_order(x, y)),
        _ => None,
    }
}

pub fn compare_eq(a: &Value, b: &Value) -> (r: bool)
    ensures
        r == loose_eq(a@, b@),
{
    match (a, b) {
        (Value::Number(x), Value::Number(y)) => compare_numbers(x, y) == Ord3::Equal,
        _ => values_equal(a, b),
    }
}

pub fn compare_ord(a: &Value, b: &Value) -> (r: Option<Ord3>)
    ensures
        r == loose_order(a@, b@),
{
    match (a, b) {
        (Value::Number(x), Value::Number(y)) => Some(compare_numbers(x, y)),
        (Value::String(x), Value::String(y)) => {
            let xc = chars_of(x.as_str());
            let yc = chars_of(y.as_str());
            Some(compare_chars(xc.as_slice(), yc.as_slice()))
        },
        _ => None,
    }
}

// ---------------------------------------------------------------------------
// String operators
// ---------------------------------------------------------------------------

pub open spec fn spec_contains(f: JValue, c: Option<JValue>) -> bool {
    match (str_of(f), opt_str(c)) {
        (Some(fs), Some(cs)) => seq_contains(fs, cs),
        (None, Some(cs)) => match f {
            JValue::Array(a) => a.contains(JValue::Str(cs)),
            _ => false,
        },
        _ => false,
    }
}

pub open spec fn spec_starts_with(f: JValue, c: Option<JValue>) -> bool {
    match (str_of(f), opt_str(c)) {
        (Some(fs), Some(cs)) => seq_starts_with(fs, cs),
        _ => false,
    }
}

pub open spec fn spec_ends_with(f: JValue, c: Option<JValue>) -> bool {
    match (str_of(f), opt_str(c)) {
        (Some(fs), Some(cs)) => seq_ends_with(fs, cs),
        _ => false,
    }
}

/// Regex match; a pattern that does not compile matches nothing.
pub open spec fn spec_matches(f: JValue, c: Option<JValue>) -> bool {
    match (str_of(f), opt_str(c)) {
        (Some(t), Some(p)) => regex_match(p, t) == Some(true),
        _ => false,
    }
}

/// Position of the first element of `a` equal to `x`, from `from` on.
fn find_value(a: &Vec<Value>, x: &Value) -> (r: bool)
    ensures
        r == crate::json::view_seq(a@).contains(x@),
{
    proof {
        crate::json::lemma_view_seq(a@);
    }
    let ghost va = crate::json::view_seq(a@);
    let mut i: usize = 0;
    while i < a.len()
        invariant
            i <= a@.len(),
            va == crate::json::view_seq(a@),
            va.len() == a@.len(),
            forall|j: int| 0 <= j < a@.len() ==> #[trigger] va[j] == a@[j]@,
            forall|j: int| 0 <= j < i ==> va[j] != x@,
        decreases a@.len() - i,
    {
        if values_equal(&a[i], x) {
            assert(va[i as int] == x@);
            return true;
        }
        i = i + 1;
    }
    false
}

#[verifier::loop_isolation(false)]
fn op_contains(f: &Value, c: Option<&Value>) -> (r: bool)
    ensures
        r == spec_contains(f@, opt_view(c)),
{
    match (as_str(f), opt_as_str(c)) {
        (Some(fs), Some(cs)) => {
            let a = chars_of(fs);
            let b = chars_of(cs);
            contains_chars(a.as_slice(), b.as_slice())
        },
        (None, Some(cs)) => {
            match f {
                Value::Array(arr) => {
                    proof {
                        crate::json::lemma_view_seq(arr@);
                    }
                    let ghost va = crate::json::view_seq(arr@);
                    let mut i: usize = 0;
                    while i < arr.len()
                        invariant
                            i <= arr@.len(),
                            va == crate::json::view_seq(arr@),
                            va.len() == arr@.len(),
                            forall|j: int| 0 <= j < arr@.len() ==> #[trigger] va[j] == arr@[j]@,
                            forall|j: int| 0 <= j < i ==> va[j] != JValue::Str(cs@),
                        decreases arr@.len() - i,
                    {
                        match &arr[i] {
                            Value::String(s) => {
                                if str_eq(s.as_str(), cs) {
                                    assert(va[i as int] == JValue::Str(cs@));
                                    return true;
                                }
                            },
                            _ => {},
                        }
                        i = i + 1;
                    }
                    false
                },
                _ => false,
            }
        },
        _ => false,
    }
}

fn op_starts_with(f: &Value, c: Option<&Value>) -> (r: bool)
    ensures
        r == spec_starts_with(f@, opt_view(c)),
{
    match (as_str(f), opt_as_str(c)) {
        (Some(fs), Some(cs)) => {
            let a = chars_of(fs);
            let b = chars_of(cs);
            starts_with_chars(a.as_slice(), b.as_slice())
        },
        _ => false,
    }
}

fn op_ends_with(f: &Value, c: Option<&Value>) -> (r: bool)
    ensures
        r == spec_ends_with(f@, opt_view(c)),
{
    match (as_str(f), opt_as_str(c)) {
        (Some(fs), Some(cs)) => {
            let a = chars_of(fs);
            let b = chars_of(cs);
            ends_with_chars(a.as_slice(), b.as_slice())
        },
        _ => false,
    }
}

fn op_matches(f: &Value, c: Option<&Value>) -> (r: bool)
    ensures
        r == spec_matches(f@, opt_view(c)),
{
    match (as_str(f), opt_as_str(c)) {
        (Some(t), Some(p)) => match regex_is_match(p, t) {
            Some(m) => m,
            None => false,
        },
        _ => false,
    }
}

// ---------------------------------------------------------------------------
// Membership and numeric operators
// ---------------------------------------------------------------------------

pub open spec fn spec_in(f: JValue, c: Option<JValue>) -> bool {
    match c {
        Some(JValue::Array(arr)) => arr.contains(f),
        _ => false,
    }
}

/// Inclusive range test against a two-element array of numbers.
pub open spec fn spec_between(f: JValue, c: Option<JValue>) -> bool {
    match (num_of(f), c) {
        (Some(fv), Some(JValue::Array(arr))) => arr.len() == 2 && match (
            num_of(arr[0]),
            num_of(arr[1]),
        ) {
            (Some(lo), Some(hi)) => num_order(fv, lo) != Ord3::Less && num_order(fv, hi)
                != Ord3::Greater,
            _ => false,
        },
        _ => false,
    }
}

/// `a / d` is a whole number.
pub open spec fn divides(a: Number, d: Number) -> bool {
    let y: nat = (a.den as nat) * abs(d.num as int);
    y != 0 && abs(a.num * d.den) % y == 0
}

pub open spec fn spec_divisible_by(f: JValue, c: Option<JValue>) -> bool {
    match (num_of(f), opt_num(c)) {
        (Some(fv), Some(d)) => d.num != 0 && divides(fv, d),
        _ => false,
    }
}

fn op_in(f: &Value, c: Option<&Value>) -> (r: bool)
    ensures
        r == spec_in(f@, opt_view(c)),
{
    match c {
        Some(Value::Array(arr)) => find_value(arr, f),
        _ => false,
    }
}

fn op_between(f: &Value, c: Option<&Value>) -> (r: bool)
    ensures
        r == spec_between(f@, opt_view(c)),
{
    match (as_number(f), c) {
        (Some(fv), Some(Value::Array(arr))) => {
            proof {
                crate::json::lemma_view_seq(arr@);
            }
            if arr.len() == 2 {
                match (as_number(&arr[0]), as_number(&arr[1])) {
                    (Some(lo), Some(hi)) => compare_numbers(&fv, &lo) != Ord3::Less
                        && compare_numbers(&fv, &hi) != Ord3::Greater,
                    _ => false,
                }
            } else {
                false
            }
        },
        _ => false,
    }
}

fn abs_u(x: i64) -> (r: u64)
    ensures
        r == abs(x as int),
{
    if x < 0 {
        ((-(x + 1)) as u64) + 1
    } else {
        x as u64
    }
}

fn op_divisible_by(f: &Value, c: Option<&Value>) -> (r: bool)
    ensures
        r == spec_divisible_by(f@, opt_view(c)),
{
    match (as_number(f), opt_as_number(c)) {
        (Some(fv), Some(d)) => {
            if d.num == 0 {
                return false;
            }
            let an = abs_u(fv.num);
            let dn = abs_u(d.num);
            assert((an as int) * (d.den as int) <= 0x8000_0000_0000_0000 * 0xffff_ffff_ffff_ffff)
                by (nonlinear_arith)
                requires
                    an <= 0x8000_0000_0000_0000,
                    d.den <= 0xffff_ffff_ffff_ffff,
            ;
            assert((fv.den as int) * (dn as int) <= 0xffff_ffff_ffff_ffff * 0x8000_0000_0000_0000)
                by (nonlinear_arith)
                requires
                    dn <= 0x8000_0000_0000_0000,
                    fv.den <= 0xffff_ffff_ffff_ffff,
            ;
            let x = (an as u128) * (d.den as u128);
            let y = (fv.den as u128) * (dn as u128);
            proof {
                assert(abs(fv.num * d.den) == an * d.den) by (nonlinear_arith)
                    requires
                        an == abs(fv.num as int),
                        d.den >= 0,
                ;
            }
            y != 0 && x % y == 0
        },
        _ => false,
    }
}

// ---------------------------------------------------------------------------
// Null / empty / type
// ---------------------------------------------------------------------------

pub open spec fn spec_is_empty(v: JValue) -> bool {
    match v {
        JValue::Null => true,
        JValue::Str(s) => s.len() == 0,
        JValue::Array(a) => a.len() == 0,
        JValue::Object(m) => m.len() == 0,
        _ => false,
    }
}

fn is_empty(v: &Value) -> (r: bool)
    ensures
        r == spec_is_empty(v@),
{
    match v {
        Value::Null => true,
        Value::String(s) => {
            let cs = chars_of(s.as_str());
            cs.len() == 0
        },
        Value::Array(a) => {
            proof {
                crate::json::lemma_view_seq(a@);
            }
            a.len() == 0
        },
        Value::Object(m) => {
            proof {
                crate::json::lemma_view_members(m@);
            }
            m.len() == 0
        },
        _ => false,
    }
}

/// The value has the JSON type `name`.
pub open spec fn spec_is_type(f: JValue, c: Option<JValue>) -> bool {
    let name = match opt_str(c) {
        Some(s) => s,
        None => Seq::empty(),
    };
    ||| name == "string"@ && f is Str
    ||| name == "number"@ && f is Number
    ||| name == "boolean"@ && f is Bool
    ||| name == "array"@ && f is Array
    ||| name == "object"@ && f is Object
    ||| name == "null"@ && f is Null
}

fn op_is_type(f: &Value, c: Option<&Value>) -> (r: bool)
    ensures
        r == spec_is_type(f@, opt_view(c)),
{
    let name = match opt_as_str(c) {
        Some(s) => s,
        None => "",
    };
    proof {
        reveal_strlit("");
        assert(""@ =~= Seq::<char>::empty());
    }
    match f {
        Value::String(_) => str_eq(name, "string"),
        Value::Number(_) => str_eq(name, "number"),
        Value::Bool(_) => str_eq(name, "boolean"),
        Value::Array(_) => str_eq(name, "array"),
        Value::Object(_) => str_eq(name, "object"),
        Value::Null => str_eq(name, "null"),
    }
}

// ---------------------------------------------------------------------------
// Date / time operators
// ---------------------------------------------------------------------------

/// The instant a string value denotes: an RFC 3339 date-time, or else an
/// ISO 8601 calendar date taken at midnight UTC (day 719163 is 1970-01-01).
pub open spec fn instant_of(v: JValue) -> Option<(i64, u32)> {
    match str_of(v) {
        Some(s) => match parsed_datetime(s) {
            Some(i) => Some(i),
            None => match parsed_naive_date(s) {
                Some(d) => Some((((d - 719163) * 86400) as i64, 0u32)),
                None => None,
            },
        },
        None => None,
    }
}

pub open spec fn opt_instant(c: Option<JValue>) -> Option<(i64, u32)> {
    match c {
        Some(v) => instant_of(v),
        None => None,
    }
}

/// Strictly earlier instant.
pub open spec fn instant_lt(a: (i64, u32), b: (i64, u32)) -> bool {
    a.0 < b.0 || (a.0 == b.0 && a.1 < b.1)
}

pub open spec fn spec_before(f: JValue, c: Option<JValue>) -> bool {
    match (instant_of(f), opt_instant(c)) {
        (Some(a), Some(b)) => instant_lt(a, b),
        _ => false,
    }
}

pub open spec fn spec_after(f: JValue, c: Option<JValue>) -> bool {
    match (instant_of(f), opt_instant(c)) {
        (Some(a), Some(b)) => instant_lt(b, a),
        _ => false,
    }
}

/// Nanoseconds from `b` to `a`.
pub open spec fn nanos_between(a: (i64, u32), b: (i64, u32)) -> int {
    (a.0 - b.0) * 1_000_000_000 + (a.1 - b.1)
}

/// Whole days between two instants, whichever comes first: whole seconds
/// then whole days, both truncated (`TimeDelta::num_days().unsigned_abs()`).
pub open spec fn whole_days_apart(a: (i64, u32), b: (i64, u32)) -> nat {
    (abs(nanos_between(a, b)) / 1_000_000_000) / 86400
}

/// Order of an integer and a number.
pub open spec fn int_num_order(l: int, n: Number) -> Ord3 {
    if l * n.den < n.num {
        Ord3::Less
    } else if l * n.den == n.num {
        Ord3::Equal
    } else {
        Ord3::Greater
    }
}

/// The field's instant is fewer than `days` whole days away from `now`.
pub open spec fn spec_within_days(f: JValue, c: Option<JValue>, now: (i64, u32)) -> bool {
    match (instant_of(f), opt_num(c)) {
        (Some(dt), Some(days)) => int_num_order(whole_days_apart(now, dt) as int, days) == Ord3::Less,
        _ => false,
    }
}

/// Day number (0001-01-01 is day 1) of a date or date-time string; a
/// date-time counts by its UTC date.
pub open spec fn day_number(v: JValue) -> Option<int> {
    match str_of(v) {
        Some(s) => match parsed_datetime(s) {
            Some(i) => Some(i.0 / 86400 + 719163),
            None => match parsed_naive_date(s) {
                Some(d) => Some(d as int),
                None => None,
            },
        },
        None => None,
    }
}

/// Day of the week of a day number, 0 for Monday to 6 for Sunday.
pub open spec fn weekday_index(d: int) -> int {
    (d - 1) % 7
}

pub open spec fn spec_is_weekday(f: JValue) -> bool {
    match day_number(f) {
        Some(d) => weekday_index(d) < 5,
        None => false,
    }
}

pub open spec fn spec_is_weekend(f: JValue) -> bool {
    match day_number(f) {
        Some(d) => weekday_index(d) >= 5,
        None => false,
    }
}

fn instant_of_value(v: &Value) -> (r: Option<(i64, u32)>)
    ensures
        r == instant_of(v@),
{
    match as_str(v) {
        Some(s) => match parse_datetime_utc(s) {
            Some(i) => Some(i),
            None => match parse_naive_date_days(s) {
                Some(d) => Some((((d as i64) - 719163) * 86400, 0u32)),
                None => None,
            },
        },
        None => None,
    }
}

fn opt_instant_of(c: Option<&Value>) -> (r: Option<(i64, u32)>)
    ensures
        r == opt_instant(opt_view(c)),
{
    match c {
        Some(v) => instant_of_value(v),
        None => None,
    }
}

fn instant_less(a: (i64, u32), b: (i64, u32)) -> (r: bool)
    ensures
        r == instant_lt(a, b),
{
    a.0 < b.0 || (a.0 == b.0 && a.1 < b.1)
}

fn op_date_before(f: &Value, c: Option<&Value>) -> (r: bool)
    ensures
        r == spec_before(f@, opt_view(c)),
{
    match (instant_of_value(f), opt_instant_of(c)) {
        (Some(a), Some(b)) => instant_less(a, b),
        _ => false,
    }
}

fn op_date_after(f: &Value, c: Option<&Value>) -> (r: bool)
    ensures
        r == spec_after(f@, opt_view(c)),
{
    match (instant_of_value(f), opt_instant_of(c)) {
        (Some(a), Some(b)) => instant_less(b, a),
        _ => false,
    }
}

/// Whole days between two instants.
pub fn days_apart(a: (i64, u32), b: (i64, u32)) -> (r: u64)
    ensures
        r as int == whole_days_apart(a, b),
{
    let ds: i128 = (a.0 as i128) - (b.0 as i128);
    assert(-0x1_0000_0000_0000_0000 <= ds <= 0x1_0000_0000_0000_0000);
    assert(-0x1_0000_0000_0000_0000 * 1_000_000_000 <= ds * 1_000_000_000
        <= 0x1_0000_0000_0000_0000 * 1_000_000_000) by (nonlinear_arith)
        requires
            -0x1_0000_0000_0000_0000 <= ds <= 0x1_0000_0000_0000_0000,
    ;
    let ns: i128 = ds * 1_000_000_000 + ((a.1 as i128) - (b.1 as i128));
    assert(ns == nanos_between(a, b));
    let mag: u128 = if ns >= 0 {
        ns as u128
    } else {
        (-ns) as u128
    };
    let days = (mag / 1_000_000_000) / 86400;
    assert(days <= 0x1_0000_0000_0000_0000 * 2 / 86400);
    days as u64
}

/// Compares a whole number with a number.
fn compare_u64_number(l: u64, n: &Number) -> (r: Ord3)
    ensures
        r == int_num_order(l as int, *n),
{
    compare_int_number(l, n)
}

/// `within_days` at a given current instant.
fn op_within_days(f: &Value, c: Option<&Value>, now: (i64, u32)) -> (r: bool)
    ensures
        r == spec_within_days(f@, opt_view(c), now),
{
    match (instant_of_value(f), opt_as_number(c)) {
        (Some(dt), Some(days)) => compare_u64_number(days_apart(now, dt), &days) == Ord3::Less,
        _ => false,
    }
}

/// Day number of a date or date-time value.
fn day_number_of(v: &Value) -> (r: Option<i64>)
    ensures
        match r {
            Some(d) => day_number(v@) == Some(d as int),
            None => day_number(v@) is None,
        },
{
    match as_str(v) {
        Some(s) => match parse_datetime_utc(s) {
            Some(i) => {
                let secs = i.0;
                let q: i64 = if secs >= 0 {
                    secs / 86400
                } else {
                    let m: u64 = ((-(secs + 1)) as u64) + 1;
                    let c: u64 = (m + 86399) / 86400;
                    assert(c * 86400 >= m && c * 86400 < m + 86400);
                    assert(-(c as int) == secs / 86400);
                    -(c as i64)
                };
                Some(q + 719163)
            },
            None => match parse_naive_date_days(s) {
                Some(d) => Some(d as i64),
                None => None,
            },
        },
        None => None,
    }
}

fn weekday_of(d: i64) -> (r: i64)
    ensures
        r == weekday_index(d as int),
{
    let m: i128 = (d as i128) - 1;
    if m >= 0 {
        (m % 7) as i64
    } else {
        let k: u128 = (-m) as u128;
        let q: u128 = k % 7;
        if q == 0 {
            assert(m % 7 == 0);
            0
        } else {
            assert(m % 7 == 7 - q);
            (7 - q) as i64
        }
    }
}

fn op_is_weekday(f: &Value) -> (r: bool)
    ensures
        r == spec_is_weekday(f@),
{
    match day_number_of(f) {
        Some(d) => weekday_of(d) < 5,
        None => false,
    }
}

fn op_is_weekend(f: &Value) -> (r: bool)
    ensures
        r == spec_is_weekend(f@),
{
    match day_number_of(f) {
        Some(d) => weekday_of(d) >= 5,
        None => false,
    }
}

// ---------------------------------------------------------------------------
// List operators
// ---------------------------------------------------------------------------

/// Some element of `n` occurs in `h`.
pub open spec fn any_in(h: Seq<JValue>, n: Seq<JValue>) -> bool {
    exists|j: int| 0 <= j < n.len() && h.contains(#[trigger] n[j])
}

/// Every element of `n` occurs in `h`.
pub open spec fn all_in(h: Seq<JValue>, n: Seq<JValue>) -> bool {
    forall|j: int| 0 <= j < n.len() ==> h.contains(#[trigger] n[j])
}

pub open spec fn spec_contains_any(f: JValue, c: Option<JValue>) -> bool {
    match (f, c) {
        (JValue::Array(h), Some(JValue::Array(n))) => any_in(h, n),
        _ => false,
    }
}

pub open spec fn spec_contains_all(f: JValue, c: Option<JValue>) -> bool {
    match (f, c) {
        (JValue::Array(h), Some(JValue::Array(n))) => all_in(h, n),
        _ => false,
    }
}

/// UTF-8 length of one character.
pub open spec fn char_utf8_len(c: char) -> nat {
    let u = c as u32;
    if u < 0x80 {
        1
    } else if u < 0x800 {
        2
    } else if u < 0x10000 {
        3
    } else {
        4
    }
}

/// UTF-8 length of a string (`str::len`).
pub open spec fn utf8_len(s: Seq<char>) -> nat
    decreases s.len(),
{
    if s.len() == 0 {
        0
    } else {
        utf8_len(s.drop_last()) + char_utf8_len(s.last())
    }
}

/// Length of an array (elements), string (UTF-8 bytes) or object (members).
pub open spec fn len_of(v: JValue) -> Option<nat> {
    match v {
        JValue::Array(a) => Some(a.len()),
        JValue::Str(s) => Some(utf8_len(s)),
        JValue::Object(m) => Some(m.len()),
        _ => None,
    }
}

pub open spec fn spec_length(f: JValue, c: Option<JValue>, expected: Ord3) -> bool {
    match (len_of(f), opt_num(c)) {
        (Some(l), Some(n)) => int_num_order(l as int, n) == expected,
        _ => false,
    }
}

/// Some element of `n` occurs in `h`.
fn any_found(h: &Vec<Value>, n: &Vec<Value>) -> (r: bool)
    ensures
        r == any_in(crate::json::view_seq(h@), crate::json::view_seq(n@)),
{
    proof {
        crate::json::lemma_view_seq(n@);
    }
    let ghost nv = crate::json::view_seq(n@);
    let ghost hv = crate::json::view_seq(h@);
    let mut j: usize = 0;
    while j < n.len()
        invariant
            j <= n@.len(),
            nv == crate::json::view_seq(n@),
            hv == crate::json::view_seq(h@),
            nv.len() == n@.len(),
            forall|k: int| 0 <= k < n@.len() ==> #[trigger] nv[k] == n@[k]@,
            forall|k: int| 0 <= k < j ==> !hv.contains(#[trigger] nv[k]),
        decreases n@.len() - j,
    {
        assert(nv[j as int] == n@[j as int]@);
        if find_value(h, &n[j]) {
            assert(hv.contains(nv[j as int]));
            return true;
        }
        j = j + 1;
    }
    false
}

/// Every element of `n` occurs in `h`.
fn all_found(h: &Vec<Value>, n: &Vec<Value>) -> (r: bool)
    ensures
        r == all_in(crate::json::view_seq(h@), crate::json::view_seq(n@)),
{
    proof {
        crate::json::lemma_view_seq(n@);
    }
    let ghost nv = crate::json::view_seq(n@);
    let ghost hv = crate::json::view_seq(h@);
    let mut j: usize = 0;
    while j < n.len()
        invariant
            j <= n@.len(),
            nv == crate::json::view_seq(n@),
            hv == crate::json::view_seq(h@),
            nv.len() == n@.len(),
            forall|k: int| 0 <= k < n@.len() ==> #[trigger] nv[k] == n@[k]@,
            forall|k: int| 0 <= k < j ==> hv.contains(#[trigger] nv[k]),
        decreases n@.len() - j,
    {
        assert(nv[j as int] == n@[j as int]@);
        if !find_value(h, &n[j]) {
            assert(!hv.contains(nv[j as int]));
            return false;
        }
        j = j + 1;
    }
    true
}

fn op_contains_any(f: &Value, c: Option<&Value>) -> (r: bool)
    ensures
        r == spec_contains_any(f@, opt_view(c)),
{
    match (f, c) {
        (Value::Array(h), Some(Value::Array(n))) => any_found(h, n),
        _ => false,
    }
}

fn op_contains_all(f: &Value, c: Option<&Value>) -> (r: bool)
    ensures
        r == spec_contains_all(f@, opt_view(c)),
{
    match (f, c) {
        (Value::Array(h), Some(Value::Array(n))) => all_found(h, n),
        _ => false,
    }
}

/// UTF-8 length of a character sequence.
fn utf8_length(cs: &[char]) -> (r: u128)
    ensures
        r as int == utf8_len(cs@),
{
    let n = cs.len();
    let mut total: u128 = 0;
    let mut i: usize = 0;
    while i < n
        invariant
            n == cs@.len(),
            i <= n,
            total as int == utf8_len(cs@.take(i as int)),
            total <= 4 * i,
        decreases n - i,
    {
        let u = cs[i] as u32;
        let w: u128 = if u < 0x80 {
            1
        } else if u < 0x800 {
            2
        } else if u < 0x10000 {
            3
        } else {
            4
        };
        proof {
            assert(cs@.take(i + 1).drop_last() =~= cs@.take(i as int));
            assert(cs@.take(i + 1).last() == cs@[i as int]);
        }
        total = total + w;
        i = i + 1;
    }
    assert(cs@.take(n as int) =~= cs@);
    total
}

fn length_of(v: &Value) -> (r: Option<u128>)
    ensures
        match r {
            Some(l) => len_of(v@) == Some(l as nat),
            None => len_of(v@) is None,
        },
{
    match v {
        Value::Array(a) => {
            proof {
                crate::json::lemma_view_seq(a@);
            }
            Some(a.len() as u128)
        },
        Value::String(s) => {
            let cs = chars_of(s.as_str());
            Some(utf8_length(cs.as_slice()))
        },
        Value::Object(m) => {
            proof {
                crate::json::lemma_view_members(m@);
            }
            Some(m.len() as u128)
        },
        _ => None,
    }
}

fn op_length(f: &Value, c: Option<&Value>, expected: Ord3) -> (r: bool)
    ensures
        r == spec_length(f@, opt_view(c), expected),
{
    match (length_of(f), opt_as_number(c)) {
        (Some(l), Some(n)) => {
            if l > 0xffff_ffff_ffff_ffff {
                if n.den == 0 {
                    assert(l * n.den == 0) by (nonlinear_arith)
                        requires
                            n.den == 0,
                    ;
                    let o = if 0 < n.num {
                        Ord3::Less
                    } else if 0 == n.num {
                        Ord3::Equal
                    } else {
                        Ord3::Greater
                    };
                    o == expected
                } else {
                    assert(l * n.den >= l) by (nonlinear_arith)
                        requires
                            n.den >= 1,
                            l >= 0,
                    ;
                    Ord3::Greater == expected
                }
            } else {
                compare_u64_number(l as u64, &n) == expected
            }
        },
        _ => false,
    }
}

// ---------------------------------------------------------------------------
// Dispatch
// ---------------------------------------------------------------------------

/// The outcome of operator `op` on the field value `f`, the condition value
/// `c` and the second field value `f2`, at the instant `now`.
pub open spec fn apply_spec(
    op: Operator,
    f: JValue,
    c: Option<JValue>,
    f2: Option<JValue>,
    now: (i64, u32),
) -> bool {
    match op {
        Operator::Eq => loose_eq(f, or_null(c)),
        Operator::Neq => !loose_eq(f, or_null(c)),
        Operator::Gt => loose_order(f, or_null(c)) == Some(Ord3::Greater),
        Operator::Gte => loose_order(f, or_null(c)) == Some(Ord3::Greater) || loose_order(
            f,
            or_null(c),
        ) == Some(Ord3::Equal),
        Operator::Lt => loose_order(f, or_null(c)) == Some(Ord3::Less),
        Operator::Lte => loose_order(f, or_null(c)) == Some(Ord3::Less) || loose_order(
            f,
            or_null(c),
        ) == Some(Ord3::Equal),
        Operator::Contains => spec_contains(f, c),
        Operator::StartsWith => spec_starts_with(f, c),
        Operator::EndsWith => spec_ends_with(f, c),
        Operator::Matches => spec_matches(f, c),
        Operator::In => spec_in(f, c),
        Operator::NotIn => !spec_in(f, c),
        Operator::Between => spec_between(f, c),
        Operator::Outside => !spec_between(f, c),
        Operator::DivisibleBy => spec_divisible_by(f, c),
        Operator::IsNull => f is Null,
        Operator::IsNotNull => !(f is Null),
        Operator::IsEmpty => spec_is_empty(f),
        Operator::IsNotEmpty => !spec_is_empty(f),
        Operator::Before => spec_before(f, c),
        Operator::After => spec_after(f, c),
        Operator::WithinDays => spec_within_days(f, c, now),
        Operator::IsWeekday => spec_is_weekday(f),
        Operator::IsWeekend => spec_is_weekend(f),
        Operator::ContainsAny => spec_contains_any(f, c),
        Operator::ContainsAll => spec_contains_all(f, c),
        Operator::LengthEq => spec_length(f, c, Ord3::Equal),
        Operator::LengthGt => spec_length(f, c, Ord3::Greater),
        Operator::LengthLt => spec_length(f, c, Ord3::Less),
        Operator::IsType => spec_is_type(f, c),
        Operator::FieldGtField => loose_order(f, or_null(f2)) == Some(Ord3::Greater),
        Operator::FieldEqField => loose_eq(f, or_null(f2)),
    }
}

/// Evaluates a leaf condition at the instant `now`.
///
/// `field_val` is the resolved value of the condition's field, `cmp_val` the
/// condition's static value (absent for unary operators) and `field2_val`
/// the resolved value of the second field of a cross-field comparison.
pub fn apply_at(
    op: &Operator,
    field_val: &Value,
    cmp_val: Option<&Value>,
    field2_val: Option<&Value>,
    now: (i64, u32),
) -> (r: bool)
    ensures
        r == apply_spec(*op, field_val@, opt_view(cmp_val), opt_view(field2_val), now),
{
    let null = Value::Null;
    let c: &Value = match cmp_val {
        Some(v) => v,
        None => &null,
    };
    let f2: &Value = match field2_val {
        Some(v) => v,
        None => &null,
    };
    match op {
        Operator::Eq => compare_eq(field_val, c),
        Operator::Neq => !compare_eq(field_val, c),
        Operator::Gt => compare_ord(field_val, c) == Some(Ord3::Greater),
        Operator::Gte => {
            let o = compare_ord(field_val, c);
            o == Some(Ord3::Greater) || o == Some(Ord3::Equal)
        },
        Operator::Lt => compare_ord(field_val, c) == Some(Ord3::Less),
        Operator::Lte => {
            let o = compare_ord(field_val, c);
            o == Some(Ord3::Less) || o == Some(Ord3::Equal)
        },
        Operator::Contains => op_contains(field_val, cmp_val),
        Operator::StartsWith => op_starts_with(field_val, cmp_val),
        Operator::EndsWith => op_ends_with(field_val, cmp_val),
        Operator::Matches => op_matches(field_val, cmp_val),
        Operator::In => op_in(field_val, cmp_val),
        Operator::NotIn => !op_in(field_val, cmp_val),
        Operator::Between => op_between(field_val, cmp_val),
        Operator::Outside => !op_between(field_val, cmp_val),
        Operator::DivisibleBy => op_divisible_by(field_val, cmp_val),
        Operator::IsNull => match field_val {
            Value::Null => true,
            _ => false,
        },
        Operator::IsNotNull => match field_val {
            Value::Null => false,
            _ => true,
        },
        Operator::IsEmpty => is_empty(field_val),
        Operator::IsNotEmpty => !is_empty(field_val),
        Operator::Before => op_date_before(field_val, cmp_val),
        Operator::After => op_date_after(field_val, cmp_val),
        Operator::WithinDays => op_within_days(field_val, cmp_val, now),
        Operator::IsWeekday => op_is_weekday(field_val),
        Operator::IsWeekend => op_is_weekend(field_val),
        Operator::ContainsAny => op_contains_any(field_val, cmp_val),
        Operator::ContainsAll => op_contains_all(field_val, cmp_val),
        Operator::LengthEq => op_length(field_val, cmp_val, Ord3::Equal),
        Operator::LengthGt => op_length(field_val, cmp_val, Ord3::Greater),
        Operator::LengthLt => op_length(field_val, cmp_val, Ord3::Less),
        Operator::IsType => op_is_type(field_val, cmp_val),
        Operator::FieldGtField => compare_ord(field_val, f2) == Some(Ord3::Greater),
        Operator::FieldEqField => compare_eq(field_val, f2),
    }
}

/// Evaluates a leaf condition now: the clock is read for `within_days`,
/// and the outcome is that of `apply_at` at the instant read.
pub fn apply(
    op: &Operator,
    field_val: &Value,
    cmp_val: Option<&Value>,
    field2_val: Option<&Value>,
) -> (r: bool)
    ensures
        exists|now: (i64, u32)|
            r == apply_spec(*op, field_val@, opt_view(cmp_val), opt_view(field2_val), now),
        *op != Operator::WithinDays ==> r == apply_spec(
            *op,
            field_val@,
            opt_view(cmp_val),
            opt_view(field2_val),
            (0, 0),
        ),
{
    let now = match op {
        Operator::WithinDays => utc_now(),
        _ => (0, 0),
    };
    let r = apply_at(op, field_val, cmp_val, field2_val, now);
    assert(r == apply_spec(*op, field_val@, opt_view(cmp_val), opt_view(field2_val), now));
    r
}


// ---------------------------------------------------------------------------
// Laws of the range operators
// ---------------------------------------------------------------------------

/// `between` is the inclusive range test: a number `f` is between the
/// bounds `[lo, hi]` exactly when `lo <= f` and `f <= hi` as fractions
/// (compared by cross-multiplying, denominators being positive); `outside`
/// is its negation.
pub proof fn law_between_is_inclusive_range(f: Number, lo: Number, hi: Number, now: (i64, u32))
    ensures
        apply_spec(
            Operator::Between,
            JValue::Number(f),
            Some(JValue::Array(seq![JValue::Number(lo), JValue::Number(hi)])),
            None,
            now,
        ) == (lo.num * f.den <= f.num * lo.den && f.num * hi.den <= hi.num * f.den),
        apply_spec(
            Operator::Outside,
            JValue::Number(f),
            Some(JValue::Array(seq![JValue::Number(lo), JValue::Number(hi)])),
            None,
            now,
        ) == !(lo.num * f.den <= f.num * lo.den && f.num * hi.den <= hi.num * f.den),
{
}

/// `between` holds of nothing but a number, and only against exactly two
/// number bounds.
pub proof fn law_between_needs_a_number_and_two_bounds(f: JValue, c: Option<JValue>, now: (i64, u32))
    ensures
        apply_spec(Operator::Between, f, c, None, now) ==> (f is Number && (c matches Some(JValue::Array(a))
            && a.len() == 2 && a[0] is Number && a[1] is Number)),
{
}

/// On two numbers the comparison operators compare the fractions (by
/// cross-multiplying): `eq` is equal value, `gt` greater, `gte` greater or
/// equal, `lt` less, `lte` less or equal, `neq` the negation of `eq`.
pub proof fn law_number_comparisons(x: Number, y: Number, now: (i64, u32))
    ensures
        apply_spec(Operator::Eq, JValue::Number(x), Some(JValue::Number(y)), None, now) == (x.num * y.den
            == y.num * x.den),
        apply_spec(Operator::Neq, JValue::Number(x), Some(JValue::Number(y)), None, now) == (x.num * y.den
            != y.num * x.den),
        apply_spec(Operator::Gt, JValue::Number(x), Some(JValue::Number(y)), None, now) == (x.num * y.den
            > y.num * x.den),
        apply_spec(Operator::Gte, JValue::Number(x), Some(JValue::Number(y)), None, now) == (x.num * y.den
            >= y.num * x.den),
        apply_spec(Operator::Lt, JValue::Number(x), Some(JValue::Number(y)), None, now) == (x.num * y.den
            < y.num * x.den),
        apply_spec(Operator::Lte, JValue::Number(x), Some(JValue::Number(y)), None, now) == (x.num * y.den
            <= y.num * x.den),
{
}

/// The order operators are converses of each other: `gt` of `(a, b)` is
/// `lt` of `(b, a)`, and `gte` of `(a, b)` is `lte` of `(b, a)`; a value
/// equal to another (`eq`) is neither greater nor less.
pub proof fn law_order_converse(a: JValue, b: JValue, now: (i64, u32))
    ensures
        apply_spec(Operator::Gt, a, Some(b), None, now) == apply_spec(Operator::Lt, b, Some(a), None, now),
        apply_spec(Operator::Gte, a, Some(b), None, now) == apply_spec(Operator::Lte, b, Some(a), None, now),
        apply_spec(Operator::Eq, a, Some(b), None, now) ==> !apply_spec(Operator::Gt, a, Some(b), None, now)
            && !apply_spec(Operator::Lt, a, Some(b), None, now),
{
    if let (JValue::Str(x), JValue::Str(y)) = (a, b) {
        crate::text::lemma_lex_order_antisym(x, y);
        crate::text::lemma_lex_order_antisym(y, x);
        crate::text::lemma_lex_order_equal(x, y);
        crate::text::lemma_lex_order_equal(y, x);
    }
}

/// The characters of `c` stand in `f` from position `p` on.
pub open spec fn chars_at(f: Seq<char>, c: Seq<char>, p: int) -> bool {
    0 <= p && p + c.len() <= f.len() && forall|i: int| 0 <= i < c.len() ==> #[trigger] f[p + i] == c[i]
}

/// On two strings: `starts_with` holds when the pattern is the text's first
/// characters, `ends_with` when it is its last ones, `contains` when it
/// occurs at some position.
pub proof fn law_string_operators(f: Seq<char>, c: Seq<char>, now: (i64, u32))
    ensures
        apply_spec(Operator::StartsWith, JValue::Str(f), Some(JValue::Str(c)), None, now) == (c.len()
            <= f.len() && forall|i: int| 0 <= i < c.len() ==> f[i] == c[i]),
        apply_spec(Operator::EndsWith, JValue::Str(f), Some(JValue::Str(c)), None, now) == (c.len()
            <= f.len() && forall|i: int| 0 <= i < c.len() ==> f[f.len() - c.len() + i] == c[i]),
        apply_spec(Operator::Contains, JValue::Str(f), Some(JValue::Str(c)), None, now) == exists|p: int|
            #[trigger] chars_at(f, c, p),
{
    if c.len() <= f.len() {
        if forall|i: int| 0 <= i < c.len() ==> f[i] == c[i] {
            assert(f.subrange(0, c.len() as int) =~= c);
        }
        if forall|i: int| 0 <= i < c.len() ==> f[f.len() - c.len() + i] == c[i] {
            assert(f.subrange(f.len() - c.len(), f.len() as int) =~= c);
        }
    }
    if exists|p: int| #[trigger] chars_at(f, c, p) {
        let p = choose|p: int| #[trigger] chars_at(f, c, p);
        assert forall|i: int| 0 <= i < c.len() implies f.subrange(p, p + c.len())[i] == c[i] by {
            assert(f[p + i] == c[i]);
        }
        assert(f.subrange(p, p + c.len()) =~= c);
        assert(crate::text::occurs_at(f, c, p));
    }
    if seq_contains(f, c) {
        let p = choose|p: int| crate::text::occurs_at(f, c, p);
        assert forall|i: int| 0 <= i < c.len() implies #[trigger] f[p + i] == c[i] by {
            assert(f.subrange(p, p + c.len())[i] == f[p + i]);
        }
        assert(chars_at(f, c, p));
    }
}

/// `x` is one of the elements of `h`.
pub open spec fn has_element(h: Seq<JValue>, x: JValue) -> bool {
    exists|k: int| 0 <= k < h.len() && #[trigger] h[k] == x
}

/// `in` holds when the value is an element of the given array and
/// `not_in` is its negation; `contains_any` holds when some element of the
/// given array is an element of the field's array, `contains_all` when
/// every one is.
pub proof fn law_membership_operators(f: JValue, h: Seq<JValue>, n: Seq<JValue>, now: (i64, u32))
    ensures
        apply_spec(Operator::In, f, Some(JValue::Array(n)), None, now) == exists|j: int|
            0 <= j < n.len() && n[j] == f,
        apply_spec(Operator::NotIn, f, Some(JValue::Array(n)), None, now) == !exists|j: int|
            0 <= j < n.len() && n[j] == f,
        apply_spec(Operator::ContainsAny, JValue::Array(h), Some(JValue::Array(n)), None, now) == exists|
            j: int,
            k: int,
        | 0 <= j < n.len() && 0 <= k < h.len() && h[k] == n[j],
        apply_spec(Operator::ContainsAll, JValue::Array(h), Some(JValue::Array(n)), None, now) == forall|
            j: int,
        | 0 <= j < n.len() ==> has_element(h, #[trigger] n[j]),
{
    assert forall|j: int| 0 <= j < n.len() implies has_element(h, #[trigger] n[j]) == h.contains(n[j]) by {
        if h.contains(n[j]) {
            let k = choose|k: int| 0 <= k < h.len() && h[k] == n[j];
            assert(h[k] == n[j]);
        }
    }
}

/// `is_null` holds of `null` only; `is_empty` of `null`, the empty string,
/// the empty array and the empty object, and `is_not_empty` of everything
/// else.
pub proof fn law_null_and_empty(f: JValue, now: (i64, u32))
    ensures
        apply_spec(Operator::IsNull, f, None, None, now) == (f == JValue::Null),
        apply_spec(Operator::IsEmpty, f, None, None, now) == (f == JValue::Null || f == JValue::Str(
            Seq::empty(),
        ) || f == JValue::Array(Seq::empty()) || f == JValue::Object(Seq::empty())),
        apply_spec(Operator::IsNotEmpty, f, None, None, now) == !apply_spec(Operator::IsEmpty, f, None, None, now),
{
    match f {
        JValue::Str(s) => {
            if s.len() == 0 {
                assert(s =~= Seq::<char>::empty());
            }
        },
        JValue::Array(a) => {
            if a.len() == 0 {
                assert(a =~= Seq::<JValue>::empty());
            }
        },
        JValue::Object(m) => {
            if m.len() == 0 {
                assert(m =~= Seq::<(Seq<char>, JValue)>::empty());
            }
        },
        _ => {},
    }
}

/// The length operators compare an array's number of elements with a
/// whole-number bound.
pub proof fn law_array_length(a: Seq<JValue>, n: i64, now: (i64, u32))
    ensures
        apply_spec(
            Operator::LengthEq,
            JValue::Array(a),
            Some(JValue::Number(Number { num: n, den: 1, float: false })),
            None,
            now,
        ) == (a.len() == n),
        apply_spec(
            Operator::LengthGt,
            JValue::Array(a),
            Some(JValue::Number(Number { num: n, den: 1, float: false })),
            None,
            now,
        ) == (a.len() > n),
        apply_spec(
            Operator::LengthLt,
            JValue::Array(a),
            Some(JValue::Number(Number { num: n, den: 1, float: false })),
            None,
            now,
        ) == (a.len() < n),
{
    let b = Number { num: n, den: 1, float: false };
    assert(a.len() as int * b.den == a.len() as int);
    assert(len_of(JValue::Array(a)) == Some(a.len()));
}

} // verus!
