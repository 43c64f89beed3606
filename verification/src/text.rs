//! The text a report shows: calendar bucket labels and date-times written as
//! `chrono`'s format strings write them, and the order labels are sorted in.

use vstd::prelude::*;
use crate::clock::LocalFields;

verus! {

/// The bucket width a report groups its samples by, chosen from the time
/// that the samples span.
#[derive(Clone, Copy, Debug, PartialEq, Eq)]
pub enum Interval {
    RawSec,
    Minute,
    Hour,
    Day,
}

/// The name a report gives each bucket width.
pub open spec fn interval_name(iv: Interval) -> Seq<char> {
    match iv {
        Interval::RawSec => "Raw (Sec)"@,
        Interval::Minute => "Minute"@,
        Interval::Hour => "Hour"@,
        Interval::Day => "Day"@,
    }
}

/// The ASCII digit for a value below ten.
pub open spec fn digit(d: int) -> char {
    (d + 48) as char
}

/// The decimal digits of a natural number, without leading zeros.
pub open spec fn decimal(n: nat) -> Seq<char>
    decreases n,
{
    if n < 10 {
        seq![digit(n as int)]
    } else {
        decimal(n / 10).push(digit((n % 10) as int))
    }
}

/// `k` zero digits (none when `k` is not positive).
pub open spec fn zeros(k: int) -> Seq<char> {
    Seq::new(if k > 0 { k as nat } else { 0 }, |_i: int| '0')
}

/// The decimal digits of `n`, zero-padded on the left to at least `width`.
pub open spec fn padded(n: nat, width: int) -> Seq<char> {
    zeros(width - decimal(n).len()) + decimal(n)
}

/// A year as chrono's `%Y` writes it: four zero-padded digits for years 0 to
/// 9999, otherwise an explicit sign before at least four digits.
pub open spec fn year_text(y: int) -> Seq<char> {
    if 0 <= y <= 9999 {
        padded(y as nat, 4)
    } else if y >= 0 {
        seq!['+'] + padded(y as nat, 4)
    } else {
        seq!['-'] + padded((-y) as nat, 4)
    }
}

/// Two-digit field, as chrono's `%m`, `%d`, `%H`, `%M` and `%S` write it.
pub open spec fn two(n: u32) -> Seq<char> {
    padded(n as nat, 2)
}

/// The bucket label of a calendar reading: `%H:%M:%S` by second, `%H:%M` by
/// minute, `%m-%d %H:00` by hour, `%Y-%m-%d` by day.
pub open spec fn label_for(iv: Interval, f: LocalFields) -> Seq<char> {
    match iv {
        Interval::RawSec => two(f.hour) + seq![':'] + two(f.minute) + seq![':'] + two(f.second),
        Interval::Minute => two(f.hour) + seq![':'] + two(f.minute),
        Interval::Hour => two(f.month) + seq!['-'] + two(f.day) + seq![' '] + two(f.hour) + seq![
            ':',
            '0',
            '0',
        ],
        Interval::Day => year_text(f.year as int) + seq!['-'] + two(f.month) + seq!['-'] + two(
            f.day,
        ),
    }
}

/// A calendar reading as `%Y-%m-%d %H:%M:%S` writes it.
pub open spec fn datetime_text(f: LocalFields) -> Seq<char> {
    year_text(f.year as int) + seq!['-'] + two(f.month) + seq!['-'] + two(f.day) + seq![' ']
        + two(f.hour) + seq![':'] + two(f.minute) + seq![':'] + two(f.second)
}

/// Whether a character is an ASCII digit.
pub open spec fn is_digit(c: char) -> bool {
    48 <= (c as int) <= 57
}

proof fn lemma_digit(d: int)
    requires
        0 <= d < 10,
    ensures
        digit(d) as int == d + 48,
        is_digit(digit(d)),
{
}

proof fn lemma_decimal_shape(n: nat)
    ensures
        decimal(n).len() >= 1,
        n >= 10 ==> decimal(n).len() >= 2,
        n >= 1 ==> decimal(n)[0] != '0',
        forall|i: int| 0 <= i < decimal(n).len() ==> is_digit(#[trigger] decimal(n)[i]),
    decreases n,
{
    if n < 10 {
        lemma_digit(n as int);
    } else {
        lemma_decimal_shape(n / 10);
        lemma_digit((n % 10) as int);
        let p = decimal(n / 10);
        assert forall|i: int| 0 <= i < decimal(n).len() implies is_digit(#[trigger] decimal(n)[i]) by {
            if i < p.len() {
                assert(decimal(n)[i] == p[i]);
            }
        }
        assert(decimal(n)[0] == p[0]);
    }
}

proof fn lemma_decimal_injective(a: nat, b: nat)
    requires
        decimal(a) == decimal(b),
    ensures
        a == b,
    decreases a,
{
    lemma_decimal_shape(a);
    lemma_decimal_shape(b);
    if a < 10 {
        assert(decimal(a).len() == 1);
    }
    if b < 10 {
        assert(decimal(b).len() == 1);
    }
    if a < 10 && b < 10 {
        lemma_digit(a as int);
        lemma_digit(b as int);
        assert(decimal(a)[0] == decimal(b)[0]);
    } else if a >= 10 && b >= 10 {
        lemma_digit((a % 10) as int);
        lemma_digit((b % 10) as int);
        assert(decimal(a).last() == decimal(b).last());
        assert(decimal(a).drop_last() =~= decimal(a / 10));
        assert(decimal(b).drop_last() =~= decimal(b / 10));
        lemma_decimal_injective(a / 10, b / 10);
        assert(decimal(a).last() == digit((a % 10) as int));
        assert(decimal(b).last() == digit((b % 10) as int));
    }
}

proof fn lemma_padded_injective(a: nat, b: nat, w: int)
    requires
        padded(a, w) == padded(b, w),
    ensures
        a == b,
{
    lemma_decimal_shape(a);
    lemma_decimal_shape(b);
    let da = decimal(a);
    let db = decimal(b);
    let za = zeros(w - da.len());
    let zb = zeros(w - db.len());
    if za.len() == zb.len() {
        assert(da =~= padded(a, w).subrange(za.len() as int, padded(a, w).len() as int));
        assert(db =~= padded(b, w).subrange(zb.len() as int, padded(b, w).len() as int));
        lemma_decimal_injective(a, b);
    } else if za.len() < zb.len() {
        // position za.len(): first digit of a, a zero of b
        assert(padded(a, w)[za.len() as int] == da[0]);
        assert(padded(b, w)[za.len() as int] == '0');
        assert(da.len() > db.len());
        assert(a >= 1) by {
            if a == 0 {
                assert(decimal(0) =~= seq![digit(0)]);
            }
        }
    } else {
        assert(padded(b, w)[zb.len() as int] == db[0]);
        assert(padded(a, w)[zb.len() as int] == '0');
        assert(db.len() > da.len());
        assert(b >= 1) by {
            if b == 0 {
                assert(decimal(0) =~= seq![digit(0)]);
            }
        }
    }
}

proof fn lemma_year_text_injective(a: int, b: int)
    requires
        year_text(a) == year_text(b),
    ensures
        a == b,
{
    let ya = year_text(a);
    let yb = year_text(b);
    lemma_decimal_shape(if a >= 0 { a as nat } else { (-a) as nat });
    lemma_decimal_shape(if b >= 0 { b as nat } else { (-b) as nat });
    let sa: int = if 0 <= a <= 9999 { 0 } else if a >= 0 { 1 } else { 2 };
    let sb: int = if 0 <= b <= 9999 { 0 } else if b >= 0 { 1 } else { 2 };
    if sa == 0 && sb == 0 {
        lemma_padded_injective(a as nat, b as nat, 4);
    } else if sa != 0 && sb != 0 {
        let ma: nat = if a >= 0 { a as nat } else { (-a) as nat };
        let mb: nat = if b >= 0 { b as nat } else { (-b) as nat };
        assert(ya[0] == yb[0]);
        assert(padded(ma, 4) =~= ya.drop_first());
        assert(padded(mb, 4) =~= yb.drop_first());
        lemma_padded_injective(ma, mb, 4);
    } else {
        // one starts with a sign, the other with a digit
        let m: nat = if sa == 0 { a as nat } else { b as nat };
        lemma_decimal_shape(m);
        let d = decimal(m);
        let z = zeros(4 - d.len());
        let p = padded(m, 4);
        assert(is_digit(p[0])) by {
            if z.len() > 0 {
                assert(p[0] == '0');
            } else {
                assert(p[0] == d[0]);
            }
        }
        assert(ya[0] == yb[0]);
    }
}

/// Two two-digit fields below one hundred are written alike only when equal.
proof fn lemma_two_digits(n: u32)
    requires
        n < 100,
    ensures
        two(n) == seq![digit((n / 10) as int), digit((n % 10) as int)],
{
    if n < 10 {
        assert(two(n) =~= seq![digit((n / 10) as int), digit((n % 10) as int)]);
    } else {
        assert(decimal((n / 10) as nat) =~= seq![digit((n / 10) as int)]);
        assert(two(n) =~= seq![digit((n / 10) as int), digit((n % 10) as int)]);
    }
}

proof fn lemma_two_injective(a: u32, b: u32)
    requires
        a < 100,
        b < 100,
        two(a)[0] == two(b)[0],
        two(a)[1] == two(b)[1],
    ensures
        a == b,
{
    lemma_two_digits(a);
    lemma_two_digits(b);
    lemma_digit((a / 10) as int);
    lemma_digit((b / 10) as int);
    lemma_digit((a % 10) as int);
    lemma_digit((b % 10) as int);
}

/// Whether a calendar reading's month, day, hour, minute and second are
/// below one hundred (two digits each).
pub open spec fn small_fields(f: LocalFields) -> bool {
    f.month < 100 && f.day < 100 && f.hour < 100 && f.minute < 100 && f.second < 100
}

#[verifier::rlimit(50)]
proof fn lemma_label_injective_hms(f1: LocalFields, f2: LocalFields)
    requires
        label_for(Interval::RawSec, f1) == label_for(Interval::RawSec, f2),
        small_fields(f1),
        small_fields(f2),
    ensures
        f1.hour == f2.hour && f1.minute == f2.minute && f1.second == f2.second,
{
    let l1 = label_for(Interval::RawSec, f1);
    let l2 = label_for(Interval::RawSec, f2);
    lemma_two_digits(f1.hour);
    lemma_two_digits(f1.minute);
    lemma_two_digits(f1.second);
    lemma_two_digits(f2.hour);
    lemma_two_digits(f2.minute);
    lemma_two_digits(f2.second);
    assert(l1[0] == l2[0] && l1[1] == l2[1] && l1[3] == l2[3] && l1[4] == l2[4]);
    assert(l1[6] == l2[6] && l1[7] == l2[7]);
    lemma_two_injective(f1.hour, f2.hour);
    lemma_two_injective(f1.minute, f2.minute);
    lemma_two_injective(f1.second, f2.second);
}

#[verifier::rlimit(50)]
proof fn lemma_label_injective_hm(f1: LocalFields, f2: LocalFields)
    requires
        label_for(Interval::Minute, f1) == label_for(Interval::Minute, f2),
        small_fields(f1),
        small_fields(f2),
    ensures
        f1.hour == f2.hour && f1.minute == f2.minute,
{
    let l1 = label_for(Interval::Minute, f1);
    let l2 = label_for(Interval::Minute, f2);
    lemma_two_digits(f1.hour);
    lemma_two_digits(f1.minute);
    lemma_two_digits(f2.hour);
    lemma_two_digits(f2.minute);
    assert(l1[0] == l2[0] && l1[1] == l2[1] && l1[3] == l2[3] && l1[4] == l2[4]);
    lemma_two_injective(f1.hour, f2.hour);
    lemma_two_injective(f1.minute, f2.minute);
}

#[verifier::rlimit(50)]
proof fn lemma_label_injective_mdh(f1: LocalFields, f2: LocalFields)
    requires
        label_for(Interval::Hour, f1) == label_for(Interval::Hour, f2),
        small_fields(f1),
        small_fields(f2),
    ensures
        f1.month == f2.month && f1.day == f2.day && f1.hour == f2.hour,
{
    let l1 = label_for(Interval::Hour, f1);
    let l2 = label_for(Interval::Hour, f2);
    lemma_two_digits(f1.month);
    lemma_two_digits(f1.day);
    lemma_two_digits(f1.hour);
    lemma_two_digits(f2.month);
    lemma_two_digits(f2.day);
    lemma_two_digits(f2.hour);
    assert(l1[0] == l2[0] && l1[1] == l2[1] && l1[3] == l2[3] && l1[4] == l2[4]);
    assert(l1[6] == l2[6] && l1[7] == l2[7]);
    lemma_two_injective(f1.month, f2.month);
    lemma_two_injective(f1.day, f2.day);
    lemma_two_injective(f1.hour, f2.hour);
}

#[verifier::rlimit(50)]
proof fn lemma_label_injective_ymd(f1: LocalFields, f2: LocalFields)
    requires
        label_for(Interval::Day, f1) == label_for(Interval::Day, f2),
        small_fields(f1),
        small_fields(f2),
    ensures
        f1.year == f2.year && f1.month == f2.month && f1.day == f2.day,
{
    let l1 = label_for(Interval::Day, f1);
    let l2 = label_for(Interval::Day, f2);
    lemma_two_digits(f1.month);
    lemma_two_digits(f1.day);
    lemma_two_digits(f2.month);
    lemma_two_digits(f2.day);
    let y1 = year_text(f1.year as int);
    let y2 = year_text(f2.year as int);
    let n1 = l1.len();
    assert(n1 == y1.len() + 6);
    assert(l2.len() == y2.len() + 6);
    assert(y1.len() == y2.len());
    assert(l1[n1 - 5] == two(f1.month)[0] && l2[n1 - 5] == two(f2.month)[0]);
    assert(l1[n1 - 4] == two(f1.month)[1] && l2[n1 - 4] == two(f2.month)[1]);
    assert(l1[n1 - 2] == two(f1.day)[0] && l2[n1 - 2] == two(f2.day)[0]);
    assert(l1[n1 - 1] == two(f1.day)[1] && l2[n1 - 1] == two(f2.day)[1]);
    lemma_two_injective(f1.month, f2.month);
    lemma_two_injective(f1.day, f2.day);
    assert(y1 =~= l1.subrange(0, y1.len() as int));
    assert(y2 =~= l2.subrange(0, y2.len() as int));
    lemma_year_text_injective(f1.year as int, f2.year as int);
}

/// Equal bucket labels of calendar readings with fields below one hundred
/// come from equal fields: the hour, minute and second by second; the hour
/// and minute by minute; the month, day and hour by hour; the year, month
/// and day by day.
pub proof fn lemma_label_injective(iv: Interval, f1: LocalFields, f2: LocalFields)
    requires
        label_for(iv, f1) == label_for(iv, f2),
        f1.month < 100 && f1.day < 100 && f1.hour < 100 && f1.minute < 100 && f1.second < 100,
        f2.month < 100 && f2.day < 100 && f2.hour < 100 && f2.minute < 100 && f2.second < 100,
    ensures
        match iv {
            Interval::RawSec => f1.hour == f2.hour && f1.minute == f2.minute && f1.second == f2.second,
            Interval::Minute => f1.hour == f2.hour && f1.minute == f2.minute,
            Interval::Hour => f1.month == f2.month && f1.day == f2.day && f1.hour == f2.hour,
            Interval::Day => f1.year == f2.year && f1.month == f2.month && f1.day == f2.day,
        },
{
    match iv {
        Interval::RawSec => lemma_label_injective_hms(f1, f2),
        Interval::Minute => lemma_label_injective_hm(f1, f2),
        Interval::Hour => lemma_label_injective_mdh(f1, f2),
        Interval::Day => lemma_label_injective_ymd(f1, f2),
    }
}

/// Whether two calendar readings agree on the fields a bucket width's label
/// names: hour, minute and second by second; hour and minute by minute;
/// month, day and hour by hour; year, month and day by day.
pub open spec fn same_named_fields(iv: Interval, f1: LocalFields, f2: LocalFields) -> bool {
    match iv {
        Interval::RawSec => f1.hour == f2.hour && f1.minute == f2.minute && f1.second == f2.second,
        Interval::Minute => f1.hour == f2.hour && f1.minute == f2.minute,
        Interval::Hour => f1.month == f2.month && f1.day == f2.day && f1.hour == f2.hour,
        Interval::Day => f1.year == f2.year && f1.month == f2.month && f1.day == f2.day,
    }
}

/// Two calendar readings (fields below one hundred) get the same bucket
/// label exactly when they agree on the fields the label's format names:
/// a label depends on no other field, and tells those fields apart.
pub proof fn lemma_label_equal_iff(iv: Interval, f1: LocalFields, f2: LocalFields)
    requires
        small_fields(f1),
        small_fields(f2),
    ensures
        label_for(iv, f1) == label_for(iv, f2) <==> same_named_fields(iv, f1, f2),
{
    if label_for(iv, f1) == label_for(iv, f2) {
        lemma_label_injective(iv, f1, f2);
    }
}

/// Two calendar readings (fields below one hundred) are written alike as
/// `%Y-%m-%d %H:%M:%S` exactly when they agree on year, month, day, hour,
/// minute and second.
pub proof fn lemma_datetime_text_equal_iff(f1: LocalFields, f2: LocalFields)
    requires
        small_fields(f1),
        small_fields(f2),
    ensures
        datetime_text(f1) == datetime_text(f2) <==> (f1.year == f2.year && f1.month == f2.month
            && f1.day == f2.day && f1.hour == f2.hour && f1.minute == f2.minute && f1.second == f2.second),
{
    if datetime_text(f1) == datetime_text(f2) {
        lemma_datetime_text_injective(f1, f2);
    }
}

#[verifier::rlimit(50)]
proof fn lemma_datetime_text_injective(f1: LocalFields, f2: LocalFields)
    requires
        datetime_text(f1) == datetime_text(f2),
        small_fields(f1),
        small_fields(f2),
    ensures
        f1.year == f2.year && f1.month == f2.month && f1.day == f2.day && f1.hour == f2.hour
            && f1.minute == f2.minute && f1.second == f2.second,
{
    let l1 = datetime_text(f1);
    let l2 = datetime_text(f2);
    lemma_two_digits(f1.month);
    lemma_two_digits(f1.day);
    lemma_two_digits(f1.hour);
    lemma_two_digits(f1.minute);
    lemma_two_digits(f1.second);
    lemma_two_digits(f2.month);
    lemma_two_digits(f2.day);
    lemma_two_digits(f2.hour);
    lemma_two_digits(f2.minute);
    lemma_two_digits(f2.second);
    let y1 = year_text(f1.year as int);
    let y2 = year_text(f2.year as int);
    let n = l1.len();
    assert(n == y1.len() + 15);
    assert(l2.len() == y2.len() + 15);
    assert(y1.len() == y2.len());
    let k = y1.len() as int;
    assert(l1[k + 1] == two(f1.month)[0] && l2[k + 1] == two(f2.month)[0]);
    assert(l1[k + 2] == two(f1.month)[1] && l2[k + 2] == two(f2.month)[1]);
    assert(l1[k + 4] == two(f1.day)[0] && l2[k + 4] == two(f2.day)[0]);
    assert(l1[k + 5] == two(f1.day)[1] && l2[k + 5] == two(f2.day)[1]);
    assert(l1[k + 7] == two(f1.hour)[0] && l2[k + 7] == two(f2.hour)[0]);
    assert(l1[k + 8] == two(f1.hour)[1] && l2[k + 8] == two(f2.hour)[1]);
    assert(l1[k + 10] == two(f1.minute)[0] && l2[k + 10] == two(f2.minute)[0]);
    assert(l1[k + 11] == two(f1.minute)[1] && l2[k + 11] == two(f2.minute)[1]);
    assert(l1[k + 13] == two(f1.second)[0] && l2[k + 13] == two(f2.second)[0]);
    assert(l1[k + 14] == two(f1.second)[1] && l2[k + 14] == two(f2.second)[1]);
    lemma_two_injective(f1.month, f2.month);
    lemma_two_injective(f1.day, f2.day);
    lemma_two_injective(f1.hour, f2.hour);
    lemma_two_injective(f1.minute, f2.minute);
    lemma_two_injective(f1.second, f2.second);
    assert(y1 =~= l1.subrange(0, k));
    assert(y2 =~= l2.subrange(0, k));
    lemma_year_text_injective(f1.year as int, f2.year as int);
}

/// The order of `String`s: lexicographic by character (for UTF-8 text this
/// is the same as the byte order `String` compares by).
pub open spec fn lex_lt(a: Seq<char>, b: Seq<char>) -> bool
    decreases a.len(),
{
    if a.len() == 0 {
        b.len() > 0
    } else if b.len() == 0 {
        false
    } else if a[0] != b[0] {
        (a[0] as int) < (b[0] as int)
    } else {
        lex_lt(a.drop_first(), b.drop_first())
    }
}

/// No text comes before itself.
pub proof fn lemma_lex_irreflexive(a: Seq<char>)
    ensures
        !lex_lt(a, a),
    decreases a.len(),
{
    if a.len() > 0 {
        lemma_lex_irreflexive(a.drop_first());
    }
}

/// Of two texts that come before one another, neither does.
pub proof fn lemma_lex_asymmetric(a: Seq<char>, b: Seq<char>)
    ensures
        lex_lt(a, b) ==> !lex_lt(b, a),
    decreases a.len(),
{
    if a.len() > 0 && b.len() > 0 && a[0] == b[0] {
        lemma_lex_asymmetric(a.drop_first(), b.drop_first());
    }
}

/// The order is transitive.
pub proof fn lemma_lex_transitive(a: Seq<char>, b: Seq<char>, c: Seq<char>)
    requires
        lex_lt(a, b),
        lex_lt(b, c),
    ensures
        lex_lt(a, c),
    decreases a.len(),
{
    if a.len() > 0 && b.len() > 0 && c.len() > 0 && a[0] == b[0] && b[0] == c[0] {
        lemma_lex_transitive(a.drop_first(), b.drop_first(), c.drop_first());
    }
}

/// Of two different texts, one comes before the other.
pub proof fn lemma_lex_total(a: Seq<char>, b: Seq<char>)
    ensures
        a != b ==> lex_lt(a, b) || lex_lt(b, a),
    decreases a.len(),
{
    if a.len() > 0 && b.len() > 0 && a[0] == b[0] {
        lemma_lex_total(a.drop_first(), b.drop_first());
        if a.drop_first() == b.drop_first() {
            assert(a =~= seq![a[0]] + a.drop_first());
            assert(b =~= seq![b[0]] + b.drop_first());
        }
    } else if a.len() == 0 && b.len() == 0 {
        assert(a =~= b);
    }
}

fn less_from(a: &Vec<char>, b: &Vec<char>, i: usize) -> (r: bool)
    requires
        i <= a@.len(),
        i <= b@.len(),
    ensures
        r == lex_lt(a@.skip(i as int), b@.skip(i as int)),
    decreases a@.len() - i,
{
    if i == a.len() {
        i < b.len()
    } else if i == b.len() {
        false
    } else if a[i] != b[i] {
        a[i] < b[i]
    } else {
        assert(a@.skip(i as int).drop_first() =~= a@.skip(i + 1));
        assert(b@.skip(i as int).drop_first() =~= b@.skip(i + 1));
        less_from(a, b, i + 1)
    }
}

/// Whether text `a` sorts before text `b`.
pub fn label_less(a: &Vec<char>, b: &Vec<char>) -> (r: bool)
    ensures
        r == lex_lt(a@, b@),
{
    assert(a@.skip(0) =~= a@);
    assert(b@.skip(0) =~= b@);
    less_from(a, b, 0)
}

/// Whether two texts are the same.
pub fn same_text(a: &Vec<char>, b: &Vec<char>) -> (r: bool)
    ensures
        r == (a@ == b@),
{
    if a.len() != b.len() {
        return false;
    }
    let mut i: usize = 0;
    while i < a.len()
        invariant
            a@.len() == b@.len(),
            i <= a@.len(),
            forall|j: int| 0 <= j < i ==> a@[j] == b@[j],
        decreases a@.len() - i,
    {
        if a[i] != b[i] {
            return false;
        }
        i = i + 1;
    }
    assert(a@ =~= b@);
    true
}

/// Calls `String`'s `FromIterator<&char>`; claims the string holds the characters.
#[verifier::external_body]
pub(crate) fn chars_to_string(v: &Vec<char>) -> (s: String)
    ensures
        s@ == v@,
{
    v.iter().collect()
}

/// Appends the decimal digits of `n`.
pub fn push_decimal(out: &mut Vec<char>, n: u64)
    ensures
        final(out)@ == old(out)@ + decimal(n as nat),
    decreases n,
{
    if n >= 10 {
        push_decimal(out, n / 10);
    }
    let ghost before = out@;
    let d: u8 = (n % 10) as u8;
    out.push((d + 48) as char);
    proof {
        if n >= 10 {
            assert(out@ =~= old(out)@ + decimal((n / 10) as nat).push(digit((n % 10) as int)));
        } else {
            assert(out@ =~= old(out)@ + decimal(n as nat));
        }
    }
}

/// Appends the decimal digits of `n`, zero-padded on the left to `width`.
pub fn push_padded(out: &mut Vec<char>, n: u64, width: usize)
    ensures
        final(out)@ == old(out)@ + padded(n as nat, width as int),
{
    let mut digits: Vec<char> = Vec::new();
    push_decimal(&mut digits, n);
    assert(digits@ =~= decimal(n as nat));
    let fill: usize = if digits.len() < width { width - digits.len() } else { 0 };
    let ghost start = out@;
    let mut i: usize = 0;
    while i < fill
        invariant
            i <= fill,
            out@ == start + zeros(i as int),
        decreases fill - i,
    {
        out.push('0');
        i = i + 1;
        assert(out@ =~= start + zeros(i as int));
    }
    assert(zeros(fill as int) =~= zeros(width - decimal(n as nat).len()));
    out.append(&mut digits);
    assert(out@ =~= start + padded(n as nat, width as int));
}

/// Appends a year as chrono's `%Y` writes it.
pub fn push_year(out: &mut Vec<char>, y: i32)
    ensures
        final(out)@ == old(out)@ + year_text(y as int),
{
    if 0 <= y && y <= 9999 {
        push_padded(out, y as u64, 4);
    } else if y >= 0 {
        out.push('+');
        push_padded(out, y as u64, 4);
        assert(out@ =~= old(out)@ + year_text(y as int));
    } else {
        out.push('-');
        let m: u64 = (0i64 - (y as i64)) as u64;
        push_padded(out, m, 4);
        assert(out@ =~= old(out)@ + year_text(y as int));
    }
}

fn push_two(out: &mut Vec<char>, n: u32)
    ensures
        final(out)@ == old(out)@ + two(n),
{
    push_padded(out, n as u64, 2);
}

/// The bucket label of a calendar reading for a bucket width.
pub fn bucket_label(iv: Interval, f: &LocalFields) -> (r: Vec<char>)
    ensures
        r@ == label_for(iv, *f),
{
    let mut out: Vec<char> = Vec::new();
    match iv {
        Interval::RawSec => {
            push_two(&mut out, f.hour);
            out.push(':');
            push_two(&mut out, f.minute);
            out.push(':');
            push_two(&mut out, f.second);
        },
        Interval::Minute => {
            push_two(&mut out, f.hour);
            out.push(':');
            push_two(&mut out, f.minute);
        },
        Interval::Hour => {
            push_two(&mut out, f.month);
            out.push('-');
            push_two(&mut out, f.day);
            out.push(' ');
            push_two(&mut out, f.hour);
            out.push(':');
            out.push('0');
            out.push('0');
        },
        Interval::Day => {
            push_year(&mut out, f.year);
            out.push('-');
            push_two(&mut out, f.month);
            out.push('-');
            push_two(&mut out, f.day);
        },
    }
    assert(out@ =~= label_for(iv, *f));
    out
}

/// A calendar reading written as `%Y-%m-%d %H:%M:%S`.
pub fn datetime_string(f: &LocalFields) -> (r: String)
    ensures
        r@ == datetime_text(*f),
{
    let mut out: Vec<char> = Vec::new();
    push_year(&mut out, f.year);
    out.push('-');
    push_two(&mut out, f.month);
    out.push('-');
    push_two(&mut out, f.day);
    out.push(' ');
    push_two(&mut out, f.hour);
    out.push(':');
    push_two(&mut out, f.minute);
    out.push(':');
    push_two(&mut out, f.second);
    assert(out@ =~= datetime_text(*f));
    chars_to_string(&out)
}

/// The name of a bucket width.
pub fn interval_name_string(iv: Interval) -> (r: String)
    ensures
        r@ == interval_name(iv),
{
    match iv {
        Interval::RawSec => String::from_str("Raw (Sec)"),
        Interval::Minute => String::from_str("Minute"),
        Interval::Hour => String::from_str("Hour"),
        Interval::Day => String::from_str("Day"),
    }
}

} // verus!
