//! Calendar arithmetic: Julian Day Numbers of proleptic Gregorian dates,
//! their ISO text form, and weekdays.
use vstd::prelude::*;

verus! {

/// Rust's integer division, which rounds toward zero (for a positive divisor).
pub open spec fn tdiv(a: int, b: int) -> int {
    if a >= 0 {
        a / b
    } else {
        -((-a) / b)
    }
}

/// The Julian Day Number formula (Fliegel & Van Flandern) evaluated with
/// Rust's truncating division, for any year, month and day.
pub open spec fn jdn_of(y: int, m: int, d: int) -> int {
    let a = tdiv(14 - m, 12);
    let y2 = y + 4800 - a;
    let m2 = m + 12 * a - 3;
    d + tdiv(153 * m2 + 2, 5) + 365 * y2 + tdiv(y2, 4) - tdiv(y2, 100) + tdiv(y2, 400) - 32045
}

/// Gregorian leap year.
pub open spec fn is_leap(y: int) -> bool {
    y % 4 == 0 && (y % 100 != 0 || y % 400 == 0)
}

/// Number of days in month `m` (1..=12) of year `y`.
pub open spec fn days_in_month(y: int, m: int) -> int {
    if m == 2 {
        if is_leap(y) { 29 } else { 28 }
    } else if m == 4 || m == 6 || m == 9 || m == 11 {
        30
    } else {
        31
    }
}

/// A real calendar date.
pub open spec fn valid_date(y: int, m: int, d: int) -> bool {
    &&& 0 <= y
    &&& 1 <= m <= 12
    &&& 1 <= d <= days_in_month(y, m)
}

/// The calendar day after `(y, m, d)`.
pub open spec fn next_day(y: int, m: int, d: int) -> (int, int, int) {
    if d < days_in_month(y, m) {
        (y, m, d + 1)
    } else if m < 12 {
        (y, m + 1, 1)
    } else {
        (y + 1, 1, 1)
    }
}

/// The inverse formula from a day number to (year, month, day), evaluated
/// with Rust's truncating division.
pub open spec fn ymd_of(j: int) -> (int, int, int) {
    let a = j + 32044;
    let b = tdiv(4 * a + 3, 146097);
    let c = a - tdiv(146097 * b, 4);
    let d2 = tdiv(4 * c + 3, 1461);
    let e = c - tdiv(1461 * d2, 4);
    let m = tdiv(5 * e + 2, 153);
    let day = e - tdiv(153 * m + 2, 5) + 1;
    let month = m + 3 - 12 * tdiv(m, 10);
    let year = 100 * b + d2 - 4800 + tdiv(m, 10);
    (year, month, day)
}

/// Day numbers on which the inverse formula runs without overflow.
pub open spec fn jdn_in_range(j: int) -> bool {
    -500_000_000 <= j <= 500_000_000
}

/// Decimal digits of a natural number, most significant first (no leading zeros;
/// zero is the single digit `0`).
pub open spec fn decimal(n: nat) -> Seq<char>
    decreases n,
{
    if n < 10 {
        seq![digit_char(n)]
    } else {
        decimal(n / 10).push(digit_char(n % 10))
    }
}

pub open spec fn digit_char(n: nat) -> char {
    if n == 0 { '0' } else if n == 1 { '1' } else if n == 2 { '2' } else if n == 3 { '3' }
    else if n == 4 { '4' } else if n == 5 { '5' } else if n == 6 { '6' } else if n == 7 { '7' }
    else if n == 8 { '8' } else { '9' }
}

/// `n` written with at least `width` characters, padded with leading zeros,
/// a minus sign counting toward the width (as `format!("{:0w$}")` does).
pub open spec fn padded(n: int, width: nat) -> Seq<char> {
    if n >= 0 {
        zeros((width - decimal(n as nat).len()) as int) + decimal(n as nat)
    } else {
        seq!['-'] + zeros((width - 1 - decimal((-n) as nat).len()) as int) + decimal((-n) as nat)
    }
}

pub open spec fn zeros(k: int) -> Seq<char> {
    if k <= 0 { Seq::empty() } else { Seq::new(k as nat, |i: int| '0') }
}

/// `YYYY-MM-DD`, the ISO text of a (year, month, day) triple.
pub open spec fn iso_text(y: int, m: int, d: int) -> Seq<char> {
    padded(y, 4) + seq!['-'] + padded(m, 2) + seq!['-'] + padded(d, 2)
}

/// The day number of a real date, written with the month counted from March
/// (`mm` in 0..=11) and the year `yy` in which that March falls, shifted by 4800.
proof fn lemma_jdn_march(y: int, m: int, d: int) -> (r: (int, int))
    requires
        valid_date(y, m, d),
    ensures
        r.0 == y + 4800 - (if m <= 2 { 1int } else { 0int }),
        r.1 == m + 12 * (if m <= 2 { 1int } else { 0int }) - 3,
        0 <= r.1 <= 11,
        r.0 >= 4799,
        jdn_of(y, m, d) == d + (153 * r.1 + 2) / 5 + 365 * r.0 + r.0 / 4 - r.0 / 100 + r.0 / 400
            - 32045,
{
    let a: int = if m <= 2 { 1 } else { 0 };
    assert(tdiv(14 - m, 12) == a);
    let yy = y + 4800 - a;
    let mm = m + 12 * a - 3;
    assert(tdiv(153 * mm + 2, 5) == (153 * mm + 2) / 5);
    assert(tdiv(yy, 4) == yy / 4);
    assert(tdiv(yy, 100) == yy / 100);
    assert(tdiv(yy, 400) == yy / 400);
    (yy, mm)
}

/// Days before the first of March-based month `mm` (0 = March … 11 = February).
spec fn month_start(mm: int) -> int {
    (153 * mm + 2) / 5
}

/// Length of March-based month `mm`, February counted with 29 days.
spec fn month_len(mm: int) -> int {
    if mm == 11 { 29 } else if mm == 1 || mm == 3 || mm == 6 || mm == 8 { 30 } else { 31 }
}

proof fn lemma_month_table(mm: int, t: int)
    requires
        0 <= mm <= 11,
        month_start(mm) <= t < month_start(mm) + month_len(mm),
    ensures
        (5 * t + 2) / 153 == mm,
        mm < 11 ==> month_start(mm + 1) == month_start(mm) + month_len(mm),
        month_start(11) == 337,
        month_start(10) == 306,
        month_start(9) == 275,
        month_start(0) == 0,
{
    assert(month_start(0) == 0);
    assert(month_start(1) == 31);
    assert(month_start(2) == 61);
    assert(month_start(3) == 92);
    assert(month_start(4) == 122);
    assert(month_start(5) == 153);
    assert(month_start(6) == 184);
    assert(month_start(7) == 214);
    assert(month_start(8) == 245);
    assert(month_start(9) == 275);
    assert(month_start(10) == 306);
    assert(month_start(11) == 337);
    assert(month_start(12) == 367);
}

/// The day numbers of consecutive real dates are consecutive: the day after a
/// date has the next day number.
pub proof fn lemma_next_day(y: int, m: int, d: int)
    requires
        valid_date(y, m, d),
    ensures
        valid_date(next_day(y, m, d).0, next_day(y, m, d).1, next_day(y, m, d).2),
        jdn_of(next_day(y, m, d).0, next_day(y, m, d).1, next_day(y, m, d).2) == jdn_of(y, m, d)
            + 1,
{
    let (y1, m1, d1) = next_day(y, m, d);
    let (yy, mm) = lemma_jdn_march(y, m, d);
    assert(valid_date(y1, m1, d1));
    let (yy1, mm1) = lemma_jdn_march(y1, m1, d1);
    lemma_month_table(mm, month_start(mm));
    if d < days_in_month(y, m) {
    } else if m == 2 {
        // February to March: the March-based year moves on by one.
        assert(yy1 == yy + 1);
        assert(mm1 == 0);
        assert((yy + 1) / 4 - yy / 4 == (if (yy + 1) % 4 == 0 { 1int } else { 0int }));
        assert((yy + 1) / 100 - yy / 100 == (if (yy + 1) % 100 == 0 { 1int } else { 0int }));
        assert((yy + 1) / 400 - yy / 400 == (if (yy + 1) % 400 == 0 { 1int } else { 0int }));
        assert(is_leap(y) == is_leap(yy + 1));
    } else if m == 12 {
        assert(yy1 == yy);
        assert(mm1 == 10);
    } else {
        assert(yy1 == yy);
        assert(mm1 == mm + 1);
    }
}

/// Reading a date back from its day number gives the date itself.
pub proof fn lemma_ymd_of_jdn(y: int, m: int, d: int)
    requires
        valid_date(y, m, d),
    ensures
        ymd_of(jdn_of(y, m, d)) == (y, m, d),
{
    let (yy, mm) = lemma_jdn_march(y, m, d);
    let t = d - 1 + month_start(mm);
    assert(month_start(mm) <= t < month_start(mm) + month_len(mm));
    lemma_month_table(mm, t);
    // Leap days fall only where the calendar has them.
    assert(t == 365 ==> mm == 11 && d == 29 && is_leap(y));
    assert(mm == 11 ==> is_leap(y) == is_leap(yy + 1));
    let big_b = yy / 100;
    let r = yy % 100;
    let s = big_b % 4;
    let u = r % 4;
    assert(yy / 4 == 25 * big_b + r / 4);
    assert(yy / 400 == big_b / 4);
    let c = 365 * r + r / 4 + t;
    let big_a = 36524 * big_b + big_b / 4 + c;
    assert(jdn_of(y, m, d) + 32044 == big_a);
    // The century.
    assert(t == 365 ==> u == 3);
    assert(t == 365 && r == 99 ==> s == 3);
    assert(4 * big_a + 3 == 146097 * big_b + (4 * c + 3 - s));
    assert(0 <= 4 * c + 3 - s < 146097);
    vstd::arithmetic::div_mod::lemma_fundamental_div_mod_converse(
        4 * big_a + 3,
        146097,
        big_b,
        4 * c + 3 - s,
    );
    assert((146097 * big_b) / 4 == 36524 * big_b + big_b / 4);
    // The year within the century.
    assert(4 * c + 3 == 1461 * r + (4 * t + 3 - u));
    assert(0 <= 4 * t + 3 - u < 1461);
    vstd::arithmetic::div_mod::lemma_fundamental_div_mod_converse(
        4 * c + 3,
        1461,
        r,
        4 * t + 3 - u,
    );
    assert((1461 * r) / 4 == 365 * r + r / 4);
    let j = jdn_of(y, m, d);
    assert(tdiv(4 * (j + 32044) + 3, 146097) == big_b);
    assert(tdiv(146097 * big_b, 4) == 36524 * big_b + big_b / 4);
    assert(tdiv(4 * c + 3, 1461) == r);
    assert(tdiv(1461 * r, 4) == 365 * r + r / 4);
    assert(tdiv(5 * t + 2, 153) == mm);
    assert(tdiv(153 * mm + 2, 5) == month_start(mm));
    assert(tdiv(mm, 10) == (if mm >= 10 { 1int } else { 0int }));
}

/// Julian Day Number of a date given as year, month, day.
pub fn ymd_to_jdn(year: u16, month: u8, day: u8) -> (r: i32)
    ensures
        r == jdn_of(year as int, month as int, day as int),
        1_000_000 <= r <= 30_000_000,
{
    let y = year as i32;
    let m = month as i32;
    let d = day as i32;
    let a = (14 - m) / 12;
    let y2 = y + 4800 - a;
    let m2 = m + 12 * a - 3;
    d + (153 * m2 + 2) / 5 + 365 * y2 + y2 / 4 - y2 / 100 + y2 / 400 - 32045
}

/// (year, month, day) of a Julian Day Number.
pub fn jdn_to_ymd(j: i32) -> (r: (i32, i32, i32))
    requires
        jdn_in_range(j as int),
    ensures
        (r.0 as int, r.1 as int, r.2 as int) == ymd_of(j as int),
{
    let a = j + 32044;
    let b = (4 * a + 3) / 146097;
    let c = a - (146097 * b) / 4;
    let d2 = (4 * c + 3) / 1461;
    let e = c - (1461 * d2) / 4;
    let m = (5 * e + 2) / 153;
    let day = e - (153 * m + 2) / 5 + 1;
    let month = m + 3 - 12 * (m / 10);
    let year = 100 * b + d2 - 4800 + m / 10;
    (year, month, day)
}

/// ISO `YYYY-MM-DD` text of a Julian Day Number.
pub fn jdn_to_iso(j: i32) -> (s: String)
    requires
        jdn_in_range(j as int),
    ensures
        s@ == iso_text(ymd_of(j as int).0, ymd_of(j as int).1, ymd_of(j as int).2),
{
    let (year, month, day) = jdn_to_ymd(j);
    let mut s = String::new();
    push_padded(&mut s, year, 4);
    push_str(&mut s, "-");
    push_padded(&mut s, month, 2);
    push_str(&mut s, "-");
    push_padded(&mut s, day, 2);
    proof {
        reveal_strlit("-");
        assert(s@ =~= iso_text(year as int, month as int, day as int));
    }
    s
}

fn push_str(s: &mut String, t: &str)
    ensures
        final(s)@ == old(s)@ + t@,
{
    s.append(t);
}

/// Appends the decimal digits of `n`.
fn push_decimal(s: &mut String, n: u32)
    ensures
        final(s)@ == old(s)@ + decimal(n as nat),
    decreases n,
{
    if n >= 10 {
        push_decimal(s, n / 10);
    }
    push_digit(s, n % 10);
    proof {
        if n >= 10 {
            assert(decimal(n as nat) == decimal((n / 10) as nat).push(digit_char((n % 10) as nat)));
        }
    }
}

fn push_digit(s: &mut String, d: u32)
    requires
        d < 10,
    ensures
        final(s)@ == old(s)@ + seq![digit_char(d as nat)],
{
    let t: &str = if d == 0 { "0" } else if d == 1 { "1" } else if d == 2 { "2" } else if d == 3 {
        "3"
    } else if d == 4 { "4" } else if d == 5 { "5" } else if d == 6 { "6" } else if d == 7 {
        "7"
    } else if d == 8 { "8" } else { "9" };
    proof {
        reveal_strlit("0");
        reveal_strlit("1");
        reveal_strlit("2");
        reveal_strlit("3");
        reveal_strlit("4");
        reveal_strlit("5");
        reveal_strlit("6");
        reveal_strlit("7");
        reveal_strlit("8");
        reveal_strlit("9");
        assert(t@ =~= seq![digit_char(d as nat)]);
    }
    s.append(t);
}

pub open spec fn pow10(k: nat) -> nat
    decreases k,
{
    if k == 0 { 1 } else { 10 * pow10((k - 1) as nat) }
}

proof fn lemma_decimal_len(n: nat, k: nat)
    requires
        k >= 1,
        n < pow10(k),
    ensures
        1 <= decimal(n).len() <= k,
    decreases n,
{
    if n >= 10 {
        assert(k >= 2) by {
            if k == 1 {
                reveal_with_fuel(pow10, 2);
                assert(pow10(1) == 10);
            }
        }
        lemma_decimal_len(n / 10, (k - 1) as nat);
    }
}

/// Appends `count` zeros.
fn push_zeros(s: &mut String, count: u32)
    ensures
        final(s)@ == old(s)@ + zeros(count as int),
{
    let mut i: u32 = 0;
    proof {
        reveal_strlit("0");
    }
    while i < count
        invariant
            i <= count,
            s@ == old(s)@ + zeros(i as int),
        decreases count - i,
    {
        proof {
            reveal_strlit("0");
        }
        s.append("0");
        proof {
            assert(zeros(i as int) + seq!['0'] =~= zeros(i + 1));
        }
        i = i + 1;
    }
}

/// Number of decimal digits of `n`.
fn digit_count(n: u32) -> (k: u32)
    ensures
        k as nat == decimal(n as nat).len(),
        k <= 10,
    decreases n,
{
    proof {
        reveal_with_fuel(pow10, 11);
        assert(pow10(10) == 10_000_000_000);
        lemma_decimal_len(n as nat, 10);
    }
    if n < 10 {
        1
    } else {
        let k = digit_count(n / 10);
        proof {
            assert(decimal(n as nat).len() == decimal((n / 10) as nat).len() + 1);
        }
        k + 1
    }
}

/// Appends `n` zero-padded to at least `width` characters, sign included.
fn push_padded(s: &mut String, n: i32, width: u32)
    requires
        width <= 4,
    ensures
        final(s)@ == old(s)@ + padded(n as int, width as nat),
{
    if n >= 0 {
        let u = n as u32;
        let k = digit_count(u);
        let pad = if k < width { width - k } else { 0 };
        push_zeros(s, pad);
        push_decimal(s, u);
        proof {
            assert(zeros(pad as int) == zeros((width - decimal(n as nat).len()) as int));
            assert(s@ =~= old(s)@ + padded(n as int, width as nat));
        }
    } else {
        let u: u32 = if n == i32::MIN { 2147483648u32 } else { (-n) as u32 };
        let k = digit_count(u);
        push_str(s, "-");
        let pad = if k + 1 < width { width - 1 - k } else { 0 };
        push_zeros(s, pad);
        push_decimal(s, u);
        proof {
            reveal_strlit("-");
            assert(u as int == -(n as int));
            assert(zeros(pad as int) == zeros((width - 1 - decimal((-n) as nat).len()) as int));
            assert(s@ =~= old(s)@ + padded(n as int, width as nat));
        }
    }
}

/// Weekday index (0 = Monday … 6 = Sunday) of a Julian Day Number.
pub fn weekday(jdn: i32) -> (r: usize)
    ensures
        r as int == (jdn as int) % 7,
        r < 7,
{
    let m = jdn % 7;
    if m < 0 {
        (m + 7) as usize
    } else {
        m as usize
    }
}

/// The Julian Day Number of the calendar day holding `secs` seconds after the
/// Unix epoch (1970-01-01 is day 2440588).
pub fn jdn_from_unix_secs(secs: u64) -> (r: i32)
    requires
        secs / 86400 <= 1_000_000_000,
    ensures
        r == 2440588 + secs / 86400,
{
    2440588 + (secs / 86400) as i32
}

} // verus!
