//! Calendar arithmetic: RFC 3339 timestamps and civil dates, over Unix
//! seconds, and the conversions to and from `SystemTime`.
use vstd::prelude::*;
use std::time::{Duration, SystemTime, UNIX_EPOCH};
use crate::text::{chars_of, decimal, push_decimal};

verus! {

#[verifier::external_type_specification]
#[verifier::external_body]
pub struct ExSystemTime(SystemTime);

pub open spec fn is_leap(y: int) -> bool {
    (y % 4 == 0 && y % 100 != 0) || y % 400 == 0
}

pub open spec fn year_len(y: int) -> int {
    if is_leap(y) {
        366
    } else {
        365
    }
}

pub open spec fn month_len(y: int, m: int) -> int {
    if m == 2 {
        if is_leap(y) {
            29
        } else {
            28
        }
    } else if m == 4 || m == 6 || m == 9 || m == 11 {
        30
    } else {
        31
    }
}

/// Days in the months of year `y` before month `m`.
pub open spec fn days_before_month(y: int, m: int) -> int
    decreases m,
{
    if m <= 1 {
        0
    } else {
        days_before_month(y, m - 1) + month_len(y, m - 1)
    }
}

/// Days from 1970-01-01 to January 1st of year `y` (negative before 1970).
pub open spec fn days_to_year(y: int) -> int
    decreases (if y >= 1970 { y - 1970 } else { 1970 - y }),
{
    if y == 1970 {
        0
    } else if y > 1970 {
        days_to_year(y - 1) + year_len(y - 1)
    } else {
        days_to_year(y + 1) - year_len(y)
    }
}

/// Days from 1970-01-01 to the given date.
pub open spec fn days_from_civil(y: int, m: int, d: int) -> int {
    days_to_year(y) + days_before_month(y, m) + (d - 1)
}

pub open spec fn valid_date(y: int, m: int, d: int) -> bool {
    1 <= m <= 12 && 1 <= d <= month_len(y, m)
}

proof fn lemma_days_to_year_step(y: int)
    ensures
        days_to_year(y + 1) == days_to_year(y) + year_len(y),
    decreases (if y >= 1970 { y - 1970 } else { 1970 - y }),
{
    if y >= 1970 {
    } else {
        assert(days_to_year(y) == days_to_year(y + 1) - year_len(y));
    }
}

proof fn lemma_year_months(y: int)
    ensures
        days_before_month(y, 13) == year_len(y),
{
    reveal_with_fuel(days_before_month, 13);
}

fn is_leap_exec(y: i64) -> (b: bool)
    ensures
        b == is_leap(y as int),
{
    // Shifting by a multiple of 400 keeps every remainder the calendar reads
    // and makes the year non-negative, where `%` is the Euclidean remainder.
    let z: i128 = y as i128 + 4000000000000000000000i128;
    proof {
        vstd::arithmetic::div_mod::lemma_mod_multiples_vanish(1000000000000000000000int, y as int, 4);
        vstd::arithmetic::div_mod::lemma_mod_multiples_vanish(40000000000000000000int, y as int, 100);
        vstd::arithmetic::div_mod::lemma_mod_multiples_vanish(10000000000000000000int, y as int, 400);
        assert(z == 4 * 1000000000000000000000int + y);
        assert(z == 100 * 40000000000000000000int + y);
        assert(z == 400 * 10000000000000000000int + y);
    }
    (z % 4 == 0 && z % 100 != 0) || z % 400 == 0
}

fn year_len_exec(y: i64) -> (n: i64)
    ensures
        n == year_len(y as int),
{
    if is_leap_exec(y) {
        366
    } else {
        365
    }
}

fn month_len_exec(y: i64, m: i64) -> (n: i64)
    ensures
        n == month_len(y as int, m as int),
{
    if m == 2 {
        if is_leap_exec(y) {
            29
        } else {
            28
        }
    } else if m == 4 || m == 6 || m == 9 || m == 11 {
        30
    } else {
        31
    }
}

/// Days from 1970-01-01 to January 1st of a four-digit year.
fn days_to_year_exec(y: i64) -> (n: i64)
    requires
        0 <= y <= 9999,
    ensures
        n == days_to_year(y as int),
        -800000 <= n <= 3000000,
{
    let mut k: i64 = 1970;
    let mut acc: i64 = 0;
    if y >= 1970 {
        while k < y
            invariant
                1970 <= k <= y,
                y <= 9999,
                acc == days_to_year(k as int),
                0 <= acc <= (k - 1970) * 366,
            decreases y - k,
        {
            proof {
                lemma_days_to_year_step(k as int);
            }
            acc = acc + year_len_exec(k);
            k = k + 1;
        }
    } else {
        while k > y
            invariant
                0 <= y <= k <= 1970,
                acc == days_to_year(k as int),
                -(1970 - k) * 366 <= acc <= 0,
            decreases k - y,
        {
            proof {
                lemma_days_to_year_step(k - 1);
            }
            acc = acc - year_len_exec(k - 1);
            k = k - 1;
        }
    }
    acc
}

fn days_before_month_exec(y: i64, m: i64) -> (n: i64)
    requires
        1 <= m <= 12,
    ensures
        n == days_before_month(y as int, m as int),
        0 <= n <= 366,
{
    let mut k: i64 = 1;
    let mut acc: i64 = 0;
    while k < m
        invariant
            1 <= k <= m <= 12,
            acc == days_before_month(y as int, k as int),
            0 <= acc <= (k - 1) * 31,
        decreases m - k,
    {
        acc = acc + month_len_exec(y, k);
        k = k + 1;
    }
    acc
}

/// The civil date `days` after 1970-01-01 (before it when negative).
pub fn civil_from_days(days: i64) -> (r: (i64, i64, i64))
    requires
        -300000000000000 <= days <= 300000000000000,
    ensures
        valid_date(r.0 as int, r.1 as int, r.2 as int),
        days_from_civil(r.0 as int, r.1 as int, r.2 as int) == days,
{
    let mut y: i64 = 1970;
    let mut rem: i64 = days;
    if rem >= 0 {
        while rem >= year_len_exec(y)
            invariant
                1970 <= y <= 1970 + 300000000000000,
                0 <= rem <= 300000000000000 - (y - 1970) * 365,
                days == days_to_year(y as int) + rem,
            decreases rem,
        {
            proof {
                lemma_days_to_year_step(y as int);
            }
            rem = rem - year_len_exec(y);
            y = y + 1;
        }
    } else {
        while rem < 0
            invariant
                1970 - 300000000000000 <= y <= 1970,
                -300000000000000 + (1970 - y) * 365 <= rem < year_len(y as int),
                days == days_to_year(y as int) + rem,
            decreases y - (1970 - 300000000000000),
        {
            proof {
                lemma_days_to_year_step(y - 1);
            }
            rem = rem + year_len_exec(y - 1);
            y = y - 1;
        }
        assert(rem < year_len(y as int));
    }
    proof {
        lemma_year_months(y as int);
    }
    let mut m: i64 = 1;
    while rem >= month_len_exec(y, m)
        invariant
            1 <= m <= 12,
            0 <= rem,
            rem + days_before_month(y as int, m as int) < year_len(y as int),
            days == days_to_year(y as int) + days_before_month(y as int, m as int) + rem,
            days_before_month(y as int, 13) == year_len(y as int),
        decreases 12 - m,
    {
        rem = rem - month_len_exec(y, m);
        m = m + 1;
        if m > 12 {
            proof {
                assert(days_before_month(y as int, 13) == days_before_month(y as int, 12)
                    + month_len(y as int, 12));
            }
        }
    }
    (y, m, rem + 1)
}

/// `n` written with at least `w` digits, zero-padded on the left.
pub open spec fn zero_padded(n: nat, w: nat) -> Seq<char> {
    let d = decimal(n);
    if d.len() >= w {
        d
    } else {
        Seq::new((w - d.len()) as nat, |i: int| '0') + d
    }
}

/// `YYYY-MM-DD` for a date, the year written with at least four digits (and a
/// leading `-` before year zero).
pub open spec fn date_text(y: int, m: int, d: int) -> Seq<char> {
    let year = if y >= 0 {
        zero_padded(y as nat, 4)
    } else {
        seq!['-'] + zero_padded((-y) as nat, 4)
    };
    year + seq!['-'] + zero_padded(m as nat, 2) + seq!['-'] + zero_padded(d as nat, 2)
}

proof fn lemma_decimal_len(n: nat)
    ensures
        decimal(n).len() >= 1,
        n < 10 ==> decimal(n).len() == 1,
        n < 100 ==> decimal(n).len() <= 2,
        n < 1000 ==> decimal(n).len() <= 3,
        n < 10000 ==> decimal(n).len() <= 4,
        n >= 10 ==> decimal(n).len() >= 2,
        n >= 100 ==> decimal(n).len() >= 3,
        n >= 1000 ==> decimal(n).len() >= 4,
        n >= 10000 ==> decimal(n).len() >= 5,
    decreases n,
{
    if n >= 10 {
        lemma_decimal_len(n / 10);
    }
}

fn push_zero_padded(s: &mut String, n: u64, w: u64)
    requires
        w <= 4,
    ensures
        final(s)@ == old(s)@ + zero_padded(n as nat, w as nat),
{
    proof {
        lemma_decimal_len(n as nat);
    }
    let digits = crate::text::decimal_string(n);
    let len = if n < 10 { 1 } else if n < 100 { 2 } else if n < 1000 { 3 } else { 4 };
    let ghost d = decimal(n as nat);
    let mut k: u64 = if n < 10000 && len < w { w - len } else { 0 };
    assert(n < 10000 ==> d.len() == len) by {
        if n < 10000 {
            lemma_decimal_exact_len(n as nat);
        }
    }
    let ghost zeros = Seq::new(k as nat, |i: int| '0');
    let ghost start = s@;
    let mut i: u64 = 0;
    while i < k
        invariant
            i <= k,
            s@ == start + Seq::new(i as nat, |j: int| '0'),
        decreases k - i,
    {
        s.append("0");
        proof {
            reveal_strlit("0");
        }
        i = i + 1;
        assert(s@ =~= start + Seq::new(i as nat, |j: int| '0'));
    }
    s.append(digits.as_str());
    proof {
        if d.len() >= w {
            assert(k == 0);
            assert(s@ =~= start + d);
        } else {
            assert(k == w - d.len());
            assert(s@ =~= start + (Seq::new((w - d.len()) as nat, |j: int| '0') + d));
        }
    }
}

proof fn lemma_decimal_exact_len(n: nat)
    requires
        n < 10000,
    ensures
        decimal(n).len() == (if n < 10 { 1int } else if n < 100 { 2int } else if n < 1000 { 3int } else { 4int }),
    decreases n,
{
    if n >= 10 {
        lemma_decimal_exact_len(n / 10);
    }
}

/// The `YYYY-MM-DD` text of a valid date.
pub fn format_date(y: i64, m: i64, d: i64) -> (r: String)
    requires
        valid_date(y as int, m as int, d as int),
    ensures
        r@ == date_text(y as int, m as int, d as int),
{
    let mut s = String::new();
    if y >= 0 {
        push_zero_padded(&mut s, y as u64, 4);
    } else {
        s.append("-");
        proof {
            reveal_strlit("-");
        }
        let magnitude = (0i128 - y as i128) as u64;
        push_zero_padded(&mut s, magnitude, 4);
    }
    s.append("-");
    push_zero_padded(&mut s, m as u64, 2);
    s.append("-");
    push_zero_padded(&mut s, d as u64, 2);
    proof {
        reveal_strlit("-");
    }
    assert(s@ =~= date_text(y as int, m as int, d as int));
    s
}

/// Where a time lies relative to the Unix epoch, to the nanosecond.
pub enum EpochOffset {
    /// At or after the epoch by `secs` seconds and `nanos` nanoseconds.
    After { secs: u64, nanos: u32 },
    /// Before the epoch by `secs` seconds and `nanos` nanoseconds.
    Before { secs: u64, nanos: u32 },
}

/// What `t.duration_since(UNIX_EPOCH)` gives, read out as seconds and
/// nanoseconds on whichever side of the epoch `t` lies.
pub uninterp spec fn offset_of_time(t: SystemTime) -> EpochOffset;

/// `SystemTime::duration_since(UNIX_EPOCH)`, read out as seconds and
/// nanoseconds on whichever side of the epoch the time lies.
#[verifier::external_body]
fn epoch_offset(t: SystemTime) -> (r: EpochOffset)
    ensures
        r == offset_of_time(t),
{
    match t.duration_since(UNIX_EPOCH) {
        Ok(d) => EpochOffset::After { secs: d.as_secs(), nanos: d.subsec_nanos() },
        Err(e) => EpochOffset::Before { secs: e.duration().as_secs(), nanos: e.duration().subsec_nanos() },
    }
}

/// `UNIX_EPOCH`, the time the Unix second count starts from: it lies no
/// whole second from the epoch.
#[verifier::external_body]
fn unix_epoch() -> (r: SystemTime)
    ensures
        offset_secs(offset_of_time(r)) == 0,
{
    UNIX_EPOCH
}

/// `UNIX_EPOCH.checked_sub(Duration::from_secs(secs))`: the time `secs`
/// whole seconds before the epoch, or `None` when the platform cannot
/// represent it.
#[verifier::external_body]
fn epoch_minus(secs: u64) -> (r: Option<SystemTime>)
    ensures
        r matches Some(u) ==> offset_secs(offset_of_time(u)) == -(secs as int),
{
    UNIX_EPOCH.checked_sub(Duration::from_secs(secs))
}

/// `SystemTime::now()`: the wall clock's reading at the call. It depends on
/// when the call is made, so nothing is stated of it.
#[verifier::external_body]
pub(crate) fn system_now() -> SystemTime {
    SystemTime::now()
}

/// `t.checked_add(Duration::from_secs(secs))`: the time `secs` whole seconds
/// after `t`, or `None` when the platform cannot represent it.
#[verifier::external_body]
pub(crate) fn plus_secs(t: SystemTime, secs: u64) -> (r: Option<SystemTime>)
    ensures
        r matches Some(u) ==> offset_secs(offset_of_time(u)) == offset_secs(offset_of_time(t)) + secs,
{
    t.checked_add(Duration::from_secs(secs))
}

/// The UTC date of a Unix second count.
pub fn date_of_unix_secs(secs: i128) -> (r: String)
    requires
        -18446744073709551616 <= secs <= 18446744073709551615,
    ensures
        day_text_of(secs as int, r@),
{
    let days: i128 = if secs >= 0 { secs / 86400 } else { -((-secs + 86399) / 86400) };
    assert(days * 86400 <= secs < (days + 1) * 86400) by (nonlinear_arith)
        requires
            days == (if secs >= 0 { secs / 86400 } else { -((-secs + 86399) / 86400) }),
    ;
    assert(-250000000000000 <= days <= 250000000000000) by (nonlinear_arith)
        requires
            days * 86400 <= secs < (days + 1) * 86400,
            -18446744073709551616 <= secs <= 18446744073709551615,
    ;
    let (y, m, d) = civil_from_days(days as i64);
    let r = format_date(y, m, d);
    assert(day_text_of(secs as int, r@));
    r
}

/// The whole Unix seconds of an epoch offset, rounded toward the past.
pub open spec fn offset_secs(o: EpochOffset) -> int {
    match o {
        EpochOffset::After { secs, nanos } => secs as int,
        EpochOffset::Before { secs, nanos } => if nanos > 0 {
            -(secs as int) - 1
        } else {
            -(secs as int)
        },
    }
}

/// `text` is the `YYYY-MM-DD` of the UTC day holding Unix second `secs`.
pub open spec fn day_text_of(secs: int, text: Seq<char>) -> bool {
    exists|y: int, m: int, d: int|
        {
            &&& valid_date(y, m, d)
            &&& days_from_civil(y, m, d) * 86400 <= secs < (days_from_civil(y, m, d) + 1) * 86400
            &&& text == date_text(y, m, d)
        }
}

/// What the date of a clock reading at `off` from the epoch reads: the UTC
/// day holding its second.
pub open spec fn offset_date(off: EpochOffset, text: Seq<char>) -> bool {
    day_text_of(offset_secs(off), text)
}

/// The UTC date, `YYYY-MM-DD`, of the clock reading that lies `off` from
/// the epoch.
pub fn date_of_offset(off: EpochOffset) -> (r: String)
    ensures
        offset_date(off, r@),
{
    let secs: i128 = match off {
        EpochOffset::After { secs, nanos } => secs as i128,
        EpochOffset::Before { secs, nanos } => if nanos > 0 { -(secs as i128) - 1 } else { -(secs as i128) },
    };
    assert(secs == offset_secs(off));
    date_of_unix_secs(secs)
}

/// The UTC date, `YYYY-MM-DD`, of the time `now`.
pub fn date_string(now: SystemTime) -> (r: String)
    ensures
        offset_date(offset_of_time(now), r@),
{
    let off = epoch_offset(now);
    let r = date_of_offset(off);
    assert(offset_date(off, r@));
    r
}

pub open spec fn is_digit(c: char) -> bool {
    '0' <= c <= '9'
}

/// The `n` characters of `s` from `i` on are all decimal digits.
pub open spec fn digits_at(s: Seq<char>, i: int, n: int) -> bool {
    0 <= i && i + n <= s.len() && forall|k: int| i <= k < i + n ==> is_digit(#[trigger] s[k])
}

/// The value of the `n` decimal digits of `s` from `i` on.
pub open spec fn num_at(s: Seq<char>, i: int, n: int) -> int
    decreases n,
{
    if n <= 0 {
        0
    } else {
        num_at(s, i, n - 1) * 10 + (s[i + n - 1] as int - '0' as int)
    }
}

/// The date `YYYY-MM-DD` that opens `s`, when it is a real date.
pub open spec fn date_fields(s: Seq<char>) -> Option<(int, int, int)> {
    if digits_at(s, 0, 4) && s[4] == '-' && digits_at(s, 5, 2) && s[7] == '-' && digits_at(s, 8, 2) {
        let y = num_at(s, 0, 4);
        let m = num_at(s, 5, 2);
        let d = num_at(s, 8, 2);
        if valid_date(y, m, d) {
            Some((y, m, d))
        } else {
            None
        }
    } else {
        None
    }
}

/// Just past the run of digits that starts at `i`.
pub open spec fn digits_end(s: Seq<char>, i: int) -> int
    decreases s.len() - i,
{
    if 0 <= i < s.len() && is_digit(s[i]) {
        digits_end(s, i + 1)
    } else {
        i
    }
}

/// The UTC offset that closes `s` from `i` on, in seconds east: nothing
/// (UTC), `Z`, or `±HH:MM`.
pub open spec fn offset_at(s: Seq<char>, i: int) -> Option<int> {
    if i == s.len() {
        Some(0)
    } else if i + 1 == s.len() && (s[i] == 'Z' || s[i] == 'z') {
        Some(0)
    } else if i + 6 == s.len() && (s[i] == '+' || s[i] == '-') && digits_at(s, i + 1, 2) && s[i + 3]
        == ':' && digits_at(s, i + 4, 2) {
        let h = num_at(s, i + 1, 2);
        let m = num_at(s, i + 4, 2);
        if h < 24 && m < 60 {
            Some(
                if s[i] == '+' {
                    h * 3600 + m * 60
                } else {
                    -(h * 3600 + m * 60)
                },
            )
        } else {
            None
        }
    } else {
        None
    }
}

/// The Unix seconds an RFC 3339 timestamp names: `YYYY-MM-DD`, optionally
/// followed by `T` (or `t`, or a space) and `HH:MM:SS`, an optional
/// fraction (dropped), and an optional offset (UTC when absent). A bare date
/// is its midnight, UTC.
pub open spec fn rfc3339_value(s: Seq<char>) -> Option<int> {
    match date_fields(s) {
        None => None,
        Some((y, m, d)) => {
            let day = days_from_civil(y, m, d) * 86400;
            if s.len() == 10 {
                Some(day)
            } else if (s[10] == 'T' || s[10] == 't' || s[10] == ' ') && digits_at(s, 11, 2) && s[13]
                == ':' && digits_at(s, 14, 2) && s[16] == ':' && digits_at(s, 17, 2) {
                let hh = num_at(s, 11, 2);
                let mm = num_at(s, 14, 2);
                let ss = num_at(s, 17, 2);
                if hh < 24 && mm < 60 && ss < 60 {
                    let rest = if 19 < s.len() && s[19] == '.' && digits_end(s, 20) > 20 {
                        digits_end(s, 20)
                    } else {
                        19
                    };
                    match offset_at(s, rest) {
                        Some(o) => Some(day + hh * 3600 + mm * 60 + ss - o),
                        None => None,
                    }
                } else {
                    None
                }
            } else {
                None
            }
        },
    }
}

fn digits_here(s: &[char], i: usize, n: usize) -> (b: bool)
    requires
        n <= 4,
    ensures
        b == digits_at(s@, i as int, n as int),
{
    let len = s.len();
    if i > len || n > len - i {
        return false;
    }
    let mut k = i;
    while k < i + n
        invariant
            len == s@.len(),
            i <= k <= i + n,
            i + n <= s@.len(),
            forall|j: int| i <= j < k ==> is_digit(#[trigger] s@[j]),
        decreases i + n - k,
    {
        if !('0' <= s[k] && s[k] <= '9') {
            return false;
        }
        k = k + 1;
    }
    true
}

fn num_here(s: &[char], i: usize, n: usize) -> (v: i64)
    requires
        n <= 4,
        digits_at(s@, i as int, n as int),
    ensures
        v == num_at(s@, i as int, n as int),
        0 <= v < 10000,
{
    let mut k: usize = 0;
    let mut v: i64 = 0;
    let len = s.len();
    while k < n
        invariant
            len == s@.len(),
            k <= n <= 4,
            digits_at(s@, i as int, n as int),
            v == num_at(s@, i as int, k as int),
            0 <= v < (if k == 0 { 1int } else if k == 1 { 10int } else if k == 2 { 100int } else if k == 3 { 1000int } else { 10000int }),
        decreases n - k,
    {
        let c = s[i + k];
        assert(is_digit(s@[i + k]));
        v = v * 10 + (c as i64 - '0' as i64);
        k = k + 1;
    }
    v
}

/// Unix seconds of an RFC 3339 timestamp (see `rfc3339_value`).
pub fn rfc3339_secs(text: &str) -> (r: Option<i64>)
    ensures
        match r {
            Some(v) => rfc3339_value(text@) == Some(v as int),
            None => rfc3339_value(text@) is None,
        },
{
    let v = chars_of(text);
    let s = v.as_slice();
    let n = s.len();
    if !(n >= 10 && digits_here(s, 0, 4) && s[4] == '-' && digits_here(s, 5, 2) && s[7] == '-'
        && digits_here(s, 8, 2)) {
        return None;
    }
    let y = num_here(s, 0, 4);
    let m = num_here(s, 5, 2);
    let d = num_here(s, 8, 2);
    if !(1 <= m && m <= 12 && 1 <= d && d <= month_len_exec(y, m)) {
        return None;
    }
    let day = (days_to_year_exec(y) + days_before_month_exec(y, m) + (d - 1)) * 86400;
    if n == 10 {
        return Some(day);
    }
    if n < 19 {
        return None;
    }
    let sep = s[10];
    if !((sep == 'T' || sep == 't' || sep == ' ') && digits_here(s, 11, 2) && s[13] == ':'
        && digits_here(s, 14, 2) && s[16] == ':' && digits_here(s, 17, 2)) {
        return None;
    }
    let hh = num_here(s, 11, 2);
    let mm = num_here(s, 14, 2);
    let ss = num_here(s, 17, 2);
    if !(hh < 24 && mm < 60 && ss < 60) {
        return None;
    }
    let mut rest: usize = 19;
    if 19 < n && s[19] == '.' {
        let mut k: usize = 20;
        while k < n && '0' <= s[k] && s[k] <= '9'
            invariant
                20 <= k <= n,
                n == s@.len(),
                digits_end(s@, 20) == digits_end(s@, k as int),
            decreases n - k,
        {
            k = k + 1;
        }
        if k > 20 {
            rest = k;
        }
    }
    let off: i64;
    if rest == n {
        off = 0;
    } else if n - rest == 1 && (s[rest] == 'Z' || s[rest] == 'z') {
        off = 0;
    } else if n - rest == 6 && (s[rest] == '+' || s[rest] == '-') && digits_here(s, rest + 1, 2)
        && s[rest + 3] == ':' && digits_here(s, rest + 4, 2) {
        let oh = num_here(s, rest + 1, 2);
        let om = num_here(s, rest + 4, 2);
        if !(oh < 24 && om < 60) {
            return None;
        }
        off = if s[rest] == '+' { oh * 3600 + om * 60 } else { -(oh * 3600 + om * 60) };
    } else {
        return None;
    }
    Some(day + hh * 3600 + mm * 60 + ss - off)
}

/// `SystemTime` for a Unix second count; `None` when the platform cannot
/// represent it.
pub fn system_time_at(secs: i64) -> (r: Option<SystemTime>)
    ensures
        r matches Some(t) ==> offset_secs(offset_of_time(t)) == secs,
{
    if secs >= 0 {
        plus_secs(unix_epoch(), secs as u64)
    } else {
        epoch_minus((0i128 - secs as i128) as u64)
    }
}

/// Parses an RFC 3339 timestamp (see `rfc3339_value`) into a `SystemTime`
/// that lies that many seconds from the epoch. The error comes from a malformed timestamp, or from a time the platform
/// cannot represent.
pub fn parse_rfc3339(text: &str) -> (r: Result<SystemTime, ()>)
    ensures
        rfc3339_value(text@) is None ==> r is Err,
        r matches Ok(t) ==> rfc3339_value(text@) == Some(offset_secs(offset_of_time(t))),
{
    match rfc3339_secs(text) {
        Some(secs) => match system_time_at(secs) {
            Some(t) => Ok(t),
            None => Err(()),
        },
        None => Err(()),
    }
}

/// Digits read from two texts that agree on them read the same.
proof fn lemma_digits_agree(a: Seq<char>, b: Seq<char>, i: int, n: int, k: int)
    requires
        0 <= i,
        0 <= n,
        i + n <= k,
        k <= a.len(),
        k <= b.len(),
        forall|j: int| 0 <= j < k ==> a[j] == b[j],
    ensures
        digits_at(a, i, n) == digits_at(b, i, n),
        num_at(a, i, n) == num_at(b, i, n),
    decreases n,
{
    if n > 0 {
        lemma_digits_agree(a, b, i, n - 1, k);
        assert(a[i + n - 1] == b[i + n - 1]);
    }
    assert forall|q: int| i <= q < i + n implies (is_digit(#[trigger] a[q]) <==> is_digit(b[q])) by {
        assert(a[q] == b[q]);
    }
}

/// A run of digits ends at the same place in two texts that agree up to a
/// shared non-digit.
proof fn lemma_digits_end_agree(a: Seq<char>, b: Seq<char>, i: int, n: int)
    requires
        0 <= i <= n,
        n < a.len(),
        n < b.len(),
        forall|j: int| 0 <= j < n ==> a[j] == b[j],
        !is_digit(a[n]),
        !is_digit(b[n]),
    ensures
        digits_end(a, i) == digits_end(b, i),
        i <= digits_end(a, i) <= n,
    decreases n - i,
{
    if i < n {
        assert(a[i] == b[i]);
        if is_digit(a[i]) {
            lemma_digits_end_agree(a, b, i + 1, n);
        }
    }
}

/// A `±HH:MM` offset shifts a timestamp by exactly that many hours and
/// minutes: the text `s` closed by `+HH:MM` names the instant `s` closed by
/// `Z` names, less `HH` hours and `MM` minutes (more, for `-HH:MM`). An offset
/// with an hour past 23 or a minute past 59 makes no timestamp.
pub proof fn lemma_offset_shifts_by_hours_and_minutes(
    s: Seq<char>,
    v: int,
    sign: char,
    h1: char,
    h2: char,
    m1: char,
    m2: char,
)
    requires
        rfc3339_value(s.push('Z')) == Some(v),
        sign == '+' || sign == '-',
        is_digit(h1),
        is_digit(h2),
        is_digit(m1),
        is_digit(m2),
    ensures
        ({
            let h = (h1 as int - '0' as int) * 10 + (h2 as int - '0' as int);
            let m = (m1 as int - '0' as int) * 10 + (m2 as int - '0' as int);
            rfc3339_value(s + seq![sign, h1, h2, ':', m1, m2]) == if h < 24 && m < 60 {
                Some(if sign == '+' { v - (h * 3600 + m * 60) } else { v + (h * 3600 + m * 60) })
            } else {
                None
            }
        }),
{
    let z = s.push('Z');
    let t = s + seq![sign, h1, h2, ':', m1, m2];
    let n = s.len() as int;
    assert(z.len() == n + 1 && t.len() == n + 6);
    assert(z[n] == 'Z' && t[n] == sign);
    assert forall|j: int| 0 <= j < n implies z[j] == t[j] by {
        assert(z[j] == s[j] && t[j] == s[j]);
    }
    // The date needs ten characters, none of them the closing `Z`.
    assert(date_fields(z) is Some);
    assert(digits_at(z, 8, 2));
    if n < 10 {
        assert(is_digit(z[n]));
    }
    lemma_digits_agree(z, t, 0, 4, n);
    lemma_digits_agree(z, t, 5, 2, n);
    lemma_digits_agree(z, t, 8, 2, n);
    assert(z[4] == t[4] && z[7] == t[7]);
    assert(date_fields(z) == date_fields(t));
    // The time needs nineteen characters, none of them the closing `Z`.
    assert(z.len() != 10);
    assert(digits_at(z, 17, 2));
    if n < 19 {
        assert(is_digit(z[n]));
    }
    lemma_digits_agree(z, t, 11, 2, n);
    lemma_digits_agree(z, t, 14, 2, n);
    lemma_digits_agree(z, t, 17, 2, n);
    assert(z[10] == t[10] && z[13] == t[13] && z[16] == t[16]);
    let rz = if 19 < z.len() && z[19] == '.' && digits_end(z, 20) > 20 { digits_end(z, 20) } else { 19 };
    let rt = if 19 < t.len() && t[19] == '.' && digits_end(t, 20) > 20 { digits_end(t, 20) } else { 19 };
    if n == 19 {
        assert(rz == 19 && rt == 19);
    } else {
        assert(z[19] == t[19]);
        lemma_digits_end_agree(z, t, 20, n);
        assert(rz == rt);
    }
    assert(rz <= n);
    // Only a `Z` at `rz` closes the text, so `rz` is where `s` ends.
    if rz < n {
        assert(offset_at(z, rz) is None) by {
            if rz + 6 == z.len() {
                assert(!is_digit(z[rz + 5]));
            }
        }
    }
    assert(rz == n);
    reveal_with_fuel(num_at, 3);
    assert(num_at(t, n + 1, 2) == (h1 as int - '0' as int) * 10 + (h2 as int - '0' as int));
    assert(num_at(t, n + 4, 2) == (m1 as int - '0' as int) * 10 + (m2 as int - '0' as int));
    assert(digits_at(t, n + 1, 2));
    assert(digits_at(t, n + 4, 2));
    assert(t[n + 3] == ':');
}

/// A timestamp without an offset is UTC: it names the same instant as the
/// same text closed by `Z`.
pub proof fn lemma_no_offset_is_utc(s: Seq<char>, v: int)
    requires
        rfc3339_value(s.push('Z')) == Some(v),
    ensures
        rfc3339_value(s) == Some(v),
{
    let z = s.push('Z');
    let n = s.len() as int;
    assert(z.len() == n + 1 && z[n] == 'Z');
    assert forall|j: int| 0 <= j < n implies z[j] == s[j] by {}
    assert(date_fields(z) is Some);
    assert(digits_at(z, 8, 2));
    if n < 10 {
        assert(is_digit(z[n]));
    }
    lemma_digits_agree(z, s, 0, 4, n);
    lemma_digits_agree(z, s, 5, 2, n);
    lemma_digits_agree(z, s, 8, 2, n);
    assert(date_fields(z) == date_fields(s));
    assert(digits_at(z, 17, 2));
    if n < 19 {
        assert(is_digit(z[n]));
    }
    lemma_digits_agree(z, s, 11, 2, n);
    lemma_digits_agree(z, s, 14, 2, n);
    lemma_digits_agree(z, s, 17, 2, n);
    let rz = if 19 < z.len() && z[19] == '.' && digits_end(z, 20) > 20 { digits_end(z, 20) } else { 19 };
    let rs = if 19 < s.len() && s[19] == '.' && digits_end(s, 20) > 20 { digits_end(s, 20) } else { 19 };
    if n > 19 {
        lemma_digits_end_of_prefix(s, 20);
        lemma_digits_end_agree_prefix(z, s, 20, n);
    }
    assert(rz <= n);
    if rz < n {
        assert(offset_at(z, rz) is None) by {
            if rz + 6 == z.len() {
                assert(!is_digit(z[rz + 5]));
            }
        }
    }
    assert(rz == n);
    assert(rs == rz);
}

/// A run of digits never ends past the text.
proof fn lemma_digits_end_of_prefix(s: Seq<char>, i: int)
    requires
        0 <= i <= s.len(),
    ensures
        i <= digits_end(s, i) <= s.len(),
    decreases s.len() - i,
{
    if i < s.len() && is_digit(s[i]) {
        lemma_digits_end_of_prefix(s, i + 1);
    }
}

/// A run of digits in `z` that stops at the non-digit at `n` stops where the
/// same run in `s`, the first `n` characters of `z`, runs out.
proof fn lemma_digits_end_agree_prefix(z: Seq<char>, s: Seq<char>, i: int, n: int)
    requires
        0 <= i <= n,
        n == s.len(),
        n < z.len(),
        forall|j: int| 0 <= j < n ==> z[j] == s[j],
        !is_digit(z[n]),
    ensures
        digits_end(z, i) == digits_end(s, i),
        digits_end(z, i) <= n,
    decreases n - i,
{
    if i < n {
        assert(z[i] == s[i]);
        if is_digit(z[i]) {
            lemma_digits_end_agree_prefix(z, s, i + 1, n);
        }
    }
}

} // verus!
