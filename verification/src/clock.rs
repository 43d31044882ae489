//! The monotonic clock: readings (`Instant`) and spans (`Duration`) are the
//! platform's values; the arithmetic on them is named here and stated where
//! std documents it.
use vstd::prelude::*;
use std::time::{Duration, Instant};

verus! {

#[verifier::external_type_specification]
#[verifier::external_body]
pub struct ExInstant(Instant);

/// What `later.saturating_duration_since(earlier).as_nanos()` gives: the
/// nanoseconds elapsed from `earlier` to `later`, zero when `earlier` is the
/// later one.
pub uninterp spec fn nanos_between(later: Instant, earlier: Instant) -> u128;

/// What `d.as_nanos()` gives: the span's length in nanoseconds.
pub uninterp spec fn nanos_of(d: Duration) -> u128;

/// What `a < b` gives on two clock readings.
pub uninterp spec fn instant_before(a: Instant, b: Instant) -> bool;

/// What `a == b` gives on two clock readings.
pub uninterp spec fn instant_same(a: Instant, b: Instant) -> bool;

/// What `t.checked_add(d)` gives: the reading `d` after `t`, or `None` when
/// the platform cannot represent it.
pub uninterp spec fn instant_after(t: Instant, d: Duration) -> Option<Instant>;

/// What std's `Ord` and `Eq` on `Instant` promise of the names: no reading
/// is before itself, "before" is transitive, and two readings are `==`
/// exactly when they are the same value.
pub open spec fn clock_order_laws() -> bool {
    &&& forall|a: Instant| !#[trigger] instant_before(a, a)
    &&& forall|a: Instant, b: Instant, c: Instant|
        #[trigger] instant_before(a, b) && #[trigger] instant_before(b, c) ==> instant_before(a, c)
    &&& forall|a: Instant, b: Instant| #[trigger] instant_same(a, b) <==> a == b
}

/// The nanoseconds elapsed from `start` to `now`: none from a reading to
/// itself, otherwise `nanos_between(now, start)`.
pub open spec fn elapsed_nanos(now: Instant, start: Instant) -> u128 {
    if now == start {
        0
    } else {
        nanos_between(now, start)
    }
}

/// `Instant::now()`: the monotonic clock's reading at the call. It depends
/// on when the call is made, so nothing is stated of it.
#[verifier::external_body]
pub(crate) fn instant_now() -> Instant {
    Instant::now()
}

/// `t.checked_add(d)` on the monotonic clock: the reading `d` after `t`, or
/// `None` when the platform cannot represent it.
#[verifier::external_body]
pub(crate) fn instant_plus(t: Instant, d: Duration) -> (r: Option<Instant>)
    ensures
        r == instant_after(t, d),
{
    t.checked_add(d)
}

/// `now.saturating_duration_since(start)` in whole nanoseconds: the time
/// elapsed from `start` to `now`, zero when `start` is later (and so zero
/// from a reading to itself).
#[verifier::external_body]
pub(crate) fn nanos_since(now: Instant, start: Instant) -> (r: u128)
    ensures
        r == nanos_between(now, start),
        now == start ==> r == 0,
{
    now.saturating_duration_since(start).as_nanos()
}

/// `Duration::as_nanos`: the span's length in nanoseconds.
#[verifier::external_body]
pub(crate) fn duration_nanos(d: Duration) -> (r: u128)
    ensures
        r == nanos_of(d),
{
    d.as_nanos()
}

/// `a < b` on the monotonic clock.
#[verifier::external_body]
pub(crate) fn instant_lt(a: Instant, b: Instant) -> (r: bool)
    ensures
        r == instant_before(a, b),
{
    a < b
}

/// `a == b` on the monotonic clock.
#[verifier::external_body]
pub(crate) fn instant_eq(a: Instant, b: Instant) -> (r: bool)
    ensures
        r == instant_same(a, b),
{
    a == b
}

} // verus!
