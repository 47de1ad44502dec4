//! When the next challenge appears, and how long to wait for it.
use vstd::prelude::*;

verus! {

/// The moment that an RFC 3339 text (such as `2019-08-20T20:00:00.000Z`)
/// names, as whole seconds since the Unix epoch and nanoseconds past that
/// second, the way `chrono` reads the text as a UTC date and time; `None`
/// when chrono does not accept the text.
pub uninterp spec fn utc_timestamp(text: Seq<char>) -> Option<(i64, u32)>;

/// Reads `text` with chrono's `FromStr` for `DateTime<Utc>` and returns the
/// moment as `DateTime::timestamp` and `DateTime::timestamp_subsec_nanos` give it.
/// The contract claims only that the outcome depends on the text alone; what
/// chrono accepts and how it counts is left to chrono.
#[verifier::external_body]
fn parse_utc_timestamp(text: &str) -> (r: Option<(i64, u32)>)
    ensures
        r == utc_timestamp(text@),
{
    match text.parse::<chrono::DateTime<chrono::Utc>>() {
        Ok(t) => Some((t.timestamp(), t.timestamp_subsec_nanos())),
        Err(_) => None,
    }
}

/// A moment given as seconds and nanoseconds, in nanoseconds.
pub open spec fn total_nanos(t: (i64, u32)) -> int {
    t.0 * 1_000_000_000 + t.1
}

/// How long it is from `now` until `target`, as seconds and the nanoseconds
/// past them; `None` when `target` has passed (or lies beyond what 64-bit
/// seconds can count).
pub open spec fn delay_spec(target: (i64, u32), now: (i64, u32)) -> Option<(u64, u32)> {
    let d = total_nanos(target) - total_nanos(now);
    if d < 0 || d / 1_000_000_000 > u64::MAX {
        None
    } else {
        Some(((d / 1_000_000_000) as u64, (d % 1_000_000_000) as u32))
    }
}

/// The delay is exact: its seconds and nanoseconds make up the whole time
/// from `now` to `target`; there is none exactly when `target` has passed or
/// lies beyond what 64-bit seconds can count.
pub proof fn lemma_delay_exact(target: (i64, u32), now: (i64, u32))
    ensures
        match delay_spec(target, now) {
            Some((secs, nanos)) => secs * 1_000_000_000 + nanos == total_nanos(target) - total_nanos(now)
                && nanos < 1_000_000_000,
            None => total_nanos(target) < total_nanos(now) || total_nanos(target) - total_nanos(now)
                >= (u64::MAX + 1) * 1_000_000_000,
        },
{
    let d = total_nanos(target) - total_nanos(now);
    if d >= 0 {
        assert((d / 1_000_000_000) * 1_000_000_000 + d % 1_000_000_000 == d) by (nonlinear_arith)
            requires
                d >= 0,
        ;
        assert(d / 1_000_000_000 > u64::MAX <==> d >= (u64::MAX + 1) * 1_000_000_000) by (nonlinear_arith)
            requires
                d >= 0,
        ;
    }
}

/// How long it is from `now` until `target`.
pub fn delay_until(target: (i64, u32), now: (i64, u32)) -> (r: Option<(u64, u32)>)
    ensures
        r == delay_spec(target, now),
        r matches Some((secs, nanos)) ==> secs * 1_000_000_000 + nanos == total_nanos(target) - total_nanos(now)
            && nanos < 1_000_000_000,
        r is None <==> total_nanos(target) < total_nanos(now) || total_nanos(target) - total_nanos(now)
            >= (u64::MAX + 1) * 1_000_000_000,
{
    proof {
        lemma_delay_exact(target, now);
    }
    let t = target.0 as i128 * 1_000_000_000 + target.1 as i128;
    let n = now.0 as i128 * 1_000_000_000 + now.1 as i128;
    let d = t - n;
    if d < 0 || d / 1_000_000_000 > u64::MAX as i128 {
        None
    } else {
        Some(((d / 1_000_000_000) as u64, (d % 1_000_000_000) as u32))
    }
}

/// When the next challenge appears, as the puzzle server writes it.
pub struct JsonNextConfigTime(pub String);

impl JsonNextConfigTime {
    /// How long to wait, from `now` (seconds and nanoseconds since the Unix
    /// epoch), for the next challenge; `None` when its time cannot be read or
    /// has passed.
    pub fn wait_duration(&self, now_secs: i64, now_nanos: u32) -> (r: Option<(u64, u32)>)
        ensures
            r == (match utc_timestamp(self.0@) {
                Some(t) => delay_spec(t, (now_secs, now_nanos)),
                None => None,
            }),
            r matches Some((secs, nanos)) ==> (utc_timestamp(self.0@) matches Some(t) && secs * 1_000_000_000
                + nanos == total_nanos(t) - total_nanos((now_secs, now_nanos)) && nanos < 1_000_000_000),
    {
        match parse_utc_timestamp(self.0.as_str()) {
            Some(t) => delay_until(t, (now_secs, now_nanos)),
            None => None,
        }
    }
}

} // verus!
