//! Instantaneous rate computation from cumulative counters.
//!
//! Rates are bytes per second, derived from the difference between the
//! current and the previous cumulative counter over the elapsed time. A
//! counter regression (reset) clamps to zero instead of wrapping, a
//! non-positive elapsed time yields zero, and a first observation has no
//! previous sample to diff against and yields zero.

use vstd::prelude::*;

verus! {

/// The previous observation of one interface: cumulative receive and
/// transmit counters and the timestamp, in milliseconds, they were read at.
#[derive(Clone, Copy, PartialEq, Eq, Structural, Debug)]
pub struct PrevSample {
    pub rx: u64,
    pub tx: u64,
    pub at_ms: u64,
}

/// `a - b`, clamped to zero when the counter regressed.
pub open spec fn sat_sub(a: nat, b: nat) -> nat {
    if a >= b {
        (a - b) as nat
    } else {
        0
    }
}

/// Bytes per second from a counter delta over `elapsed_ms` milliseconds,
/// truncated to whole bytes and clamped to `u64::MAX`; zero when no time
/// has passed.
pub open spec fn rate_of(delta: nat, elapsed_ms: nat) -> nat {
    if elapsed_ms == 0 {
        0
    } else if delta * 1000 / elapsed_ms > u64::MAX {
        u64::MAX as nat
    } else {
        delta * 1000 / elapsed_ms
    }
}

/// The (download, upload) speeds for current counters `rx`/`tx` read at
/// `now_ms`, against an optional previous sample: zero on a first
/// observation and when the clock did not advance.
pub open spec fn speeds_of(prev: Option<PrevSample>, rx: u64, tx: u64, now_ms: u64) -> (nat, nat) {
    match prev {
        Option::None => (0, 0),
        Option::Some(p) => {
            if now_ms <= p.at_ms {
                (0, 0)
            } else {
                let dt = (now_ms - p.at_ms) as nat;
                (rate_of(sat_sub(rx as nat, p.rx as nat), dt), rate_of(
                    sat_sub(tx as nat, p.tx as nat),
                    dt,
                ))
            }
        },
    }
}

/// `delta * 1000 / elapsed_ms`, clamped to `u64::MAX`.
fn rate_exec(delta: u64, elapsed_ms: u64) -> (r: u64)
    requires
        elapsed_ms > 0,
    ensures
        r as nat == rate_of(delta as nat, elapsed_ms as nat),
{
    let scaled: u128 = (delta as u128) * 1000 / (elapsed_ms as u128);
    if scaled > u64::MAX as u128 {
        u64::MAX
    } else {
        scaled as u64
    }
}

/// The (download, upload) speeds in bytes per second for the counters
/// `rx`/`tx` observed at `now_ms`, against the previous sample for the same
/// interface, if any.
pub fn compute_rates(prev: Option<PrevSample>, rx: u64, tx: u64, now_ms: u64) -> (r: (u64, u64))
    ensures
        (r.0 as nat, r.1 as nat) == speeds_of(prev, rx, tx, now_ms),
{
    match prev {
        Option::None => (0, 0),
        Option::Some(p) => {
            if now_ms <= p.at_ms {
                (0, 0)
            } else {
                let dt = now_ms - p.at_ms;
                let drx = if rx >= p.rx {
                    rx - p.rx
                } else {
                    0
                };
                let dtx = if tx >= p.tx {
                    tx - p.tx
                } else {
                    0
                };
                (rate_exec(drx, dt), rate_exec(dtx, dt))
            }
        },
    }
}

/// Speeds are never negative, and whenever the clock advanced and the
/// counters did not regress, each speed is exactly the counter delta over
/// the elapsed time (in whole bytes per second, as long as that quotient is
/// representable).
pub proof fn lemma_rate_is_delta_over_elapsed(p: PrevSample, rx: u64, tx: u64, now_ms: u64)
    requires
        now_ms > p.at_ms,
        rx >= p.rx,
        tx >= p.tx,
        (rx - p.rx) * 1000 / (now_ms - p.at_ms) <= u64::MAX,
        (tx - p.tx) * 1000 / (now_ms - p.at_ms) <= u64::MAX,
    ensures
        speeds_of(Some(p), rx, tx, now_ms).0 == (rx - p.rx) * 1000 / (now_ms - p.at_ms),
        speeds_of(Some(p), rx, tx, now_ms).1 == (tx - p.tx) * 1000 / (now_ms - p.at_ms),
        speeds_of(Some(p), rx, tx, now_ms).0 >= 0,
        speeds_of(Some(p), rx, tx, now_ms).1 >= 0,
{
}

/// The first observation of an interface has no previous sample and yields
/// rate zero in both directions.
pub proof fn lemma_first_observation_zero(rx: u64, tx: u64, now_ms: u64)
    ensures
        speeds_of(None, rx, tx, now_ms) == (0nat, 0nat),
{
}

/// A counter that decreased between two polls (a reset) yields rate zero
/// for that direction, not a huge or negative number.
pub proof fn lemma_counter_reset_zero(p: PrevSample, rx: u64, tx: u64, now_ms: u64)
    ensures
        rx < p.rx ==> speeds_of(Some(p), rx, tx, now_ms).0 == 0,
        tx < p.tx ==> speeds_of(Some(p), rx, tx, now_ms).1 == 0,
{
}

/// Polling again within the same instant (or with a clock that moved
/// backwards) yields rate zero in both directions.
pub proof fn lemma_same_instant_zero(p: PrevSample, rx: u64, tx: u64, now_ms: u64)
    requires
        now_ms <= p.at_ms,
    ensures
        speeds_of(Some(p), rx, tx, now_ms) == (0nat, 0nat),
{
}

/// A poll that observes unchanged counters yields rate zero in both
/// directions, however much or little time has passed.
pub proof fn lemma_unchanged_counters_zero(p: PrevSample, now_ms: u64)
    ensures
        speeds_of(Some(p), p.rx, p.tx, now_ms) == (0nat, 0nat),
{
}

} // verus!
