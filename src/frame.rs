//! Per-output frame clock: predicts when the next vblank can be presented.
//!
//! Times are monotonic nanoseconds.
use vstd::prelude::*;

verus! {

/// The delay from `now` until the next presentation, as the frame clock
/// predicts it from the last presentation and the refresh interval.
///
/// With no interval (a variable-only output) or no presentation yet the
/// answer is zero. An early vblank (`now <= last`) moves `now` one interval
/// ahead, and snaps it to `last + interval` when that is still behind. The
/// deadline is `last + ceil(delta / interval) * interval`; with VRR on, more
/// than one idle interval means "present now".
pub open spec fn next_presentation_delay(
    now: int,
    last: Option<int>,
    interval: Option<int>,
    vrr: bool,
) -> int {
    match (interval, last) {
        (Some(i), Some(l)) => {
            let now1 = if now <= l {
                if now + i < l {
                    l + i
                } else {
                    now + i
                }
            } else {
                now
            };
            let delta = now1 - l;
            let ns_to_next = ceil_div(delta, i) * i;
            if vrr && ns_to_next > i {
                0
            } else {
                l + ns_to_next - now1
            }
        },
        _ => 0,
    }
}

/// `ceil(a / b)` for `a >= 0` and `b > 0`.
pub open spec fn ceil_div(a: int, b: int) -> int {
    if a % b == 0 {
        a / b
    } else {
        a / b + 1
    }
}

/// Vblank prediction state of one output.
pub struct FrameClock {
    last_presentation_time: Option<u64>,
    refresh_interval_ns: Option<u64>,
    vrr: bool,
}

impl FrameClock {
    /// The time of the last recorded presentation.
    pub closed spec fn last_presentation(&self) -> Option<u64> {
        self.last_presentation_time
    }

    /// The refresh interval in nanoseconds; `None` for a variable-only output.
    pub closed spec fn interval(&self) -> Option<u64> {
        self.refresh_interval_ns
    }

    /// Whether variable refresh rate is on.
    pub closed spec fn vrr_on(&self) -> bool {
        self.vrr
    }

    /// A refresh interval, when there is one, is positive.
    pub open spec fn wf(&self) -> bool {
        self.interval() matches Some(i) ==> i > 0
    }

    /// Whether the refresh interval, when there is one, is positive.
    pub fn is_well_formed(&self) -> (r: bool)
        ensures
            r == self.wf(),
    {
        match self.refresh_interval_ns {
            Some(i) => i > 0,
            None => true,
        }
    }

    /// Creates a clock with the given refresh interval (nanoseconds, below one
    /// second). VRR starts off and no presentation is known.
    pub fn new(refresh_interval: Option<u64>) -> (r: Self)
        requires
            refresh_interval matches Some(i) ==> 0 < i < 1_000_000_000,
        ensures
            r.wf(),
            r.interval() == refresh_interval,
            r.last_presentation().is_none(),
            !r.vrr_on(),
    {
        FrameClock { last_presentation_time: None, refresh_interval_ns: refresh_interval, vrr: false }
    }

    /// The refresh interval in nanoseconds.
    pub fn refresh_interval(&self) -> (r: Option<u64>)
        ensures
            r == self.interval(),
    {
        self.refresh_interval_ns
    }

    /// Turns VRR on or off. A change restarts the prediction.
    pub fn set_vrr(&mut self, vrr: bool)
        ensures
            final(self).vrr_on() == vrr,
            final(self).interval() == old(self).interval(),
            final(self).last_presentation() == if old(self).vrr_on() == vrr {
                old(self).last_presentation()
            } else {
                None
            },
    {
        if self.vrr == vrr {
            return;
        }
        self.vrr = vrr;
        self.last_presentation_time = None;
    }

    /// Whether VRR is on.
    pub fn vrr(&self) -> (r: bool)
        ensures
            r == self.vrr_on(),
    {
        self.vrr
    }

    /// Records a presentation. A zero timestamp carries no information and is
    /// ignored.
    pub fn presented(&mut self, presentation_time: u64)
        ensures
            final(self).vrr_on() == old(self).vrr_on(),
            final(self).interval() == old(self).interval(),
            final(self).last_presentation() == if presentation_time == 0 {
                old(self).last_presentation()
            } else {
                Some(presentation_time)
            },
    {
        if presentation_time == 0 {
            return;
        }
        self.last_presentation_time = Some(presentation_time);
    }

    /// The number of nanoseconds from `now` to the next estimated presentation.
    pub fn time_to_next_presentation(&self, now: u64) -> (r: u64)
        requires
            self.wf(),
        ensures
            r as int == next_presentation_delay(
                now as int,
                match self.last_presentation() {
                    Some(l) => Some(l as int),
                    None => None,
                },
                match self.interval() {
                    Some(i) => Some(i as int),
                    None => None,
                },
                self.vrr_on(),
            ),
            self.interval() matches Some(i) ==> r <= i,
    {
        let interval = match self.refresh_interval_ns {
            Some(i) => i,
            None => return 0,
        };
        let last = match self.last_presentation_time {
            Some(l) => l,
            None => return 0,
        };
        // The time from the last presentation to the (corrected) present.
        let delta: u64 = if now <= last {
            let gap: u64 = last - now;
            if gap > interval {
                interval
            } else {
                interval - gap
            }
        } else {
            now - last
        };
        let rem: u64 = delta % interval;
        proof {
            lemma_delay_shape(delta as int, interval as int);
        }
        if self.vrr && delta > interval {
            0
        } else if rem == 0 {
            0
        } else {
            interval - rem
        }
    }

    /// The time elapsed since the last presentation, when one is known and
    /// lies before `now`.
    pub fn time_since_last_presentation(&self, now: u64) -> (r: Option<u64>)
        ensures
            r == match self.last_presentation() {
                Some(l) => if l <= now {
                    Some((now - l) as u64)
                } else {
                    None
                },
                None => None,
            },
    {
        match self.last_presentation_time {
            Some(past) => now.checked_sub(past),
            None => None,
        }
    }
}

/// With VRR off, the predicted presentation never lies before `now` while
/// `now` is within one interval of the last presentation; after the last
/// presentation it is exactly one interval past it.
pub proof fn lemma_next_presentation_not_past(now: int, last: int, interval: int)
    requires
        interval > 0,
        last >= 0,
        now >= 0,
        last + interval >= now,
    ensures
        now + next_presentation_delay(now, Some(last), Some(interval), false) >= now,
        now > last ==> now + next_presentation_delay(now, Some(last), Some(interval), false) == last + interval,
{
    let now1 = if now <= last {
        if now + interval < last {
            last + interval
        } else {
            now + interval
        }
    } else {
        now
    };
    let delta = now1 - last;
    lemma_delay_shape(delta, interval);
    if now > last {
        assert(0 < delta <= interval);
        if delta == interval {
            vstd::arithmetic::div_mod::lemma_mod_self_0(interval);
            vstd::arithmetic::div_mod::lemma_div_by_self(interval);
        } else {
            vstd::arithmetic::div_mod::lemma_small_mod(delta as nat, interval as nat);
        }
    }
}

/// The rounded-up interval count, its excess over `delta`, and its comparison
/// with one interval.
proof fn lemma_delay_shape(delta: int, i: int)
    requires
        delta >= 0,
        i > 0,
    ensures
        ceil_div(delta, i) * i - delta == if delta % i == 0 {
            0
        } else {
            i - delta % i
        },
        (ceil_div(delta, i) * i > i) == (delta > i),
        0 <= delta % i < i,
{
    vstd::arithmetic::div_mod::lemma_fundamental_div_mod(delta, i);
    vstd::arithmetic::div_mod::lemma_mod_bound(delta, i);
    let q = delta / i;
    let r = delta % i;
    assert(delta == i * q + r);
    assert(q >= 0) by {
        vstd::arithmetic::div_mod::lemma_div_pos_is_pos(delta, i);
    }
    if r == 0 {
        assert(ceil_div(delta, i) * i == q * i);
        assert(q * i == i * q) by (nonlinear_arith);
        assert((q * i > i) == (q > 1)) by (nonlinear_arith)
            requires i > 0, q >= 0;
    } else {
        assert(ceil_div(delta, i) * i == (q + 1) * i);
        assert((q + 1) * i == i * q + i) by (nonlinear_arith);
        assert(((q + 1) * i > i) == (q >= 1)) by (nonlinear_arith)
            requires i > 0, q >= 0;
        assert((i * q + r > i) == (q >= 1)) by (nonlinear_arith)
            requires i > 0, q >= 0, 0 < r < i;
    }
}

} // verus!
