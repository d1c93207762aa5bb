//! How fast pages are asked for. Times are in nanoseconds; points in time count
//! from one fixed point.
use vstd::prelude::*;

verus! {

/// The time between two listings.
pub const BROWSE_GAP: u64 = 2_000_000_000;

/// The time between two pages of items.
pub const ITEM_GAP: u64 = 800_000_000;

/// How long everything is slowed down after there were too many requests.
pub const RATE_LIMIT_COOLDOWN: u64 = 1_200_000_000_000;

/// How long a page in the background waits where one in the foreground is being
/// fetched.
pub const YIELD: u64 = 100_000_000;

/// How long a page in the background waits at a time.
pub const NAP: u64 = 50_000_000;

/// When pages may be asked for: until when everything is slowed down, when the
/// last page was asked for, and how many pages are being fetched in the
/// foreground.
pub struct Gate {
    pub floor_until: Option<u64>,
    pub last_hit: Option<u64>,
    pub foreground: usize,
}

/// What a page that is to be fetched does next.
#[derive(Clone, Copy, PartialEq, Eq, Structural)]
pub enum GapStep {
    /// Gives way to the foreground, for this long.
    Yield(u64),
    /// Waits this long.
    Wait(u64),
    /// It is fetched.
    Go,
}

/// The gap to honour at a point in time: while everything is slowed down, at
/// least the one between listings.
pub open spec fn gap_now(floor_until: Option<u64>, gap: u64, now: u64) -> u64 {
    match floor_until {
        Some(deadline) => if now < deadline && gap < BROWSE_GAP {
            BROWSE_GAP
        } else {
            gap
        },
        None => gap,
    }
}

/// Until when everything is slowed down, once a point in time was reached: it
/// ends by itself.
pub open spec fn floor_now(floor_until: Option<u64>, now: u64) -> Option<u64> {
    match floor_until {
        Some(deadline) => if now < deadline {
            Some(deadline)
        } else {
            None
        },
        None => None,
    }
}

/// What a page does next at a point in time, with this gap to honour.
pub open spec fn gap_step(
    last_hit: Option<u64>,
    foreground: usize,
    is_foreground: bool,
    gap: u64,
    now: u64,
) -> GapStep {
    if !is_foreground && foreground > 0 {
        GapStep::Yield(YIELD)
    } else {
        match last_hit {
            Some(t) => {
                let elapsed = if now >= t {
                    now - t
                } else {
                    0
                };
                if elapsed <= gap {
                    GapStep::Wait((gap - elapsed) as u64)
                } else {
                    GapStep::Go
                }
            },
            None => GapStep::Go,
        }
    }
}

impl Gate {
    pub fn new() -> (r: Gate)
        ensures
            r.floor_until is None,
            r.last_hit is None,
            r.foreground == 0,
    {
        Gate { floor_until: None, last_hit: None, foreground: 0 }
    }

    /// There were too many requests: everything is slowed down from now on.
    pub fn note_rate_limit(&mut self, now: u64)
        requires
            now + RATE_LIMIT_COOLDOWN <= u64::MAX,
        ensures
            final(self).floor_until == Some((now + RATE_LIMIT_COOLDOWN) as u64),
            final(self).last_hit == old(self).last_hit,
            final(self).foreground == old(self).foreground,
    {
        self.floor_until = Some(now + RATE_LIMIT_COOLDOWN);
    }

    /// The gap to honour now; a slowdown that is over is forgotten.
    pub fn effective_gap(&mut self, gap: u64, now: u64) -> (r: u64)
        ensures
            r == gap_now(old(self).floor_until, gap, now),
            final(self).floor_until == floor_now(old(self).floor_until, now),
            final(self).last_hit == old(self).last_hit,
            final(self).foreground == old(self).foreground,
    {
        match self.floor_until {
            Some(deadline) => {
                if now < deadline {
                    if gap < BROWSE_GAP {
                        BROWSE_GAP
                    } else {
                        gap
                    }
                } else {
                    self.floor_until = None;
                    gap
                }
            },
            None => gap,
        }
    }

    /// What a page does next. Where it is fetched, the time is noted.
    pub fn rate_limit_gap(&mut self, is_foreground: bool, gap: u64, now: u64) -> (r: GapStep)
        ensures
            r == gap_step(
                old(self).last_hit,
                old(self).foreground,
                is_foreground,
                gap_now(old(self).floor_until, gap, now),
                now,
            ),
            final(self).floor_until == floor_now(old(self).floor_until, now),
            final(self).last_hit == (if r is Go {
                Some(now)
            } else {
                old(self).last_hit
            }),
            final(self).foreground == old(self).foreground,
    {
        let current = self.effective_gap(gap, now);
        if !is_foreground && self.foreground > 0 {
            return GapStep::Yield(YIELD);
        }
        match self.last_hit {
            Some(t) => {
                let elapsed = if now >= t {
                    now - t
                } else {
                    0
                };
                if elapsed <= current {
                    return GapStep::Wait(current - elapsed);
                }
            },
            None => {},
        }
        self.last_hit = Some(now);
        GapStep::Go
    }
}

/// While a page is fetched in the foreground, pages in the background wait.
pub struct ForegroundGuard;

impl ForegroundGuard {
    /// A page is fetched in the foreground from now on.
    pub fn new(gate: &mut Gate) -> (r: ForegroundGuard)
        requires
            old(gate).foreground < usize::MAX,
        ensures
            final(gate).foreground == old(gate).foreground + 1,
            final(gate).floor_until == old(gate).floor_until,
            final(gate).last_hit == old(gate).last_hit,
    {
        gate.foreground = gate.foreground + 1;
        ForegroundGuard
    }

    /// It is fetched no longer.
    pub fn leave(self, gate: &mut Gate)
        requires
            old(gate).foreground > 0,
        ensures
            final(gate).foreground == old(gate).foreground - 1,
            final(gate).floor_until == old(gate).floor_until,
            final(gate).last_hit == old(gate).last_hit,
    {
        gate.foreground = gate.foreground - 1;
    }
}

/// How long a page in the background sleeps.
pub open spec fn nap(wait: u64, elapsed: u64, foreground: usize) -> Option<u64> {
    if elapsed >= wait || foreground > 0 {
        None
    } else {
        Some(
            if wait - elapsed < NAP {
                (wait - elapsed) as u64
            } else {
                NAP
            },
        )
    }
}

/// How long a page in the background sleeps of what it has to wait, before it
/// looks again whether the foreground wants to go first; `None` where it stops
/// waiting.
pub fn background_nap(wait: u64, elapsed: u64, foreground: usize) -> (r: Option<u64>)
    ensures
        r == nap(wait, elapsed, foreground),
{
    if elapsed >= wait || foreground > 0 {
        None
    } else if wait - elapsed < NAP {
        Some(wait - elapsed)
    } else {
        Some(NAP)
    }
}

/// Two pages are never asked for closer together than the gap; after there were
/// too many requests, never closer than two listings for as long as the slowdown
/// lasts.
pub proof fn law_pages_are_spaced(
    floor_until: Option<u64>,
    last_hit: u64,
    foreground: usize,
    is_foreground: bool,
    gap: u64,
    now: u64,
)
    ensures
        gap_step(
            Some(last_hit),
            foreground,
            is_foreground,
            gap_now(floor_until, gap, now),
            now,
        ) is Go ==> now - last_hit > gap && (floor_until matches Some(d) && now < d ==> now
            - last_hit > BROWSE_GAP),
{
}

/// A slowdown holds for its whole length and then ends by itself.
pub proof fn law_slowdown_expires(noted: u64, gap: u64, now: u64)
    requires
        noted + RATE_LIMIT_COOLDOWN <= u64::MAX,
    ensures
        ({
            let until = Some((noted + RATE_LIMIT_COOLDOWN) as u64);
            &&& now < noted + RATE_LIMIT_COOLDOWN ==> gap_now(until, gap, now) >= BROWSE_GAP
                && gap_now(until, gap, now) >= gap && floor_now(until, now) == until
            &&& now >= noted + RATE_LIMIT_COOLDOWN ==> gap_now(until, gap, now) == gap && floor_now(
                until,
                now,
            ) is None
        }),
{
}

/// A page in the background gives way as long as one in the foreground is being
/// fetched.
pub proof fn law_background_gives_way(
    last_hit: Option<u64>,
    foreground: usize,
    gap: u64,
    now: u64,
)
    requires
        foreground > 0,
    ensures
        gap_step(last_hit, foreground, false, gap, now) == GapStep::Yield(YIELD),
{
}

} // verus!
