//! The decisions of the event loops that run after the page's scripts: when
//! to keep pumping timers and events, how long to sleep, and when the page
//! counts as settled.
use vstd::prelude::*;

verus! {

/// Ticks of the classic engine's event loop, at most.
pub const MAX_TICKS: u64 = 1000;

/// The classic engine's loop stops after this many milliseconds.
pub const MAX_TOTAL_MS: u64 = 3000;

/// The longest single sleep while waiting for a timer.
pub const MAX_SLEEP_MS: u64 = 50;

/// Consecutive quiet rounds after which a page counts as settled.
pub const IDLE_ROUNDS: u32 = 3;

/// Quiet rounds are only counted after this many milliseconds.
pub const IDLE_GRACE_MS: u64 = 300;

/// Polls of open WebSocket connections without any event, at most.
pub const WS_MAX_IDLE_POLLS: u32 = 500;

/// The sleep between two polls of open WebSocket connections.
pub const WS_POLL_MS: u64 = 5;

/// The state of the classic engine's event loop between ticks.
pub struct PumpState {
    pub idle_rounds: u32,
    pub ws_idle_polls: u32,
}

/// What the classic engine's event loop does after a tick.
#[derive(Debug, Clone, Copy, PartialEq, Eq, Structural)]
pub enum PumpAction {
    /// Start the next tick at once.
    Continue,
    /// Sleep this long for the next timer, then report the time.
    WaitTimer(u64),
    /// Sleep this long for WebSocket traffic, then start the next tick.
    PollSockets(u64),
    /// The loop is done.
    Stop,
}

impl PumpState {
    pub open spec fn wf(&self) -> bool {
        self.idle_rounds < IDLE_ROUNDS && self.ws_idle_polls <= WS_MAX_IDLE_POLLS
    }

    /// The state before the first tick.
    pub fn new() -> (r: Self)
        ensures
            r.wf(),
            r.idle_rounds == 0,
            r.ws_idle_polls == 0,
    {
        PumpState { idle_rounds: 0, ws_idle_polls: 0 }
    }
}

/// Whether another tick runs: fewer than `MAX_TICKS` ran and fewer than
/// `MAX_TOTAL_MS` milliseconds passed.
pub fn pump_tick_allowed(ticks_done: u64, elapsed_ms: u64) -> (r: bool)
    ensures
        r == (ticks_done < MAX_TICKS && elapsed_ms < MAX_TOTAL_MS),
{
    ticks_done < MAX_TICKS && elapsed_ms < MAX_TOTAL_MS
}

/// The smaller of two numbers.
pub open spec fn min(a: u64, b: u64) -> u64 {
    if a <= b {
        a
    } else {
        b
    }
}

/// The decision after a tick that ran `invoked` callbacks, scripts and
/// events. With activity the quiet counts restart. Otherwise, with a timer
/// pending in `timer_wait_ms` milliseconds, wait for it, for at most
/// `MAX_SLEEP_MS` and not past `MAX_TOTAL_MS`; with no timer and no open
/// WebSocket, stop; with open WebSockets, poll them, up to
/// `WS_MAX_IDLE_POLLS` times in a row.
pub fn pump_after_tick(
    st: &mut PumpState,
    invoked: u64,
    timer_wait_ms: Option<u64>,
    elapsed_ms: u64,
    ws_connections: u64,
) -> (r: PumpAction)
    requires
        old(st).wf(),
    ensures
        final(st).wf(),
        invoked > 0 ==> r == PumpAction::Continue && final(st).idle_rounds == 0
            && final(st).ws_idle_polls == 0,
        invoked == 0 && timer_wait_ms is Some ==> r == PumpAction::WaitTimer(
            min(
                min(timer_wait_ms->0, MAX_SLEEP_MS),
                if elapsed_ms < MAX_TOTAL_MS {
                    (MAX_TOTAL_MS - elapsed_ms) as u64
                } else {
                    0
                },
            ),
        ) && final(st).ws_idle_polls == 0 && final(st).idle_rounds == old(st).idle_rounds,
        invoked == 0 && timer_wait_ms is None && ws_connections == 0 ==> r == PumpAction::Stop,
        invoked == 0 && timer_wait_ms is None && ws_connections > 0 ==> if old(
            st,
        ).ws_idle_polls >= WS_MAX_IDLE_POLLS {
            r == PumpAction::Stop
        } else {
            r == PumpAction::PollSockets(WS_POLL_MS) && final(st).ws_idle_polls == old(
                st,
            ).ws_idle_polls + 1 && final(st).idle_rounds == old(st).idle_rounds
        },
{
    if invoked > 0 {
        st.ws_idle_polls = 0;
        st.idle_rounds = 0;
        return PumpAction::Continue;
    }
    match timer_wait_ms {
        Some(w) => {
            let mut wait = if w < MAX_SLEEP_MS {
                w
            } else {
                MAX_SLEEP_MS
            };
            let left = if elapsed_ms < MAX_TOTAL_MS {
                MAX_TOTAL_MS - elapsed_ms
            } else {
                0
            };
            if left < wait {
                wait = left;
            }
            st.ws_idle_polls = 0;
            PumpAction::WaitTimer(wait)
        },
        None => {
            if ws_connections == 0 {
                return PumpAction::Stop;
            }
            if st.ws_idle_polls >= WS_MAX_IDLE_POLLS {
                return PumpAction::Stop;
            }
            st.ws_idle_polls = st.ws_idle_polls + 1;
            PumpAction::PollSockets(WS_POLL_MS)
        },
    }
}

/// After waiting for a timer: past the grace period the wait counts as a
/// quiet round, and the loop stops at `IDLE_ROUNDS` of them.
pub fn pump_after_timer_wait(st: &mut PumpState, elapsed_ms: u64) -> (stop: bool)
    requires
        old(st).wf(),
    ensures
        final(st).ws_idle_polls == old(st).ws_idle_polls,
        elapsed_ms < IDLE_GRACE_MS ==> !stop && final(st).idle_rounds == old(st).idle_rounds,
        elapsed_ms >= IDLE_GRACE_MS ==> stop == (old(st).idle_rounds + 1 >= IDLE_ROUNDS),
        elapsed_ms >= IDLE_GRACE_MS && !stop ==> final(st).idle_rounds == old(st).idle_rounds + 1,
        !stop ==> final(st).wf(),
{
    if elapsed_ms >= IDLE_GRACE_MS {
        st.idle_rounds = st.idle_rounds + 1;
        if st.idle_rounds >= IDLE_ROUNDS {
            return true;
        }
    }
    false
}

/// The state of the main event loop's settle detection.
pub struct SettleState {
    pub idle_rounds: u32,
    /// When the current quiet stretch started, in milliseconds of the loop.
    pub idle_start_ms: Option<u64>,
}

/// What the main event loop does after a round.
#[derive(Debug, Clone, Copy, PartialEq, Eq, Structural)]
pub enum SettleAction {
    /// Go on with the next round.
    Continue,
    /// Ask the page whether its body shows content; stop if it does.
    CheckContent,
    /// The page is settled.
    Stop,
}

impl SettleState {
    pub open spec fn wf(&self) -> bool {
        self.idle_rounds < IDLE_ROUNDS
    }

    /// The state before the first round.
    pub fn new() -> (r: Self)
        ensures
            r.wf(),
            r.idle_rounds == 0,
            r.idle_start_ms is None,
    {
        SettleState { idle_rounds: 0, idle_start_ms: None }
    }
}

/// The decision after a round of the main event loop at `now_ms`. Activity,
/// or a reason to wait (an open WebSocket, a timer due within the horizon),
/// ends the quiet stretch. A quiet round starts a stretch; once a stretch
/// lasted `IDLE_GRACE_MS`, each quiet round counts, the loop stops at
/// `IDLE_ROUNDS` of them, and before that the page's content is checked; a
/// quiet round within the grace period resets the count.
pub fn settle_step(st: &mut SettleState, active: bool, waiting: bool, now_ms: u64) -> (r:
    SettleAction)
    requires
        old(st).wf(),
        old(st).idle_start_ms matches Some(s) ==> s <= now_ms,
    ensures
        r != SettleAction::Stop ==> final(st).wf(),
        (active || waiting) ==> r == SettleAction::Continue && final(st).idle_rounds == 0
            && final(st).idle_start_ms is None,
        !(active || waiting) && old(st).idle_start_ms is None ==> r == SettleAction::Continue
            && final(st).idle_start_ms == Some(now_ms) && final(st).idle_rounds == old(
            st,
        ).idle_rounds,
        !(active || waiting) && old(st).idle_start_ms is Some ==> {
            let s = old(st).idle_start_ms->0;
            &&& final(st).idle_start_ms == old(st).idle_start_ms
            &&& if now_ms - s >= IDLE_GRACE_MS {
                final(st).idle_rounds == old(st).idle_rounds + 1 && r == (if old(st).idle_rounds
                    + 1 >= IDLE_ROUNDS {
                    SettleAction::Stop
                } else {
                    SettleAction::CheckContent
                })
            } else {
                final(st).idle_rounds == 0 && r == SettleAction::Continue
            }
        },
{
    if active || waiting {
        st.idle_start_ms = None;
        st.idle_rounds = 0;
        return SettleAction::Continue;
    }
    match st.idle_start_ms {
        None => {
            st.idle_start_ms = Some(now_ms);
            SettleAction::Continue
        },
        Some(s) => {
            let idle_for = now_ms - s;
            if idle_for >= IDLE_GRACE_MS {
                st.idle_rounds = st.idle_rounds + 1;
                if st.idle_rounds >= IDLE_ROUNDS {
                    SettleAction::Stop
                } else {
                    SettleAction::CheckContent
                }
            } else {
                st.idle_rounds = 0;
                SettleAction::Continue
            }
        },
    }
}

/// One round of the pump that runs after a synthetic click: activity
/// resets the quiet count and drains the microtasks; a timer due soon keeps
/// the count at zero; a quiet round drains the microtasks and counts. The
/// pump stops at `IDLE_ROUNDS` quiet rounds. Gives the new count and whether
/// to drain the microtasks.
pub fn click_pump_step(idle_rounds: u32, active: bool, pending_soon: bool) -> (r: (u32, bool))
    requires
        idle_rounds < IDLE_ROUNDS,
    ensures
        active ==> r == (0u32, true),
        !active && pending_soon ==> r == (0u32, false),
        !active && !pending_soon ==> r == ((idle_rounds + 1) as u32, true),
{
    if active {
        (0, true)
    } else if pending_soon {
        (0, false)
    } else {
        (idle_rounds + 1, true)
    }
}

/// Whether the click pump goes on: fewer than `IDLE_ROUNDS` quiet rounds and
/// time left.
pub fn click_pump_continues(idle_rounds: u32, elapsed_ms: u64, max_ms: u64) -> (r: bool)
    ensures
        r == (idle_rounds < IDLE_ROUNDS && elapsed_ms < max_ms),
{
    idle_rounds < IDLE_ROUNDS && elapsed_ms < max_ms
}

/// The main event loop's time budget when nothing is configured.
pub const DEFAULT_EL_MAX_MS: u64 = 2000;

/// The value of a decimal numeral as `u64::from_str` reads it: an optional
/// `+`, then one or more ASCII digits; `None` for anything else.
pub open spec fn u64_text(s: Seq<char>) -> Option<nat> {
    let d = unsigned_part(s);
    if d.len() > 0 && all_digits(d) {
        Some(digits_value(d))
    } else {
        None
    }
}

/// `s` without one leading `+`.
pub open spec fn unsigned_part(s: Seq<char>) -> Seq<char> {
    if s.len() > 0 && s[0] == '+' {
        s.drop_first()
    } else {
        s
    }
}

pub open spec fn all_digits(d: Seq<char>) -> bool {
    forall|i: int| 0 <= i < d.len() ==> '0' <= #[trigger] d[i] && d[i] <= '9'
}

/// The value of a sequence of ASCII digits.
pub open spec fn digits_value(d: Seq<char>) -> nat
    decreases d.len(),
{
    if d.len() == 0 {
        0
    } else {
        digits_value(d.drop_last()) * 10 + ((d.last() as u32) - ('0' as u32)) as nat
    }
}

/// The main event loop's time budget in milliseconds: the configured value
/// when it is a `u64` numeral, else `DEFAULT_EL_MAX_MS`.
pub fn event_loop_budget_ms(setting: Option<&str>) -> (r: u64)
    ensures
        r == match setting {
            Some(s) => match u64_text(s@) {
                Some(v) => if v <= u64::MAX {
                    v as u64
                } else {
                    DEFAULT_EL_MAX_MS
                },
                None => DEFAULT_EL_MAX_MS,
            },
            None => DEFAULT_EL_MAX_MS,
        },
{
    let s = match setting {
        Some(s) => s,
        None => {
            return DEFAULT_EL_MAX_MS;
        },
    };
    let cs = crate::text::chars_of(s);
    let start: usize = if cs.len() > 0 && cs[0] == '+' {
        1
    } else {
        0
    };
    let ghost d = if cs@.len() > 0 && cs@[0] == '+' {
        cs@.drop_first()
    } else {
        cs@
    };
    assert(d =~= cs@.skip(start as int));
    if start >= cs.len() {
        return DEFAULT_EL_MAX_MS;
    }
    let mut v: u64 = 0;
    let mut i = start;
    while i < cs.len()
        invariant
            start <= i <= cs@.len(),
            start < cs@.len(),
            cs@ == s@,
            setting == Some(s),
            d == cs@.skip(start as int),
            d == unsigned_part(s@),
            forall|k: int| start <= k < i ==> '0' <= #[trigger] cs@[k] && cs@[k] <= '9',
            v == digits_value(cs@.subrange(start as int, i as int)),
        decreases cs@.len() - i,
    {
        let c = cs[i];
        if !('0' <= c && c <= '9') {
            assert(d[i - start] == c);
            assert(!('0' <= d[i - start] && d[i - start] <= '9'));
            assert(!all_digits(d));
            assert(u64_text(s@) is None);
            return DEFAULT_EL_MAX_MS;
        }
        let digit = (c as u32 - '0' as u32) as u64;
        assert(cs@.subrange(start as int, i + 1).drop_last() =~= cs@.subrange(start as int, i as int));
        if v > (u64::MAX - digit) / 10 {
            proof {
                let pv = digits_value(cs@.subrange(start as int, i + 1));
                assert(pv == v * 10 + digit);
                assert(v * 10 + digit > u64::MAX) by (nonlinear_arith)
                    requires
                        v > (u64::MAX - digit) / 10,
                        digit <= 9,
                ;
                if all_digits(d) {
                    lemma_digits_grow(d, (i + 1 - start) as int);
                    assert(d.take((i + 1 - start) as int) =~= cs@.subrange(start as int, i + 1));
                }
            }
            return DEFAULT_EL_MAX_MS;
        }
        v = v * 10 + digit;
        i = i + 1;
    }
    assert(cs@.subrange(start as int, cs@.len() as int) =~= d);
    v
}

/// A numeral is worth at least any of its prefixes.
proof fn lemma_digits_grow(d: Seq<char>, k: int)
    requires
        0 <= k <= d.len(),
        forall|i: int| 0 <= i < d.len() ==> '0' <= #[trigger] d[i] && d[i] <= '9',
    ensures
        digits_value(d) >= digits_value(d.take(k)),
    decreases d.len(),
{
    if d.len() > k {
        assert(d.drop_last().take(k) =~= d.take(k));
        assert forall|i: int| 0 <= i < d.drop_last().len() implies '0' <= #[trigger] d.drop_last()[i] && d.drop_last()[i] <= '9' by {
            assert(d.drop_last()[i] == d[i]);
        }
        lemma_digits_grow(d.drop_last(), k);
    } else {
        assert(d.take(k) =~= d);
    }
}

} // verus!
