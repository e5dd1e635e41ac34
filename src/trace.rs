use vstd::prelude::*;

use crate::press::{
    action_of, rank, transition, Action, Event, Phase, PressDetector, PressDuration,
    BUTTON_DEBOUNCE_DELAY, LONG_PRESS_DURATION,
};

verus! {

/// `t` is the least index in `[lo, hi)` at which `p` holds.
pub open spec fn is_least(lo: int, hi: int, p: spec_fn(int) -> bool, t: int) -> bool {
    &&& lo <= t < hi
    &&& p(t)
    &&& forall|j: int| lo <= j < t ==> !#[trigger] p(j)
}

/// The least index in `[lo, hi)` at which `p` holds, if there is one.
pub open spec fn least_in(lo: int, hi: int, p: spec_fn(int) -> bool) -> Option<int> {
    if exists|t: int| is_least(lo, hi, p, t) {
        Some(choose|t: int| is_least(lo, hi, p, t))
    } else {
        None
    }
}

/// The samples at which a recorded line reads `lvl` (`true` is high).
pub open spec fn reads(levels: Seq<bool>, lvl: bool) -> spec_fn(int) -> bool {
    |t: int| 0 <= t < levels.len() && levels[t] == lvl
}

/// The samples at which a recorded line has just fallen from high to low.
pub open spec fn falls(levels: Seq<bool>) -> spec_fn(int) -> bool {
    |e: int| 1 <= e < levels.len() && levels[e - 1] && !levels[e]
}

/// When a wait for level `lvl` that starts at time `from` resolves.
pub open spec fn first_level(levels: Seq<bool>, from: int, lvl: bool) -> Option<int> {
    least_in(from, levels.len() as int, reads(levels, lvl))
}

/// How the race between a falling edge and the long-press timer, started at
/// time `t`, ends, and when. An edge counts only after the race has begun; an
/// edge at the very instant the timer expires loses to the timer. Without an
/// edge the timer can only be seen to expire within the recording.
pub open spec fn race_outcome(levels: Seq<bool>, t: int) -> Option<(PressDuration, int)> {
    let deadline = t + LONG_PRESS_DURATION;
    match least_in(t + 1, deadline, falls(levels)) {
        Some(e) => Some((PressDuration::Short, e)),
        None => if deadline <= levels.len() {
            Some((PressDuration::Long, deadline))
        } else {
            None
        },
    }
}

/// The classification, and the time it is reported, of a press cycle that
/// enters phase `p` at time `t` on a recorded line; `None` where the recording
/// ends before the cycle does.
pub open spec fn resume(levels: Seq<bool>, p: Phase, t: int) -> Option<(PressDuration, int)>
    decreases 4 - rank(p),
{
    match p {
        Phase::AwaitRelease => match first_level(levels, t, false) {
            Some(t1) => resume(levels, Phase::SettleRelease, t1),
            None => None,
        },
        Phase::SettleRelease => resume(levels, Phase::AwaitPress, t + BUTTON_DEBOUNCE_DELAY),
        Phase::AwaitPress => match first_level(levels, t, true) {
            Some(t3) => resume(levels, Phase::SettlePress, t3),
            None => None,
        },
        Phase::SettlePress => resume(levels, Phase::Race, t + BUTTON_DEBOUNCE_DELAY),
        Phase::Race => race_outcome(levels, t),
    }
}

/// The classification of the press cycle that starts at time `start` on a
/// recorded line, and the time it is reported.
pub open spec fn press_outcome(levels: Seq<bool>, start: int) -> Option<(PressDuration, int)> {
    resume(levels, Phase::AwaitRelease, start)
}

proof fn lemma_least_unique(lo: int, hi: int, p: spec_fn(int) -> bool, a: int, b: int)
    requires
        is_least(lo, hi, p, a),
        is_least(lo, hi, p, b),
    ensures
        a == b,
{
}

proof fn lemma_least_some(lo: int, hi: int, p: spec_fn(int) -> bool, t: int)
    requires
        is_least(lo, hi, p, t),
    ensures
        least_in(lo, hi, p) == Some(t),
{
    let c = choose|x: int| is_least(lo, hi, p, x);
    lemma_least_unique(lo, hi, p, c, t);
}

proof fn lemma_least_none(lo: int, hi: int, p: spec_fn(int) -> bool)
    requires
        forall|j: int| lo <= j < hi ==> !#[trigger] p(j),
    ensures
        least_in(lo, hi, p) is None,
{
}

proof fn lemma_least_found(lo: int, hi: int, p: spec_fn(int) -> bool)
    requires
        least_in(lo, hi, p) is Some,
    ensures
        is_least(lo, hi, p, least_in(lo, hi, p)->0),
{
}

/// Two predicates that agree up to and including the least index of the first
/// have the same least index.
proof fn lemma_least_agree(lo: int, hi: int, p: spec_fn(int) -> bool, q: spec_fn(int) -> bool, m: int)
    requires
        least_in(lo, hi, p) == Some(m),
        forall|j: int| lo <= j <= m ==> #[trigger] p(j) == q(j),
    ensures
        least_in(lo, hi, q) == Some(m),
{
    lemma_least_found(lo, hi, p);
    assert forall|j: int| lo <= j < m implies !#[trigger] q(j) by {
        assert(p(j) == q(j));
    }
    assert(p(m) == q(m));
    lemma_least_some(lo, hi, q, m);
}

/// Two predicates that agree on the whole range have the same least index.
proof fn lemma_least_same(lo: int, hi: int, p: spec_fn(int) -> bool, q: spec_fn(int) -> bool)
    requires
        forall|j: int| lo <= j < hi ==> #[trigger] p(j) == q(j),
    ensures
        least_in(lo, hi, p) == least_in(lo, hi, q),
{
    if least_in(lo, hi, p) is Some {
        lemma_least_agree(lo, hi, p, q, least_in(lo, hi, p)->0);
    } else if least_in(lo, hi, q) is Some {
        lemma_least_agree(lo, hi, q, p, least_in(lo, hi, q)->0);
    }
}

/// The phases of a cycle, one after the other.
proof fn lemma_outcome_unfold(levels: Seq<bool>, start: int)
    ensures
        press_outcome(levels, start) == match first_level(levels, start, false) {
            Some(t1) => match first_level(levels, t1 + BUTTON_DEBOUNCE_DELAY, true) {
                Some(t3) => race_outcome(levels, t3 + BUTTON_DEBOUNCE_DELAY),
                None => None,
            },
            None => None,
        },
{
    reveal_with_fuel(resume, 5);
}

/// A clean press is classified by how long it is held after its debounce:
/// the line reads low at `start`, low again from the end of the release
/// debounce until it goes high at `p`, and stays high until it falls at `r`,
/// after the press debounce. Released strictly before the long-press duration
/// has elapsed, it is short and reported at the release; otherwise it is long
/// and reported when the duration elapses.
pub proof fn lemma_classification_threshold(levels: Seq<bool>, start: int, p: int, r: int)
    requires
        0 <= start,
        start + BUTTON_DEBOUNCE_DELAY <= p,
        p + BUTTON_DEBOUNCE_DELAY < r < levels.len(),
        !levels[start],
        forall|i: int| start + BUTTON_DEBOUNCE_DELAY <= i < p ==> !#[trigger] levels[i],
        forall|i: int| p <= i < r ==> #[trigger] levels[i],
        !levels[r],
    ensures
        r < p + BUTTON_DEBOUNCE_DELAY + LONG_PRESS_DURATION ==> press_outcome(levels, start) == Some(
            (PressDuration::Short, r),
        ),
        r >= p + BUTTON_DEBOUNCE_DELAY + LONG_PRESS_DURATION ==> press_outcome(levels, start) == Some(
            (PressDuration::Long, p + BUTTON_DEBOUNCE_DELAY + LONG_PRESS_DURATION),
        ),
{
    lemma_outcome_unfold(levels, start);
    let n = levels.len() as int;
    let t2 = start + BUTTON_DEBOUNCE_DELAY;
    let t4 = p + BUTTON_DEBOUNCE_DELAY;
    let deadline = t4 + LONG_PRESS_DURATION;
    lemma_least_some(start, n, reads(levels, false), start);
    assert forall|j: int| t2 <= j < p implies !#[trigger] reads(levels, true)(j) by {
        assert(!levels[j]);
    }
    lemma_least_some(t2, n, reads(levels, true), p);
    if r < deadline {
        assert forall|j: int| t4 + 1 <= j < r implies !#[trigger] falls(levels)(j) by {
            assert(levels[j]);
        }
        assert(levels[r - 1]);
        lemma_least_some(t4 + 1, deadline, falls(levels), r);
    } else {
        assert forall|j: int| t4 + 1 <= j < deadline implies !#[trigger] falls(levels)(j) by {
            assert(levels[j]);
        }
        lemma_least_none(t4 + 1, deadline, falls(levels));
    }
}

/// A cycle reports nothing before it has seen the line low: every report comes
/// after a low sample at or after `start`, then a high sample at least the
/// debounce delay later, and lies beyond that high sample's debounce.
pub proof fn lemma_release_observed_first(levels: Seq<bool>, start: int)
    requires
        press_outcome(levels, start) is Some,
    ensures
        exists|t1: int, t3: int|
            start <= t1 && t1 + BUTTON_DEBOUNCE_DELAY <= t3 && t3 < levels.len() && !#[trigger] levels[t1]
                && #[trigger] levels[t3] && t3 + BUTTON_DEBOUNCE_DELAY < (press_outcome(levels, start)->0).1,
        (press_outcome(levels, start)->0).1 <= levels.len(),
{
    lemma_outcome_unfold(levels, start);
    let n = levels.len() as int;
    lemma_least_found(start, n, reads(levels, false));
    let t1 = first_level(levels, start, false)->0;
    let t2 = t1 + BUTTON_DEBOUNCE_DELAY;
    lemma_least_found(t2, n, reads(levels, true));
    let t3 = first_level(levels, t2, true)->0;
    let t4 = t3 + BUTTON_DEBOUNCE_DELAY;
    if least_in(t4 + 1, t4 + LONG_PRESS_DURATION, falls(levels)) is Some {
        lemma_least_found(t4 + 1, t4 + LONG_PRESS_DURATION, falls(levels));
    }
    assert(levels[t3]);
}

/// Bounce is absorbed: a recording that differs from another only within the
/// debounce windows that follow the observed release at `t1` and the observed
/// press at `t3` yields the same classification at the same time.
pub proof fn lemma_debounce_absorbs(a: Seq<bool>, b: Seq<bool>, start: int, t1: int, t3: int)
    requires
        a.len() == b.len(),
        first_level(a, start, false) == Some(t1),
        first_level(a, t1 + BUTTON_DEBOUNCE_DELAY, true) == Some(t3),
        forall|i: int|
            0 <= i < a.len() && #[trigger] a[i] != b[i] ==> (t1 < i < t1 + BUTTON_DEBOUNCE_DELAY) || (t3
                < i < t3 + BUTTON_DEBOUNCE_DELAY),
    ensures
        press_outcome(a, start) == press_outcome(b, start),
{
    lemma_outcome_unfold(a, start);
    lemma_outcome_unfold(b, start);
    let n = a.len() as int;
    let t2 = t1 + BUTTON_DEBOUNCE_DELAY;
    let t4 = t3 + BUTTON_DEBOUNCE_DELAY;
    lemma_least_found(start, n, reads(a, false));
    lemma_least_found(t2, n, reads(a, true));
    assert forall|j: int| start <= j <= t1 implies #[trigger] reads(a, false)(j) == reads(b, false)(j) by {
        if 0 <= j < n {
            assert(a[j] == b[j]);
        }
    }
    lemma_least_agree(start, n, reads(a, false), reads(b, false), t1);
    assert forall|j: int| t2 <= j <= t3 implies #[trigger] reads(a, true)(j) == reads(b, true)(j) by {
        if 0 <= j < n {
            assert(a[j] == b[j]);
        }
    }
    lemma_least_agree(t2, n, reads(a, true), reads(b, true), t3);
    let deadline = t4 + LONG_PRESS_DURATION;
    assert forall|j: int| t4 + 1 <= j < deadline implies #[trigger] falls(a)(j) == falls(b)(j) by {
        if 1 <= j < n {
            assert(a[j] == b[j]);
            assert(a[j - 1] == b[j - 1]);
        }
    }
    lemma_least_same(t4 + 1, deadline, falls(a), falls(b));
}

/// A cycle depends on nothing before its start: two recordings that agree from
/// `start` on yield the same classification at the same time.
pub proof fn lemma_no_state_carried(a: Seq<bool>, b: Seq<bool>, start: int)
    requires
        0 <= start,
        a.len() == b.len(),
        forall|i: int| start <= i < a.len() ==> #[trigger] a[i] == b[i],
    ensures
        press_outcome(a, start) == press_outcome(b, start),
{
    lemma_outcome_unfold(a, start);
    lemma_outcome_unfold(b, start);
    let n = a.len() as int;
    assert forall|j: int| start <= j < n implies #[trigger] reads(a, false)(j) == reads(b, false)(j) by {
        assert(a[j] == b[j]);
    }
    lemma_least_same(start, n, reads(a, false), reads(b, false));
    if first_level(a, start, false) is Some {
        lemma_least_found(start, n, reads(a, false));
        let t1 = first_level(a, start, false)->0;
        let t2 = t1 + BUTTON_DEBOUNCE_DELAY;
        assert forall|j: int| t2 <= j < n implies #[trigger] reads(a, true)(j) == reads(b, true)(j) by {
            assert(a[j] == b[j]);
        }
        lemma_least_same(t2, n, reads(a, true), reads(b, true));
        if first_level(a, t2, true) is Some {
            lemma_least_found(t2, n, reads(a, true));
            let t3 = first_level(a, t2, true)->0;
            let t4 = t3 + BUTTON_DEBOUNCE_DELAY;
            let deadline = t4 + LONG_PRESS_DURATION;
            assert forall|j: int| t4 + 1 <= j < deadline implies #[trigger] falls(a)(j) == falls(b)(j) by {
                if 1 <= j < n {
                    assert(a[j] == b[j]);
                    assert(a[j - 1] == b[j - 1]);
                }
            }
            lemma_least_same(t4 + 1, deadline, falls(a), falls(b));
        }
    }
}

/// The first sample at or after `from` at which the line reads `lvl`.
fn first_level_from(levels: &Vec<bool>, from: usize, lvl: bool) -> (r: Option<usize>)
    ensures
        match r {
            Some(t) => first_level(levels@, from as int, lvl) == Some(t as int),
            None => first_level(levels@, from as int, lvl) is None,
        },
{
    let mut i: usize = from;
    while i < levels.len()
        invariant
            from <= i,
            forall|j: int| from <= j < i ==> !#[trigger] reads(levels@, lvl)(j),
        decreases levels.len() - i,
    {
        if levels[i] == lvl {
            proof {
                lemma_least_some(from as int, levels@.len() as int, reads(levels@, lvl), i as int);
            }
            return Some(i);
        }
        i = i + 1;
    }
    proof {
        lemma_least_none(from as int, levels@.len() as int, reads(levels@, lvl));
    }
    None
}

/// The first falling edge after time `t` and strictly before `t + limit`.
fn first_fall_within(levels: &Vec<bool>, t: usize, limit: u64) -> (r: Option<usize>)
    requires
        t < levels@.len(),
    ensures
        match r {
            Some(e) => least_in(t + 1, t + limit, falls(levels@)) == Some(e as int),
            None => least_in(t + 1, t + limit, falls(levels@)) is None,
        },
{
    let n = levels.len();
    let mut e: usize = t + 1;
    while e < n && ((e - t) as u64) < limit
        invariant
            t + 1 <= e,
            t < n,
            n == levels@.len(),
            forall|j: int| t + 1 <= j < e ==> !#[trigger] falls(levels@)(j),
        decreases n - e,
    {
        if levels[e - 1] && !levels[e] {
            proof {
                lemma_least_some(t + 1, t + limit, falls(levels@), e as int);
            }
            return Some(e);
        }
        e = e + 1;
    }
    proof {
        lemma_least_none(t + 1, t + limit, falls(levels@));
    }
    None
}

/// Runs one press cycle over a recorded line, one level sample per
/// millisecond (`true` is high), starting at sample `start`. Returns the
/// classification and the sample at which it is reported, or `None` where the
/// recording ends before the cycle does.
pub fn press_on_trace(levels: &Vec<bool>, start: usize) -> (r: Option<(PressDuration, usize)>)
    ensures
        match r {
            Some((d, e)) => press_outcome(levels@, start as int) == Some((d, e as int)),
            None => press_outcome(levels@, start as int) is None,
        },
{
    let mut det = PressDetector::new();
    let mut t: usize = start;
    loop
        invariant
            resume(levels@, det.phase, t as int) == press_outcome(levels@, start as int),
        decreases 4 - rank(det.phase),
    {
        let ev = match det.next_action() {
            Action::WaitLow => match first_level_from(levels, t, false) {
                Some(i) => {
                    t = i;
                    Event::Low
                },
                None => {
                    return None;
                },
            },
            Action::WaitHigh => match first_level_from(levels, t, true) {
                Some(i) => {
                    t = i;
                    Event::High
                },
                None => {
                    return None;
                },
            },
            Action::Sleep(d) => {
                if t >= levels.len() || d >= (levels.len() - t) as u64 {
                    proof {
                        let u = t + d;
                        lemma_least_none(u, levels@.len() as int, reads(levels@, true));
                        lemma_least_none(u + 1, u + LONG_PRESS_DURATION, falls(levels@));
                        assert(resume(levels@, Phase::AwaitPress, u) is None);
                        assert(resume(levels@, Phase::Race, u) is None);
                    }
                    return None;
                }
                t = t + d as usize;
                Event::Slept
            },
            Action::RaceReleaseTimeout(limit) => {
                if t >= levels.len() {
                    proof {
                        lemma_least_none(t + 1, t + limit, falls(levels@));
                    }
                    return None;
                }
                match first_fall_within(levels, t, limit) {
                    Some(e) => {
                        t = e;
                        Event::Released
                    },
                    None => {
                        if limit > (levels.len() - t) as u64 {
                            return None;
                        }
                        t = t + limit as usize;
                        Event::TimedOut
                    },
                }
            },
        };
        if let Some(d) = det.step(ev) {
            return Some((d, t));
        }
    }
}

/// Where the `k`-th of a run of back-to-back cycles starts: at the beginning
/// of the recording, then where the previous one was reported.
pub open spec fn cycle_start(reports: Seq<(PressDuration, usize)>, k: int) -> int {
    if k == 0 {
        0
    } else {
        reports[k - 1].1 as int
    }
}

/// Runs press cycles back to back over a recorded line, each starting where
/// the previous one was reported, until the recording ends before a cycle
/// does. Returns each cycle's classification and the sample it was reported at.
pub fn press_sequence(levels: &Vec<bool>) -> (r: Vec<(PressDuration, usize)>)
    ensures
        forall|k: int|
            0 <= k < r@.len() ==> press_outcome(levels@, cycle_start(r@, k)) == Some(
                ((#[trigger] r@[k]).0, r@[k].1 as int),
            ),
        press_outcome(levels@, cycle_start(r@, r@.len() as int)) is None,
{
    let mut out: Vec<(PressDuration, usize)> = Vec::new();
    let mut start: usize = 0;
    loop
        invariant
            start <= levels@.len(),
            start as int == cycle_start(out@, out@.len() as int),
            forall|k: int|
                0 <= k < out@.len() ==> press_outcome(levels@, cycle_start(out@, k)) == Some(
                    ((#[trigger] out@[k]).0, out@[k].1 as int),
                ),
        decreases levels@.len() - start,
    {
        match press_on_trace(levels, start) {
            Some((d, e)) => {
                proof {
                    lemma_release_observed_first(levels@, start as int);
                }
                let ghost prev = out@;
                out.push((d, e));
                proof {
                    assert forall|k: int| 0 <= k < out@.len() implies press_outcome(
                        levels@,
                        cycle_start(out@, k),
                    ) == Some(((#[trigger] out@[k]).0, out@[k].1 as int)) by {
                        if k < prev.len() {
                            assert(out@[k] == prev[k]);
                            assert(cycle_start(out@, k) == cycle_start(prev, k));
                        }
                    }
                }
                start = e;
            },
            None => {
                return out;
            },
        }
    }
}

} // verus!
