use vstd::prelude::*;

verus! {

/// Time, in milliseconds, allowed for contact bounce to settle after a level
/// has been observed.
pub const BUTTON_DEBOUNCE_DELAY: u64 = 10;

/// How long, in milliseconds, a press must be held (counted from the end of
/// the press debounce) to be classified as long.
pub const LONG_PRESS_DURATION: u64 = 500;

/// How long a button was pressed.
#[derive(Clone, Copy, Debug, PartialEq, Eq, Structural, Hash, PartialOrd, Ord)]
pub enum PressDuration {
    Short,
    Long,
}

/// The wait that a press cycle asks its driver to perform next.
#[derive(Clone, Copy, Debug, PartialEq, Eq, Structural)]
pub enum Action {
    /// Suspend until the line reads low (released).
    WaitLow,
    /// Suspend until the line reads high (pressed).
    WaitHigh,
    /// Sleep for the given number of milliseconds.
    Sleep(u64),
    /// Race a falling edge of the line against a timer of the given number of
    /// milliseconds; report whichever completes first.
    RaceReleaseTimeout(u64),
}

/// What a completed wait reported.
#[derive(Clone, Copy, Debug, PartialEq, Eq, Structural)]
pub enum Event {
    /// The line was observed low.
    Low,
    /// The line was observed high.
    High,
    /// A sleep ran to its end.
    Slept,
    /// The race ended with a falling edge.
    Released,
    /// The race ended with the timer.
    TimedOut,
}

/// The five ordered phases of one press cycle.
#[derive(Clone, Copy, Debug, PartialEq, Eq, Structural)]
pub enum Phase {
    AwaitRelease,
    SettleRelease,
    AwaitPress,
    SettlePress,
    Race,
}

/// The wait that belongs to each phase.
pub open spec fn action_of(p: Phase) -> Action {
    match p {
        Phase::AwaitRelease => Action::WaitLow,
        Phase::SettleRelease => Action::Sleep(BUTTON_DEBOUNCE_DELAY),
        Phase::AwaitPress => Action::WaitHigh,
        Phase::SettlePress => Action::Sleep(BUTTON_DEBOUNCE_DELAY),
        Phase::Race => Action::RaceReleaseTimeout(LONG_PRESS_DURATION),
    }
}

/// The transition table of a press cycle: the phase after `e` arrives in phase
/// `p`, and the classification reported, if any. An event that does not answer
/// the phase's own wait leaves the phase as it is and reports nothing. The race
/// reports on whichever of its two outcomes arrives and starts the next cycle.
pub open spec fn transition(p: Phase, e: Event) -> (Phase, Option<PressDuration>) {
    match (p, e) {
        (Phase::AwaitRelease, Event::Low) => (Phase::SettleRelease, None),
        (Phase::SettleRelease, Event::Slept) => (Phase::AwaitPress, None),
        (Phase::AwaitPress, Event::High) => (Phase::SettlePress, None),
        (Phase::SettlePress, Event::Slept) => (Phase::Race, None),
        (Phase::Race, Event::Released) => (Phase::AwaitRelease, Some(PressDuration::Short)),
        (Phase::Race, Event::TimedOut) => (Phase::AwaitRelease, Some(PressDuration::Long)),
        _ => (p, None),
    }
}

/// Position of a phase in the cycle, counted from its start.
pub open spec fn rank(p: Phase) -> nat {
    match p {
        Phase::AwaitRelease => 0,
        Phase::SettleRelease => 1,
        Phase::AwaitPress => 2,
        Phase::SettlePress => 3,
        Phase::Race => 4,
    }
}

/// A cycle leaves its first phase only on a low level: no event other than
/// the line reading low moves it on, and nothing is reported there.
pub proof fn lemma_release_comes_first(e: Event)
    ensures
        transition(Phase::AwaitRelease, e).0 != Phase::AwaitRelease <==> e == Event::Low,
        transition(Phase::AwaitRelease, e).1 is None,
{
}

/// The race reports exactly one outcome: a falling edge as a short press, the
/// timer as a long one, and any other event nothing. After the report the
/// cycle is back at its start, where a late outcome of the abandoned branch
/// changes nothing and reports nothing.
pub proof fn lemma_race_exclusive(e: Event)
    ensures
        transition(Phase::Race, e).1 is Some <==> (e == Event::Released || e == Event::TimedOut),
        transition(Phase::Race, Event::Released) == (Phase::AwaitRelease, Some(PressDuration::Short)),
        transition(Phase::Race, Event::TimedOut) == (Phase::AwaitRelease, Some(PressDuration::Long)),
        (e == Event::Released || e == Event::TimedOut) ==> transition(Phase::AwaitRelease, e) == (
        Phase::AwaitRelease, None::<PressDuration>),
{
}

/// Only the race reports, and every report leaves the cycle in the phase a new
/// detector starts in, so nothing of one press carries over to the next.
pub proof fn lemma_report_restarts(p: Phase, e: Event)
    ensures
        transition(p, e).1 is Some ==> p == Phase::Race && transition(p, e).0 == Phase::AwaitRelease,
{
}

/// The decisions of a debounced press cycle, apart from the waits themselves.
pub struct PressDetector {
    pub phase: Phase,
}

impl PressDetector {
    /// A detector at the start of a cycle: its first wait is for a release.
    pub fn new() -> (r: PressDetector)
        ensures
            r.phase == Phase::AwaitRelease,
            action_of(r.phase) == Action::WaitLow,
    {
        PressDetector { phase: Phase::AwaitRelease }
    }

    /// The phase the detector is in.
    pub fn phase(&self) -> (r: Phase)
        ensures
            r == self.phase,
    {
        self.phase
    }

    /// The wait to perform next.
    pub fn next_action(&self) -> (r: Action)
        ensures
            r == action_of(self.phase),
    {
        match self.phase {
            Phase::AwaitRelease => Action::WaitLow,
            Phase::SettleRelease => Action::Sleep(BUTTON_DEBOUNCE_DELAY),
            Phase::AwaitPress => Action::WaitHigh,
            Phase::SettlePress => Action::Sleep(BUTTON_DEBOUNCE_DELAY),
            Phase::Race => Action::RaceReleaseTimeout(LONG_PRESS_DURATION),
        }
    }

    /// Hands the detector what the last wait reported; returns the press's
    /// classification once the race has been decided.
    pub fn step(&mut self, e: Event) -> (r: Option<PressDuration>)
        ensures
            (final(self).phase, r) == transition(old(self).phase, e),
    {
        match (self.phase, e) {
            (Phase::AwaitRelease, Event::Low) => {
                self.phase = Phase::SettleRelease;
                None
            },
            (Phase::SettleRelease, Event::Slept) => {
                self.phase = Phase::AwaitPress;
                None
            },
            (Phase::AwaitPress, Event::High) => {
                self.phase = Phase::SettlePress;
                None
            },
            (Phase::SettlePress, Event::Slept) => {
                self.phase = Phase::Race;
                None
            },
            (Phase::Race, Event::Released) => {
                self.phase = Phase::AwaitRelease;
                Some(PressDuration::Short)
            },
            (Phase::Race, Event::TimedOut) => {
                self.phase = Phase::AwaitRelease;
                Some(PressDuration::Long)
            },
            _ => None,
        }
    }
}

} // verus!
