//! Deadlines for bounded checks, read from the monotonic clock.
use std::time::{Duration, Instant};
use vstd::prelude::*;

verus! {

/// `std::time::Instant`, carried through opaquely.
#[verifier::external_type_specification]
#[verifier::external_body]
pub struct ExInstant(Instant);

/// `Instant::now`: the current instant. Nothing is stated of it: it depends on
/// the time of the call.
#[verifier::external_body]
fn now() -> Instant {
    Instant::now()
}

/// `Instant::checked_add`: `t` plus `d`, or `None` where the sum cannot be
/// represented. Nothing is stated of it: instants are opaque here.
#[verifier::external_body]
fn checked_add(t: Instant, d: Duration) -> Option<Instant> {
    t.checked_add(d)
}

/// `Instant >= Instant`. Nothing is stated of it: instants are opaque here.
#[verifier::external_body]
fn at_or_after(a: &Instant, b: &Instant) -> bool {
    *a >= *b
}

/// The instant `timeout` from now; `None` when there is no timeout, or when the
/// deadline lies beyond what an instant can represent (which never comes).
pub fn deadline_after(timeout: Option<Duration>) -> (r: Option<Instant>)
    ensures
        timeout is None ==> r is None,
{
    match timeout {
        None => None,
        Some(d) => checked_add(now(), d),
    }
}

/// Whether the deadline has been reached; never, when there is none.
pub fn deadline_passed(deadline: &Option<Instant>) -> (r: bool)
    ensures
        deadline is None ==> !r,
{
    match deadline {
        None => false,
        Some(d) => {
            let t = now();
            at_or_after(&t, d)
        },
    }
}


/// One reading of the clock: a deadline made from a timeout, or a check of a
/// deadline and whether it had passed.
pub enum ClockEvent {
    Made(Option<Duration>, Option<Instant>),
    Checked(Option<Instant>, bool),
}

/// The readings of the clock made so far for a check, in order. Only the
/// functions of this module add to it, each the reading it made.
pub struct ClockLog {
    events: Ghost<Seq<ClockEvent>>,
}

impl View for ClockLog {
    type V = Seq<ClockEvent>;

    closed spec fn view(&self) -> Seq<ClockEvent> {
        self.events@
    }
}

impl ClockLog {
    /// A log with no readings.
    pub fn new() -> (r: Self)
        ensures
            r@ == Seq::<ClockEvent>::empty(),
    {
        ClockLog { events: Ghost(Seq::empty()) }
    }

    /// Add the readings of `other` after those of this log.
    pub fn absorb(&mut self, other: ClockLog)
        ensures
            final(self)@ == old(self)@ + other@,
    {
        self.events = Ghost(self.events@ + other.events@);
    }
}

/// The instant `timeout` from now, as `deadline_after` gives it, with the
/// reading recorded in `log`.
pub fn deadline_after_logged(timeout: Option<Duration>, log: &mut ClockLog) -> (r: Option<Instant>)
    ensures
        timeout is None ==> r is None,
        final(log)@ == old(log)@.push(ClockEvent::Made(timeout, r)),
{
    let r = deadline_after(timeout);
    log.events = Ghost(log.events@.push(ClockEvent::Made(timeout, r)));
    r
}

/// Whether the deadline has been reached, as `deadline_passed` tells, with the
/// answer recorded in `log`.
pub fn deadline_reached(deadline: &Option<Instant>, log: &mut ClockLog) -> (r: bool)
    ensures
        deadline is None ==> !r,
        final(log)@ == old(log)@.push(ClockEvent::Checked(*deadline, r)),
{
    let r = deadline_passed(deadline);
    log.events = Ghost(log.events@.push(ClockEvent::Checked(*deadline, r)));
    r
}

/// From position `from` on, `log` records a check that found `deadline` passed.
pub open spec fn seen_passed(log: Seq<ClockEvent>, from: int, deadline: Option<Instant>) -> bool {
    exists|j: int| 0 <= j && from <= j < log.len() && #[trigger] log[j] == ClockEvent::Checked(deadline, true)
}

/// From position `from` on, `log` records a deadline made from `timeout` and
/// later a check that found it passed: `timeout` elapsed during the check.
pub open spec fn timeout_elapsed(log: Seq<ClockEvent>, from: int, timeout: Option<Duration>) -> bool {
    exists|i: int| 0 <= i && from <= i < log.len() && #[trigger] log[i] is Made && log[i]->Made_0 == timeout && seen_passed(
        log,
        i + 1,
        log[i]->Made_1,
    )
}

/// `new` holds the readings of `old` and possibly more after them.
pub open spec fn log_extends(old: Seq<ClockEvent>, new: Seq<ClockEvent>) -> bool {
    old.len() <= new.len() && new.take(old.len() as int) == old
}


/// A reading found in a later part of a log is found in a larger part of it,
/// and in every log that extends it.
pub proof fn lemma_seen_passed_widen(
    log: Seq<ClockEvent>,
    log2: Seq<ClockEvent>,
    from: int,
    from2: int,
    deadline: Option<Instant>,
)
    requires
        seen_passed(log, from2, deadline),
        from <= from2,
        log_extends(log, log2),
    ensures
        seen_passed(log2, from, deadline),
{
    let j = choose|j: int| 0 <= j && from2 <= j < log.len() && #[trigger] log[j] == ClockEvent::Checked(deadline, true);
    assert(log2.take(log.len() as int)[j] == log2[j]);
}

/// A reading in an appended log is found in the combined log after the first.
pub proof fn lemma_seen_passed_append(log: Seq<ClockEvent>, other: Seq<ClockEvent>, deadline: Option<Instant>)
    requires
        seen_passed(other, 0, deadline),
    ensures
        seen_passed(log + other, log.len() as int, deadline),
{
    let j = choose|j: int| 0 <= j && 0 <= j < other.len() && #[trigger] other[j] == ClockEvent::Checked(deadline, true);
    assert((log + other)[log.len() + j] == other[j]);
}

/// Extending is transitive.
pub proof fn lemma_log_extends_trans(a: Seq<ClockEvent>, b: Seq<ClockEvent>, c: Seq<ClockEvent>)
    requires
        log_extends(a, b),
        log_extends(b, c),
    ensures
        log_extends(a, c),
{
    assert(c.take(a.len() as int) =~= c.take(b.len() as int).take(a.len() as int));
}

} // verus!
