//! Hybrid logical clock: causal timestamps that pair wall-clock milliseconds
//! with a logical counter, and the clock that issues and merges them.

use std::cmp::Ordering;
use vstd::prelude::*;
use vstd::std_specs::cmp::PartialOrdSpecImpl;

verus! {

/// Largest lead, in milliseconds, that a remote timestamp may have over the
/// local wall clock and still be merged.
pub const MAX_DRIFT_MS: u64 = 60_000;

/// The mathematical value of a timestamp: unbounded wall-clock milliseconds
/// and an unbounded logical counter.
pub struct Stamp {
    pub physical: nat,
    pub counter: nat,
}

impl Stamp {
    /// The total order on timestamps: physical time first, then the counter.
    pub open spec fn before(self, other: Stamp) -> bool {
        self.physical < other.physical || (self.physical == other.physical && self.counter
            < other.counter)
    }
}

/// A hybrid logical timestamp.
#[derive(Debug, Clone, Copy, PartialEq, Eq, Structural, Ord)]
pub struct Hlc {
    pub physical_time: u64,
    pub logical_counter: u64,
}

impl View for Hlc {
    type V = Stamp;

    open spec fn view(&self) -> Stamp {
        Stamp { physical: self.physical_time as nat, counter: self.logical_counter as nat }
    }
}

impl PartialOrd for Hlc {
    fn partial_cmp(&self, other: &Self) -> (r: Option<Ordering>) {
        if self.physical_time < other.physical_time {
            Some(Ordering::Less)
        } else if self.physical_time > other.physical_time {
            Some(Ordering::Greater)
        } else if self.logical_counter < other.logical_counter {
            Some(Ordering::Less)
        } else if self.logical_counter > other.logical_counter {
            Some(Ordering::Greater)
        } else {
            Some(Ordering::Equal)
        }
    }
}

impl PartialOrdSpecImpl for Hlc {
    open spec fn obeys_partial_cmp_spec() -> bool {
        true
    }

    open spec fn partial_cmp_spec(&self, other: &Self) -> Option<Ordering> {
        if self@.before(other@) {
            Some(Ordering::Less)
        } else if other@.before(self@) {
            Some(Ordering::Greater)
        } else {
            Some(Ordering::Equal)
        }
    }
}

/// The clock of one sync engine: the last timestamp it issued or merged.
#[derive(Debug)]
pub struct HlcClock {
    physical_time: u64,
    logical_counter: u64,
}

impl View for HlcClock {
    type V = Stamp;

    closed spec fn view(&self) -> Stamp {
        Stamp { physical: self.physical_time as nat, counter: self.logical_counter as nat }
    }
}

impl Default for HlcClock {
    fn default() -> (clock: Self)
        ensures
            clock@ == (Stamp { physical: 0, counter: 0 }),
    {
        HlcClock { physical_time: 0, logical_counter: 0 }
    }
}

/// The larger of two naturals.
pub open spec fn max_nat(a: nat, b: nat) -> nat {
    if a >= b {
        a
    } else {
        b
    }
}

/// The timestamp a clock at `local` issues when the wall clock reads `now`:
/// physical time never goes back; the counter restarts when physical time
/// advances and counts up when it does not.
pub open spec fn tick_step(local: Stamp, now: nat) -> Stamp {
    if now > local.physical {
        Stamp { physical: now, counter: 0 }
    } else {
        Stamp { physical: local.physical, counter: local.counter + 1 }
    }
}

/// Whether `remote` is too far ahead of a wall clock that reads `now`.
pub open spec fn drifted(remote: Stamp, now: nat) -> bool {
    remote.physical > now + MAX_DRIFT_MS
}

/// The counter after a merge, given the clock's physical time after the
/// merge (`physical`) and before it (`prev_physical`), the clock's counter
/// before the merge, and the remote timestamp.
pub open spec fn merged_counter(
    physical: nat,
    prev_physical: nat,
    local_counter: nat,
    remote: Stamp,
) -> nat {
    let advanced = physical > prev_physical;
    let tied = physical == remote.physical;
    if advanced && !tied {
        0
    } else if advanced {
        remote.counter + 1
    } else if tied {
        max_nat(local_counter, remote.counter) + 1
    } else {
        local_counter + 1
    }
}

/// The timestamp a clock at `local` takes when it merges `remote` while the
/// wall clock reads `now`.
pub open spec fn merge_step(local: Stamp, remote: Stamp, now: nat) -> Stamp {
    let physical = max_nat(max_nat(now, remote.physical), local.physical);
    Stamp { physical, counter: merged_counter(physical, local.physical, local.counter, remote) }
}

/// The text of the error that a rejected merge returns.
pub open spec fn drift_message() -> Seq<char> {
    "remote clock too far ahead"@
}

/// What a merge of `remote` at wall-clock reading `now` owes: a rejection
/// that leaves the clock alone when the remote is too far ahead, and else
/// the merged timestamp, which the clock then holds.
pub open spec fn merge_outcome(
    local: Stamp,
    remote: Stamp,
    now: nat,
    result: Result<Hlc, String>,
    after: Stamp,
) -> bool {
    if drifted(remote, now) {
        &&& result matches Err(message)
        &&& message@ == drift_message()
        &&& after == local
    } else {
        &&& result matches Ok(merged)
        &&& merged@ == merge_step(local, remote, now)
        &&& after == merged@
    }
}

/// Milliseconds since the Unix epoch, as the system clock reads now.
///
/// Trusted: calls `chrono::Utc::now` and `DateTime::timestamp_millis`, and
/// casts the signed result to `u64`. Nothing is claimed about the value: two
/// readings may differ in either direction.
#[verifier::external_body]
fn current_time_ms() -> (now: u64) {
    chrono::Utc::now().timestamp_millis() as u64
}

impl HlcClock {
    /// A clock that has issued nothing yet.
    pub fn new() -> (clock: Self)
        ensures
            clock@ == (Stamp { physical: 0, counter: 0 }),
    {
        Self::default()
    }

    /// The last timestamp this clock issued or merged.
    pub fn latest(&self) -> (h: Hlc)
        ensures
            h@ == self@,
    {
        Hlc { physical_time: self.physical_time, logical_counter: self.logical_counter }
    }

    /// Issues the next timestamp for a wall clock that reads `now`.
    pub fn tick_at(&mut self, now: u64) -> (h: Hlc)
        requires
            tick_step(old(self)@, now as nat).counter <= u64::MAX,
        ensures
            h@ == tick_step(old(self)@, now as nat),
            final(self)@ == h@,
            old(self)@.before(h@),
    {
        let prev = self.physical_time;
        if now > self.physical_time {
            self.physical_time = now;
        }
        if self.physical_time > prev {
            self.logical_counter = 0;
        } else {
            self.logical_counter += 1;
        }
        Hlc { physical_time: self.physical_time, logical_counter: self.logical_counter }
    }

    /// Issues the next timestamp, greater than every timestamp this clock
    /// has issued or merged before, whatever the wall clock reads.
    pub fn tick(&mut self) -> (h: Hlc)
        requires
            old(self)@.counter < u64::MAX,
        ensures
            exists|now: u64| h@ == #[trigger] tick_step(old(self)@, now as nat),
            final(self)@ == h@,
            old(self)@.before(h@),
    {
        let now = current_time_ms();
        self.tick_at(now)
    }

    /// The counter that a merge of `remote` gives this clock, whose physical
    /// time the merge has already set and was `prev_physical_time` before.
    pub fn resolve_counter(&self, prev_physical_time: u64, remote: Hlc) -> (counter: u64)
        requires
            merged_counter(self@.physical, prev_physical_time as nat, self@.counter, remote@)
                <= u64::MAX,
        ensures
            counter == merged_counter(
                self@.physical,
                prev_physical_time as nat,
                self@.counter,
                remote@,
            ),
    {
        let clock_advanced = self.physical_time > prev_physical_time;
        let remote_has_same_time = self.physical_time == remote.physical_time;

        if clock_advanced && !remote_has_same_time {
            return 0;
        }
        if clock_advanced {
            return remote.logical_counter + 1;
        }
        if remote_has_same_time {
            let larger = if self.logical_counter >= remote.logical_counter {
                self.logical_counter
            } else {
                remote.logical_counter
            };
            return larger + 1;
        }
        self.logical_counter + 1
    }

    /// Merges `remote` for a wall clock that reads `now`: rejects it, leaving
    /// the clock as it is, exactly when its physical time is more than
    /// [`MAX_DRIFT_MS`] ahead of `now`.
    pub fn merge_at(&mut self, remote: Hlc, now: u64) -> (result: Result<Hlc, String>)
        requires
            !drifted(remote@, now as nat) ==> merge_step(old(self)@, remote@, now as nat).counter
                <= u64::MAX,
        ensures
            merge_outcome(old(self)@, remote@, now as nat, result, final(self)@),
            result is Err <==> drifted(remote@, now as nat),
            result matches Ok(merged) ==> old(self)@.before(merged@) && remote@.before(merged@),
    {
        if remote.physical_time > now && remote.physical_time - now > MAX_DRIFT_MS {
            return Err(String::from_str("remote clock too far ahead"));
        }
        let prev = self.physical_time;
        let mut physical = if now >= remote.physical_time {
            now
        } else {
            remote.physical_time
        };
        if self.physical_time > physical {
            physical = self.physical_time;
        }
        self.physical_time = physical;
        self.logical_counter = self.resolve_counter(prev, remote);

        Ok(Hlc { physical_time: self.physical_time, logical_counter: self.logical_counter })
    }

    /// Merges a timestamp observed from another device, reading the wall
    /// clock for the drift check. A remote timestamp within
    /// [`MAX_DRIFT_MS`] of the epoch is never rejected.
    pub fn merge(&mut self, remote: Hlc) -> (result: Result<Hlc, String>)
        requires
            old(self)@.counter < u64::MAX,
            remote@.counter < u64::MAX,
        ensures
            exists|now: u64| #[trigger]
                merge_outcome(old(self)@, remote@, now as nat, result, final(self)@),
            result matches Ok(merged) ==> final(self)@ == merged@ && old(self)@.before(merged@)
                && remote@.before(merged@),
            result matches Err(message) ==> final(self)@ == old(self)@ && message@
                == drift_message(),
            remote@.physical <= MAX_DRIFT_MS ==> result is Ok,
    {
        let now = current_time_ms();
        self.merge_at(remote, now)
    }
}

/// The order on timestamps is a strict total order.
pub proof fn lemma_before_is_strict_total_order(a: Stamp, b: Stamp, c: Stamp)
    ensures
        !a.before(a),
        a.before(b) ==> !b.before(a),
        a.before(b) && b.before(c) ==> a.before(c),
        a.before(b) || b.before(a) || a == b,
{
}

/// A tick issues a timestamp after the one the clock held, whatever the wall
/// clock reads.
pub proof fn lemma_tick_advances(local: Stamp, now: nat)
    ensures
        local.before(tick_step(local, now)),
{
}

/// A merge that is not rejected issues a timestamp after the one the clock
/// held and after the remote one, whatever the wall clock reads.
pub proof fn lemma_merge_advances(local: Stamp, remote: Stamp, now: nat)
    ensures
        local.before(merge_step(local, remote, now)),
        remote.before(merge_step(local, remote, now)),
{
}

/// Something a clock is asked to do.
pub enum ClockEvent {
    /// Issue a timestamp while the wall clock reads `now`.
    Tick { now: nat },
    /// Merge `remote` while the wall clock reads `now`.
    Merge { remote: Stamp, now: nat },
}

/// Whether a clock answers `event` with a timestamp: a merge of a remote
/// that is too far ahead is rejected, everything else is answered.
pub open spec fn issues(event: ClockEvent) -> bool {
    match event {
        ClockEvent::Tick { now } => true,
        ClockEvent::Merge { remote, now } => !drifted(remote, now),
    }
}

/// The clock after `event`.
pub open spec fn clock_step(local: Stamp, event: ClockEvent) -> Stamp {
    match event {
        ClockEvent::Tick { now } => tick_step(local, now),
        ClockEvent::Merge { remote, now } => if drifted(remote, now) {
            local
        } else {
            merge_step(local, remote, now)
        },
    }
}

/// The clock after a history of events, starting at `start`.
pub open spec fn clock_after(start: Stamp, events: Seq<ClockEvent>) -> Stamp
    decreases events.len(),
{
    if events.len() == 0 {
        start
    } else {
        clock_step(clock_after(start, events.drop_last()), events.last())
    }
}

/// The timestamps a clock issues over a history of events, in order.
pub open spec fn clock_issued(start: Stamp, events: Seq<ClockEvent>) -> Seq<Stamp>
    decreases events.len(),
{
    if events.len() == 0 {
        Seq::empty()
    } else if issues(events.last()) {
        clock_issued(start, events.drop_last()).push(clock_after(start, events))
    } else {
        clock_issued(start, events.drop_last())
    }
}

/// Over any history of ticks and merges, the timestamps that one clock
/// issues strictly increase, and each is after the timestamp the clock
/// started from. In particular the results of any sequence of ticks strictly
/// increase.
pub proof fn lemma_issued_strictly_increase(start: Stamp, events: Seq<ClockEvent>)
    ensures
        forall|i: int, j: int|
            0 <= i < j < clock_issued(start, events).len() ==> (#[trigger] clock_issued(
                start,
                events,
            )[i]).before(#[trigger] clock_issued(start, events)[j]),
        forall|i: int|
            0 <= i < clock_issued(start, events).len() ==> start.before(
                #[trigger] clock_issued(start, events)[i],
            ),
        forall|i: int|
            0 <= i < clock_issued(start, events).len() ==> {
                ||| (#[trigger] clock_issued(start, events)[i]).before(clock_after(start, events))
                ||| clock_issued(start, events)[i] == clock_after(start, events)
            },
        start.before(clock_after(start, events)) || start == clock_after(start, events),
    decreases events.len(),
{
    if events.len() > 0 {
        let earlier = events.drop_last();
        lemma_issued_strictly_increase(start, earlier);
        let held = clock_after(start, earlier);
        match events.last() {
            ClockEvent::Tick { now } => {
                lemma_tick_advances(held, now);
            },
            ClockEvent::Merge { remote, now } => {
                lemma_merge_advances(held, remote, now);
            },
        }
        let before = clock_issued(start, earlier);
        let issued = clock_issued(start, events);
        let after = clock_after(start, events);
        assert(after == held || held.before(after));
        assert forall|i: int| 0 <= i < issued.len() implies start.before(#[trigger] issued[i])
            && (issued[i].before(after) || issued[i] == after) by {
            if i < before.len() {
                assert(issued[i] == before[i]);
            }
        }
        assert forall|i: int, j: int| 0 <= i < j < issued.len() implies (#[trigger] issued[i]).before(
            #[trigger] issued[j],
        ) by {
            assert(issued[i] == before[i]);
            if j < before.len() {
                assert(issued[j] == before[j]);
            }
        }
    }
}

/// A merge that is answered issues a timestamp after the remote one, at any
/// point of any history.
pub proof fn lemma_issued_after_merged_remote(
    start: Stamp,
    events: Seq<ClockEvent>,
    remote: Stamp,
    now: nat,
)
    requires
        !drifted(remote, now),
    ensures
        remote.before(clock_after(start, events.push(ClockEvent::Merge { remote, now }))),
        clock_issued(start, events.push(ClockEvent::Merge { remote, now })).last()
            == clock_after(start, events.push(ClockEvent::Merge { remote, now })),
{
    let extended = events.push(ClockEvent::Merge { remote, now });
    assert(extended.drop_last() == events);
    lemma_merge_advances(clock_after(start, events), remote, now);
}

/// One move of two clocks that hand timestamps to each other: the first or
/// the second clock either ticks or merges the timestamp its peer holds,
/// while its own wall clock reads `now`.
pub struct ExchangeMove {
    pub by_first: bool,
    pub merges_peer: bool,
    pub now: nat,
}

/// Two clocks and every timestamp that either has issued, in order.
pub struct Exchange {
    pub first: Stamp,
    pub second: Stamp,
    pub issued: Seq<Stamp>,
}

impl Exchange {
    /// The clock that makes `m`.
    pub open spec fn mover(self, m: ExchangeMove) -> Stamp {
        if m.by_first {
            self.first
        } else {
            self.second
        }
    }

    /// The clock that does not make `m`.
    pub open spec fn peer(self, m: ExchangeMove) -> Stamp {
        if m.by_first {
            self.second
        } else {
            self.first
        }
    }

    /// Whether `m` keeps to the hand-over discipline: a clock that is behind
    /// its peer merges the peer's timestamp before it ticks.
    pub open spec fn hands_over(self, m: ExchangeMove) -> bool {
        m.merges_peer || !self.mover(m).before(self.peer(m))
    }

    /// The exchange after `m`.
    pub open spec fn step(self, m: ExchangeMove) -> Exchange {
        let event = if m.merges_peer {
            ClockEvent::Merge { remote: self.peer(m), now: m.now }
        } else {
            ClockEvent::Tick { now: m.now }
        };
        let held = clock_step(self.mover(m), event);
        Exchange {
            first: if m.by_first {
                held
            } else {
                self.first
            },
            second: if m.by_first {
                self.second
            } else {
                held
            },
            issued: if issues(event) {
                self.issued.push(held)
            } else {
                self.issued
            },
        }
    }

    /// The exchange after a sequence of moves.
    pub open spec fn run(self, moves: Seq<ExchangeMove>) -> Exchange
        decreases moves.len(),
    {
        if moves.len() == 0 {
            self
        } else {
            self.run(moves.drop_last()).step(moves.last())
        }
    }

    /// Whether every move of the sequence keeps to the hand-over discipline
    /// at the point where it is made.
    pub open spec fn run_hands_over(self, moves: Seq<ExchangeMove>) -> bool
        decreases moves.len(),
    {
        moves.len() > 0 ==> self.run_hands_over(moves.drop_last()) && self.run(
            moves.drop_last(),
        ).hands_over(moves.last())
    }

    /// Whether no issued timestamp is after both clocks.
    pub open spec fn covers_issued(self) -> bool {
        forall|i: int|
            0 <= i < self.issued.len() ==> !self.first.before(#[trigger] self.issued[i])
                || !self.second.before(self.issued[i])
    }

    /// Whether the issued timestamps strictly increase.
    pub open spec fn issued_increase(self) -> bool {
        forall|i: int, j: int|
            0 <= i < j < self.issued.len() ==> (#[trigger] self.issued[i]).before(
                #[trigger] self.issued[j],
            )
    }
}

/// Two clocks that tick and merge each other's timestamps under the
/// hand-over discipline never issue the same timestamp twice: all the
/// timestamps they issue, taken together in the order of issue, strictly
/// increase, so the order of the timestamps is the order of the events.
pub proof fn lemma_exchange_never_repeats(start: Exchange, moves: Seq<ExchangeMove>)
    requires
        start.issued.len() == 0,
        start.run_hands_over(moves),
    ensures
        start.run(moves).issued_increase(),
        start.run(moves).covers_issued(),
        forall|i: int, j: int|
            0 <= i < start.run(moves).issued.len() && 0 <= j < start.run(moves).issued.len() && i
                != j ==> #[trigger] start.run(moves).issued[i] != #[trigger] start.run(
                moves,
            ).issued[j],
    decreases moves.len(),
{
    if moves.len() > 0 {
        let before = start.run(moves.drop_last());
        let m = moves.last();
        lemma_exchange_never_repeats(start, moves.drop_last());
        lemma_tick_advances(before.mover(m), m.now);
        lemma_merge_advances(before.mover(m), before.peer(m), m.now);
        let after = before.step(m);
        assert(after.issued_increase());
        assert(after.covers_issued());
    }
    let end = start.run(moves);
    assert forall|i: int, j: int|
        0 <= i < end.issued.len() && 0 <= j < end.issued.len() && i != j implies #[trigger] end.issued[i]
        != #[trigger] end.issued[j] by {
        if i < j {
            assert(end.issued[i].before(end.issued[j]));
        } else {
            assert(end.issued[j].before(end.issued[i]));
        }
    }
}

} // verus!
