//! The outbox: which locally produced operations are still owed to the
//! other devices, and how far their delivery has come.
//!
//! An entry is staged as pending, is taken up for sending, and ends as sent
//! or failed; a failed entry is taken up again once its retry time has
//! come. The delivery itself, and the choice of retry times, belong to the
//! caller. The attempt counter stops a failed delivery from being recorded
//! when it cannot count further.

use vstd::prelude::*;

verus! {

/// How far the delivery of an operation has come.
#[derive(Debug, Clone, Copy, PartialEq, Eq, Structural)]
pub enum OutboxState {
    Pending,
    Sending,
    Sent,
    Failed,
}

/// What the delivery collaborator reports about an entry.
#[derive(Debug, Clone, Copy, PartialEq, Eq, Structural)]
pub enum OutboxEvent {
    /// The entry is taken up for sending while the wall clock reads `now`.
    BeginSend { now: u64 },
    /// The send succeeded.
    Sent,
    /// The send failed; the next attempt is due at `next_retry_at`.
    Failed { next_retry_at: u64 },
}

/// The delivery state of one locally produced operation.
#[derive(Debug)]
pub struct OutboxEntry {
    pub op_id: String,
    pub state: OutboxState,
    pub attempts: u64,
    pub next_retry_at: Option<u64>,
}

/// The mathematical value of an outbox entry.
pub struct EntryModel {
    pub op_id: Seq<char>,
    pub state: OutboxState,
    pub attempts: u64,
    pub next_retry_at: Option<u64>,
}

impl View for OutboxEntry {
    type V = EntryModel;

    open spec fn view(&self) -> EntryModel {
        EntryModel {
            op_id: self.op_id@,
            state: self.state,
            attempts: self.attempts,
            next_retry_at: self.next_retry_at,
        }
    }
}

/// The entry of a newly staged operation.
pub open spec fn staged(op_id: Seq<char>) -> EntryModel {
    EntryModel { op_id, state: OutboxState::Pending, attempts: 0, next_retry_at: None }
}

/// Whether an entry may be taken up for sending at `now`: it is pending, or
/// it has failed and its retry time has come.
pub open spec fn is_eligible(entry: EntryModel, now: u64) -> bool {
    match entry.state {
        OutboxState::Pending => true,
        OutboxState::Failed => entry.next_retry_at matches Some(due) && due <= now,
        _ => false,
    }
}

/// The entry after `event`, or `None` where the entry is not in a state
/// from which the event can happen.
pub open spec fn entry_step(entry: EntryModel, event: OutboxEvent) -> Option<EntryModel> {
    match event {
        OutboxEvent::BeginSend { now } => if is_eligible(entry, now) {
            Some(EntryModel { state: OutboxState::Sending, ..entry })
        } else {
            None
        },
        OutboxEvent::Sent => if entry.state == OutboxState::Sending {
            Some(EntryModel { state: OutboxState::Sent, ..entry })
        } else {
            None
        },
        OutboxEvent::Failed { next_retry_at } => if entry.state == OutboxState::Sending
            && entry.attempts < u64::MAX {
            Some(
                EntryModel {
                    state: OutboxState::Failed,
                    attempts: (entry.attempts + 1) as u64,
                    next_retry_at: Some(next_retry_at),
                    ..entry
                },
            )
        } else {
            None
        },
    }
}

impl OutboxEntry {
    /// The entry of a newly staged operation: pending, never attempted.
    pub fn new(op_id: String) -> (entry: Self)
        ensures
            entry@ == staged(op_id@),
    {
        OutboxEntry { op_id, state: OutboxState::Pending, attempts: 0, next_retry_at: None }
    }

    /// Whether the entry may be taken up for sending at `now`.
    pub fn is_eligible(&self, now: u64) -> (eligible: bool)
        ensures
            eligible == is_eligible(self@, now),
    {
        match self.state {
            OutboxState::Pending => true,
            OutboxState::Failed => match self.next_retry_at {
                Some(due) => due <= now,
                None => false,
            },
            _ => false,
        }
    }

    /// Moves the entry along on `event` and reports `true`; leaves it as it
    /// is and reports `false` where the event cannot happen in its state.
    pub fn advance(&mut self, event: OutboxEvent) -> (moved: bool)
        ensures
            moved == entry_step(old(self)@, event).is_some(),
            final(self)@ == match entry_step(old(self)@, event) {
                Some(next) => next,
                None => old(self)@,
            },
    {
        match event {
            OutboxEvent::BeginSend { now } => {
                if self.is_eligible(now) {
                    self.state = OutboxState::Sending;
                    true
                } else {
                    false
                }
            },
            OutboxEvent::Sent => {
                if self.state == OutboxState::Sending {
                    self.state = OutboxState::Sent;
                    true
                } else {
                    false
                }
            },
            OutboxEvent::Failed { next_retry_at } => {
                if self.state == OutboxState::Sending && self.attempts < u64::MAX {
                    self.state = OutboxState::Failed;
                    self.attempts = self.attempts + 1;
                    self.next_retry_at = Some(next_retry_at);
                    true
                } else {
                    false
                }
            },
        }
    }
}

/// The mathematical values of a sequence of entries.
pub open spec fn entry_models(entries: Seq<OutboxEntry>) -> Seq<EntryModel> {
    entries.map_values(|entry: OutboxEntry| entry@)
}

/// Whether `entries` holds an entry of the operation `op_id`.
pub open spec fn has_entry(entries: Seq<EntryModel>, op_id: Seq<char>) -> bool {
    exists|i: int| 0 <= i < entries.len() && (#[trigger] entries[i]).op_id == op_id
}

/// The position of an entry of the operation `op_id`.
pub open spec fn slot_of(entries: Seq<EntryModel>, op_id: Seq<char>) -> int {
    choose|i: int| 0 <= i < entries.len() && (#[trigger] entries[i]).op_id == op_id
}

/// Whether no two entries belong to the same operation.
pub open spec fn distinct_entries(entries: Seq<EntryModel>) -> bool {
    forall|i: int, j: int|
        0 <= i < j < entries.len() ==> (#[trigger] entries[i]).op_id != (
        #[trigger] entries[j]).op_id
}

/// The outbox after staging `op_id`: a new pending entry at the end, or no
/// change where the operation already has an entry.
pub open spec fn stage_step(entries: Seq<EntryModel>, op_id: Seq<char>) -> Seq<EntryModel> {
    if has_entry(entries, op_id) {
        entries
    } else {
        entries.push(staged(op_id))
    }
}

/// The outbox after `event` is reported for `op_id`: the entry of the
/// operation moves along where the event can happen; everything else, and
/// the whole outbox where it cannot, stays.
pub open spec fn outbox_step(entries: Seq<EntryModel>, op_id: Seq<char>, event: OutboxEvent) -> Seq<
    EntryModel,
> {
    if has_entry(entries, op_id) {
        match entry_step(entries[slot_of(entries, op_id)], event) {
            Some(next) => entries.update(slot_of(entries, op_id), next),
            None => entries,
        }
    } else {
        entries
    }
}

/// Whether `event` can happen to the entry of `op_id`.
pub open spec fn can_step(entries: Seq<EntryModel>, op_id: Seq<char>, event: OutboxEvent) -> bool {
    has_entry(entries, op_id) && entry_step(entries[slot_of(entries, op_id)], event).is_some()
}

/// The operations that may be taken up for sending at `now`, in the order
/// in which they were staged.
pub open spec fn eligible_ids(entries: Seq<EntryModel>, now: u64) -> Seq<Seq<char>>
    decreases entries.len(),
{
    if entries.len() == 0 {
        Seq::empty()
    } else if is_eligible(entries.last(), now) {
        eligible_ids(entries.drop_last(), now).push(entries.last().op_id)
    } else {
        eligible_ids(entries.drop_last(), now)
    }
}

/// The entries whose delivery is still outstanding, in their order.
pub open spec fn without_sent(entries: Seq<EntryModel>) -> Seq<EntryModel>
    decreases entries.len(),
{
    if entries.len() == 0 {
        Seq::empty()
    } else if entries.last().state == OutboxState::Sent {
        without_sent(entries.drop_last())
    } else {
        without_sent(entries.drop_last()).push(entries.last())
    }
}

/// The mathematical values of a sequence of identifiers.
pub open spec fn id_views(ids: Seq<String>) -> Seq<Seq<char>> {
    ids.map_values(|id: String| id@)
}

/// With distinct operations, an entry is found at its own position.
proof fn lemma_slot_of_entry(entries: Seq<EntryModel>, i: int)
    requires
        distinct_entries(entries),
        0 <= i < entries.len(),
    ensures
        has_entry(entries, entries[i].op_id),
        slot_of(entries, entries[i].op_id) == i,
{
    let found = slot_of(entries, entries[i].op_id);
    assert(0 <= found < entries.len() && entries[found].op_id == entries[i].op_id);
    if found < i {
        assert(entries[found].op_id != entries[i].op_id);
    } else if i < found {
        assert(entries[i].op_id != entries[found].op_id);
    }
}

/// Every entry that is still outstanding was an entry before.
pub proof fn lemma_without_sent_is_part(entries: Seq<EntryModel>, op_id: Seq<char>)
    requires
        has_entry(without_sent(entries), op_id),
    ensures
        has_entry(entries, op_id),
    decreases entries.len(),
{
    let kept = without_sent(entries);
    let i = choose|i: int| 0 <= i < kept.len() && (#[trigger] kept[i]).op_id == op_id;
    if entries.len() > 0 {
        let shorter = entries.drop_last();
        let last = entries.len() - 1;
        if entries.last().state != OutboxState::Sent && i == without_sent(shorter).len() {
            assert(entries[last].op_id == op_id);
        } else {
            assert(without_sent(shorter)[i].op_id == op_id);
            lemma_without_sent_is_part(shorter, op_id);
            let j = choose|j: int| 0 <= j < shorter.len() && (#[trigger] shorter[j]).op_id == op_id;
            assert(entries[j].op_id == op_id);
        }
    }
}

/// Dropping the sent entries keeps the operations distinct.
proof fn lemma_without_sent_distinct(entries: Seq<EntryModel>)
    requires
        distinct_entries(entries),
    ensures
        distinct_entries(without_sent(entries)),
        without_sent(entries).len() <= entries.len(),
    decreases entries.len(),
{
    if entries.len() > 0 {
        let shorter = entries.drop_last();
        let last = entries.len() - 1;
        assert(distinct_entries(shorter)) by {
            assert forall|i: int, j: int| 0 <= i < j < shorter.len() implies (
            #[trigger] shorter[i]).op_id != (#[trigger] shorter[j]).op_id by {
                assert(entries[i].op_id != entries[j].op_id);
            }
        }
        lemma_without_sent_distinct(shorter);
        let kept = without_sent(shorter);
        if entries.last().state != OutboxState::Sent {
            let after = kept.push(entries.last());
            assert forall|i: int, j: int| 0 <= i < j < after.len() implies (#[trigger] after[i]).op_id
                != (#[trigger] after[j]).op_id by {
                if j < kept.len() {
                    assert(kept[i].op_id != kept[j].op_id);
                } else {
                    if kept[i].op_id == entries[last].op_id {
                        lemma_without_sent_is_part(shorter, kept[i].op_id);
                        let k = choose|k: int|
                            0 <= k < shorter.len() && (#[trigger] shorter[k]).op_id
                                == kept[i].op_id;
                        assert(entries[k].op_id != entries[last].op_id);
                    }
                }
            }
        }
    }
}

/// The delivery states of the locally produced operations, in the order in
/// which they were staged, one entry per operation.
#[derive(Debug)]
pub struct Outbox {
    entries: Vec<OutboxEntry>,
}

impl View for Outbox {
    type V = Seq<EntryModel>;

    closed spec fn view(&self) -> Seq<EntryModel> {
        entry_models(self.entries@)
    }
}

impl Outbox {
    #[verifier::type_invariant]
    spec fn one_entry_per_operation(&self) -> bool {
        distinct_entries(entry_models(self.entries@))
    }

    /// An outbox without entries.
    pub fn new() -> (outbox: Self)
        ensures
            outbox@ == Seq::<EntryModel>::empty(),
    {
        let outbox = Outbox { entries: Vec::new() };
        assert(outbox@ =~= Seq::<EntryModel>::empty());
        outbox
    }

    /// The number of entries.
    pub fn len(&self) -> (n: usize)
        ensures
            n == self@.len(),
    {
        self.entries.len()
    }

    /// The position of the entry of `op_id`, if there is one.
    fn find(&self, op_id: &String) -> (found: Option<usize>)
        ensures
            distinct_entries(self@),
            match found {
                Some(i) => i < self@.len() && self@[i as int].op_id == op_id@ && has_entry(
                    self@,
                    op_id@,
                ) && slot_of(self@, op_id@) == i,
                None => !has_entry(self@, op_id@),
            },
    {
        proof {
            use_type_invariant(self);
        }
        let mut i: usize = 0;
        while i < self.entries.len()
            invariant
                i <= self.entries.len(),
                distinct_entries(self@),
                forall|k: int| 0 <= k < i ==> (#[trigger] self@[k]).op_id != op_id@,
            decreases self.entries.len() - i,
        {
            if self.entries[i].op_id == *op_id {
                proof {
                    assert(self@[i as int].op_id == op_id@);
                    lemma_slot_of_entry(self@, i as int);
                }
                return Some(i);
            }
            i += 1;
        }
        None
    }

    /// The entry of the operation `op_id`, if it has one.
    pub fn get(&self, op_id: &String) -> (entry: Option<&OutboxEntry>)
        ensures
            match entry {
                Some(found) => has_entry(self@, op_id@) && found@ == self@[slot_of(self@, op_id@)]
                    && found@.op_id == op_id@,
                None => !has_entry(self@, op_id@),
            },
    {
        match self.find(op_id) {
            Some(i) => Some(&self.entries[i]),
            None => None,
        }
    }

    /// Stages a locally produced operation as pending and reports `true`.
    /// An operation that already has an entry keeps it, and the answer is
    /// `false`.
    pub fn stage(&mut self, op_id: String) -> (staged: bool)
        ensures
            final(self)@ == stage_step(old(self)@, op_id@),
            staged == !has_entry(old(self)@, op_id@),
            distinct_entries(final(self)@),
    {
        let ghost before = self@;
        match self.find(&op_id) {
            Some(_) => false,
            None => {
                let entry = OutboxEntry::new(op_id);
                let mut entries: Vec<OutboxEntry> = Vec::new();
                std::mem::swap(&mut self.entries, &mut entries);
                entries.push(entry);
                proof {
                    let after = entry_models(entries@);
                    assert(after =~= before.push(staged(op_id@)));
                    assert forall|i: int, j: int| 0 <= i < j < after.len() implies (
                    #[trigger] after[i]).op_id != (#[trigger] after[j]).op_id by {
                        if j < before.len() {
                            assert(before[i].op_id != before[j].op_id);
                        } else {
                            assert(before[i].op_id != op_id@);
                        }
                    }
                }
                std::mem::swap(&mut self.entries, &mut entries);
                true
            },
        }
    }

    /// Moves the entry of `op_id` along on `event` and reports `true`.
    /// Where the operation has no entry, or the event cannot happen in the
    /// state of its entry, the outbox stays as it is and the answer is
    /// `false`.
    pub fn record(&mut self, op_id: &String, event: OutboxEvent) -> (moved: bool)
        ensures
            final(self)@ == outbox_step(old(self)@, op_id@, event),
            moved == can_step(old(self)@, op_id@, event),
            distinct_entries(final(self)@),
    {
        let ghost before = self@;
        match self.find(op_id) {
            None => false,
            Some(i) => {
                let mut entries: Vec<OutboxEntry> = Vec::new();
                std::mem::swap(&mut self.entries, &mut entries);
                let mut entry = entries.remove(i);
                let moved = entry.advance(event);
                entries.insert(i, entry);
                proof {
                    let after = entry_models(entries@);
                    assert(after =~= before.update(i as int, entry@));
                    assert forall|a: int, b: int| 0 <= a < b < after.len() implies (
                    #[trigger] after[a]).op_id != (#[trigger] after[b]).op_id by {
                        assert(before[a].op_id != before[b].op_id);
                    }
                    if !moved {
                        assert(after =~= before);
                    }
                }
                std::mem::swap(&mut self.entries, &mut entries);
                moved
            },
        }
    }

    /// Takes the entry of `op_id` up for sending at `now`: a pending entry,
    /// or a failed one whose retry time has come, becomes sending.
    pub fn begin_send(&mut self, op_id: &String, now: u64) -> (moved: bool)
        ensures
            final(self)@ == outbox_step(old(self)@, op_id@, OutboxEvent::BeginSend { now }),
            moved == can_step(old(self)@, op_id@, OutboxEvent::BeginSend { now }),
    {
        self.record(op_id, OutboxEvent::BeginSend { now })
    }

    /// Records that the send of `op_id` succeeded: a sending entry becomes
    /// sent.
    pub fn mark_sent(&mut self, op_id: &String) -> (moved: bool)
        ensures
            final(self)@ == outbox_step(old(self)@, op_id@, OutboxEvent::Sent),
            moved == can_step(old(self)@, op_id@, OutboxEvent::Sent),
    {
        self.record(op_id, OutboxEvent::Sent)
    }

    /// Records that the send of `op_id` failed: a sending entry becomes
    /// failed, counts one more attempt, and is due again at `next_retry_at`.
    pub fn mark_failed(&mut self, op_id: &String, next_retry_at: u64) -> (moved: bool)
        ensures
            final(self)@ == outbox_step(
                old(self)@,
                op_id@,
                OutboxEvent::Failed { next_retry_at },
            ),
            moved == can_step(old(self)@, op_id@, OutboxEvent::Failed { next_retry_at }),
    {
        self.record(op_id, OutboxEvent::Failed { next_retry_at })
    }

    /// The operations that may be taken up for sending at `now`, in the
    /// order in which they were staged.
    pub fn eligible(&self, now: u64) -> (ids: Vec<String>)
        ensures
            id_views(ids@) == eligible_ids(self@, now),
    {
        let mut ids: Vec<String> = Vec::new();
        let mut i: usize = 0;
        assert(self@.take(0) =~= Seq::<EntryModel>::empty());
        assert(id_views(ids@) =~= Seq::<Seq<char>>::empty());
        while i < self.entries.len()
            invariant
                i <= self.entries.len(),
                id_views(ids@) == eligible_ids(self@.take(i as int), now),
            decreases self.entries.len() - i,
        {
            let ghost collected = ids@;
            proof {
                let prefix = self@.take(i + 1);
                assert(prefix.last() == self@[i as int]);
                assert(prefix.drop_last() =~= self@.take(i as int));
            }
            if self.entries[i].is_eligible(now) {
                let id = self.entries[i].op_id.clone();
                ids.push(id);
                assert(id_views(ids@) =~= id_views(collected).push(id@));
            }
            i += 1;
        }
        assert(self@.take(self@.len() as int) =~= self@);
        ids
    }

    /// Drops the entries whose operation has been sent and returns how many
    /// were dropped. The entries still outstanding keep their order.
    pub fn purge_sent(&mut self) -> (dropped: usize)
        ensures
            final(self)@ == without_sent(old(self)@),
            dropped == old(self)@.len() - final(self)@.len(),
            distinct_entries(final(self)@),
    {
        proof {
            use_type_invariant(&*self);
            lemma_without_sent_distinct(self@);
        }
        let ghost before = self@;
        let mut entries: Vec<OutboxEntry> = Vec::new();
        std::mem::swap(&mut self.entries, &mut entries);
        let mut kept: Vec<OutboxEntry> = Vec::new();
        let mut dropped: usize = 0;
        let total = entries.len();
        let mut done: usize = 0;
        assert(before.take(0) =~= Seq::<EntryModel>::empty());
        assert(entry_models(kept@) =~= Seq::<EntryModel>::empty());
        assert(entry_models(entries@) =~= before.skip(0));
        while done < total
            invariant
                total == before.len(),
                done <= total,
                self.entries@.len() == 0,
                entry_models(entries@) == before.skip(done as int),
                entry_models(kept@) == without_sent(before.take(done as int)),
                dropped + kept@.len() == done,
            decreases total - done,
        {
            let ghost rest = entries@;
            let ghost collected = kept@;
            proof {
                let prefix = before.take(done + 1);
                assert(prefix.last() == before[done as int]);
                assert(prefix.drop_last() =~= before.take(done as int));
                assert(entry_models(rest).len() == total - done);
                assert(entry_models(rest)[0] == before[done as int]);
            }
            let entry = entries.remove(0);
            proof {
                let left = entry_models(entries@);
                assert(left.len() == before.skip(done + 1).len());
                assert forall|j: int| 0 <= j < left.len() implies left[j] == before.skip(
                    done + 1,
                )[j] by {
                    assert(entries@[j] == rest[j + 1]);
                    assert(entry_models(rest)[j + 1] == before.skip(done as int)[j + 1]);
                }
                assert(left =~= before.skip(done + 1));
            }
            if entry.state == OutboxState::Sent {
                dropped += 1;
            } else {
                kept.push(entry);
                assert(entry_models(kept@) =~= entry_models(collected).push(entry@));
            }
            done += 1;
        }
        assert(before.take(before.len() as int) =~= before);
        std::mem::swap(&mut self.entries, &mut kept);
        dropped
    }
}

} // verus!
