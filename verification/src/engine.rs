//! The sync engine: one clock, one operation log, one outbox, one apply log
//! and one view, moved together in the steps that must happen as a unit.
//!
//! A local write appends the operation and stages it for delivery. An
//! inbound operation, remote or replayed, is folded into the view at most
//! once: the apply log says whether it has been, and a new one is appended,
//! folded and recorded in one step.

use crate::apply_log::ApplyLog;
use crate::convergence::{latest_agree, lemma_replay_is_order_independent, same_operations};
use crate::hlc::{
    drift_message, drifted, merge_outcome, merge_step, tick_step, Hlc, HlcClock, Stamp,
};
use crate::operation::{Operation, OperationModel};
use crate::outbox::{
    can_step, has_entry, lemma_without_sent_is_part, outbox_step, stage_step, without_sent,
    EntryModel, Outbox, OutboxEvent,
};
use crate::projection::{fold_view, replay, MaterializedView, NoteRow};
use crate::store::{
    append_step, distinct_ops, has_op, in_hlc_order, lemma_append_preserves_log, OperationStore,
};
use vstd::prelude::*;

verus! {

/// The mathematical value of an engine. `history` is every operation that
/// has been folded into the view, in the order of folding.
pub struct EngineModel {
    pub clock: Stamp,
    pub store: Seq<OperationModel>,
    pub outbox: Seq<EntryModel>,
    pub applied: Set<Seq<char>>,
    pub view: Map<Seq<char>, NoteRow>,
    pub history: Seq<OperationModel>,
}

/// The engine of a fresh store.
pub open spec fn initial() -> EngineModel {
    EngineModel {
        clock: Stamp { physical: 0, counter: 0 },
        store: Seq::empty(),
        outbox: Seq::empty(),
        applied: Set::empty(),
        view: Map::empty(),
        history: Seq::empty(),
    }
}

/// The engine after a local write of `op`: the operation is appended and
/// staged as pending. An operation that the log already holds changes
/// nothing.
pub open spec fn record_local_step(engine: EngineModel, op: OperationModel) -> EngineModel {
    if has_op(engine.store, op.op_id) {
        engine
    } else {
        EngineModel {
            store: append_step(engine.store, op),
            outbox: stage_step(engine.outbox, op.op_id),
            ..engine
        }
    }
}

/// The engine after `op` has gone through the guarded path: an operation
/// that the apply log knows changes nothing; a new one is appended, folded
/// into the view and recorded.
pub open spec fn ingest_step(engine: EngineModel, op: OperationModel) -> EngineModel {
    if engine.applied.contains(op.op_id) {
        engine
    } else {
        EngineModel {
            store: append_step(engine.store, op),
            applied: engine.applied.insert(op.op_id),
            view: fold_view(engine.view, op),
            history: engine.history.push(op),
            ..engine
        }
    }
}

/// The engine after `op` has arrived from another device while the wall
/// clock reads `now`: an operation whose timestamp is too far ahead changes
/// nothing; any other has its timestamp merged into the clock and goes
/// through the guarded path.
pub open spec fn receive_step(engine: EngineModel, op: OperationModel, now: nat) -> EngineModel {
    if drifted(op.hlc, now) {
        engine
    } else {
        ingest_step(EngineModel { clock: merge_step(engine.clock, op.hlc, now), ..engine }, op)
    }
}

/// The engine after its view has been rebuilt from the log: the view is the
/// replay of the log, and every operation of the log counts as applied.
pub open spec fn rebuild_step(engine: EngineModel) -> EngineModel {
    EngineModel {
        applied: Set::new(
            |op_id: Seq<char>| engine.applied.contains(op_id) || has_op(engine.store, op_id),
        ),
        view: replay(Map::empty(), engine.store),
        history: engine.store,
        ..engine
    }
}

/// The engine after the delivery collaborator has reported `event` for the
/// operation `op_id`: only the outbox moves.
pub open spec fn delivery_step(
    engine: EngineModel,
    op_id: Seq<char>,
    event: OutboxEvent,
) -> EngineModel {
    EngineModel { outbox: outbox_step(engine.outbox, op_id, event), ..engine }
}

/// The engine after the sent entries have been dropped from the outbox.
pub open spec fn purge_step(engine: EngineModel) -> EngineModel {
    EngineModel { outbox: without_sent(engine.outbox), ..engine }
}

/// What holds of every engine that started fresh and moved only by the
/// steps above:
/// the log is in timestamp order with distinct identifiers; every outbox
/// entry belongs to a stored operation; the apply log names exactly the
/// operations folded so far, all of which are stored; and the view is the
/// fold of those operations.
pub open spec fn coherent(engine: EngineModel) -> bool {
    &&& in_hlc_order(engine.store)
    &&& distinct_ops(engine.store)
    &&& forall|i: int|
        0 <= i < engine.outbox.len() ==> has_op(engine.store, (#[trigger] engine.outbox[i]).op_id)
    &&& forall|op_id: Seq<char>|
        engine.applied.contains(op_id) <==> #[trigger] has_op(engine.history, op_id)
    &&& forall|op_id: Seq<char>| #[trigger]
        engine.applied.contains(op_id) ==> has_op(engine.store, op_id)
    &&& engine.view == replay(Map::empty(), engine.history)
}

/// An append keeps every identifier that the log held, and the log then
/// holds the identifier of the appended operation.
proof fn lemma_append_keeps_ids(ops: Seq<OperationModel>, op: OperationModel)
    requires
        in_hlc_order(ops),
        distinct_ops(ops),
    ensures
        has_op(append_step(ops, op), op.op_id),
        forall|op_id: Seq<char>| #[trigger]
            has_op(ops, op_id) ==> has_op(append_step(ops, op), op_id),
{
    lemma_append_preserves_log(ops, op);
    let after = append_step(ops, op);
    assert forall|op_id: Seq<char>| #[trigger] has_op(ops, op_id) implies has_op(
        after,
        op_id,
    ) by {
        let i = choose|i: int| 0 <= i < ops.len() && (#[trigger] ops[i]).op_id == op_id;
        assert(ops.contains(ops[i]));
        assert(after.contains(ops[i]));
        let j = choose|j: int| 0 <= j < after.len() && after[j] == ops[i];
        assert(after[j].op_id == op_id);
    }
}

/// The identifiers that a sequence holds after one more operation.
proof fn lemma_ids_after_push(ops: Seq<OperationModel>, op: OperationModel)
    ensures
        forall|op_id: Seq<char>| #[trigger]
            has_op(ops.push(op), op_id) <==> has_op(ops, op_id) || op_id == op.op_id,
{
    let longer = ops.push(op);
    assert forall|op_id: Seq<char>| #[trigger] has_op(longer, op_id) <==> has_op(ops, op_id)
        || op_id == op.op_id by {
        if has_op(longer, op_id) {
            let i = choose|i: int| 0 <= i < longer.len() && (#[trigger] longer[i]).op_id == op_id;
            if i < ops.len() {
                assert(ops[i].op_id == op_id);
            }
        }
        if has_op(ops, op_id) {
            let i = choose|i: int| 0 <= i < ops.len() && (#[trigger] ops[i]).op_id == op_id;
            assert(longer[i].op_id == op_id);
        }
        assert(longer[ops.len() as int].op_id == op.op_id);
    }
}

/// A fresh engine is coherent.
pub proof fn lemma_initial_is_coherent()
    ensures
        coherent(initial()),
{
}

/// A local write keeps the engine coherent: in particular no outbox entry
/// is ever without its operation.
pub proof fn lemma_record_local_keeps_coherence(engine: EngineModel, op: OperationModel)
    requires
        coherent(engine),
    ensures
        coherent(record_local_step(engine, op)),
{
    let after = record_local_step(engine, op);
    if !has_op(engine.store, op.op_id) {
        lemma_append_preserves_log(engine.store, op);
        lemma_append_keeps_ids(engine.store, op);
        assert forall|i: int| 0 <= i < after.outbox.len() implies has_op(
            after.store,
            (#[trigger] after.outbox[i]).op_id,
        ) by {
            if i < engine.outbox.len() {
                assert(after.outbox[i] == engine.outbox[i]);
                assert(has_op(engine.store, engine.outbox[i].op_id));
            }
        }
    }
}

/// The guarded path keeps the engine coherent: in particular the view is
/// always the fold of exactly the operations that the apply log names.
pub proof fn lemma_ingest_keeps_coherence(engine: EngineModel, op: OperationModel)
    requires
        coherent(engine),
    ensures
        coherent(ingest_step(engine, op)),
{
    let after = ingest_step(engine, op);
    if !engine.applied.contains(op.op_id) {
        lemma_append_preserves_log(engine.store, op);
        lemma_append_keeps_ids(engine.store, op);
        lemma_ids_after_push(engine.history, op);
        assert(after.history.drop_last() == engine.history);
        assert forall|i: int| 0 <= i < after.outbox.len() implies has_op(
            after.store,
            (#[trigger] after.outbox[i]).op_id,
        ) by {
            assert(has_op(engine.store, engine.outbox[i].op_id));
        }
        assert forall|op_id: Seq<char>| #[trigger] after.applied.contains(op_id) implies has_op(
            after.store,
            op_id,
        ) by {
            if op_id != op.op_id {
                assert(engine.applied.contains(op_id));
                assert(has_op(engine.store, op_id));
            }
        }
    }
}

/// An inbound operation keeps the engine coherent, whether it is merged or
/// rejected for drift.
pub proof fn lemma_receive_keeps_coherence(engine: EngineModel, op: OperationModel, now: nat)
    requires
        coherent(engine),
    ensures
        coherent(receive_step(engine, op, now)),
{
    if !drifted(op.hlc, now) {
        let merged = EngineModel { clock: merge_step(engine.clock, op.hlc, now), ..engine };
        lemma_ingest_keeps_coherence(merged, op);
    }
}

/// A rebuild keeps the engine coherent.
pub proof fn lemma_rebuild_keeps_coherence(engine: EngineModel)
    requires
        coherent(engine),
    ensures
        coherent(rebuild_step(engine)),
{
}

/// A delivery report keeps the engine coherent.
pub proof fn lemma_delivery_keeps_coherence(
    engine: EngineModel,
    op_id: Seq<char>,
    event: OutboxEvent,
)
    requires
        coherent(engine),
    ensures
        coherent(delivery_step(engine, op_id, event)),
{
    let after = delivery_step(engine, op_id, event);
    assert forall|i: int| 0 <= i < after.outbox.len() implies has_op(
        after.store,
        (#[trigger] after.outbox[i]).op_id,
    ) by {
        assert(has_op(engine.store, engine.outbox[i].op_id));
    }
}

/// Dropping the sent entries keeps the engine coherent.
pub proof fn lemma_purge_keeps_coherence(engine: EngineModel)
    requires
        coherent(engine),
    ensures
        coherent(purge_step(engine)),
{
    let after = purge_step(engine);
    assert forall|i: int| 0 <= i < after.outbox.len() implies has_op(
        after.store,
        (#[trigger] after.outbox[i]).op_id,
    ) by {
        let op_id = after.outbox[i].op_id;
        assert(has_entry(after.outbox, op_id));
        lemma_without_sent_is_part(engine.outbox, op_id);
        let j = choose|j: int|
            0 <= j < engine.outbox.len() && (#[trigger] engine.outbox[j]).op_id == op_id;
        assert(has_op(engine.store, engine.outbox[j].op_id));
    }
}

/// Putting an operation through the guarded path twice leaves the engine,
/// and so every row of its view, exactly as putting it through once.
pub proof fn lemma_ingest_is_idempotent(engine: EngineModel, op: OperationModel)
    ensures
        ingest_step(ingest_step(engine, op), op) == ingest_step(engine, op),
        ingest_step(ingest_step(engine, op), op).view == ingest_step(engine, op).view,
{
}

/// A repeated delivery of an operation from another device leaves the view,
/// the log, the outbox and the apply log as the first delivery left them,
/// whatever the wall clock reads at either delivery.
pub proof fn lemma_redelivery_changes_nothing(
    engine: EngineModel,
    op: OperationModel,
    first_now: nat,
    second_now: nat,
)
    requires
        !drifted(op.hlc, first_now),
    ensures
        ({
            let once = receive_step(engine, op, first_now);
            let twice = receive_step(once, op, second_now);
            &&& twice.view == once.view
            &&& twice.store == once.store
            &&& twice.outbox == once.outbox
            &&& twice.applied == once.applied
            &&& twice.history == once.history
        }),
{
}

/// Two coherent engines that have folded the same operations, in whatever
/// order, hold the same view, provided that the latest operations on each
/// entity agree.
pub proof fn lemma_same_operations_same_view(one: EngineModel, other: EngineModel)
    requires
        coherent(one),
        coherent(other),
        same_operations(one.history, other.history),
        latest_agree(one.history),
    ensures
        one.view == other.view,
{
    lemma_replay_is_order_independent(one.history, other.history);
}

/// A rebuild from the log gives the view that the engine already holds,
/// whenever the log holds exactly the operations that were folded and the
/// latest operations on each entity agree.
pub proof fn lemma_rebuild_agrees_with_view(engine: EngineModel)
    requires
        coherent(engine),
        same_operations(engine.store, engine.history),
        latest_agree(engine.store),
    ensures
        rebuild_step(engine).view == engine.view,
{
    lemma_replay_is_order_independent(engine.store, engine.history);
}

/// The sync engine of one local store. Exactly one process owns it, and
/// every step below runs to its end before the next one starts.
pub struct SyncEngine {
    clock: HlcClock,
    store: OperationStore,
    outbox: Outbox,
    apply_log: ApplyLog,
    view: MaterializedView,
    history: Ghost<Seq<OperationModel>>,
}

impl View for SyncEngine {
    type V = EngineModel;

    closed spec fn view(&self) -> EngineModel {
        EngineModel {
            clock: self.clock@,
            store: self.store@,
            outbox: self.outbox@,
            applied: self.apply_log@,
            view: self.view@,
            history: self.history@,
        }
    }
}

impl SyncEngine {
    /// The engine of a fresh store.
    pub fn new() -> (engine: Self)
        ensures
            engine@ == initial(),
            coherent(engine@),
    {
        SyncEngine {
            clock: HlcClock::new(),
            store: OperationStore::new(),
            outbox: Outbox::new(),
            apply_log: ApplyLog::new(),
            view: MaterializedView::new(),
            history: Ghost(Seq::empty()),
        }
    }

    /// The clock.
    pub fn clock(&self) -> (clock: &HlcClock)
        ensures
            clock@ == self@.clock,
    {
        &self.clock
    }

    /// The operation log.
    pub fn operations(&self) -> (store: &OperationStore)
        ensures
            store@ == self@.store,
    {
        &self.store
    }

    /// The outbox.
    pub fn outbox(&self) -> (outbox: &Outbox)
        ensures
            outbox@ == self@.outbox,
    {
        &self.outbox
    }

    /// The apply log.
    pub fn applied(&self) -> (log: &ApplyLog)
        ensures
            log@ == self@.applied,
    {
        &self.apply_log
    }

    /// The current state of the notes.
    pub fn notes(&self) -> (view: &MaterializedView)
        ensures
            view@ == self@.view,
    {
        &self.view
    }

    /// Issues the timestamp of the next local operation for a wall clock
    /// that reads `now`.
    pub fn tick_at(&mut self, now: u64) -> (h: Hlc)
        requires
            tick_step(old(self)@.clock, now as nat).counter <= u64::MAX,
        ensures
            h@ == tick_step(old(self)@.clock, now as nat),
            final(self)@ == (EngineModel { clock: h@, ..old(self)@ }),
            coherent(old(self)@) ==> coherent(final(self)@),
    {
        self.clock.tick_at(now)
    }

    /// Issues the timestamp of the next local operation, after every
    /// timestamp this engine has issued or merged.
    pub fn tick(&mut self) -> (h: Hlc)
        requires
            old(self)@.clock.counter < u64::MAX,
        ensures
            exists|now: u64| h@ == #[trigger] tick_step(old(self)@.clock, now as nat),
            old(self)@.clock.before(h@),
            final(self)@ == (EngineModel { clock: h@, ..old(self)@ }),
            coherent(old(self)@) ==> coherent(final(self)@),
    {
        self.clock.tick()
    }

    /// The local write: appends `op` to the log and stages it for delivery,
    /// as one step. Reports whether the operation was new to the log.
    pub fn record_local(&mut self, op: Operation) -> (stored: bool)
        ensures
            final(self)@ == record_local_step(old(self)@, op@),
            stored == !has_op(old(self)@.store, op@.op_id),
            coherent(old(self)@) ==> coherent(final(self)@),
    {
        proof {
            if coherent(self@) {
                lemma_record_local_keeps_coherence(self@, op@);
            }
        }
        let op_id = op.op_id.clone();
        let stored = self.store.append(op);
        if stored {
            self.outbox.stage(op_id);
        }
        stored
    }

    /// The guarded path for an inbound operation, remote or replayed: an
    /// operation that the apply log knows is skipped; a new one is appended
    /// to the log, folded into the view and recorded, as one step. Reports
    /// whether the operation was folded.
    pub fn ingest(&mut self, op: Operation) -> (folded: bool)
        ensures
            final(self)@ == ingest_step(old(self)@, op@),
            folded == !old(self)@.applied.contains(op@.op_id),
            coherent(old(self)@) ==> coherent(final(self)@),
    {
        proof {
            if coherent(self@) {
                lemma_ingest_keeps_coherence(self@, op@);
            }
        }
        if self.apply_log.contains(&op.op_id) {
            return false;
        }
        self.view.apply(&op);
        self.apply_log.record(op.op_id.clone());
        self.history = Ghost(self.history@.push(op@));
        self.store.append(op);
        true
    }

    /// Takes in an operation from another device for a wall clock that
    /// reads `now`: merges its timestamp into the clock, then puts it
    /// through the guarded path. An operation whose timestamp is more than
    /// the allowed drift ahead of `now` is rejected and changes nothing.
    pub fn receive_at(&mut self, op: Operation, now: u64) -> (result: Result<bool, String>)
        requires
            !drifted(op@.hlc, now as nat) ==> merge_step(
                old(self)@.clock,
                op@.hlc,
                now as nat,
            ).counter <= u64::MAX,
        ensures
            final(self)@ == receive_step(old(self)@, op@, now as nat),
            coherent(old(self)@) ==> coherent(final(self)@),
            match result {
                Ok(folded) => !drifted(op@.hlc, now as nat) && folded
                    == !old(self)@.applied.contains(op@.op_id),
                Err(message) => drifted(op@.hlc, now as nat) && message@ == drift_message(),
            },
    {
        proof {
            if coherent(self@) {
                lemma_receive_keeps_coherence(self@, op@, now as nat);
            }
        }
        match self.clock.merge_at(op.hlc, now) {
            Ok(_) => Ok(self.ingest(op)),
            Err(message) => Err(message),
        }
    }

    /// Takes in an operation from another device, reading the wall clock
    /// for the drift check. Whatever the clock reads, a rejection changes
    /// nothing, and an accepted operation is folded exactly when the apply
    /// log did not know it.
    pub fn receive(&mut self, op: Operation) -> (result: Result<bool, String>)
        requires
            old(self)@.clock.counter < u64::MAX,
            op@.hlc.counter < u64::MAX,
        ensures
            exists|now: u64| final(self)@ == #[trigger] receive_step(old(self)@, op@, now as nat),
            coherent(old(self)@) ==> coherent(final(self)@),
            match result {
                Ok(folded) => folded == !old(self)@.applied.contains(op@.op_id) && op@.hlc.before(
                    final(self)@.clock,
                ),
                Err(message) => final(self)@ == old(self)@ && message@ == drift_message(),
            },
    {
        let ghost before = self@;
        let merged = self.clock.merge(op.hlc);
        let ghost now = choose|now: u64| #[trigger]
            merge_outcome(before.clock, op@.hlc, now as nat, merged, self.clock@);
        proof {
            if coherent(before) {
                lemma_receive_keeps_coherence(before, op@, now as nat);
            }
        }
        match merged {
            Ok(_) => {
                let folded = self.ingest(op);
                assert(self@ == receive_step(before, op@, now as nat));
                Ok(folded)
            },
            Err(message) => {
                assert(self@ == receive_step(before, op@, now as nat));
                Err(message)
            },
        }
    }

    /// Takes the delivery collaborator's report about the operation
    /// `op_id` into the outbox. Reports whether the entry moved.
    pub fn report_delivery(&mut self, op_id: &String, event: OutboxEvent) -> (moved: bool)
        ensures
            final(self)@ == delivery_step(old(self)@, op_id@, event),
            moved == can_step(old(self)@.outbox, op_id@, event),
            coherent(old(self)@) ==> coherent(final(self)@),
    {
        proof {
            if coherent(self@) {
                lemma_delivery_keeps_coherence(self@, op_id@, event);
            }
        }
        self.outbox.record(op_id, event)
    }

    /// Drops the outbox entries whose operation has been sent and returns
    /// how many were dropped.
    pub fn purge_sent(&mut self) -> (dropped: usize)
        ensures
            final(self)@ == purge_step(old(self)@),
            dropped == old(self)@.outbox.len() - final(self)@.outbox.len(),
            coherent(old(self)@) ==> coherent(final(self)@),
    {
        proof {
            if coherent(self@) {
                lemma_purge_keeps_coherence(self@);
            }
        }
        self.outbox.purge_sent()
    }

    /// Rebuilds the view from the log in timestamp order and marks every
    /// operation of the log as applied.
    pub fn rebuild(&mut self)
        ensures
            final(self)@ == rebuild_step(old(self)@),
            coherent(old(self)@) ==> coherent(final(self)@),
    {
        let ghost before = self@;
        proof {
            if coherent(before) {
                lemma_rebuild_keeps_coherence(before);
            }
        }
        self.view = MaterializedView::rebuild(&self.store);
        let mut i: usize = 0;
        assert(self.apply_log@ =~= Set::new(
            |op_id: Seq<char>|
                before.applied.contains(op_id) || has_op(before.store.take(0), op_id),
        ));
        while i < self.store.len()
            invariant
                i <= self.store@.len(),
                self.store@ == before.store,
                self.clock@ == before.clock,
                self.outbox@ == before.outbox,
                self.view@ == replay(Map::empty(), before.store),
                self.apply_log@ == Set::new(
                    |op_id: Seq<char>|
                        before.applied.contains(op_id) || has_op(
                            before.store.take(i as int),
                            op_id,
                        ),
                ),
            decreases self.store@.len() - i,
        {
            match self.store.get(i) {
                Some(op) => {
                    let op_id = op.op_id.clone();
                    self.apply_log.record(op_id);
                },
                None => {},
            }
            proof {
                let shorter = before.store.take(i as int);
                let longer = before.store.take(i + 1);
                assert(longer =~= shorter.push(before.store[i as int]));
                lemma_ids_after_push(shorter, before.store[i as int]);
                assert(self.apply_log@ =~= Set::new(
                    |op_id: Seq<char>| before.applied.contains(op_id) || has_op(longer, op_id),
                ));
            }
            i += 1;
        }
        assert(before.store.take(before.store.len() as int) =~= before.store);
        self.history = Ghost(self.store@);
        assert(self@.applied =~= rebuild_step(before).applied);
    }
}

} // verus!
