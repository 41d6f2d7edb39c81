//! Order independence of the fold: what a view holds after a set of
//! operations depends on the set alone, not on the order of delivery.

use crate::operation::{OpType, OperationModel};
use crate::projection::{fold_row, fold_view, min_nat, replay, row_of, NoteRow};
use vstd::prelude::*;

verus! {

/// Whether two operations write the same visible content.
pub open spec fn same_content(a: OperationModel, b: OperationModel) -> bool {
    a.payload == b.payload && a.op_type == b.op_type
}

/// Whether two sequences hold the same operations, in whatever order and
/// however often.
pub open spec fn same_operations(a: Seq<OperationModel>, b: Seq<OperationModel>) -> bool {
    forall|op: OperationModel| #[trigger] a.contains(op) <==> #[trigger] b.contains(op)
}

/// Whether `ops` holds an operation on the entity `entity`.
pub open spec fn touches(ops: Seq<OperationModel>, entity: Seq<char>) -> bool {
    exists|op: OperationModel| #[trigger] ops.contains(op) && op.entity_id == entity
}

/// Whether `op` is among `ops` and no operation of `ops` on the same entity
/// has a later timestamp.
pub open spec fn is_latest(ops: Seq<OperationModel>, op: OperationModel) -> bool {
    &&& ops.contains(op)
    &&& forall|other: OperationModel| #[trigger]
        ops.contains(other) && other.entity_id == op.entity_id ==> !op.hlc.before(other.hlc)
}

/// Whether the latest operations on each entity agree: two operations on one
/// entity that share the latest timestamp write the same content.
pub open spec fn latest_agree(ops: Seq<OperationModel>) -> bool {
    forall|a: OperationModel, b: OperationModel|
        #[trigger] is_latest(ops, a) && #[trigger] is_latest(ops, b) && a.entity_id
            == b.entity_id ==> same_content(a, b)
}

/// Whether `row` shows the content and timestamp of `op`.
pub open spec fn shows(row: NoteRow, op: OperationModel) -> bool {
    &&& row.note_id == op.entity_id
    &&& row.hlc == op.hlc
    &&& row.title == op.payload.title
    &&& row.body == op.payload.body
    &&& row.deleted == (op.op_type == OpType::Delete)
    &&& row.updated_at == op.hlc.physical
}

/// Whether `row` is what `ops` make of the entity `entity`: it shows one of
/// the latest operations on the entity, and its creation time is the
/// earliest physical time of any operation on the entity.
pub open spec fn reflects(row: NoteRow, ops: Seq<OperationModel>, entity: Seq<char>) -> bool {
    &&& exists|winner: OperationModel| #[trigger]
        is_latest(ops, winner) && winner.entity_id == entity && shows(row, winner)
    &&& exists|first: OperationModel| #[trigger]
        ops.contains(first) && first.entity_id == entity && row.created_at == first.hlc.physical
    &&& forall|op: OperationModel| #[trigger]
        ops.contains(op) && op.entity_id == entity ==> row.created_at <= op.hlc.physical
}

/// What a sequence holds after one more operation.
proof fn lemma_contains_after_push(ops: Seq<OperationModel>, next: OperationModel)
    ensures
        forall|op: OperationModel| #[trigger]
            ops.push(next).contains(op) <==> ops.contains(op) || op == next,
{
    let longer = ops.push(next);
    assert forall|op: OperationModel| #[trigger] longer.contains(op) <==> ops.contains(op) || op
        == next by {
        if longer.contains(op) {
            let i = choose|i: int| 0 <= i < longer.len() && longer[i] == op;
            if i < ops.len() {
                assert(ops[i] == op);
            }
        }
        if ops.contains(op) {
            let i = choose|i: int| 0 <= i < ops.len() && ops[i] == op;
            assert(longer[i] == op);
        }
        assert(longer[ops.len() as int] == next);
    }
}

/// The row that a view replayed from nothing holds for an entity is what the
/// replayed operations make of the entity, and the view holds a row exactly
/// for the entities that the operations touch.
pub proof fn lemma_replay_reflects(ops: Seq<OperationModel>, entity: Seq<char>)
    ensures
        replay(Map::empty(), ops).contains_key(entity) <==> touches(ops, entity),
        replay(Map::empty(), ops).contains_key(entity) ==> reflects(
            replay(Map::empty(), ops)[entity],
            ops,
            entity,
        ),
    decreases ops.len(),
{
    let view = replay(Map::empty(), ops);
    if ops.len() == 0 {
        assert(!touches(ops, entity)) by {
            if touches(ops, entity) {
                let op = choose|op: OperationModel| #[trigger]
                    ops.contains(op) && op.entity_id == entity;
                assert(ops.contains(op));
            }
        }
    } else {
        let earlier = ops.drop_last();
        let next = ops.last();
        let held = replay(Map::empty(), earlier);
        assert(ops == earlier.push(next));
        lemma_contains_after_push(earlier, next);
        lemma_replay_reflects(earlier, entity);
        assert(view == fold_view(held, next));
        assert(ops.contains(next));
        if next.entity_id != entity {
            if touches(ops, entity) {
                let op = choose|op: OperationModel| #[trigger]
                    ops.contains(op) && op.entity_id == entity;
                assert(earlier.contains(op));
            }
            if touches(earlier, entity) {
                let op = choose|op: OperationModel| #[trigger]
                    earlier.contains(op) && op.entity_id == entity;
                assert(ops.contains(op));
            }
            if view.contains_key(entity) {
                let row = held[entity];
                assert(view[entity] == row);
                let winner = choose|winner: OperationModel| #[trigger]
                    is_latest(earlier, winner) && winner.entity_id == entity && shows(row, winner);
                assert(is_latest(ops, winner));
                let first = choose|first: OperationModel| #[trigger]
                    earlier.contains(first) && first.entity_id == entity && row.created_at
                        == first.hlc.physical;
                assert(ops.contains(first));
                assert(reflects(row, ops, entity));
            }
        } else {
            assert(touches(ops, entity));
            assert(view.contains_key(entity));
            let row = view[entity];
            if !held.contains_key(entity) {
                assert(row == row_of(next));
                assert(is_latest(ops, next)) by {
                    assert forall|other: OperationModel| #[trigger]
                        ops.contains(other) && other.entity_id == next.entity_id implies !next.hlc.before(
                        other.hlc,
                    ) by {
                        if earlier.contains(other) {
                            assert(touches(earlier, entity));
                        }
                    }
                }
                assert(shows(row, next));
                assert forall|op: OperationModel| #[trigger]
                    ops.contains(op) && op.entity_id == entity implies row.created_at
                    <= op.hlc.physical by {
                    if earlier.contains(op) {
                        assert(touches(earlier, entity));
                    }
                }
                assert(reflects(row, ops, entity));
            } else {
                let current = held[entity];
                assert(row == fold_row(Some(current), next));
                let winner = choose|winner: OperationModel| #[trigger]
                    is_latest(earlier, winner) && winner.entity_id == entity && shows(
                        current,
                        winner,
                    );
                let first = choose|first: OperationModel| #[trigger]
                    earlier.contains(first) && first.entity_id == entity && current.created_at
                        == first.hlc.physical;
                assert(ops.contains(first));
                assert(ops.contains(winner));
                if current.hlc.before(next.hlc) {
                    assert(is_latest(ops, next)) by {
                        assert forall|other: OperationModel| #[trigger]
                            ops.contains(other) && other.entity_id == next.entity_id implies !next.hlc.before(
                            other.hlc,
                        ) by {
                            if earlier.contains(other) {
                                assert(!winner.hlc.before(other.hlc));
                            }
                        }
                    }
                    assert(shows(row, next));
                } else {
                    assert(is_latest(ops, winner));
                    assert(shows(row, winner));
                }
                assert(row.created_at == min_nat(current.created_at, next.hlc.physical));
                if current.created_at <= next.hlc.physical {
                    assert(row.created_at == first.hlc.physical);
                } else {
                    assert(row.created_at == next.hlc.physical);
                }
                assert forall|op: OperationModel| #[trigger]
                    ops.contains(op) && op.entity_id == entity implies row.created_at
                    <= op.hlc.physical by {
                    if earlier.contains(op) {
                        assert(current.created_at <= op.hlc.physical);
                    }
                }
                assert(reflects(row, ops, entity));
            }
        }
    }
}

/// Two rows that are what the same operations make of an entity are equal,
/// provided that the latest operations on each entity agree.
proof fn lemma_reflected_rows_are_equal(
    a: Seq<OperationModel>,
    b: Seq<OperationModel>,
    entity: Seq<char>,
    row_a: NoteRow,
    row_b: NoteRow,
)
    requires
        same_operations(a, b),
        latest_agree(a),
        reflects(row_a, a, entity),
        reflects(row_b, b, entity),
    ensures
        row_a == row_b,
{
    let winner_a = choose|winner: OperationModel| #[trigger]
        is_latest(a, winner) && winner.entity_id == entity && shows(row_a, winner);
    let winner_b = choose|winner: OperationModel| #[trigger]
        is_latest(b, winner) && winner.entity_id == entity && shows(row_b, winner);
    assert(a.contains(winner_b));
    assert(b.contains(winner_a));
    assert(is_latest(a, winner_b)) by {
        assert forall|other: OperationModel| #[trigger]
            a.contains(other) && other.entity_id == winner_b.entity_id implies !winner_b.hlc.before(
            other.hlc,
        ) by {
            assert(b.contains(other));
        }
    }
    assert(same_content(winner_a, winner_b));
    assert(!winner_a.hlc.before(winner_b.hlc));
    assert(!winner_b.hlc.before(winner_a.hlc));
    assert(winner_a.hlc == winner_b.hlc);
    let first_a = choose|first: OperationModel| #[trigger]
        a.contains(first) && first.entity_id == entity && row_a.created_at == first.hlc.physical;
    let first_b = choose|first: OperationModel| #[trigger]
        b.contains(first) && first.entity_id == entity && row_b.created_at == first.hlc.physical;
    assert(b.contains(first_a));
    assert(a.contains(first_b));
    assert(row_a.created_at == row_b.created_at);
}

/// Replaying a set of operations from nothing gives the same view in every
/// order of delivery: a rebuild from the log in timestamp order and any
/// incremental application of the same operations agree.
///
/// The one condition is that the latest operations on each entity agree.
/// Where two operations on one entity share the latest timestamp and differ
/// in content, the timestamps alone do not say which one wins.
pub proof fn lemma_replay_is_order_independent(
    log: Seq<OperationModel>,
    delivered: Seq<OperationModel>,
)
    requires
        same_operations(log, delivered),
        latest_agree(log),
    ensures
        replay(Map::empty(), delivered) == replay(Map::empty(), log),
{
    let from_log = replay(Map::empty(), log);
    let from_delivery = replay(Map::empty(), delivered);
    assert forall|entity: Seq<char>|
        from_log.contains_key(entity) <==> from_delivery.contains_key(entity) by {
        lemma_replay_reflects(log, entity);
        lemma_replay_reflects(delivered, entity);
        if touches(log, entity) {
            let op = choose|op: OperationModel| #[trigger]
                log.contains(op) && op.entity_id == entity;
            assert(delivered.contains(op));
        }
        if touches(delivered, entity) {
            let op = choose|op: OperationModel| #[trigger]
                delivered.contains(op) && op.entity_id == entity;
            assert(log.contains(op));
        }
    }
    assert forall|entity: Seq<char>| from_log.contains_key(entity) implies from_log[entity]
        == from_delivery[entity] by {
        lemma_replay_reflects(log, entity);
        lemma_replay_reflects(delivered, entity);
        lemma_reflected_rows_are_equal(
            log,
            delivered,
            entity,
            from_log[entity],
            from_delivery[entity],
        );
    }
    assert(from_log =~= from_delivery);
}

} // verus!
