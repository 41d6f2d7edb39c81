//! The operation store: the append-only log of every operation known to this
//! device, kept in timestamp order.

use crate::hlc::Stamp;
use crate::operation::{Operation, OperationModel};
use vstd::prelude::*;

verus! {

/// The mathematical values of a sequence of operations.
pub open spec fn models(ops: Seq<Operation>) -> Seq<OperationModel> {
    ops.map_values(|op: Operation| op@)
}

/// Whether `ops` holds an operation with the identifier `op_id`.
pub open spec fn has_op(ops: Seq<OperationModel>, op_id: Seq<char>) -> bool {
    exists|i: int| 0 <= i < ops.len() && (#[trigger] ops[i]).op_id == op_id
}

/// Whether no two operations share an identifier.
pub open spec fn distinct_ops(ops: Seq<OperationModel>) -> bool {
    forall|i: int, j: int|
        0 <= i < j < ops.len() ==> (#[trigger] ops[i]).op_id != (#[trigger] ops[j]).op_id
}

/// Whether no operation stands before one with an earlier timestamp.
pub open spec fn in_hlc_order(ops: Seq<OperationModel>) -> bool {
    forall|i: int, j: int|
        0 <= i < j < ops.len() ==> !(#[trigger] ops[j]).hlc.before((#[trigger] ops[i]).hlc)
}

/// The place of a new operation with timestamp `hlc`: behind every
/// operation that is not later than it.
pub open spec fn slot_for(ops: Seq<OperationModel>, hlc: Stamp) -> nat
    decreases ops.len(),
{
    if ops.len() == 0 {
        0
    } else if hlc.before(ops.last().hlc) {
        slot_for(ops.drop_last(), hlc)
    } else {
        ops.len()
    }
}

/// The log after an append: an operation whose identifier the log already
/// holds changes nothing; a new one takes its place in timestamp order.
pub open spec fn append_step(ops: Seq<OperationModel>, op: OperationModel) -> Seq<
    OperationModel,
> {
    if has_op(ops, op.op_id) {
        ops
    } else {
        ops.insert(slot_for(ops, op.hlc) as int, op)
    }
}

/// The operations on one entity, in the order of the log.
pub open spec fn ops_of_entity(ops: Seq<OperationModel>, entity: Seq<char>) -> Seq<
    OperationModel,
>
    decreases ops.len(),
{
    if ops.len() == 0 {
        Seq::empty()
    } else if ops.last().entity_id == entity {
        ops_of_entity(ops.drop_last(), entity).push(ops.last())
    } else {
        ops_of_entity(ops.drop_last(), entity)
    }
}

/// The slot of a timestamp lies within the log, everything before it is not
/// later than the timestamp, and in an ordered log everything from it on is.
pub proof fn lemma_slot_splits_log(ops: Seq<OperationModel>, hlc: Stamp)
    ensures
        slot_for(ops, hlc) <= ops.len(),
        slot_for(ops, hlc) > 0 ==> !hlc.before(ops[slot_for(ops, hlc) - 1].hlc),
        forall|i: int| slot_for(ops, hlc) <= i < ops.len() ==> hlc.before((#[trigger] ops[i]).hlc),
        in_hlc_order(ops) ==> forall|i: int|
            0 <= i < slot_for(ops, hlc) ==> !hlc.before((#[trigger] ops[i]).hlc),
    decreases ops.len(),
{
    if ops.len() > 0 && hlc.before(ops.last().hlc) {
        let shorter = ops.drop_last();
        lemma_slot_splits_log(shorter, hlc);
        assert forall|i: int| slot_for(ops, hlc) <= i < ops.len() implies hlc.before(
            (#[trigger] ops[i]).hlc,
        ) by {
            if i < shorter.len() {
                assert(shorter[i] == ops[i]);
            }
        }
        if in_hlc_order(ops) {
            assert(in_hlc_order(shorter)) by {
                assert forall|i: int, j: int| 0 <= i < j < shorter.len() implies !(
                #[trigger] shorter[j]).hlc.before((#[trigger] shorter[i]).hlc) by {
                    assert(!ops[j].hlc.before(ops[i].hlc));
                }
            }
            assert forall|i: int| 0 <= i < slot_for(ops, hlc) implies !hlc.before(
                (#[trigger] ops[i]).hlc,
            ) by {
                assert(shorter[i] == ops[i]);
            }
        }
        if slot_for(ops, hlc) > 0 {
            assert(shorter[slot_for(ops, hlc) - 1] == ops[slot_for(ops, hlc) - 1]);
        }
    } else if ops.len() > 0 && in_hlc_order(ops) {
        let last = ops.len() - 1;
        assert forall|i: int| 0 <= i < ops.len() implies !hlc.before((#[trigger] ops[i]).hlc) by {
            if i < last {
                assert(!ops[last].hlc.before(ops[i].hlc));
            }
        }
    }
}

/// An append keeps the log in timestamp order and its identifiers distinct,
/// and drops nothing: every operation stored before is stored after.
pub proof fn lemma_append_preserves_log(ops: Seq<OperationModel>, op: OperationModel)
    requires
        in_hlc_order(ops),
        distinct_ops(ops),
    ensures
        in_hlc_order(append_step(ops, op)),
        distinct_ops(append_step(ops, op)),
        has_op(append_step(ops, op), op.op_id),
        forall|stored: OperationModel| #[trigger]
            ops.contains(stored) ==> append_step(ops, op).contains(stored),
        !has_op(ops, op.op_id) ==> append_step(ops, op).contains(op),
        forall|stored: OperationModel| #[trigger]
            append_step(ops, op).contains(stored) ==> ops.contains(stored) || stored == op,
{
    let after = append_step(ops, op);
    if has_op(ops, op.op_id) {
    } else {
        let k = slot_for(ops, op.hlc) as int;
        lemma_slot_splits_log(ops, op.hlc);
        assert(after.len() == ops.len() + 1);
        assert(after[k] == op);
        assert forall|i: int| 0 <= i < after.len() implies #[trigger] after[i] == (if i < k {
            ops[i]
        } else if i == k {
            op
        } else {
            ops[i - 1]
        }) by {}
        assert forall|i: int, j: int| 0 <= i < j < after.len() implies !(#[trigger] after[j]).hlc.before(
            (#[trigger] after[i]).hlc,
        ) by {
            if j < k {
                assert(!ops[j].hlc.before(ops[i].hlc));
            } else if j == k {
                assert(!op.hlc.before(ops[i].hlc));
            } else if i < k {
                assert(!ops[j - 1].hlc.before(ops[i].hlc));
            } else if i == k {
                assert(op.hlc.before(ops[j - 1].hlc));
            } else {
                assert(!ops[j - 1].hlc.before(ops[i - 1].hlc));
            }
        }
        assert forall|i: int, j: int| 0 <= i < j < after.len() implies (#[trigger] after[i]).op_id
            != (#[trigger] after[j]).op_id by {
            let a = if i < k {
                i
            } else {
                i - 1
            };
            let b = if j < k {
                j
            } else {
                j - 1
            };
            if i != k && j != k {
                assert(ops[a].op_id != ops[b].op_id);
            } else if i == k {
                assert(ops[b].op_id != op.op_id);
            } else {
                assert(ops[a].op_id != op.op_id);
            }
        }
        assert forall|stored: OperationModel| #[trigger] ops.contains(stored) implies after.contains(
            stored,
        ) by {
            let i = choose|i: int| 0 <= i < ops.len() && ops[i] == stored;
            if i < k {
                assert(after[i] == stored);
            } else {
                assert(after[i + 1] == stored);
            }
        }
        assert forall|stored: OperationModel| #[trigger] after.contains(stored) implies ops.contains(
            stored,
        ) || stored == op by {
            let i = choose|i: int| 0 <= i < after.len() && after[i] == stored;
            if i < k {
                assert(ops[i] == stored);
            } else if i > k {
                assert(ops[i - 1] == stored);
            }
        }
    }
}

/// A scan of an ordered log returns exactly the operations on the entity,
/// still in timestamp order.
pub proof fn lemma_scan_is_ordered_part(ops: Seq<OperationModel>, entity: Seq<char>)
    requires
        in_hlc_order(ops),
    ensures
        in_hlc_order(ops_of_entity(ops, entity)),
        forall|op: OperationModel| #[trigger]
            ops_of_entity(ops, entity).contains(op) <==> ops.contains(op) && op.entity_id
                == entity,
    decreases ops.len(),
{
    let found = ops_of_entity(ops, entity);
    if ops.len() > 0 {
        let shorter = ops.drop_last();
        let last = ops.last();
        let before = ops_of_entity(shorter, entity);
        assert(in_hlc_order(shorter)) by {
            assert forall|i: int, j: int| 0 <= i < j < shorter.len() implies !(
            #[trigger] shorter[j]).hlc.before((#[trigger] shorter[i]).hlc) by {
                assert(!ops[j].hlc.before(ops[i].hlc));
            }
        }
        lemma_scan_is_ordered_part(shorter, entity);
        assert forall|op: OperationModel| #[trigger] found.contains(op) <==> ops.contains(op)
            && op.entity_id == entity by {
            if found.contains(op) {
                let i = choose|i: int| 0 <= i < found.len() && found[i] == op;
                if i < before.len() {
                    assert(before[i] == op);
                    assert(before.contains(op));
                    let k = choose|k: int| 0 <= k < shorter.len() && shorter[k] == op;
                    assert(ops[k] == op);
                } else {
                    assert(ops[ops.len() - 1] == op);
                }
            }
            if ops.contains(op) && op.entity_id == entity {
                let k = choose|k: int| 0 <= k < ops.len() && ops[k] == op;
                if k < shorter.len() {
                    assert(shorter[k] == op);
                    assert(shorter.contains(op));
                    assert(before.contains(op));
                    let i = choose|i: int| 0 <= i < before.len() && before[i] == op;
                    assert(found[i] == op);
                } else {
                    assert(found[found.len() - 1] == op);
                }
            }
        }
        if last.entity_id == entity {
            assert forall|i: int, j: int| 0 <= i < j < found.len() implies !(
            #[trigger] found[j]).hlc.before((#[trigger] found[i]).hlc) by {
                if j < before.len() {
                    assert(!before[j].hlc.before(before[i].hlc));
                } else {
                    assert(before.contains(before[i]));
                    let k = choose|k: int| 0 <= k < shorter.len() && shorter[k] == before[i];
                    assert(!ops[ops.len() - 1].hlc.before(ops[k].hlc));
                }
            }
        }
    }
}

/// The durable log of operations. Nothing stored is ever changed or removed.
#[derive(Debug)]
pub struct OperationStore {
    ops: Vec<Operation>,
}

impl View for OperationStore {
    type V = Seq<OperationModel>;

    closed spec fn view(&self) -> Seq<OperationModel> {
        models(self.ops@)
    }
}

impl OperationStore {
    #[verifier::type_invariant]
    spec fn ordered_and_distinct(&self) -> bool {
        in_hlc_order(models(self.ops@)) && distinct_ops(models(self.ops@))
    }

    /// An empty log.
    pub fn new() -> (store: Self)
        ensures
            store@ == Seq::<OperationModel>::empty(),
    {
        let store = OperationStore { ops: Vec::new() };
        assert(store@ =~= Seq::<OperationModel>::empty());
        store
    }

    /// The number of operations stored.
    pub fn len(&self) -> (n: usize)
        ensures
            n == self@.len(),
    {
        self.ops.len()
    }

    /// The operation at position `index` of the log, in timestamp order.
    pub fn get(&self, index: usize) -> (op: Option<&Operation>)
        ensures
            match op {
                Some(found) => index < self@.len() && found@ == self@[index as int],
                None => index >= self@.len(),
            },
    {
        if index < self.ops.len() {
            Some(&self.ops[index])
        } else {
            None
        }
    }

    /// Whether an operation with the identifier `op_id` is stored.
    pub fn contains(&self, op_id: &String) -> (found: bool)
        ensures
            found == has_op(self@, op_id@),
    {
        let mut i: usize = 0;
        while i < self.ops.len()
            invariant
                i <= self.ops.len(),
                forall|k: int| 0 <= k < i ==> (#[trigger] models(self.ops@)[k]).op_id != op_id@,
            decreases self.ops.len() - i,
        {
            if self.ops[i].op_id == *op_id {
                assert(models(self.ops@)[i as int].op_id == op_id@);
                return true;
            }
            i += 1;
        }
        false
    }

    /// Stores `op` at its place in timestamp order and reports `true`. An
    /// operation whose identifier is already stored is a repeated delivery:
    /// the log stays as it is and the answer is `false`.
    pub fn append(&mut self, op: Operation) -> (stored: bool)
        ensures
            final(self)@ == append_step(old(self)@, op@),
            stored == !has_op(old(self)@, op@.op_id),
            in_hlc_order(final(self)@),
            distinct_ops(final(self)@),
    {
        proof {
            use_type_invariant(&*self);
            lemma_append_preserves_log(self@, op@);
        }
        if self.contains(&op.op_id) {
            return false;
        }
        let ghost before = self.ops@;
        let mut slot: usize = self.ops.len();
        assert(models(before).take(before.len() as int) =~= models(before));
        while slot > 0 && op.hlc < self.ops[slot - 1].hlc
            invariant
                slot <= self.ops.len(),
                self.ops@ == before,
                slot_for(models(before), op@.hlc) == slot_for(
                    models(before).take(slot as int),
                    op@.hlc,
                ),
            decreases slot,
        {
            proof {
                let prefix = models(before).take(slot as int);
                assert(prefix.last() == before[slot - 1]@);
                assert(prefix.drop_last() =~= models(before).take(slot - 1));
            }
            slot -= 1;
        }
        proof {
            let prefix = models(before).take(slot as int);
            if slot > 0 {
                assert(prefix.last() == before[slot - 1]@);
            }
            assert(slot_for(models(before), op@.hlc) == slot);
        }
        let mut ops: Vec<Operation> = Vec::new();
        std::mem::swap(&mut self.ops, &mut ops);
        ops.insert(slot, op);
        proof {
            assert(models(ops@) =~= models(before).insert(slot as int, op@));
        }
        std::mem::swap(&mut self.ops, &mut ops);
        true
    }

    /// Copies of the operations on the entity `entity_id`, in timestamp
    /// order.
    pub fn scan_entity(&self, entity_id: &String) -> (found: Vec<Operation>)
        ensures
            models(found@) == ops_of_entity(self@, entity_id@),
            in_hlc_order(models(found@)),
    {
        proof {
            use_type_invariant(self);
            lemma_scan_is_ordered_part(self@, entity_id@);
        }
        let mut found: Vec<Operation> = Vec::new();
        let mut i: usize = 0;
        assert(self@.take(0) =~= Seq::<OperationModel>::empty());
        assert(models(found@) =~= Seq::<OperationModel>::empty());
        while i < self.ops.len()
            invariant
                i <= self.ops.len(),
                models(found@) == ops_of_entity(self@.take(i as int), entity_id@),
            decreases self.ops.len() - i,
        {
            let ghost collected = found@;
            proof {
                let prefix = self@.take(i + 1);
                assert(prefix.last() == self@[i as int]);
                assert(prefix.drop_last() =~= self@.take(i as int));
            }
            if self.ops[i].entity_id == *entity_id {
                let copy = self.ops[i].duplicate();
                found.push(copy);
                assert(models(found@) =~= models(collected).push(copy@));
            }
            i += 1;
        }
        assert(self@.take(self@.len() as int) =~= self@);
        found
    }
}

} // verus!
