//! The materialized view: the current state of every note, derived by
//! folding operations into rows under last-writer-wins by timestamp.

use crate::hlc::{Hlc, Stamp};
use crate::operation::{body_view, copy_body, OpType, Operation, OperationModel};
use crate::store::OperationStore;
use vstd::prelude::*;

verus! {

/// The current state of one note. `hlc` is the timestamp of the operation
/// that the visible fields (`title`, `body`, `deleted`) come from.
#[derive(Debug)]
pub struct NoteProjection {
    pub note_id: String,
    pub title: String,
    pub body: Option<Vec<u8>>,
    pub created_at: u64,
    pub updated_at: u64,
    pub deleted: bool,
    pub hlc: Hlc,
}

/// The mathematical value of a row of the view.
pub struct NoteRow {
    pub note_id: Seq<char>,
    pub title: Seq<char>,
    pub body: Option<Seq<u8>>,
    pub created_at: nat,
    pub updated_at: nat,
    pub deleted: bool,
    pub hlc: Stamp,
}

impl View for NoteProjection {
    type V = NoteRow;

    open spec fn view(&self) -> NoteRow {
        NoteRow {
            note_id: self.note_id@,
            title: self.title@,
            body: body_view(self.body),
            created_at: self.created_at as nat,
            updated_at: self.updated_at as nat,
            deleted: self.deleted,
            hlc: self.hlc@,
        }
    }
}

/// The mathematical value of an optional row.
pub open spec fn row_view(row: Option<NoteProjection>) -> Option<NoteRow> {
    match row {
        Some(r) => Some(r@),
        None => None,
    }
}

/// The smaller of two naturals.
pub open spec fn min_nat(a: nat, b: nat) -> nat {
    if a <= b {
        a
    } else {
        b
    }
}

/// The row that an operation alone gives: its entity, its content, and its
/// physical time as both creation and update time.
pub open spec fn row_of(op: OperationModel) -> NoteRow {
    NoteRow {
        note_id: op.entity_id,
        title: op.payload.title,
        body: op.payload.body,
        created_at: op.hlc.physical,
        updated_at: op.hlc.physical,
        deleted: op.op_type == OpType::Delete,
        hlc: op.hlc,
    }
}

/// The fold of one operation into the row of its entity.
///
/// Without a row the operation makes one. An operation newer than the row
/// replaces the visible fields and the update time. An operation that is not
/// newer leaves them alone. Either way the creation time is the earliest
/// physical time of any operation folded in.
pub open spec fn fold_row(row: Option<NoteRow>, op: OperationModel) -> NoteRow {
    match row {
        None => row_of(op),
        Some(current) => {
            let created_at = min_nat(current.created_at, op.hlc.physical);
            if current.hlc.before(op.hlc) {
                NoteRow { note_id: current.note_id, created_at, ..row_of(op) }
            } else {
                NoteRow { created_at, ..current }
            }
        },
    }
}

/// Folds `op` into the row of its entity: the one function that both
/// incremental application and a full rebuild go through.
///
/// An operation older than the row's timestamp leaves title, body and the
/// tombstone flag as they are.
pub fn apply(row: Option<NoteProjection>, op: &Operation) -> (next: NoteProjection)
    ensures
        next@ == fold_row(row_view(row), op@),
        row matches Some(current) ==> (op@.hlc.before(current@.hlc) ==> {
            &&& next@.title == current@.title
            &&& next@.body == current@.body
            &&& next@.deleted == current@.deleted
        }),
{
    match row {
        None => NoteProjection {
            note_id: op.entity_id.clone(),
            title: op.payload.title.clone(),
            body: copy_body(&op.payload.body),
            created_at: op.hlc.physical_time,
            updated_at: op.hlc.physical_time,
            deleted: op.op_type == OpType::Delete,
            hlc: op.hlc,
        },
        Some(current) => {
            let created_at = if current.created_at <= op.hlc.physical_time {
                current.created_at
            } else {
                op.hlc.physical_time
            };
            if current.hlc < op.hlc {
                NoteProjection {
                    note_id: current.note_id,
                    title: op.payload.title.clone(),
                    body: copy_body(&op.payload.body),
                    created_at,
                    updated_at: op.hlc.physical_time,
                    deleted: op.op_type == OpType::Delete,
                    hlc: op.hlc,
                }
            } else {
                NoteProjection {
                    note_id: current.note_id,
                    title: current.title,
                    body: current.body,
                    created_at,
                    updated_at: current.updated_at,
                    deleted: current.deleted,
                    hlc: current.hlc,
                }
            }
        },
    }
}

/// The fold of one operation into a view: the row of its entity is folded,
/// every other row stays.
pub open spec fn fold_view(view: Map<Seq<char>, NoteRow>, op: OperationModel) -> Map<
    Seq<char>,
    NoteRow,
> {
    let current = if view.contains_key(op.entity_id) {
        Some(view[op.entity_id])
    } else {
        None
    };
    view.insert(op.entity_id, fold_row(current, op))
}

/// The fold of a sequence of operations into a view, first to last.
pub open spec fn replay(view: Map<Seq<char>, NoteRow>, ops: Seq<OperationModel>) -> Map<
    Seq<char>,
    NoteRow,
>
    decreases ops.len(),
{
    if ops.len() == 0 {
        view
    } else {
        fold_view(replay(view, ops.drop_last()), ops.last())
    }
}

/// An operation older than the row of its entity leaves the title, the body
/// and the tombstone flag of that row as they are, and no operation touches
/// the row of another entity.
pub proof fn lemma_older_operation_keeps_visible_fields(
    view: Map<Seq<char>, NoteRow>,
    op: OperationModel,
)
    ensures
        view.contains_key(op.entity_id) && op.hlc.before(view[op.entity_id].hlc) ==> {
            &&& fold_view(view, op)[op.entity_id].title == view[op.entity_id].title
            &&& fold_view(view, op)[op.entity_id].body == view[op.entity_id].body
            &&& fold_view(view, op)[op.entity_id].deleted == view[op.entity_id].deleted
            &&& fold_view(view, op)[op.entity_id].hlc == view[op.entity_id].hlc
        },
        forall|other: Seq<char>|
            other != op.entity_id ==> (fold_view(view, op).contains_key(other)
                <==> view.contains_key(other)),
        forall|other: Seq<char>|
            other != op.entity_id && view.contains_key(other) ==> fold_view(view, op)[other]
                == view[other],
{
}

/// Whether some row of `rows` belongs to the note `id`.
pub open spec fn has_note(rows: Seq<NoteProjection>, id: Seq<char>) -> bool {
    exists|i: int| 0 <= i < rows.len() && (#[trigger] rows[i]).note_id@ == id
}

/// The position of a row of the note `id`.
pub open spec fn position_of(rows: Seq<NoteProjection>, id: Seq<char>) -> int {
    choose|i: int| 0 <= i < rows.len() && (#[trigger] rows[i]).note_id@ == id
}

/// Whether no two rows belong to the same note.
pub open spec fn distinct_notes(rows: Seq<NoteProjection>) -> bool {
    forall|i: int, j: int|
        0 <= i < j < rows.len() ==> (#[trigger] rows[i]).note_id@ != (#[trigger] rows[j]).note_id@
}

/// The rows as a map from note id to row.
pub open spec fn rows_by_note(rows: Seq<NoteProjection>) -> Map<Seq<char>, NoteRow> {
    Map::new(|id: Seq<char>| has_note(rows, id), |id: Seq<char>| rows[position_of(rows, id)]@)
}

/// With distinct notes, a row is found at its own position.
proof fn lemma_position_of_row(rows: Seq<NoteProjection>, i: int)
    requires
        distinct_notes(rows),
        0 <= i < rows.len(),
    ensures
        has_note(rows, rows[i].note_id@),
        position_of(rows, rows[i].note_id@) == i,
        rows_by_note(rows).contains_key(rows[i].note_id@),
        rows_by_note(rows)[rows[i].note_id@] == rows[i]@,
{
    let id = rows[i].note_id@;
    let found = position_of(rows, id);
    assert(0 <= found < rows.len() && rows[found].note_id@ == id);
    if found < i {
        assert(rows[found].note_id@ != rows[i].note_id@);
    } else if i < found {
        assert(rows[i].note_id@ != rows[found].note_id@);
    }
}

/// The current state of every note, one row per note.
#[derive(Debug)]
pub struct MaterializedView {
    rows: Vec<NoteProjection>,
}

impl View for MaterializedView {
    type V = Map<Seq<char>, NoteRow>;

    closed spec fn view(&self) -> Map<Seq<char>, NoteRow> {
        rows_by_note(self.rows@)
    }
}

impl MaterializedView {
    #[verifier::type_invariant]
    spec fn one_row_per_note(&self) -> bool {
        distinct_notes(self.rows@)
    }

    /// A view without rows.
    pub fn new() -> (view: Self)
        ensures
            view@ == Map::<Seq<char>, NoteRow>::empty(),
    {
        let view = MaterializedView { rows: Vec::new() };
        assert(view@ =~= Map::<Seq<char>, NoteRow>::empty());
        view
    }

    /// The position of the row of `note_id`, if the view has one.
    fn find(&self, note_id: &String) -> (found: Option<usize>)
        ensures
            match found {
                Some(i) => i < self.rows.len() && self.rows[i as int].note_id@ == note_id@,
                None => !has_note(self.rows@, note_id@),
            },
    {
        let mut i: usize = 0;
        while i < self.rows.len()
            invariant
                i <= self.rows.len(),
                forall|k: int| 0 <= k < i ==> (#[trigger] self.rows[k]).note_id@ != note_id@,
            decreases self.rows.len() - i,
        {
            if self.rows[i].note_id == *note_id {
                return Some(i);
            }
            i += 1;
        }
        None
    }

    /// The row of `note_id`, if the view has one.
    pub fn get(&self, note_id: &String) -> (row: Option<&NoteProjection>)
        ensures
            match row {
                Some(r) => self@.contains_key(note_id@) && r@ == self@[note_id@] && r@.note_id
                    == note_id@,
                None => !self@.contains_key(note_id@),
            },
    {
        proof {
            use_type_invariant(self);
        }
        match self.find(note_id) {
            Some(i) => {
                proof {
                    lemma_position_of_row(self.rows@, i as int);
                }
                Some(&self.rows[i])
            },
            None => None,
        }
    }

    /// Folds `op` into the row of its entity, making the row if the entity
    /// has none yet. No other row changes.
    pub fn apply(&mut self, op: &Operation)
        ensures
            final(self)@ == fold_view(old(self)@, op@),
    {
        proof {
            use_type_invariant(&*self);
        }
        let ghost before = self.rows@;
        let found = self.find(&op.entity_id);
        let mut rows: Vec<NoteProjection> = Vec::new();
        std::mem::swap(&mut self.rows, &mut rows);
        match found {
            Some(i) => {
                proof {
                    lemma_position_of_row(before, i as int);
                }
                let current = rows.remove(i);
                let next = apply(Some(current), op);
                rows.insert(i, next);
                proof {
                    assert(rows@ =~= before.update(i as int, next));
                    lemma_update_row(before, i as int, next);
                }
            },
            None => {
                let next = apply(None, op);
                rows.push(next);
                proof {
                    lemma_push_row(before, next);
                }
            },
        }
        std::mem::swap(&mut self.rows, &mut rows);
    }

    /// Rebuilds the view from nothing by replaying the whole log, which the
    /// store keeps in timestamp order.
    pub fn rebuild(store: &OperationStore) -> (view: Self)
        ensures
            view@ == replay(Map::empty(), store@),
    {
        let mut view = MaterializedView::new();
        let mut i: usize = 0;
        assert(store@.take(0) =~= Seq::<OperationModel>::empty());
        while i < store.len()
            invariant
                i <= store@.len(),
                view@ == replay(Map::empty(), store@.take(i as int)),
            decreases store@.len() - i,
        {
            proof {
                let prefix = store@.take(i + 1);
                assert(prefix.last() == store@[i as int]);
                assert(prefix.drop_last() =~= store@.take(i as int));
            }
            match store.get(i) {
                Some(op) => {
                    view.apply(op);
                },
                None => {},
            }
            i += 1;
        }
        assert(store@.take(store@.len() as int) =~= store@);
        view
    }
}

/// Replacing a row by one of the same note replaces its entry in the map.
proof fn lemma_update_row(rows: Seq<NoteProjection>, i: int, next: NoteProjection)
    requires
        distinct_notes(rows),
        0 <= i < rows.len(),
        next.note_id@ == rows[i].note_id@,
    ensures
        distinct_notes(rows.update(i, next)),
        rows_by_note(rows.update(i, next)) == rows_by_note(rows).insert(next.note_id@, next@),
{
    let after = rows.update(i, next);
    assert(distinct_notes(after)) by {
        assert forall|a: int, b: int| 0 <= a < b < after.len() implies (#[trigger] after[a]).note_id@
            != (#[trigger] after[b]).note_id@ by {
            assert(rows[a].note_id@ != rows[b].note_id@);
        }
    }
    let left = rows_by_note(after);
    let right = rows_by_note(rows).insert(next.note_id@, next@);
    assert forall|id: Seq<char>| left.contains_key(id) <==> right.contains_key(id) by {
        if has_note(after, id) {
            let k = position_of(after, id);
            assert(rows[k].note_id@ == id);
        }
        if has_note(rows, id) {
            let k = position_of(rows, id);
            assert(after[k].note_id@ == id);
        }
        assert(after[i].note_id@ == next.note_id@);
    }
    assert forall|id: Seq<char>| left.contains_key(id) implies left[id] == right[id] by {
        let k = position_of(after, id);
        lemma_position_of_row(after, k);
        if k != i {
            assert(rows[k].note_id@ == id);
            lemma_position_of_row(rows, k);
            assert(rows[k].note_id@ != rows[i].note_id@);
        }
    }
    assert(left =~= right);
}

/// Adding a row of a note that has none adds its entry to the map.
proof fn lemma_push_row(rows: Seq<NoteProjection>, next: NoteProjection)
    requires
        distinct_notes(rows),
        !has_note(rows, next.note_id@),
    ensures
        distinct_notes(rows.push(next)),
        rows_by_note(rows.push(next)) == rows_by_note(rows).insert(next.note_id@, next@),
{
    let after = rows.push(next);
    assert(distinct_notes(after)) by {
        assert forall|a: int, b: int| 0 <= a < b < after.len() implies (#[trigger] after[a]).note_id@
            != (#[trigger] after[b]).note_id@ by {
            if b < rows.len() {
                assert(rows[a].note_id@ != rows[b].note_id@);
            } else {
                assert(rows[a].note_id@ != next.note_id@);
            }
        }
    }
    let left = rows_by_note(after);
    let right = rows_by_note(rows).insert(next.note_id@, next@);
    assert forall|id: Seq<char>| left.contains_key(id) <==> right.contains_key(id) by {
        if has_note(after, id) {
            let k = position_of(after, id);
            if k < rows.len() {
                assert(rows[k].note_id@ == id);
            }
        }
        if has_note(rows, id) {
            let k = position_of(rows, id);
            assert(after[k].note_id@ == id);
        }
        assert(after[rows.len() as int].note_id@ == next.note_id@);
    }
    assert forall|id: Seq<char>| left.contains_key(id) implies left[id] == right[id] by {
        let k = position_of(after, id);
        lemma_position_of_row(after, k);
        if k < rows.len() {
            assert(rows[k].note_id@ == id);
            lemma_position_of_row(rows, k);
        }
    }
    assert(left =~= right);
}

} // verus!
