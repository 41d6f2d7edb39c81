//! Operations: the immutable records of change that devices exchange.

use crate::hlc::{Hlc, Stamp};
use vstd::prelude::*;

verus! {

/// What an operation does to its entity.
#[derive(Debug, Clone, Copy, PartialEq, Eq, Structural)]
pub enum OpType {
    /// Writes the visible fields of the entity.
    Upsert,
    /// Marks the entity as deleted; the row stays as a tombstone.
    Delete,
}

/// The change an operation carries, decoded from its serialized form.
#[derive(Debug)]
pub struct NotePayload {
    pub title: String,
    pub body: Option<Vec<u8>>,
}

/// One mutation, local or remote. Immutable once written.
#[derive(Debug)]
pub struct Operation {
    pub op_id: String,
    pub device_id: String,
    pub hlc: Hlc,
    pub entity_id: String,
    pub entity_type: String,
    pub op_type: OpType,
    pub payload: NotePayload,
    pub schema_v: u32,
}

/// The mathematical value of a body: its bytes, if it has any.
pub open spec fn body_view(body: Option<Vec<u8>>) -> Option<Seq<u8>> {
    match body {
        Some(bytes) => Some(bytes@),
        None => None,
    }
}

/// The mathematical value of a payload.
pub struct PayloadModel {
    pub title: Seq<char>,
    pub body: Option<Seq<u8>>,
}

/// The mathematical value of an operation.
pub struct OperationModel {
    pub op_id: Seq<char>,
    pub device_id: Seq<char>,
    pub hlc: Stamp,
    pub entity_id: Seq<char>,
    pub entity_type: Seq<char>,
    pub op_type: OpType,
    pub payload: PayloadModel,
    pub schema_v: u32,
}

impl View for NotePayload {
    type V = PayloadModel;

    open spec fn view(&self) -> PayloadModel {
        PayloadModel { title: self.title@, body: body_view(self.body) }
    }
}

impl View for Operation {
    type V = OperationModel;

    open spec fn view(&self) -> OperationModel {
        OperationModel {
            op_id: self.op_id@,
            device_id: self.device_id@,
            hlc: self.hlc@,
            entity_id: self.entity_id@,
            entity_type: self.entity_type@,
            op_type: self.op_type,
            payload: self.payload@,
            schema_v: self.schema_v,
        }
    }
}

/// A copy of a body.
pub fn copy_body(body: &Option<Vec<u8>>) -> (copy: Option<Vec<u8>>)
    ensures
        body_view(copy) == body_view(*body),
{
    match body {
        Some(bytes) => {
            let copy = bytes.clone();
            assert(copy@ =~= bytes@);
            Some(copy)
        },
        None => None,
    }
}

impl NotePayload {
    /// A copy of this payload.
    pub fn duplicate(&self) -> (copy: Self)
        ensures
            copy@ == self@,
    {
        NotePayload { title: self.title.clone(), body: copy_body(&self.body) }
    }
}

impl Operation {
    /// A copy of this operation.
    pub fn duplicate(&self) -> (copy: Self)
        ensures
            copy@ == self@,
    {
        Operation {
            op_id: self.op_id.clone(),
            device_id: self.device_id.clone(),
            hlc: self.hlc,
            entity_id: self.entity_id.clone(),
            entity_type: self.entity_type.clone(),
            op_type: self.op_type,
            payload: self.payload.duplicate(),
            schema_v: self.schema_v,
        }
    }
}

} // verus!
