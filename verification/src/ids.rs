//! Identifiers, tokens and errors shared by the storage components.

use vstd::prelude::*;

verus! {

/// Identifies a page inside one container, dense from 0.
pub type PageId = u16;

/// Identifies a slot inside one page, dense from 0, never renumbered.
pub type SlotId = u16;

/// Identifies a logical container (for example a table).
pub type ContainerId = u16;

/// Composite key that identifies one stored value until its page or slot
/// is reassigned by a delete-and-reuse or a relocating update.
#[derive(Clone, Copy, Debug, PartialEq, Eq)]
pub struct ValueId {
    pub container_id: ContainerId,
    pub page_id: Option<PageId>,
    pub slot_id: Option<SlotId>,
}

impl ValueId {
    /// A value id that names a container only.
    pub fn new(container_id: ContainerId) -> (r: ValueId)
        ensures
            r.container_id == container_id,
            r.page_id is None,
            r.slot_id is None,
    {
        ValueId { container_id, page_id: None, slot_id: None }
    }
}

/// Opaque transaction token. It is threaded through every call and treated
/// as data here; transaction logic lives in a collaborating subsystem.
#[derive(Clone, Copy, Debug)]
pub struct TransactionId {
    pub id: u64,
}

impl TransactionId {
    pub fn new() -> (r: TransactionId)
        ensures
            r.id == 0,
    {
        TransactionId { id: 0 }
    }
}

/// Permission token passed through to reads; enforced by a collaborator,
/// not by this layer.
#[derive(Clone, Copy, Debug)]
pub enum Permissions {
    ReadOnly,
    ReadWrite,
}

/// Kind of state a container holds; accepted but not interpreted here.
#[derive(Clone, Copy, Debug)]
pub enum StateType {
    BaseTable,
    MatView,
}

/// Per-container configuration; accepted but not interpreted by this layer.
#[derive(Clone, Copy, Debug)]
pub struct ContainerConfig {
    pub temporary: bool,
}

impl ContainerConfig {
    pub fn simple_container() -> (r: ContainerConfig)
        ensures
            r.temporary == false,
    {
        ContainerConfig { temporary: false }
    }
}

/// Errors of the storage layer. A failed operation leaves prior state
/// unmodified.
#[derive(Debug, PartialEq, Eq)]
pub enum StorageError {
    /// An operation referenced an unmapped container id.
    ContainerNotFound,
    /// `create_container` was called with an id that is already mapped.
    ContainerAlreadyExists,
    /// The payload can never fit in one page; rejected before any state change.
    ValueTooLarge,
    /// A page or slot id does not resolve to a live value.
    InvalidValueId,
    /// A byte buffer is inconsistent with its declared header counts.
    CorruptPage,
    /// A filesystem failure reported by the surrounding runtime.
    IOError,
}

} // verus!
