//! Error kinds surfaced by the runtime.

use vstd::prelude::*;

verus! {

/// Malformed call frames. Reported back to the guest, never fatal.
#[derive(Clone, Copy, Debug, PartialEq, Eq, Structural)]
pub enum ProtocolError {
    /// The frame ends before the length-prefixed name does.
    TruncatedName,
    /// The name bytes are not valid UTF-8.
    DecoderFailure,
    /// No handler is registered under the decoded name.
    UnknownRpc,
}

/// Failures of the guest sandbox. Fatal to the plugin instance.
#[derive(Clone, Copy, Debug, PartialEq, Eq, Structural)]
pub enum SandboxError {
    /// The buffer header, or the allocation it describes, does not lie in guest memory.
    InvalidHeader,
    /// The guest did not provide the capacity that was asked of it.
    ReserveFailed,
    /// The guest trapped while it ran.
    Trap,
    /// The requested length does not fit the 32-bit length field.
    LengthOverflow,
}

/// Inconsistent configuration. Fatal at load time.
#[derive(Clone, Copy, Debug, PartialEq, Eq, Structural)]
pub enum RegistryError {
    /// A handler is already registered under the name.
    DuplicateRpc,
    /// The id is bound to a different descriptor, or cannot be bound to this one.
    InconsistentLayout,
}

/// Ill-formed queries. Reported back to the guest.
#[derive(Clone, Copy, Debug, PartialEq, Eq, Structural)]
pub enum QueryError {
    /// A layout is demanded by `With` and forbidden by `Without`.
    Contradiction,
}

/// Lookups that found nothing. Reported back to the guest.
#[derive(Clone, Copy, Debug, PartialEq, Eq, Structural)]
pub enum NotFoundError {
    /// The entity id is stale or was never handed out.
    StaleEntity,
    /// The entity has no component of the layout.
    MissingComponent,
}

/// Rejected spawn requests.
#[derive(Clone, Copy, Debug, PartialEq, Eq, Structural)]
pub enum SpawnError {
    /// Two components of the entity share a layout id.
    DuplicateComponent,
    /// Every entity index has been used up.
    Exhausted,
}

} // verus!
