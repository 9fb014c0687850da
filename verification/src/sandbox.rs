//! The sandbox engine as the host sees it: the linear memory of a guest and
//! the growth trampoline that the guest exports. The operations here work
//! on the live memory of a guest: they take a snapshot, work on the
//! snapshot, write it back, and call into the guest where it has to grow
//! the buffer.

use crate::buffer::{appended, cleared, contents, flattened, valid, Buffer, Growth, GuestMemory, RawBuffer};
use crate::error::{ProtocolError, SandboxError};
use crate::host::{Handler, PluginEnv};
use crate::rpc::{call_frame, name_frame};
use vstd::prelude::*;

verus! {

/// `wasmer::Memory`, the handle on the linear memory of a guest. Nothing of
/// what it holds is known here.
#[verifier::external_type_specification]
#[verifier::external_body]
pub struct ExMemory(wasmer::Memory);

/// `wasmer::NativeFunc`, a function that a guest exports.
#[verifier::external_type_specification]
#[verifier::external_body]
#[verifier::reject_recursive_types(Args)]
#[verifier::reject_recursive_types(Rets)]
pub struct ExNativeFunc<Args, Rets>(wasmer::NativeFunc<Args, Rets>);

/// `wasmer::RuntimeError`, the trap of a guest that stopped running.
#[verifier::external_type_specification]
#[verifier::external_body]
pub struct ExRuntimeError(wasmer::RuntimeError);

/// Calls `wasmer::Memory::view` and reads the byte at `at` through the view,
/// if the view reaches that far. What the memory holds is up to the guest,
/// so nothing is claimed of the byte.
#[verifier::external_body]
fn peek(memory: &wasmer::Memory, at: usize) -> (byte: Option<u8>) {
    memory.view::<u8>().get(at).map(std::cell::Cell::get)
}

/// Calls `wasmer::Memory::view` and writes `byte` at `at` through the view,
/// if the view reaches that far; tells whether it did.
#[verifier::external_body]
fn poke(memory: &wasmer::Memory, at: usize, byte: u8) -> (written: bool) {
    match memory.view::<u8>().get(at) {
        Some(cell) => {
            cell.set(byte);
            true
        },
        None => false,
    }
}

/// Copies the bytes of the memory out, as far as they can be read.
fn capture(memory: &wasmer::Memory) -> (snapshot: GuestMemory) {
    let mut bytes: Vec<u8> = Vec::new();
    let mut at: usize = 0;
    while at < usize::MAX
        invariant
            at <= usize::MAX,
        decreases usize::MAX - at,
    {
        match peek(memory, at) {
            Some(byte) => {
                bytes.push(byte);
            },
            None => {
                return GuestMemory::new(bytes);
            },
        }
        at += 1;
    }
    GuestMemory::new(bytes)
}

/// Writes the bytes of the snapshot into the memory, as far as the memory
/// reaches.
fn flush(memory: &wasmer::Memory, snapshot: &GuestMemory) {
    let mut at: usize = 0;
    while at < snapshot.bytes.len()
        invariant
            at <= snapshot.bytes.len(),
        decreases snapshot.bytes.len() - at,
    {
        if !poke(memory, at, snapshot.bytes[at]) {
            return;
        }
        at += 1;
    }
}

/// Calls `wasmer::NativeFunc::call` on the growth trampoline. The guest runs
/// and may change its memory in any way; a trap comes back as an error.
#[verifier::external_body]
fn grow(reserve: &wasmer::NativeFunc<(u32, u32), ()>, raw: u32, additional: u32) -> (r: Result<
    (),
    wasmer::RuntimeError,
>) {
    reserve.call(raw, additional)
}

/// `bytes` ends with `tail`.
pub open spec fn ends_with(bytes: Seq<u8>, tail: Seq<u8>) -> bool {
    bytes.len() >= tail.len() && bytes.subrange(bytes.len() - tail.len(), bytes.len() as int) == tail
}

/// What is appended is what the bytes end with.
proof fn ends_with_appended(bytes: Seq<u8>, tail: Seq<u8>)
    ensures
        ends_with(bytes + tail, tail),
{
    assert((bytes + tail).subrange(bytes.len() as int, (bytes + tail).len() as int) =~= tail);
}

/// The host's view of the shared buffer of a guest for the span of one
/// call: the memory of the guest, its growth trampoline, and the address of
/// the buffer header.
pub struct BufferView<'a> {
    memory: &'a wasmer::Memory,
    reserve: &'a wasmer::NativeFunc<(u32, u32), ()>,
    raw: u32,
}

impl<'a> BufferView<'a> {
    /// The address of the buffer header.
    pub closed spec fn raw(&self) -> u32 {
        self.raw
    }

    /// A view of the buffer whose header lies at `raw` in `memory`.
    pub fn new(
        memory: &'a wasmer::Memory,
        reserve: &'a wasmer::NativeFunc<(u32, u32), ()>,
        raw: u32,
    ) -> (r: Self)
        ensures
            r.raw() == raw,
    {
        BufferView { memory, reserve, raw }
    }

    /// The memory of the guest as it is now.
    pub fn snapshot(&self) -> (snapshot: GuestMemory) {
        capture(self.memory)
    }

    /// The valid bytes of the buffer as they are now. Fails when the header
    /// does not describe a buffer.
    pub fn read(&self) -> (r: Result<Vec<u8>, SandboxError>)
        ensures
            exists|seen: Seq<u8>| bytes_read(r) == #[trigger] contents_seen(seen, self.raw()),
            r matches Ok(bytes) ==> bytes@.len() <= u32::MAX,
            r matches Err(e) ==> e == SandboxError::InvalidHeader,
    {
        let snapshot = capture(self.memory);
        let r = match Buffer::new(self.raw).as_slice(&snapshot) {
            Ok(bytes) => Ok(vstd::slice::slice_to_vec(bytes)),
            Err(e) => Err(e),
        };
        assert(bytes_read(r) == contents_seen(snapshot@, self.raw()));
        r
    }

    /// Empties the buffer and hands back the memory as it was left.
    pub fn clear(&self) -> (r: Result<GuestMemory, SandboxError>)
        ensures
            r matches Ok(after) ==> valid(after@, self.raw()) && contents(after@, self.raw())
                == Seq::<u8>::empty(),
            r matches Err(e) ==> e == SandboxError::InvalidHeader,
    {
        let mut snapshot = capture(self.memory);
        let ghost before = snapshot@;
        Buffer::new(self.raw).clear(&mut snapshot)?;
        proof {
            crate::buffer::clear_is_idempotent(before, self.raw);
        }
        flush(self.memory, &snapshot);
        Ok(snapshot)
    }

    /// Appends `other` to the buffer, calling on the guest to grow the
    /// allocation if it lacks room, and hands back the memory as it was
    /// left. The header is read anew after the guest ran. Fails when the
    /// header does not describe a buffer, when the guest traps, or when it
    /// returns without having made room.
    pub fn extend_from_slice(&self, other: &[u8]) -> (r: Result<GuestMemory, SandboxError>)
        ensures
            exists|seen: Seq<u8>, answer: Option<Seq<u8>>|
                left(r) == #[trigger] extended(seen, answer, self.raw(), other@),
            r matches Ok(after) ==> valid(after@, self.raw()) && ends_with(
                contents(after@, self.raw()),
                other@,
            ),
    {
        let mut snapshot = capture(self.memory);
        let ghost seen = snapshot@;
        let buffer = Buffer::new(self.raw);
        match buffer.extend_from_slice(&mut snapshot, other) {
            Err(e) => {
                let r: Result<GuestMemory, SandboxError> = Err(e);
                assert(left(r) == extended(seen, None, self.raw(), other@));
                r
            },
            Ok(Growth::Unneeded) => {
                proof {
                    ends_with_appended(contents(seen, self.raw), other@);
                }
                flush(self.memory, &snapshot);
                let r: Result<GuestMemory, SandboxError> = Ok(snapshot);
                assert(left(r) == extended(seen, None, self.raw(), other@));
                r
            },
            Ok(Growth::Needed { additional }) => {
                let r = self.extend_grown(additional, other);
                proof {
                    let answer = choose|answer: Option<Seq<u8>>|
                        left(r) == #[trigger] appended_after(answer, self.raw(), other@);
                    assert(left(r) == extended(seen, answer, self.raw(), other@));
                }
                r
            },
        }
    }

    /// Has the guest reserve `additional` bytes, reads the header anew, and
    /// appends `other` if the buffer now has room for it.
    fn extend_grown(&self, additional: u32, other: &[u8]) -> (r: Result<GuestMemory, SandboxError>)
        ensures
            exists|answer: Option<Seq<u8>>|
                left(r) == #[trigger] appended_after(answer, self.raw(), other@),
            r matches Ok(after) ==> valid(after@, self.raw()) && ends_with(
                contents(after@, self.raw()),
                other@,
            ),
    {
        match grow(self.reserve, self.raw, additional) {
            Ok(()) => {},
            Err(_) => {
                let r: Result<GuestMemory, SandboxError> = Err(SandboxError::Trap);
                assert(left(r) == appended_after(None, self.raw(), other@));
                return r;
            },
        }
        let mut moved = capture(self.memory);
        let ghost grown = moved@;
        match Buffer::new(self.raw).extend_reserved(&mut moved, other) {
            Ok(()) => {
                proof {
                    ends_with_appended(contents(grown, self.raw), other@);
                }
                flush(self.memory, &moved);
                let r: Result<GuestMemory, SandboxError> = Ok(moved);
                assert(left(r) == appended_after(Some(grown), self.raw(), other@));
                r
            },
            Err(e) => {
                let r: Result<GuestMemory, SandboxError> = Err(e);
                assert(left(r) == appended_after(Some(grown), self.raw(), other@));
                r
            },
        }
    }

    /// Appends one byte to the buffer, calling on the guest to grow the
    /// allocation if it lacks room.
    pub fn push(&self, byte: u8) -> (r: Result<GuestMemory, SandboxError>)
        ensures
            exists|seen: Seq<u8>, answer: Option<Seq<u8>>|
                left(r) == #[trigger] extended(seen, answer, self.raw(), seq![byte]),
            r matches Ok(after) ==> valid(after@, self.raw()) && ends_with(
                contents(after@, self.raw()),
                seq![byte],
            ),
    {
        let mut one: Vec<u8> = Vec::new();
        one.push(byte);
        assert(one@ =~= seq![byte]);
        self.extend_from_slice(one.as_slice())
    }

    /// Appends several byte strings in one go, calling on the guest once to
    /// make room for all of them if the allocation lacks it.
    pub fn write_vectored(&self, parts: &Vec<Vec<u8>>) -> (r: Result<GuestMemory, SandboxError>)
        ensures
            exists|seen: Seq<u8>, answer: Option<Seq<u8>>|
                left(r) == #[trigger] extended(seen, answer, self.raw(), flattened(parts@)),
            r matches Ok(after) ==> valid(after@, self.raw()) && ends_with(
                contents(after@, self.raw()),
                flattened(parts@),
            ),
    {
        let mut snapshot = capture(self.memory);
        let ghost seen = snapshot@;
        let ghost all = flattened(parts@);
        let buffer = Buffer::new(self.raw);
        match buffer.write_vectored(&mut snapshot, parts) {
            Err(e) => {
                let r: Result<GuestMemory, SandboxError> = Err(e);
                assert(left(r) == extended(seen, None, self.raw(), all));
                r
            },
            Ok(Growth::Unneeded) => {
                proof {
                    ends_with_appended(contents(seen, self.raw), all);
                }
                flush(self.memory, &snapshot);
                let r: Result<GuestMemory, SandboxError> = Ok(snapshot);
                assert(left(r) == extended(seen, None, self.raw(), all));
                r
            },
            Ok(Growth::Needed { additional }) => {
                match grow(self.reserve, self.raw, additional) {
                    Ok(()) => {},
                    Err(_) => {
                        let r: Result<GuestMemory, SandboxError> = Err(SandboxError::Trap);
                        assert(left(r) == extended(seen, None, self.raw(), all));
                        return r;
                    },
                }
                let mut moved = capture(self.memory);
                let ghost grown = moved@;
                let r: Result<GuestMemory, SandboxError> = match buffer.write_vectored(
                    &mut moved,
                    parts,
                ) {
                    Ok(Growth::Unneeded) => {
                        proof {
                            ends_with_appended(contents(grown, self.raw), all);
                        }
                        flush(self.memory, &moved);
                        Ok(moved)
                    },
                    Ok(Growth::Needed { .. }) => Err(SandboxError::ReserveFailed),
                    Err(e) => Err(e),
                };
                assert(left(r) == extended(seen, Some(grown), self.raw(), all));
                r
            },
        }
    }

    /// Replaces the contents of the buffer by `reply`, calling on the guest
    /// to grow the allocation if it lacks room, and hands back the memory as
    /// it was left.
    pub fn respond(&self, reply: &[u8]) -> (r: Result<GuestMemory, SandboxError>)
        ensures
            exists|seen: Seq<u8>, answer: Option<Seq<u8>>|
                left(r) == #[trigger] responded(seen, answer, self.raw(), reply@),
            r matches Ok(after) ==> valid(after@, self.raw()) && contents(after@, self.raw())
                == reply@,
            r matches Err(SandboxError::LengthOverflow) ==> reply.len() > u32::MAX,
    {
        let mut snapshot = capture(self.memory);
        let ghost seen = snapshot@;
        let buffer = Buffer::new(self.raw);
        match buffer.respond(&mut snapshot, reply) {
            Err(e) => {
                let r: Result<GuestMemory, SandboxError> = Err(e);
                assert(left(r) == responded(seen, None, self.raw(), reply@));
                r
            },
            Ok(Growth::Unneeded) => {
                flush(self.memory, &snapshot);
                let r: Result<GuestMemory, SandboxError> = Ok(snapshot);
                assert(left(r) == responded(seen, None, self.raw(), reply@));
                r
            },
            Ok(Growth::Needed { additional }) => {
                flush(self.memory, &snapshot);
                match grow(self.reserve, self.raw, additional) {
                    Ok(()) => {},
                    Err(_) => {
                        let r: Result<GuestMemory, SandboxError> = Err(SandboxError::Trap);
                        assert(left(r) == responded(seen, None, self.raw(), reply@));
                        return r;
                    },
                }
                let mut moved = capture(self.memory);
                let ghost grown = moved@;
                match buffer.clear(&mut moved) {
                    Ok(()) => {},
                    Err(e) => {
                        let r: Result<GuestMemory, SandboxError> = Err(e);
                        assert(left(r) == responded(seen, Some(grown), self.raw(), reply@));
                        return r;
                    },
                }
                let ghost empty = moved@;
                proof {
                    crate::buffer::clear_is_idempotent(grown, self.raw);
                    assert(contents(empty, self.raw) + reply@ =~= reply@);
                }
                let r: Result<GuestMemory, SandboxError> = match buffer.extend_reserved(
                    &mut moved,
                    reply,
                ) {
                    Ok(()) => {
                        flush(self.memory, &moved);
                        Ok(moved)
                    },
                    Err(e) => Err(e),
                };
                assert(left(r) == responded(seen, Some(grown), self.raw(), reply@));
                r
            },
        }
    }

    /// The host's end of a call from the guest: reads the call frame out of
    /// the buffer as it is now and finds the handler that the frame names.
    pub fn host_call(&self, env: &PluginEnv) -> (r: Result<
        Result<(Handler, Vec<u8>), ProtocolError>,
        SandboxError,
    >)
        requires
            env.wf(),
        ensures
            r matches Err(e) ==> e == SandboxError::InvalidHeader,
            r matches Ok(Ok((handler, args))) ==> env.rpcs.handlers().contains(handler),
    {
        let snapshot = capture(self.memory);
        let found = env.host_call(&snapshot, self.raw);
        proof {
            if found is Ok && found->Ok_0 is Ok {
                let names = env.rpcs.names();
                let frame = contents(snapshot@, self.raw);
                let k = names.index_of(vstd::utf8::decode_utf8(crate::rpc::payload(frame)));
                assert(env.rpcs.handlers()[k] == found->Ok_0->Ok_0.0);
            }
        }
        found
    }

    /// Starts a call from the host into the guest: leaves the call frame in
    /// the buffer, calling on the guest to grow the allocation if it lacks
    /// room, and hands back the memory as it was left.
    pub fn call(&self, name: &str, args: &[u8]) -> (r: Result<GuestMemory, SandboxError>)
        ensures
            exists|seen: Seq<u8>, answer: Option<Seq<u8>>|
                left(r) == #[trigger] responded(seen, answer, self.raw(), name_frame(name@) + args@),
            r matches Ok(after) ==> valid(after@, self.raw()) && contents(after@, self.raw())
                == name_frame(name@) + args@,
            r matches Err(SandboxError::LengthOverflow) ==> (name_frame(name@) + args@).len()
                > u32::MAX,
    {
        let frame = call_frame(name, args);
        self.respond(frame.as_slice())
    }
}

/// The outcome of an operation on a live buffer, with the memory it left
/// taken as its bytes.
pub open spec fn left(r: Result<GuestMemory, SandboxError>) -> Result<Seq<u8>, SandboxError> {
    match r {
        Ok(after) => Ok(after@),
        Err(e) => Err(e),
    }
}

/// The outcome of reading a live buffer, with the bytes read taken as a
/// sequence.
pub open spec fn bytes_read(r: Result<Vec<u8>, SandboxError>) -> Result<Seq<u8>, SandboxError> {
    match r {
        Ok(bytes) => Ok(bytes@),
        Err(e) => Err(e),
    }
}

/// What reading the buffer at `raw` yields when the memory of the guest is
/// `seen`: the contents of the buffer, if the header describes one.
pub open spec fn contents_seen(seen: Seq<u8>, raw: u32) -> Result<Seq<u8>, SandboxError> {
    if valid(seen, raw) {
        Ok(contents(seen, raw))
    } else {
        Err(SandboxError::InvalidHeader)
    }
}

/// What appending `other` yields after the guest was asked to make room and
/// left its memory as `grown`: the header is read anew; the bytes are
/// appended if the buffer now has room for them.
pub open spec fn appended_to_grown(grown: Seq<u8>, raw: u32, other: Seq<u8>) -> Result<
    Seq<u8>,
    SandboxError,
> {
    let header = RawBuffer::at(grown, raw as int);
    if !valid(grown, raw) {
        Err(SandboxError::InvalidHeader)
    } else if header.len + other.len() > u32::MAX {
        Err(SandboxError::LengthOverflow)
    } else if header.len + other.len() > header.cap {
        Err(SandboxError::ReserveFailed)
    } else {
        Ok(appended(grown, raw, other))
    }
}

/// What appending `other` yields once the guest has been asked to make
/// room: the guest trapped (no `answer`), or it returned and left its
/// memory as the `answer` holds it.
pub open spec fn appended_after(answer: Option<Seq<u8>>, raw: u32, other: Seq<u8>) -> Result<
    Seq<u8>,
    SandboxError,
> {
    match answer {
        None => Err(SandboxError::Trap),
        Some(grown) => appended_to_grown(grown, raw, other),
    }
}

/// What appending `other` to the buffer at `raw` yields when the memory of
/// the guest is `seen`: the bytes are appended where they fit; where they
/// do not, the guest is asked to make room, and `answer` is what it does.
pub open spec fn extended(seen: Seq<u8>, answer: Option<Seq<u8>>, raw: u32, other: Seq<u8>) -> Result<
    Seq<u8>,
    SandboxError,
> {
    let header = RawBuffer::at(seen, raw as int);
    if !valid(seen, raw) {
        Err(SandboxError::InvalidHeader)
    } else if header.len + other.len() > u32::MAX {
        Err(SandboxError::LengthOverflow)
    } else if header.len + other.len() <= header.cap {
        Ok(appended(seen, raw, other))
    } else {
        appended_after(answer, raw, other)
    }
}

/// What replacing the contents of the buffer at `raw` by `reply` yields
/// when the memory of the guest is `seen`: the buffer is cleared and the
/// bytes are appended where they fit; where they do not, the guest is asked
/// to make room in the cleared buffer, and `answer` is what it does.
pub open spec fn responded(seen: Seq<u8>, answer: Option<Seq<u8>>, raw: u32, reply: Seq<u8>) -> Result<
    Seq<u8>,
    SandboxError,
> {
    if !valid(seen, raw) {
        Err(SandboxError::InvalidHeader)
    } else if reply.len() > u32::MAX {
        Err(SandboxError::LengthOverflow)
    } else if reply.len() <= RawBuffer::at(seen, raw as int).cap {
        Ok(appended(cleared(seen, raw), raw, reply))
    } else {
        match answer {
            None => Err(SandboxError::Trap),
            Some(grown) => if valid(grown, raw) {
                appended_to_grown(cleared(grown, raw), raw, reply)
            } else {
                Err(SandboxError::InvalidHeader)
            },
        }
    }
}

} // verus!
