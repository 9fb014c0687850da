//! The shared buffer: a growable byte arena that lives in guest memory and
//! is described by a twelve-byte header at a well-known guest address.

use crate::error::SandboxError;
use vstd::bytes::{
    lemma_auto_spec_u32_to_from_le_bytes, spec_u32_from_le_bytes, spec_u32_to_le_bytes,
    u32_from_le_bytes, u32_to_le_bytes,
};
use vstd::prelude::*;
use vstd::slice::slice_subrange;

verus! {

/// Size in bytes of the buffer header.
pub const HEADER_SIZE: usize = 12;

/// The buffer header: guest address of the bytes, capacity of the
/// allocation, and number of valid bytes.
#[derive(Clone, Copy, Debug, PartialEq, Eq, Structural)]
pub struct RawBuffer {
    pub ptr: u32,
    pub cap: u32,
    pub len: u32,
}

impl RawBuffer {
    /// The header as it lies in guest memory: three little-endian words.
    pub open spec fn encoding(self) -> Seq<u8> {
        spec_u32_to_le_bytes(self.ptr) + spec_u32_to_le_bytes(self.cap) + spec_u32_to_le_bytes(
            self.len,
        )
    }

    /// The header that lies at `at` in `memory`.
    pub open spec fn at(memory: Seq<u8>, at: int) -> RawBuffer {
        RawBuffer {
            ptr: spec_u32_from_le_bytes(memory.subrange(at, at + 4)),
            cap: spec_u32_from_le_bytes(memory.subrange(at + 4, at + 8)),
            len: spec_u32_from_le_bytes(memory.subrange(at + 8, at + 12)),
        }
    }

    /// Serializes the header.
    pub fn encode(&self) -> (out: Vec<u8>)
        ensures
            out@ == self.encoding(),
            out.len() == HEADER_SIZE,
    {
        let mut out = u32_to_le_bytes(self.ptr);
        let mut cap = u32_to_le_bytes(self.cap);
        let mut len = u32_to_le_bytes(self.len);
        out.append(&mut cap);
        out.append(&mut len);
        out
    }

    /// Reads a header from its twelve bytes.
    pub fn decode(bytes: &[u8]) -> (r: RawBuffer)
        requires
            bytes.len() == HEADER_SIZE,
        ensures
            r == RawBuffer::at(bytes@, 0),
            r.encoding() == bytes@,
    {
        let ptr = u32_from_le_bytes(slice_subrange(bytes, 0, 4));
        let cap = u32_from_le_bytes(slice_subrange(bytes, 4, 8));
        let len = u32_from_le_bytes(slice_subrange(bytes, 8, 12));
        let r = RawBuffer { ptr, cap, len };
        proof {
            lemma_auto_spec_u32_to_from_le_bytes();
            assert(r.encoding() =~= bytes@);
        }
        r
    }
}

/// Encoding and decoding a header are inverse to each other.
pub proof fn header_round_trip(header: RawBuffer, bytes: Seq<u8>)
    ensures
        header.encoding().len() == HEADER_SIZE,
        RawBuffer::at(header.encoding(), 0) == header,
        bytes.len() == HEADER_SIZE ==> RawBuffer::at(bytes, 0).encoding() == bytes,
{
    lemma_auto_spec_u32_to_from_le_bytes();
    let e = header.encoding();
    assert(e.subrange(0, 4) =~= spec_u32_to_le_bytes(header.ptr));
    assert(e.subrange(4, 8) =~= spec_u32_to_le_bytes(header.cap));
    assert(e.subrange(8, 12) =~= spec_u32_to_le_bytes(header.len));
    if bytes.len() == HEADER_SIZE {
        assert(RawBuffer::at(bytes, 0).encoding() =~= bytes);
    }
}

/// `memory` with `bytes` written at `at`.
pub open spec fn patched(memory: Seq<u8>, at: int, bytes: Seq<u8>) -> Seq<u8> {
    memory.subrange(0, at) + bytes + memory.subrange(at + bytes.len(), memory.len() as int)
}

/// The header at `raw` describes a buffer: the header and the allocation lie
/// in `memory` and do not overlap, and the length is within the capacity.
pub open spec fn valid(memory: Seq<u8>, raw: u32) -> bool {
    let header = RawBuffer::at(memory, raw as int);
    &&& raw + HEADER_SIZE <= memory.len()
    &&& header.len <= header.cap
    &&& header.ptr + header.cap <= memory.len()
    &&& (header.ptr + header.cap <= raw || raw + HEADER_SIZE <= header.ptr)
}

/// The valid bytes of the buffer whose header lies at `raw`.
pub open spec fn contents(memory: Seq<u8>, raw: u32) -> Seq<u8> {
    let header = RawBuffer::at(memory, raw as int);
    memory.subrange(header.ptr as int, header.ptr + header.len)
}

/// `memory` after the buffer at `raw` has been cleared: the length is zero,
/// nothing else has changed.
pub open spec fn cleared(memory: Seq<u8>, raw: u32) -> Seq<u8> {
    let header = RawBuffer::at(memory, raw as int);
    patched(memory, raw as int, (RawBuffer { len: 0, ..header }).encoding())
}

/// `memory` after `bytes` have been appended to the buffer at `raw` within
/// its capacity: the bytes follow the old contents, the length has grown by
/// their number, nothing else has changed.
pub open spec fn appended(memory: Seq<u8>, raw: u32, bytes: Seq<u8>) -> Seq<u8> {
    let header = RawBuffer::at(memory, raw as int);
    patched(
        patched(memory, header.ptr + header.len, bytes),
        raw as int,
        (RawBuffer { len: (header.len + bytes.len()) as u32, ..header }).encoding(),
    )
}

/// What the guest owes after it was asked to reserve `additional` bytes for
/// the buffer at `raw`: a valid buffer with room for that many more bytes
/// and with the contents it had, wherever the allocation now lies.
pub open spec fn reserved(before: Seq<u8>, after: Seq<u8>, raw: u32, additional: u32) -> bool {
    let was = RawBuffer::at(before, raw as int);
    let now = RawBuffer::at(after, raw as int);
    &&& valid(after, raw)
    &&& now.len == was.len
    &&& now.cap >= was.len + additional
    &&& contents(after, raw) == contents(before, raw)
}

/// A snapshot of the linear memory of a guest.
#[derive(Debug)]
pub struct GuestMemory {
    pub bytes: Vec<u8>,
}

impl View for GuestMemory {
    type V = Seq<u8>;

    open spec fn view(&self) -> Seq<u8> {
        self.bytes@
    }
}

proof fn patched_header(memory: Seq<u8>, raw: u32, header: RawBuffer)
    requires
        raw + HEADER_SIZE <= memory.len(),
    ensures
        patched(memory, raw as int, header.encoding()).len() == memory.len(),
        RawBuffer::at(patched(memory, raw as int, header.encoding()), raw as int) == header,
        forall|i: int|
            0 <= i < memory.len() && !(raw <= i < raw + HEADER_SIZE) ==> #[trigger] patched(
                memory,
                raw as int,
                header.encoding(),
            )[i] == memory[i],
{
    header_round_trip(header, Seq::empty());
    let after = patched(memory, raw as int, header.encoding());
    let e = header.encoding();
    assert(after.subrange(raw as int, raw + 4) =~= e.subrange(0, 4));
    assert(after.subrange(raw + 4, raw + 8) =~= e.subrange(4, 8));
    assert(after.subrange(raw + 8, raw + 12) =~= e.subrange(8, 12));
}

proof fn patched_data(memory: Seq<u8>, raw: u32, at: int, bytes: Seq<u8>)
    requires
        raw + HEADER_SIZE <= memory.len(),
        0 <= at,
        at + bytes.len() <= memory.len(),
        at + bytes.len() <= raw || raw + HEADER_SIZE <= at,
    ensures
        patched(memory, at, bytes).len() == memory.len(),
        RawBuffer::at(patched(memory, at, bytes), raw as int) == RawBuffer::at(memory, raw as int),
        patched(memory, at, bytes).subrange(at, at + bytes.len()) == bytes,
        forall|i: int|
            0 <= i < memory.len() && !(at <= i < at + bytes.len()) ==> #[trigger] patched(
                memory,
                at,
                bytes,
            )[i] == memory[i],
{
    let after = patched(memory, at, bytes);
    assert(after.subrange(raw as int, raw + 4) =~= memory.subrange(raw as int, raw + 4));
    assert(after.subrange(raw + 4, raw + 8) =~= memory.subrange(raw + 4, raw + 8));
    assert(after.subrange(raw + 8, raw + 12) =~= memory.subrange(raw + 8, raw + 12));
    assert(after.subrange(at, at + bytes.len()) =~= bytes);
}

/// Clearing a valid buffer leaves a valid, empty buffer of the same
/// allocation; clearing it again changes nothing.
pub proof fn clear_is_idempotent(memory: Seq<u8>, raw: u32)
    requires
        valid(memory, raw),
    ensures
        valid(cleared(memory, raw), raw),
        contents(cleared(memory, raw), raw) == Seq::<u8>::empty(),
        RawBuffer::at(cleared(memory, raw), raw as int) == (RawBuffer {
            len: 0,
            ..RawBuffer::at(memory, raw as int)
        }),
        cleared(cleared(memory, raw), raw) == cleared(memory, raw),
{
    let header = RawBuffer::at(memory, raw as int);
    let empty = RawBuffer { len: 0, ..header };
    patched_header(memory, raw, empty);
    let once = cleared(memory, raw);
    patched_header(once, raw, empty);
    assert(contents(once, raw) =~= Seq::<u8>::empty());
    assert(cleared(once, raw) =~= once);
}

/// Appending within the capacity keeps the buffer valid and puts the bytes
/// behind the contents it had.
pub proof fn append_extends_contents(memory: Seq<u8>, raw: u32, bytes: Seq<u8>)
    requires
        valid(memory, raw),
        RawBuffer::at(memory, raw as int).len + bytes.len() <= RawBuffer::at(memory, raw as int).cap,
    ensures
        valid(appended(memory, raw, bytes), raw),
        appended(memory, raw, bytes).len() == memory.len(),
        contents(appended(memory, raw, bytes), raw) == contents(memory, raw) + bytes,
        RawBuffer::at(appended(memory, raw, bytes), raw as int) == (RawBuffer {
            len: (RawBuffer::at(memory, raw as int).len + bytes.len()) as u32,
            ..RawBuffer::at(memory, raw as int)
        }),
{
    let header = RawBuffer::at(memory, raw as int);
    let grown = RawBuffer { len: (header.len + bytes.len()) as u32, ..header };
    let data = patched(memory, header.ptr + header.len, bytes);
    patched_data(memory, raw, header.ptr + header.len, bytes);
    patched_header(data, raw, grown);
    let after = appended(memory, raw, bytes);
    assert(contents(after, raw) =~= contents(memory, raw) + bytes) by {
        assert forall|i: int| 0 <= i < header.len + bytes.len() implies contents(after, raw)[i] == (
        contents(memory, raw) + bytes)[i] by {
            assert(after[header.ptr + i] == data[header.ptr + i]);
            if i < header.len {
                assert(data[header.ptr + i] == memory[header.ptr + i]);
            } else {
                assert(data.subrange(header.ptr + header.len, header.ptr + header.len + bytes.len())[i
                    - header.len] == bytes[i - header.len]);
            }
        }
    }
}

/// Clearing a buffer and appending bytes that fit leaves exactly those bytes.
pub proof fn clear_then_extend_reads_back(memory: Seq<u8>, raw: u32, bytes: Seq<u8>)
    requires
        valid(memory, raw),
        bytes.len() <= RawBuffer::at(memory, raw as int).cap,
    ensures
        valid(appended(cleared(memory, raw), raw, bytes), raw),
        contents(appended(cleared(memory, raw), raw, bytes), raw) == bytes,
{
    clear_is_idempotent(memory, raw);
    append_extends_contents(cleared(memory, raw), raw, bytes);
    assert(Seq::<u8>::empty() + bytes =~= bytes);
}

/// Clearing a buffer, having the guest make room, and appending leaves
/// exactly the appended bytes, wherever the guest put the allocation.
pub proof fn clear_then_grown_extend_reads_back(
    memory: Seq<u8>,
    moved: Seq<u8>,
    raw: u32,
    bytes: Seq<u8>,
)
    requires
        valid(memory, raw),
        bytes.len() <= u32::MAX,
        reserved(cleared(memory, raw), moved, raw, bytes.len() as u32),
    ensures
        valid(appended(moved, raw, bytes), raw),
        contents(appended(moved, raw, bytes), raw) == bytes,
{
    clear_is_idempotent(memory, raw);
    append_extends_contents(moved, raw, bytes);
    assert(Seq::<u8>::empty() + bytes =~= bytes);
}

/// Appending twice leaves the old contents followed by both byte strings,
/// also when the guest grew and moved the allocation in between.
pub proof fn growth_preserves_contents(
    memory: Seq<u8>,
    moved: Seq<u8>,
    raw: u32,
    first: Seq<u8>,
    second: Seq<u8>,
)
    requires
        valid(memory, raw),
        RawBuffer::at(memory, raw as int).len + first.len() <= RawBuffer::at(memory, raw as int).cap,
        second.len() <= u32::MAX,
        reserved(appended(memory, raw, first), moved, raw, second.len() as u32) || (moved == appended(
            memory,
            raw,
            first,
        ) && RawBuffer::at(memory, raw as int).len + first.len() + second.len() <= RawBuffer::at(
            memory,
            raw as int,
        ).cap),
    ensures
        valid(appended(moved, raw, second), raw),
        contents(appended(moved, raw, second), raw) == contents(memory, raw) + first + second,
{
    append_extends_contents(memory, raw, first);
    append_extends_contents(moved, raw, second);
}


/// Whether the guest has to grow the allocation before bytes can be written.
#[derive(Clone, Copy, Debug, PartialEq, Eq, Structural)]
pub enum Growth {
    /// The allocation had room; what was to be written has been written.
    Unneeded,
    /// The allocation lacks room; nothing has been written. The guest is to
    /// reserve `additional` bytes, after which the write is repeated.
    Needed { additional: u32 },
}

/// The byte strings one after the other.
pub open spec fn flattened(parts: Seq<Vec<u8>>) -> Seq<u8>
    decreases parts.len(),
{
    if parts.len() == 0 {
        Seq::empty()
    } else {
        flattened(parts.drop_last()) + parts.last()@
    }
}

impl GuestMemory {
    /// A snapshot that holds `bytes`.
    pub fn new(bytes: Vec<u8>) -> (r: Self)
        ensures
            r@ == bytes@,
    {
        GuestMemory { bytes }
    }

    /// Size of the memory in bytes.
    pub fn size(&self) -> (n: usize)
        ensures
            n == self@.len(),
    {
        self.bytes.len()
    }

    /// Writes `bytes` at `at`.
    fn store(&mut self, at: usize, bytes: &[u8])
        requires
            at + bytes.len() <= old(self)@.len(),
        ensures
            final(self)@ == patched(old(self)@, at as int, bytes@),
    {
        let mut i: usize = 0;
        while i < bytes.len()
            invariant
                i <= bytes.len(),
                at + bytes.len() <= self@.len(),
                self@.len() == self.bytes.len(),
                self@.len() == old(self)@.len(),
                forall|j: int| 0 <= j < i ==> self@[at + j] == bytes@[j],
                forall|j: int|
                    0 <= j < self@.len() && !(at <= j < at + i) ==> self@[j] == old(self)@[j],
            decreases bytes.len() - i,
        {
            self.bytes[at + i] = bytes[i];
            i += 1;
        }
        assert(self@ =~= patched(old(self)@, at as int, bytes@));
    }
}

/// The host's handle on the shared buffer of a plugin: the guest address of
/// the header.
#[derive(Clone, Copy, Debug, PartialEq, Eq, Structural)]
pub struct Buffer {
    pub raw: u32,
}

impl Buffer {
    /// A handle on the buffer whose header lies at `raw`.
    pub fn new(raw: u32) -> (r: Self)
        ensures
            r.raw == raw,
    {
        Buffer { raw }
    }

    /// Reads the header out of guest memory and checks that it describes a
    /// buffer.
    pub fn header(&self, memory: &GuestMemory) -> (r: Result<RawBuffer, SandboxError>)
        ensures
            match r {
                Ok(header) => valid(memory@, self.raw) && header == RawBuffer::at(
                    memory@,
                    self.raw as int,
                ),
                Err(e) => e == SandboxError::InvalidHeader && !valid(memory@, self.raw),
            },
    {
        let size = memory.bytes.len();
        let base = self.raw as usize;
        if base > size || size - base < HEADER_SIZE {
            return Err(SandboxError::InvalidHeader);
        }
        let bytes = slice_subrange(memory.bytes.as_slice(), base, base + HEADER_SIZE);
        let header = RawBuffer::decode(bytes);
        proof {
            let m = memory@;
            let b = bytes@;
            assert(b.subrange(0, 4) =~= m.subrange(base as int, base + 4));
            assert(b.subrange(4, 8) =~= m.subrange(base + 4, base + 8));
            assert(b.subrange(8, 12) =~= m.subrange(base + 8, base + 12));
        }
        let end = header.ptr as u64 + header.cap as u64;
        if header.len > header.cap || end > size as u64 {
            return Err(SandboxError::InvalidHeader);
        }
        if end <= self.raw as u64 || self.raw as u64 + 12 <= header.ptr as u64 {
            Ok(header)
        } else {
            Err(SandboxError::InvalidHeader)
        }
    }

    /// The valid bytes of the buffer.
    pub fn as_slice<'a>(&self, memory: &'a GuestMemory) -> (r: Result<&'a [u8], SandboxError>)
        ensures
            match r {
                Ok(bytes) => valid(memory@, self.raw) && bytes@ == contents(memory@, self.raw),
                Err(e) => e == SandboxError::InvalidHeader && !valid(memory@, self.raw),
            },
    {
        let header = self.header(memory)?;
        let from = header.ptr as usize;
        assert(from + header.len <= memory.bytes.len());
        Ok(slice_subrange(memory.bytes.as_slice(), from, from + header.len as usize))
    }

    /// Empties the buffer: sets the length to zero and leaves the allocation
    /// as it is.
    pub fn clear(&self, memory: &mut GuestMemory) -> (r: Result<(), SandboxError>)
        ensures
            match r {
                Ok(()) => valid(old(memory)@, self.raw) && final(memory)@ == cleared(
                    old(memory)@,
                    self.raw,
                ) && valid(final(memory)@, self.raw),
                Err(e) => e == SandboxError::InvalidHeader && !valid(old(memory)@, self.raw) && final(memory)@ == old(memory)@,
            },
    {
        let header = self.header(memory)?;
        let empty = RawBuffer { len: 0, ..header };
        let encoded = empty.encode();
        memory.store(self.raw as usize, encoded.as_slice());
        proof {
            clear_is_idempotent(old(memory)@, self.raw);
        }
        Ok(())
    }

    /// Tells whether the guest has to grow the allocation before
    /// `additional` more bytes fit.
    pub fn reserve(&self, memory: &GuestMemory, additional: u32) -> (r: Result<Growth, SandboxError>)
        ensures
            match r {
                Ok(Growth::Unneeded) => valid(memory@, self.raw) && RawBuffer::at(
                    memory@,
                    self.raw as int,
                ).len + additional <= RawBuffer::at(memory@, self.raw as int).cap,
                Ok(Growth::Needed { additional: asked }) => valid(memory@, self.raw) && asked
                    == additional && RawBuffer::at(memory@, self.raw as int).len + additional
                    > RawBuffer::at(memory@, self.raw as int).cap,
                Err(e) => e == SandboxError::InvalidHeader && !valid(memory@, self.raw),
            },
    {
        let header = self.header(memory)?;
        if header.len as u64 + additional as u64 <= header.cap as u64 {
            Ok(Growth::Unneeded)
        } else {
            Ok(Growth::Needed { additional })
        }
    }

    /// Appends `other` to the buffer if the allocation has room for it, and
    /// asks for growth by the length of `other` if it has not.
    pub fn extend_from_slice(&self, memory: &mut GuestMemory, other: &[u8]) -> (r: Result<
        Growth,
        SandboxError,
    >)
        ensures
            match r {
                Ok(Growth::Unneeded) => {
                    &&& valid(old(memory)@, self.raw)
                    &&& RawBuffer::at(old(memory)@, self.raw as int).len + other.len() <= RawBuffer::at(
                        old(memory)@,
                        self.raw as int,
                    ).cap
                    &&& final(memory)@ == appended(old(memory)@, self.raw, other@)
                    &&& valid(final(memory)@, self.raw)
                    &&& contents(final(memory)@, self.raw) == contents(old(memory)@, self.raw) + other@
                },
                Ok(Growth::Needed { additional }) => {
                    &&& valid(old(memory)@, self.raw)
                    &&& additional == other.len()
                    &&& RawBuffer::at(old(memory)@, self.raw as int).len + other.len() <= u32::MAX
                    &&& RawBuffer::at(old(memory)@, self.raw as int).len + other.len() > RawBuffer::at(
                        old(memory)@,
                        self.raw as int,
                    ).cap
                    &&& final(memory)@ == old(memory)@
                },
                Err(SandboxError::InvalidHeader) => !valid(old(memory)@, self.raw) && final(memory)@
                    == old(memory)@,
                Err(SandboxError::LengthOverflow) => valid(old(memory)@, self.raw) && RawBuffer::at(
                    old(memory)@,
                    self.raw as int,
                ).len + other.len() > u32::MAX && final(memory)@ == old(memory)@,
                Err(SandboxError::ReserveFailed) => false,
                Err(SandboxError::Trap) => false,
            },
    {
        let header = self.header(memory)?;
        if other.len() as u64 > u32::MAX as u64 - header.len as u64 {
            return Err(SandboxError::LengthOverflow);
        }
        let additional = other.len() as u32;
        if header.len + additional > header.cap {
            return Ok(Growth::Needed { additional });
        }
        proof {
            append_extends_contents(old(memory)@, self.raw, other@);
        }
        assert(header.ptr + header.len + other.len() <= memory.bytes.len());
        memory.store(header.ptr as usize + header.len as usize, other);
        let grown = RawBuffer { len: header.len + additional, ..header };
        let encoded = grown.encode();
        memory.store(self.raw as usize, encoded.as_slice());
        Ok(Growth::Unneeded)
    }

    /// Appends `other` after the guest was asked to grow the allocation.
    /// The header is read anew, since the guest may have moved the
    /// allocation. Fails when the guest did not provide the room.
    pub fn extend_reserved(&self, memory: &mut GuestMemory, other: &[u8]) -> (r: Result<
        (),
        SandboxError,
    >)
        ensures
            match r {
                Ok(()) => {
                    &&& valid(old(memory)@, self.raw)
                    &&& RawBuffer::at(old(memory)@, self.raw as int).len + other.len() <= RawBuffer::at(
                        old(memory)@,
                        self.raw as int,
                    ).cap
                    &&& final(memory)@ == appended(old(memory)@, self.raw, other@)
                    &&& valid(final(memory)@, self.raw)
                    &&& contents(final(memory)@, self.raw) == contents(old(memory)@, self.raw) + other@
                },
                Err(SandboxError::InvalidHeader) => !valid(old(memory)@, self.raw) && final(memory)@
                    == old(memory)@,
                Err(SandboxError::LengthOverflow) => valid(old(memory)@, self.raw) && RawBuffer::at(
                    old(memory)@,
                    self.raw as int,
                ).len + other.len() > u32::MAX && final(memory)@ == old(memory)@,
                Err(SandboxError::ReserveFailed) => valid(old(memory)@, self.raw) && RawBuffer::at(
                    old(memory)@,
                    self.raw as int,
                ).len + other.len() <= u32::MAX && RawBuffer::at(old(memory)@, self.raw as int).len
                    + other.len() > RawBuffer::at(old(memory)@, self.raw as int).cap && final(memory)@ == old(memory)@,
                Err(SandboxError::Trap) => false,
            },
    {
        let outcome = self.extend_from_slice(memory, other);
        match outcome {
            Ok(Growth::Unneeded) => Ok(()),
            Ok(Growth::Needed { .. }) => Err(SandboxError::ReserveFailed),
            Err(e) => Err(e),
        }
    }

    /// Replaces the contents of the buffer by `reply`: clears the buffer and
    /// appends the bytes if the allocation has room for them. If it has
    /// not, the buffer is left empty and growth by the length of `reply` is
    /// asked for.
    pub fn respond(&self, memory: &mut GuestMemory, reply: &[u8]) -> (r: Result<Growth, SandboxError>)
        ensures
            match r {
                Ok(Growth::Unneeded) => {
                    &&& valid(old(memory)@, self.raw)
                    &&& reply.len() <= RawBuffer::at(old(memory)@, self.raw as int).cap
                    &&& final(memory)@ == appended(cleared(old(memory)@, self.raw), self.raw, reply@)
                    &&& valid(final(memory)@, self.raw)
                    &&& contents(final(memory)@, self.raw) == reply@
                },
                Ok(Growth::Needed { additional }) => {
                    &&& valid(old(memory)@, self.raw)
                    &&& additional == reply.len()
                    &&& reply.len() > RawBuffer::at(old(memory)@, self.raw as int).cap
                    &&& final(memory)@ == cleared(old(memory)@, self.raw)
                    &&& valid(final(memory)@, self.raw)
                },
                Err(SandboxError::InvalidHeader) => !valid(old(memory)@, self.raw) && final(memory)@
                    == old(memory)@,
                Err(SandboxError::LengthOverflow) => valid(old(memory)@, self.raw) && reply.len()
                    > u32::MAX && final(memory)@ == cleared(old(memory)@, self.raw),
                Err(SandboxError::ReserveFailed) => false,
                Err(SandboxError::Trap) => false,
            },
    {
        self.clear(memory)?;
        proof {
            clear_is_idempotent(old(memory)@, self.raw);
            assert(Seq::<u8>::empty() + reply@ =~= reply@);
        }
        self.extend_from_slice(memory, reply)
    }

    /// Appends one byte if there is room for it, and asks for growth by one byte if not.
    pub fn push(&self, memory: &mut GuestMemory, byte: u8) -> (r: Result<Growth, SandboxError>)
        ensures
            match r {
                Ok(Growth::Unneeded) => {
                    &&& valid(old(memory)@, self.raw)
                    &&& RawBuffer::at(old(memory)@, self.raw as int).len + 1 <= RawBuffer::at(
                        old(memory)@,
                        self.raw as int,
                    ).cap
                    &&& final(memory)@ == appended(old(memory)@, self.raw, seq![byte])
                    &&& valid(final(memory)@, self.raw)
                    &&& contents(final(memory)@, self.raw) == contents(old(memory)@, self.raw).push(byte)
                },
                Ok(Growth::Needed { additional }) => {
                    &&& valid(old(memory)@, self.raw)
                    &&& additional == 1
                    &&& RawBuffer::at(old(memory)@, self.raw as int).len + 1 <= u32::MAX
                    &&& RawBuffer::at(old(memory)@, self.raw as int).len + 1 > RawBuffer::at(
                        old(memory)@,
                        self.raw as int,
                    ).cap
                    &&& final(memory)@ == old(memory)@
                },
                Err(SandboxError::InvalidHeader) => !valid(old(memory)@, self.raw) && final(memory)@
                    == old(memory)@,
                Err(SandboxError::LengthOverflow) => valid(old(memory)@, self.raw) && RawBuffer::at(
                    old(memory)@,
                    self.raw as int,
                ).len + 1 > u32::MAX && final(memory)@ == old(memory)@,
                Err(SandboxError::ReserveFailed) => false,
                Err(SandboxError::Trap) => false,
            },
    {
        let mut one: Vec<u8> = Vec::new();
        one.push(byte);
        assert(one@ =~= seq![byte]);
        let r = self.extend_from_slice(memory, one.as_slice());
        proof {
            assert(contents(old(memory)@, self.raw) + seq![byte] =~= contents(old(memory)@, self.raw).push(
                byte,
            ));
        }
        r
    }

    /// Appends several byte strings in one go. Room for the total length is
    /// asked of the guest first; if it is needed, nothing is written.
    pub fn write_vectored(&self, memory: &mut GuestMemory, parts: &Vec<Vec<u8>>) -> (r: Result<
        Growth,
        SandboxError,
    >)
        ensures
            match r {
                Ok(Growth::Unneeded) => {
                    &&& valid(old(memory)@, self.raw)
                    &&& RawBuffer::at(old(memory)@, self.raw as int).len + flattened(parts@).len()
                        <= RawBuffer::at(old(memory)@, self.raw as int).cap
                    &&& valid(final(memory)@, self.raw)
                    &&& final(memory)@ == appended(old(memory)@, self.raw, flattened(parts@))
                    &&& contents(final(memory)@, self.raw) == contents(old(memory)@, self.raw)
                        + flattened(parts@)
                },
                Ok(Growth::Needed { additional }) => {
                    &&& valid(old(memory)@, self.raw)
                    &&& additional == flattened(parts@).len()
                    &&& RawBuffer::at(old(memory)@, self.raw as int).len + flattened(parts@).len()
                        <= u32::MAX
                    &&& RawBuffer::at(old(memory)@, self.raw as int).len + flattened(parts@).len()
                        > RawBuffer::at(old(memory)@, self.raw as int).cap
                    &&& final(memory)@ == old(memory)@
                },
                Err(SandboxError::InvalidHeader) => !valid(old(memory)@, self.raw) && final(memory)@
                    == old(memory)@,
                Err(SandboxError::LengthOverflow) => valid(old(memory)@, self.raw) && RawBuffer::at(
                    old(memory)@,
                    self.raw as int,
                ).len + flattened(parts@).len() > u32::MAX && final(memory)@ == old(memory)@,
                Err(SandboxError::ReserveFailed) => false,
                Err(SandboxError::Trap) => false,
            },
    {
        let header = self.header(memory)?;
        let mut joined: Vec<u8> = Vec::new();
        let limit = (u32::MAX - header.len) as usize;
        let mut i: usize = 0;
        while i < parts.len()
            invariant
                i <= parts.len(),
                joined@ == flattened(parts@.take(i as int)),
                joined.len() <= limit,
                limit == u32::MAX - header.len,
                memory@ == old(memory)@,
                valid(memory@, self.raw),
                header == RawBuffer::at(memory@, self.raw as int),
            decreases parts.len() - i,
        {
            proof {
                assert(parts@.take(i + 1).drop_last() =~= parts@.take(i as int));
                flattened_grows(parts@, i + 1);
            }
            if parts[i].len() > limit - joined.len() {
                return Err(SandboxError::LengthOverflow);
            }
            let ghost before = joined@;
            joined.extend_from_slice(parts[i].as_slice());
            assert(joined@ =~= before + parts@[i as int]@);
            i += 1;
        }
        assert(parts@.take(i as int) =~= parts@);
        self.extend_from_slice(memory, joined.as_slice())
    }
}

/// The first parts hold no more bytes than all of them.
pub proof fn flattened_grows(parts: Seq<Vec<u8>>, count: int)
    requires
        0 <= count <= parts.len(),
    ensures
        flattened(parts.take(count)).len() <= flattened(parts).len(),
    decreases parts.len() - count,
{
    if count < parts.len() {
        flattened_grows(parts, count + 1);
        assert(parts.take(count + 1).drop_last() =~= parts.take(count));
    } else {
        assert(parts.take(count) =~= parts);
    }
}

} // verus!
