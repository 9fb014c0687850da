//! The guest side of a plugin: its buffer, its builder and its calls into
//! the host.

use crate::buffer::{flattened, flattened_grows};
use crate::rpc::{call_frame, name_frame};
use vstd::prelude::*;

verus! {

/// Capacity of the buffer that a plugin starts with.
pub const INITIAL_CAPACITY: usize = 100_000;

/// The guest's end of the shared buffer: the bytes, owned by the guest's
/// allocator.
#[derive(Debug)]
pub struct Buffer {
    bytes: Vec<u8>,
}

impl View for Buffer {
    type V = Seq<u8>;

    closed spec fn view(&self) -> Seq<u8> {
        self.bytes@
    }
}

impl Buffer {
    /// An empty buffer without allocation.
    pub fn new() -> (r: Self)
        ensures
            r@ == Seq::<u8>::empty(),
    {
        Buffer { bytes: Vec::new() }
    }

    /// An empty buffer with room for `capacity` bytes.
    pub fn with_capacity(capacity: usize) -> (r: Self)
        ensures
            r@ == Seq::<u8>::empty(),
    {
        Buffer::from_vec(Vec::with_capacity(capacity))
    }

    /// A buffer that takes over the bytes and the allocation of `raw`.
    pub fn from_vec(raw: Vec<u8>) -> (r: Self)
        ensures
            r@ == raw@,
    {
        Buffer { bytes: raw }
    }

    /// The bytes and the allocation of the buffer.
    pub fn into_vec(self) -> (raw: Vec<u8>)
        ensures
            raw@ == self@,
    {
        self.bytes
    }

    /// Empties the buffer and keeps the allocation.
    pub fn clear(&mut self)
        ensures
            final(self)@ == Seq::<u8>::empty(),
    {
        self.bytes.clear();
    }

    /// Makes room for `additional` more bytes. The contents stay as they
    /// are; the allocation may move.
    pub fn reserve(&mut self, additional: usize)
        ensures
            final(self)@ == old(self)@,
    {
        self.bytes.reserve(additional);
    }

    /// Appends `other`.
    pub fn extend_from_slice(&mut self, other: &[u8])
        ensures
            final(self)@ == old(self)@ + other@,
    {
        let ghost before = self.bytes@;
        self.bytes.extend_from_slice(other);
        assert(self.bytes@ =~= before + other@);
    }

    /// The contents.
    pub fn as_slice(&self) -> (r: &[u8])
        ensures
            r@ == self@,
    {
        self.bytes.as_slice()
    }

    /// Appends `buf` and tells how many bytes were written: all of them.
    pub fn write(&mut self, buf: &[u8]) -> (written: usize)
        ensures
            final(self)@ == old(self)@ + buf@,
            written == buf.len(),
    {
        self.extend_from_slice(buf);
        buf.len()
    }

    /// Appends the byte strings one after the other, after room for all of
    /// them has been made, and tells how many bytes were written. Writes
    /// nothing if the total length does not fit a machine word.
    pub fn write_vectored(&mut self, parts: &Vec<Vec<u8>>) -> (written: Option<usize>)
        ensures
            match written {
                Some(total) => total == flattened(parts@).len() && final(self)@ == old(self)@
                    + flattened(parts@),
                None => flattened(parts@).len() > usize::MAX && final(self)@ == old(self)@,
            },
    {
        let mut total: usize = 0;
        let mut i: usize = 0;
        while i < parts.len()
            invariant
                i <= parts.len(),
                total == flattened(parts@.take(i as int)).len(),
                self@ == old(self)@,
            decreases parts.len() - i,
        {
            proof {
                assert(parts@.take(i + 1).drop_last() =~= parts@.take(i as int));
                flattened_grows(parts@, i + 1);
            }
            if parts[i].len() > usize::MAX - total {
                return None;
            }
            total = total + parts[i].len();
            i += 1;
        }
        assert(parts@.take(i as int) =~= parts@);
        self.reserve(total);
        let mut i: usize = 0;
        while i < parts.len()
            invariant
                i <= parts.len(),
                self@ == old(self)@ + flattened(parts@.take(i as int)),
            decreases parts.len() - i,
        {
            proof {
                assert(parts@.take(i + 1).drop_last() =~= parts@.take(i as int));
            }
            let ghost before = self@;
            self.extend_from_slice(parts[i].as_slice());
            assert(self@ =~= old(self)@ + flattened(parts@.take(i + 1)));
            i += 1;
        }
        assert(parts@.take(i as int) =~= parts@);
        Some(total)
    }

    /// Appends all of `buf`.
    pub fn write_all(&mut self, buf: &[u8])
        ensures
            final(self)@ == old(self)@ + buf@,
    {
        self.extend_from_slice(buf);
    }

    /// Nothing is held back, so there is nothing to flush.
    pub fn flush(&mut self)
        ensures
            final(self)@ == old(self)@,
    {
    }
}

impl From<Vec<u8>> for Buffer {
    fn from(raw: Vec<u8>) -> (r: Self)
        ensures
            r@ == raw@,
    {
        Buffer { bytes: raw }
    }
}

impl vstd::std_specs::convert::FromSpecImpl<Vec<u8>> for Buffer {
    open spec fn obeys_from_spec() -> bool {
        true
    }

    closed spec fn from_spec(raw: Vec<u8>) -> Self {
        Buffer { bytes: raw }
    }
}

/// Why a call into the host could not be started.
#[derive(Clone, Copy, Debug, PartialEq, Eq, Structural)]
pub enum CallError {
    /// The buffer is lent out to a call that has not finished.
    BufferUnavailable,
}

/// Collects what a plugin is made of before it starts.
#[derive(Debug)]
pub struct PluginBuilder {
    name: String,
    rpcs: usize,
}

impl PluginBuilder {
    /// The name of the plugin.
    pub closed spec fn spec_name(&self) -> Seq<char> {
        self.name@
    }

    /// Number of RPCs that the plugin offers to the host.
    pub closed spec fn spec_rpcs(&self) -> nat {
        self.rpcs as nat
    }

    /// A builder for the plugin called `name`, without RPCs.
    pub fn new(name: &str) -> (r: Self)
        ensures
            r.spec_name() == name@,
            r.spec_rpcs() == 0,
    {
        Self { name: name.to_owned(), rpcs: 0 }
    }

    /// The name of the plugin.
    pub fn name(&self) -> (r: &str)
        ensures
            r@ == self.spec_name(),
    {
        self.name.as_str()
    }

    /// Number of RPCs that the plugin offers to the host.
    pub fn rpcs(&self) -> (r: usize)
        ensures
            r == self.spec_rpcs(),
    {
        self.rpcs
    }

    /// Counts one more RPC that the plugin offers to the host. RPCs are
    /// numbered from zero in the order in which they are added.
    pub fn add_rpc(self) -> (r: Self)
        requires
            self.spec_rpcs() < usize::MAX,
        ensures
            r.spec_rpcs() == self.spec_rpcs() + 1,
            r.spec_name() == self.spec_name(),
    {
        Self { name: self.name, rpcs: self.rpcs + 1 }
    }

    /// Starts the plugin: it gets an empty buffer of the initial capacity.
    pub fn init(self) -> (plugin: Plugin)
        ensures
            plugin.buffer() == Some(Seq::<u8>::empty()),
    {
        Plugin { buffer: Some(Buffer::with_capacity(INITIAL_CAPACITY)) }
    }
}

/// A running plugin, seen from the guest.
#[derive(Debug)]
pub struct Plugin {
    buffer: Option<Buffer>,
}

impl Plugin {
    /// The contents of the buffer, unless it is lent out to a call.
    pub closed spec fn buffer(&self) -> Option<Seq<u8>> {
        match self.buffer {
            Some(buffer) => Some(buffer@),
            None => None,
        }
    }

    /// Starts a call into the host: takes the buffer, clears it, and writes
    /// the call frame into it. The buffer is handed out to be passed to the
    /// host; until the call is finished, no other call can start.
    pub fn begin_call(&mut self, name: &str, args: &[u8]) -> (r: Result<Buffer, CallError>)
        ensures
            final(self).buffer() is None,
            match r {
                Ok(buffer) => old(self).buffer() is Some && buffer@ == name_frame(name@) + args@,
                Err(e) => e == CallError::BufferUnavailable && old(self).buffer() is None,
            },
    {
        match self.buffer.take() {
            None => Err(CallError::BufferUnavailable),
            Some(mut buffer) => {
                buffer.clear();
                let frame = call_frame(name, args);
                buffer.extend_from_slice(frame.as_slice());
                assert(buffer@ =~= name_frame(name@) + args@);
                Ok(buffer)
            },
        }
    }

    /// Calls the host RPC `name` with the serialized arguments `args`:
    /// clears the buffer, writes the call frame into it, hands the buffer to
    /// `host_call`, and hands out the serialized return that comes back in
    /// it. Fails when the buffer is lent out to a call that has not
    /// finished.
    pub fn call_rpc<F: FnOnce(Buffer) -> Buffer>(&mut self, name: &str, args: &[u8], host_call: F) -> (r:
        Result<Vec<u8>, CallError>)
        requires
            forall|sent: Buffer| call_requires(host_call, (sent,)),
        ensures
            match r {
                Ok(reply) => {
                    &&& old(self).buffer() is Some
                    &&& final(self).buffer() == Some(reply@)
                    &&& exists|sent: Buffer, returned: Buffer|
                        sent@ == name_frame(name@) + args@ && #[trigger] call_ensures(
                            host_call,
                            (sent,),
                            returned,
                        ) && returned@ == reply@
                },
                Err(e) => e == CallError::BufferUnavailable && old(self).buffer() is None && final(self).buffer() is None,
            },
    {
        let sent = match self.begin_call(name, args) {
            Ok(buffer) => buffer,
            Err(e) => {
                return Err(e);
            },
        };
        let returned = host_call(sent);
        Ok(self.finish_call(returned))
    }

    /// Finishes a call: takes the buffer back and hands out the serialized
    /// return that the host left in it.
    pub fn finish_call(&mut self, buffer: Buffer) -> (reply: Vec<u8>)
        ensures
            reply@ == buffer@,
            final(self).buffer() == Some(buffer@),
    {
        let reply = vstd::slice::slice_to_vec(buffer.as_slice());
        self.buffer = Some(buffer);
        reply
    }
}

} // verus!
