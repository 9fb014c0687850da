//! The RPC dispatcher: the frame format and the name-indexed handler table.

use crate::error::{ProtocolError, RegistryError};
use vstd::bytes::{
    lemma_auto_spec_u64_to_from_le_bytes, spec_u64_from_le_bytes, spec_u64_to_le_bytes,
    u64_from_le_bytes,
};
use vstd::prelude::*;
use vstd::slice::slice_subrange;
use vstd::utf8::{decode_utf8, encode_utf8, valid_utf8};

verus! {

/// Number of bytes of the length prefix of a name.
pub const PREFIX_SIZE: usize = 8;

/// The name of a call as it opens a frame: the length of its UTF-8 bytes as
/// a little-endian 64-bit word, then the bytes.
pub open spec fn name_frame(name: Seq<char>) -> Seq<u8> {
    spec_u64_to_le_bytes(encode_utf8(name).len() as u64) + encode_utf8(name)
}

/// The length that the prefix of `frame` announces.
pub open spec fn announced(frame: Seq<u8>) -> int {
    spec_u64_from_le_bytes(frame.subrange(0, PREFIX_SIZE as int)) as int
}

/// The frame holds a length prefix and as many bytes as it announces.
pub open spec fn framed(frame: Seq<u8>) -> bool {
    frame.len() >= PREFIX_SIZE && PREFIX_SIZE + announced(frame) <= frame.len()
}

/// The bytes that the prefix of `frame` announces.
pub open spec fn payload(frame: Seq<u8>) -> Seq<u8> {
    frame.subrange(PREFIX_SIZE as int, PREFIX_SIZE + announced(frame))
}

/// The frame opens with a well-formed name.
pub open spec fn opens_with_name(frame: Seq<u8>) -> bool {
    framed(frame) && valid_utf8(payload(frame))
}

/// `bincode::ErrorKind`, the reason for which the codec gave up.
#[verifier::external_type_specification]
#[verifier::external_body]
pub struct ExErrorKind(bincode::ErrorKind);

/// Calls `bincode::deserialize::<String>`, which works with fixed-width
/// little-endian integers and accepts trailing bytes. The contract claims
/// that it succeeds exactly on input that opens with an eight-byte length
/// and as many bytes of valid UTF-8, and that it then yields those bytes as
/// a string.
#[verifier::external_body]
fn decode_string(bytes: &[u8]) -> (out: Result<String, Box<bincode::ErrorKind>>)
    ensures
        out is Ok <==> opens_with_name(bytes@),
        out matches Ok(name) ==> name@ == decode_utf8(payload(bytes@)),
{
    bincode::deserialize::<String>(bytes)
}

/// Calls `bincode::serialize` on a string slice. The contract claims that
/// the call yields the byte length of the string as eight little-endian
/// bytes followed by its UTF-8 bytes. The call cannot fail: it writes to
/// memory and knows no size limit.
#[verifier::external_body]
fn encode_str(name: &str) -> (out: Vec<u8>)
    ensures
        out@ == name_frame(name@),
{
    match bincode::serialize(name) {
        Ok(bytes) => bytes,
        Err(_) => Vec::new(),
    }
}

/// A name that heads a frame is read back from it, whatever follows.
pub proof fn name_round_trip(name: Seq<char>, rest: Seq<u8>)
    requires
        encode_utf8(name).len() <= u64::MAX,
    ensures
        opens_with_name(name_frame(name) + rest),
        decode_utf8(payload(name_frame(name) + rest)) == name,
        PREFIX_SIZE + announced(name_frame(name) + rest) == name_frame(name).len(),
        (name_frame(name) + rest).subrange(
            name_frame(name).len() as int,
            (name_frame(name) + rest).len() as int,
        ) == rest,
{
    lemma_auto_spec_u64_to_from_le_bytes();
    vstd::utf8::encode_utf8_valid_utf8(name);
    vstd::utf8::encode_utf8_decode_utf8(name);
    let frame = name_frame(name) + rest;
    let prefix = spec_u64_to_le_bytes(encode_utf8(name).len() as u64);
    assert(prefix.len() == 8);
    assert(frame.subrange(0, PREFIX_SIZE as int) =~= prefix);
    assert(payload(frame) =~= encode_utf8(name));
    assert(frame.subrange(name_frame(name).len() as int, frame.len() as int) =~= rest);
}

/// Reads the name that opens a call frame and tells where the arguments
/// start.
pub fn parse_name(frame: &[u8]) -> (r: Result<(String, usize), ProtocolError>)
    ensures
        match r {
            Ok((name, args_at)) => {
                &&& opens_with_name(frame@)
                &&& name@ == decode_utf8(payload(frame@))
                &&& args_at == PREFIX_SIZE + announced(frame@)
            },
            Err(ProtocolError::TruncatedName) => !framed(frame@),
            Err(ProtocolError::DecoderFailure) => framed(frame@) && !valid_utf8(payload(frame@)),
            Err(ProtocolError::UnknownRpc) => false,
        },
{
    if frame.len() < PREFIX_SIZE {
        return Err(ProtocolError::TruncatedName);
    }
    let announced = u64_from_le_bytes(slice_subrange(frame, 0, PREFIX_SIZE));
    if announced > (frame.len() - PREFIX_SIZE) as u64 {
        return Err(ProtocolError::TruncatedName);
    }
    match decode_string(frame) {
        Ok(name) => Ok((name, PREFIX_SIZE + announced as usize)),
        Err(_) => Err(ProtocolError::DecoderFailure),
    }
}

/// A call frame: the name, then the serialized arguments.
pub fn call_frame(name: &str, args: &[u8]) -> (frame: Vec<u8>)
    ensures
        frame@ == name_frame(name@) + args@,
{
    let mut frame = encode_str(name);
    let ghost head = frame@;
    frame.extend_from_slice(args);
    assert(frame@ =~= head + args@);
    frame
}

/// The handlers of one side, by name.
pub struct RpcTable<H> {
    names: Vec<String>,
    handlers: Vec<H>,
}

impl<H> RpcTable<H> {
    /// The registered names, in the order of registration.
    pub closed spec fn names(&self) -> Seq<Seq<char>> {
        Seq::new(self.names.len() as nat, |i: int| self.names[i]@)
    }

    /// The registered handlers, each at the position of its name.
    pub closed spec fn handlers(&self) -> Seq<H> {
        self.handlers@
    }

    /// Every name has one handler and is registered once.
    pub open spec fn wf(&self) -> bool {
        &&& self.names().len() == self.handlers().len()
        &&& self.names().no_duplicates()
    }

    /// A table without handlers.
    pub fn new() -> (r: Self)
        ensures
            r.wf(),
            r.names() == Seq::<Seq<char>>::empty(),
            r.handlers() == Seq::<H>::empty(),
    {
        let r = RpcTable { names: Vec::new(), handlers: Vec::new() };
        assert(r.names() =~= Seq::<Seq<char>>::empty());
        r
    }

    /// Number of registered handlers.
    pub fn len(&self) -> (n: usize)
        ensures
            n == self.names().len(),
    {
        self.names.len()
    }

    /// The position of `name` in the table.
    pub fn position(&self, name: &str) -> (r: Option<usize>)
        ensures
            match r {
                Some(at) => at < self.names().len() && self.names()[at as int] == name@,
                None => !self.names().contains(name@),
            },
    {
        let wanted = name.to_owned();
        let mut at: usize = 0;
        while at < self.names.len()
            invariant
                at <= self.names.len(),
                wanted@ == name@,
                forall|j: int| 0 <= j < at ==> self.names()[j] != name@,
            decreases self.names.len() - at,
        {
            let same = self.names[at] == wanted;
            if same {
                assert(self.names()[at as int] == name@);
                return Some(at);
            }
            at += 1;
        }
        None
    }

    /// Registers `handler` under `name`. Names are unique: a second
    /// registration under a name fails and leaves the table as it is.
    pub fn add_rpc(&mut self, name: &str, handler: H) -> (r: Result<(), RegistryError>)
        requires
            old(self).wf(),
        ensures
            final(self).wf(),
            match r {
                Ok(()) => !old(self).names().contains(name@) && final(self).names() == old(
                    self,
                ).names().push(name@) && final(self).handlers() == old(self).handlers().push(handler),
                Err(e) => e == RegistryError::DuplicateRpc && old(self).names().contains(name@)
                    && final(self).names() == old(self).names() && final(self).handlers() == old(
                    self,
                ).handlers(),
            },
    {
        if self.position(name).is_some() {
            return Err(RegistryError::DuplicateRpc);
        }
        let ghost before = self.names();
        self.names.push(name.to_owned());
        self.handlers.push(handler);
        proof {
            assert(self.names() =~= before.push(name@));
            assert forall|i: int, j: int|
                0 <= i < self.names().len() && 0 <= j < self.names().len() && i != j implies self.names()[i]
                != self.names()[j] by {
                if i < before.len() {
                    assert(before.contains(before[i]));
                }
                if j < before.len() {
                    assert(before.contains(before[j]));
                }
            }
        }
        Ok(())
    }

    /// The handler registered under `name`.
    pub fn lookup(&self, name: &str) -> (r: Option<&H>)
        requires
            self.wf(),
        ensures
            match r {
                Some(handler) => self.names().contains(name@) && *handler == self.handlers()[self.names().index_of(
                    name@,
                )],
                None => !self.names().contains(name@),
            },
    {
        match self.position(name) {
            Some(at) => {
                proof {
                    let k = self.names().index_of(name@);
                    assert(self.names().contains(name@));
                    assert(self.names()[k] == name@);
                }
                Some(&self.handlers[at])
            },
            None => None,
        }
    }

    /// Dispatches a call frame: reads the name that opens it, looks the
    /// handler up, and tells where the arguments start. A frame that does
    /// not open with a name, or names no handler, is an error to report to
    /// the caller.
    pub fn dispatch(&self, frame: &[u8]) -> (r: Result<(&H, usize), ProtocolError>)
        requires
            self.wf(),
        ensures
            match r {
                Ok((handler, args_at)) => {
                    &&& opens_with_name(frame@)
                    &&& self.names().contains(decode_utf8(payload(frame@)))
                    &&& *handler == self.handlers()[self.names().index_of(
                        decode_utf8(payload(frame@)),
                    )]
                    &&& args_at == PREFIX_SIZE + announced(frame@)
                },
                Err(ProtocolError::TruncatedName) => !framed(frame@),
                Err(ProtocolError::DecoderFailure) => framed(frame@) && !valid_utf8(payload(frame@)),
                Err(ProtocolError::UnknownRpc) => opens_with_name(frame@) && !self.names().contains(
                    decode_utf8(payload(frame@)),
                ),
            },
    {
        let (name, args_at) = parse_name(frame)?;
        match self.lookup(name.as_str()) {
            Some(handler) => Ok((handler, args_at)),
            None => Err(ProtocolError::UnknownRpc),
        }
    }
}

} // verus!
