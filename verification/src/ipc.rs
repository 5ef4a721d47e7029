//! Building blocks of an IPC server: encoding service names and wrapping
//! ports and sessions for the event loop.
//!
//! Registering a port and accepting a session are kernel calls, so the
//! embedder performs those and hands the resulting handles in as plain
//! values; the construction around them, and the name encoding the
//! registration needs, is what lives here.

use vstd::prelude::*;
use core::marker::PhantomData;

verus! {

/// The packed form of a service name of at most seven bytes: byte `i` of
/// the name in bits `8 * i` and up, missing bytes zero.
pub open spec fn encoded_bytes(s: Seq<u8>) -> u64 {
    (byte_or_zero(s, 0) as u64) | (byte_or_zero(s, 1) as u64) << 8u64 | (byte_or_zero(s, 2) as u64)
        << 16u64 | (byte_or_zero(s, 3) as u64) << 24u64 | (byte_or_zero(s, 4) as u64) << 32u64 | (
    byte_or_zero(s, 5) as u64) << 40u64 | (byte_or_zero(s, 6) as u64) << 48u64 | (byte_or_zero(
        s,
        7,
    ) as u64) << 56u64
}

/// Byte `i` of a name, or zero past its end.
pub open spec fn byte_or_zero(s: Seq<u8>, i: int) -> u8 {
    if i < s.len() {
        s[i]
    } else {
        0
    }
}

/// Encode an up-to-seven-byte service name into the u64 the service
/// registry wants.
pub fn encode_bytes(s: &[u8]) -> (r: u64)
    requires
        s@.len() < 8,
    ensures
        r == encoded_bytes(s@),
{
    let b0 = if s.len() > 0 { s[0] } else { 0 };
    let b1 = if s.len() > 1 { s[1] } else { 0 };
    let b2 = if s.len() > 2 { s[2] } else { 0 };
    let b3 = if s.len() > 3 { s[3] } else { 0 };
    let b4 = if s.len() > 4 { s[4] } else { 0 };
    let b5 = if s.len() > 5 { s[5] } else { 0 };
    let b6 = if s.len() > 6 { s[6] } else { 0 };
    let b7 = if s.len() > 7 { s[7] } else { 0 };
    (b0 as u64) | (b1 as u64) << 8u64 | (b2 as u64) << 16u64 | (b3 as u64) << 24u64 | (b4 as u64)
        << 32u64 | (b5 as u64) << 40u64 | (b6 as u64) << 48u64 | (b7 as u64) << 56u64
}

/// A wrapper around a server port. It waits for connection requests; each
/// incoming connection becomes a session wrapped in a [`SessionWrapper`]
/// around a fresh object, dispatched with this port's `dispatch` function.
pub struct PortHandler<T, DISPATCH> {
    /// The kernel handle backing this port, as the embedder received it
    /// when registering the service.
    pub handle: u32,
    /// Function called when sessions created from this port receive a
    /// request.
    pub dispatch: DISPATCH,
    /// Type of the object this port creates one of per session.
    pub phantom: PhantomData<T>,
}

impl<T, DISPATCH> PortHandler<T, DISPATCH> {
    /// Wraps a port registered with the service registry under an
    /// [`encode_bytes`]-packed name; the embedder performs that
    /// registration and passes the port handle it got back.
    pub fn new(handle: u32, dispatch: DISPATCH) -> (r: PortHandler<T, DISPATCH>)
        ensures
            r.handle == handle,
            r.dispatch == dispatch,
    {
        PortHandler { handle, dispatch, phantom: PhantomData }
    }

    /// Wraps a port registered directly with the kernel. Only the service
    /// registry itself should be managed this way, since kernel-managed
    /// ports implement no access control; the embedder performs the
    /// registration and passes the port handle it got back.
    pub fn new_managed(handle: u32, dispatch: DISPATCH) -> (r: PortHandler<T, DISPATCH>)
        ensures
            r.handle == handle,
            r.dispatch == dispatch,
    {
        PortHandler { handle, dispatch, phantom: PhantomData }
    }
}

/// A wrapper around an object backed by an IPC session. The `dispatch`
/// function parses and answers a request arriving on the session, working
/// in the command buffer; the pointer buffer receives large incoming
/// descriptors.
pub struct SessionWrapper<T, DISPATCH> {
    /// The kernel handle backing this session.
    pub handle: u32,
    /// Object instance this session works on.
    pub object: T,
    /// Function called to handle an IPC request.
    pub dispatch: DISPATCH,
    /// Command buffer for this session.
    pub buf: [u8; 0x100],
    /// Buffer for receiving large descriptors and answering queries about
    /// its own size.
    pub pointer_buf: [u8; 0x300],
}

impl<T, DISPATCH> SessionWrapper<T, DISPATCH> {
    /// Create a new session wrapper from an open server session and a
    /// backing object, with both buffers zeroed.
    pub fn new(handle: u32, object: T, dispatch: DISPATCH) -> (r: SessionWrapper<T, DISPATCH>)
        ensures
            r.handle == handle,
            r.object == object,
            r.dispatch == dispatch,
            forall|i: int| 0 <= i < 0x100 ==> r.buf@[i] == 0u8,
            forall|i: int| 0 <= i < 0x300 ==> r.pointer_buf@[i] == 0u8,
    {
        SessionWrapper { handle, object, dispatch, buf: [0; 0x100], pointer_buf: [0; 0x300] }
    }
}

} // verus!
