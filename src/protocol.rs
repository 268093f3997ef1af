//! The framing of RPC messages: a request or response flag, a request id, a method code and the
//! encoded payload.
use crate::int_bytes::{
    le_bytes, le_value, lemma_le_round_trip, lemma_pow256_small, push_le_bytes, read_le,
};
use vstd::prelude::*;

verus! {

/// The largest packet that is read from a peer, in bytes.
pub const MAX_READ_SIZE: usize = 4_194_304;

/// The length of the fixed part of a frame: the flag, the id, the method code and the offset of
/// the payload.
pub const FIXED_LEN: usize = 15;

/// The RPC protocol as a connection upgrade.
#[derive(Debug, Clone, Copy)]
pub struct RPCProtocol;

impl Default for RPCProtocol {
    fn default() -> (r: Self) {
        RPCProtocol
    }
}

impl RPCProtocol {
    /// The name under which the protocol is negotiated.
    pub fn protocol_info(&self) -> (r: &'static str)
        ensures
            r@ == "/eth/serenity/rpc/1.0.0"@,
    {
        "/eth/serenity/rpc/1.0.0"
    }
}

/// A counter that orders requests.
#[derive(Debug, Clone, Copy, Hash)]
pub struct RequestId(pub u64);

impl RequestId {
    /// Moves to the next id.
    pub fn increment(&mut self)
        requires
            old(self).0 < u64::MAX,
        ensures
            final(self).0 == old(self).0 + 1,
    {
        self.0 = self.0 + 1;
    }

    /// Returns the id before this one.
    pub fn previous(self) -> (r: Self)
        requires
            self.0 >= 1,
        ensures
            r.0 == self.0 - 1,
    {
        RequestId(self.0 - 1)
    }
}

impl PartialEq for RequestId {
    fn eq(&self, other: &RequestId) -> (r: bool) {
        self.0 == other.0
    }
}

impl vstd::std_specs::cmp::PartialEqSpecImpl for RequestId {
    open spec fn obeys_eq_spec() -> bool {
        true
    }

    open spec fn eq_spec(&self, other: &RequestId) -> bool {
        self.0 == other.0
    }
}

impl Eq for RequestId {

}

impl Default for RequestId {
    fn default() -> (r: Self)
        ensures
            r.0 == 0,
    {
        RequestId(0)
    }
}

impl From<u64> for RequestId {
    fn from(x: u64) -> (r: RequestId) {
        RequestId(x)
    }
}

impl vstd::std_specs::convert::FromSpecImpl<u64> for RequestId {
    open spec fn obeys_from_spec() -> bool {
        true
    }

    open spec fn from_spec(x: u64) -> RequestId {
        RequestId(x)
    }
}

impl From<RequestId> for u64 {
    fn from(id: RequestId) -> (r: u64) {
        id.0
    }
}

impl vstd::std_specs::convert::FromSpecImpl<RequestId> for u64 {
    open spec fn obeys_from_spec() -> bool {
        true
    }

    open spec fn from_spec(id: RequestId) -> u64 {
        id.0
    }
}

/// The methods of the protocol.
#[derive(Debug, Clone, Copy, PartialEq, Eq, Structural)]
pub enum RPCMethod {
    Hello,
    Goodbye,
    BeaconBlockRoots,
    BeaconBlockHeaders,
    BeaconBlockBodies,
    BeaconChainState,
    Unknown,
}

/// The method that a code names.
pub open spec fn method_of(code: u16) -> RPCMethod {
    if code == 0 {
        RPCMethod::Hello
    } else if code == 1 {
        RPCMethod::Goodbye
    } else if code == 10 {
        RPCMethod::BeaconBlockRoots
    } else if code == 11 {
        RPCMethod::BeaconBlockHeaders
    } else if code == 12 {
        RPCMethod::BeaconBlockBodies
    } else if code == 13 {
        RPCMethod::BeaconChainState
    } else {
        RPCMethod::Unknown
    }
}

impl From<u16> for RPCMethod {
    fn from(code: u16) -> (r: RPCMethod) {
        match code {
            0 => RPCMethod::Hello,
            1 => RPCMethod::Goodbye,
            10 => RPCMethod::BeaconBlockRoots,
            11 => RPCMethod::BeaconBlockHeaders,
            12 => RPCMethod::BeaconBlockBodies,
            13 => RPCMethod::BeaconChainState,
            _ => RPCMethod::Unknown,
        }
    }
}

impl vstd::std_specs::convert::FromSpecImpl<u16> for RPCMethod {
    open spec fn obeys_from_spec() -> bool {
        true
    }

    open spec fn from_spec(code: u16) -> RPCMethod {
        method_of(code)
    }
}

/// Whether a message of method `m` is valid as a request (`is_request`) or as a response: an
/// unknown method never is, and a goodbye is only ever a request.
pub open spec fn accepts(is_request: bool, m: RPCMethod) -> bool {
    m != RPCMethod::Unknown && (is_request || m != RPCMethod::Goodbye)
}

/// A message of the protocol, with its payload still encoded.
#[derive(Debug, Clone)]
pub enum RPCEvent {
    Request { id: RequestId, method_id: u16, body: Vec<u8> },
    Response { id: RequestId, method_id: u16, result: Vec<u8> },
}

/// Why a packet is not a message.
#[derive(Debug, Clone, Copy, PartialEq, Eq, Structural)]
pub enum DecodeError {
    /// The packet is not a well-formed frame.
    SSZDecodeError,
    /// The method code names no method that may come in this direction.
    UnknownRPCMethod,
}

/// The frame of a message: the flag byte, the id and the method code (little-endian), the offset
/// of the payload, and the payload.
pub open spec fn frame(is_request: bool, id: u64, method_id: u16, payload: Seq<u8>) -> Seq<u8> {
    seq![if is_request { 1u8 } else { 0u8 }] + le_bytes(id as nat, 8) + le_bytes(method_id as nat, 2)
        + le_bytes(FIXED_LEN as nat, 4) + payload
}

/// The frame of `e`.
pub open spec fn event_frame(e: RPCEvent) -> Seq<u8> {
    match e {
        RPCEvent::Request { id, method_id, body } => frame(true, id.0, method_id, body@),
        RPCEvent::Response { id, method_id, result } => frame(false, id.0, method_id, result@),
    }
}

/// `p` has the shape of a frame: a whole fixed part, a flag byte of zero or one, and a payload
/// that starts right after the fixed part.
pub open spec fn is_frame(p: Seq<u8>) -> bool {
    &&& p.len() >= FIXED_LEN
    &&& p[0] <= 1
    &&& le_value(p.subrange(11, 15)) == FIXED_LEN
}

/// The method code of the frame `p`.
pub open spec fn frame_method(p: Seq<u8>) -> u16 {
    le_value(p.subrange(9, 11)) as u16
}

impl RPCEvent {
    /// Appends the frame of this message to `buf`.
    pub fn ssz_append(&self, buf: &mut Vec<u8>)
        ensures
            final(buf)@ == old(buf)@ + event_frame(*self),
    {
        let (is_request, id, method_id, payload) = match self {
            RPCEvent::Request { id, method_id, body } => (true, id, method_id, body),
            RPCEvent::Response { id, method_id, result } => (false, id, method_id, result),
        };
        let ghost start = buf@;
        buf.push(if is_request { 1u8 } else { 0u8 });
        push_le_bytes(buf, id.0, 8);
        push_le_bytes(buf, *method_id as u64, 2);
        push_le_bytes(buf, FIXED_LEN as u64, 4);
        let mut k: usize = 0;
        let ghost fixed = buf@;
        while k < payload.len()
            invariant
                k <= payload@.len(),
                buf@ =~= fixed + payload@.subrange(0, k as int),
            decreases payload@.len() - k,
        {
            buf.push(payload[k]);
            k = k + 1;
        }
        assert(buf@ =~= start + event_frame(*self));
    }

    /// Returns the frame of this message.
    pub fn as_ssz_bytes(&self) -> (r: Vec<u8>)
        ensures
            r@ == event_frame(*self),
    {
        let mut buf: Vec<u8> = Vec::new();
        self.ssz_append(&mut buf);
        assert(buf@ =~= event_frame(*self));
        buf
    }
}

/// Reads a message from `packet`.
pub fn decode(packet: Vec<u8>) -> (r: Result<RPCEvent, DecodeError>)
    ensures
        !is_frame(packet@) ==> r == Err::<RPCEvent, DecodeError>(DecodeError::SSZDecodeError),
        is_frame(packet@) && !accepts(packet@[0] == 1, method_of(frame_method(packet@))) ==> r
            == Err::<RPCEvent, DecodeError>(DecodeError::UnknownRPCMethod),
        r is Ok <==> is_frame(packet@) && accepts(packet@[0] == 1, method_of(frame_method(packet@))),
        r matches Ok(e) ==> match e {
            RPCEvent::Request { id, method_id, body } => {
                &&& packet@[0] == 1
                &&& id.0 == le_value(packet@.subrange(1, 9))
                &&& method_id == frame_method(packet@)
                &&& body@ == packet@.subrange(15, packet@.len() as int)
            },
            RPCEvent::Response { id, method_id, result } => {
                &&& packet@[0] == 0
                &&& id.0 == le_value(packet@.subrange(1, 9))
                &&& method_id == frame_method(packet@)
                &&& result@ == packet@.subrange(15, packet@.len() as int)
            },
        },
{
    if packet.len() < FIXED_LEN {
        return Err(DecodeError::SSZDecodeError);
    }
    let flag = packet[0];
    let offset = read_le(packet.as_slice(), 11, 4);
    if flag > 1 || offset != FIXED_LEN as u64 {
        return Err(DecodeError::SSZDecodeError);
    }
    let id = read_le(packet.as_slice(), 1, 8);
    let code = read_le(packet.as_slice(), 9, 2);
    proof {
        lemma_pow256_small();
        crate::int_bytes::lemma_le_value_bound(packet@.subrange(9, 11));
    }
    let method_id = code as u16;
    let is_request = flag == 1;
    let method = RPCMethod::from(method_id);
    let known = match method {
        RPCMethod::Unknown => false,
        RPCMethod::Goodbye => is_request,
        _ => true,
    };
    if !known {
        return Err(DecodeError::UnknownRPCMethod);
    }
    let mut payload: Vec<u8> = Vec::new();
    let mut k: usize = FIXED_LEN;
    while k < packet.len()
        invariant
            FIXED_LEN <= k <= packet@.len(),
            payload@ =~= packet@.subrange(15, k as int),
        decreases packet@.len() - k,
    {
        payload.push(packet[k]);
        k = k + 1;
    }
    if is_request {
        Ok(RPCEvent::Request { id: RequestId(id), method_id, body: payload })
    } else {
        Ok(RPCEvent::Response { id: RequestId(id), method_id, result: payload })
    }
}

/// Reading back a frame gives what was framed: the flag, the id, the method code and the
/// payload.
pub proof fn lemma_frame_round_trip(is_request: bool, id: u64, method_id: u16, payload: Seq<u8>)
    ensures
        ({
            let p = frame(is_request, id, method_id, payload);
            &&& is_frame(p)
            &&& (p[0] == 1) == is_request
            &&& le_value(p.subrange(1, 9)) == id
            &&& frame_method(p) == method_id
            &&& p.subrange(15, p.len() as int) == payload
        }),
{
    lemma_pow256_small();
    lemma_le_round_trip(id as nat, 8);
    lemma_le_round_trip(method_id as nat, 2);
    lemma_le_round_trip(FIXED_LEN as nat, 4);
    let p = frame(is_request, id, method_id, payload);
    assert(p.subrange(1, 9) =~= le_bytes(id as nat, 8));
    assert(p.subrange(9, 11) =~= le_bytes(method_id as nat, 2));
    assert(p.subrange(11, 15) =~= le_bytes(FIXED_LEN as nat, 4));
    assert(p.subrange(15, p.len() as int) =~= payload);
}

} // verus!
