use cached_tree_hash::protocol::{decode, DecodeError, RPCEvent, RPCMethod, RPCProtocol, RequestId};

fn packet(flag: u8, id: u64, code: u16, payload: &[u8]) -> Vec<u8> {
    let mut p = vec![flag];
    p.extend_from_slice(&id.to_le_bytes());
    p.extend_from_slice(&code.to_le_bytes());
    p.extend_from_slice(&15u32.to_le_bytes());
    p.extend_from_slice(payload);
    p
}

#[test]
fn request_id_counts() {
    let mut id = RequestId::default();
    id.increment();
    id.increment();
    assert_eq!(id, RequestId::from(2));
    assert_eq!(id.previous(), RequestId::from(1));
    let raw: u64 = id.into();
    assert_eq!(raw, 2);
}

#[test]
fn method_codes() {
    assert_eq!(RPCMethod::from(0), RPCMethod::Hello);
    assert_eq!(RPCMethod::from(1), RPCMethod::Goodbye);
    assert_eq!(RPCMethod::from(10), RPCMethod::BeaconBlockRoots);
    assert_eq!(RPCMethod::from(11), RPCMethod::BeaconBlockHeaders);
    assert_eq!(RPCMethod::from(12), RPCMethod::BeaconBlockBodies);
    assert_eq!(RPCMethod::from(13), RPCMethod::BeaconChainState);
    assert_eq!(RPCMethod::from(2), RPCMethod::Unknown);
}

#[test]
fn decode_request() {
    match decode(packet(1, 7, 10, &[9, 8])) {
        Ok(RPCEvent::Request { id, method_id, body }) => {
            assert_eq!(id, RequestId::from(7));
            assert_eq!(method_id, 10);
            assert_eq!(body, vec![9, 8]);
        }
        other => panic!("unexpected {:?}", other),
    }
}

#[test]
fn decode_response() {
    match decode(packet(0, 0x0102_0304_0506_0708, 0, &[])) {
        Ok(RPCEvent::Response { id, method_id, result }) => {
            assert_eq!(id, RequestId::from(0x0102_0304_0506_0708));
            assert_eq!(method_id, 0);
            assert!(result.is_empty());
        }
        other => panic!("unexpected {:?}", other),
    }
}

#[test]
fn decode_rejects_goodbye_response_and_unknown() {
    assert!(matches!(decode(packet(0, 1, 1, &[])), Err(DecodeError::UnknownRPCMethod)));
    assert!(matches!(decode(packet(1, 1, 1, &[])), Ok(RPCEvent::Request { .. })));
    assert!(matches!(decode(packet(1, 1, 99, &[])), Err(DecodeError::UnknownRPCMethod)));
}

#[test]
fn decode_rejects_bad_frames() {
    assert!(matches!(decode(vec![1, 2, 3]), Err(DecodeError::SSZDecodeError)));
    assert!(matches!(decode(packet(2, 1, 0, &[])), Err(DecodeError::SSZDecodeError)));
    let mut p = packet(1, 1, 0, &[]);
    p[11] = 16;
    assert!(matches!(decode(p), Err(DecodeError::SSZDecodeError)));
}

#[test]
fn encode_then_decode() {
    let e = RPCEvent::Request { id: RequestId::from(42), method_id: 13, body: vec![1, 2, 3] };
    let bytes = e.as_ssz_bytes();
    assert_eq!(bytes, packet(1, 42, 13, &[1, 2, 3]));
    match decode(bytes) {
        Ok(RPCEvent::Request { id, method_id, body }) => {
            assert_eq!(id, RequestId::from(42));
            assert_eq!(method_id, 13);
            assert_eq!(body, vec![1, 2, 3]);
        }
        other => panic!("unexpected {:?}", other),
    }
    let mut buf = vec![0xaa];
    RPCEvent::Response { id: RequestId::from(1), method_id: 0, result: vec![] }.ssz_append(&mut buf);
    assert_eq!(buf[0], 0xaa);
    assert_eq!(&buf[1..], &packet(0, 1, 0, &[])[..]);
}

#[test]
fn protocol_name() {
    assert_eq!(RPCProtocol::default().protocol_info(), "/eth/serenity/rpc/1.0.0");
}
