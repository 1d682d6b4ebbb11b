use room_relay::codec::{
    decode_packets, encode_state_packet, parse_state_packet, DeltaPacket, RoomPacket,
    SnapshotPacket, StatePacket,
};

#[test]
fn encode_snapshot_exact_bytes() {
    let p = StatePacket::DocSnapshot(SnapshotPacket {
        update: vec![0, 10, 255],
    });
    assert_eq!(
        encode_state_packet(&p),
        b"{\"packet_type\":\"doc_snapshot\",\"update\":[0,10,255]}".to_vec()
    );
}

#[test]
fn encode_delta_empty_update() {
    let p = StatePacket::DocDelta(DeltaPacket { update: vec![] });
    assert_eq!(
        encode_state_packet(&p),
        b"{\"packet_type\":\"doc_delta\",\"update\":[]}".to_vec()
    );
}

#[test]
fn state_packet_round_trip() {
    let snap = StatePacket::DocSnapshot(SnapshotPacket {
        update: vec![1, 99, 100, 255, 0],
    });
    let parsed = parse_state_packet(&encode_state_packet(&snap)).unwrap();
    assert_eq!(parsed, snap);
    let delta = StatePacket::DocDelta(DeltaPacket { update: vec![42] });
    let parsed = parse_state_packet(&encode_state_packet(&delta)).unwrap();
    assert_eq!(parsed, delta);
}

#[test]
fn decode_classifies_each_element() {
    let payload = b"[{\"packet_type\":\"doc_snapshot\",\"update\":[1,2,3]} , {\"x\":1}, 5, \"s\"]";
    let ps = decode_packets(payload).unwrap();
    assert_eq!(ps.len(), 4);
    assert_eq!(
        ps[0],
        RoomPacket::StatePacket(StatePacket::DocSnapshot(SnapshotPacket {
            update: vec![1, 2, 3]
        }))
    );
    assert_eq!(ps[1], RoomPacket::Other(b"{\"x\":1}".to_vec()));
    assert_eq!(ps[2], RoomPacket::Other(b"5".to_vec()));
    assert_eq!(ps[3], RoomPacket::Other(b"\"s\"".to_vec()));
}

#[test]
fn decode_accepts_either_key_order_and_whitespace() {
    let payload = b"[ { \"update\" : [ 7 , 255 ] , \"packet_type\" : \"doc_delta\" } ]";
    let ps = decode_packets(payload).unwrap();
    assert_eq!(ps.len(), 1);
    assert_eq!(
        ps[0],
        RoomPacket::StatePacket(StatePacket::DocDelta(DeltaPacket {
            update: vec![7, 255]
        }))
    );
}

#[test]
fn decode_unknown_member_degrades_to_opaque() {
    let payload = b"[{\"packet_type\":\"doc_snapshot\",\"update\":[1],\"z\":0}]";
    let ps = decode_packets(payload).unwrap();
    assert_eq!(ps.len(), 1);
    assert_eq!(
        ps[0],
        RoomPacket::Other(b"{\"packet_type\":\"doc_snapshot\",\"update\":[1],\"z\":0}".to_vec())
    );
}

#[test]
fn decode_oversized_byte_degrades_to_opaque() {
    let payload = b"[{\"packet_type\":\"doc_delta\",\"update\":[256]}]";
    let ps = decode_packets(payload).unwrap();
    assert_eq!(
        ps[0],
        RoomPacket::Other(b"{\"packet_type\":\"doc_delta\",\"update\":[256]}".to_vec())
    );
}

#[test]
fn decode_wrong_tag_degrades_to_opaque() {
    let payload = b"[{\"packet_type\":\"doc_other\",\"update\":[1]}]";
    let ps = decode_packets(payload).unwrap();
    assert!(matches!(ps[0], RoomPacket::Other(_)));
}

#[test]
fn decode_non_array_root_is_error() {
    assert!(decode_packets(b"{\"a\":1}").is_err());
    assert!(decode_packets(b"").is_err());
    assert!(decode_packets(b"null").is_err());
    assert!(decode_packets(b"[1] trailing").is_err());
    assert!(decode_packets(b"[1,]").is_err());
}

#[test]
fn decode_empty_array_is_no_packets() {
    let ps = decode_packets(b"  [ ]  ").unwrap();
    assert_eq!(ps.len(), 0);
}

#[test]
fn decode_measures_extent_not_validity() {
    // an opaque element is delimited structurally, not validated as JSON
    let ps = decode_packets(b"[5x]").unwrap();
    assert_eq!(ps.len(), 1);
    assert_eq!(ps[0], RoomPacket::Other(b"5x".to_vec()));
    let ps = decode_packets(b"[{],5]").unwrap();
    assert_eq!(ps.len(), 2);
    assert_eq!(ps[0], RoomPacket::Other(b"{]".to_vec()));
    assert_eq!(ps[1], RoomPacket::Other(b"5".to_vec()));
    // but an element that cannot be delimited still fails the payload
    assert!(decode_packets(b"[\"unterminated]").is_err());
}

#[test]
fn decode_nested_structures_stay_opaque() {
    let payload = b"[{\"a\":[1,{\"b\":\"]}\"}]},true]";
    let ps = decode_packets(payload).unwrap();
    assert_eq!(ps.len(), 2);
    assert_eq!(
        ps[0],
        RoomPacket::Other(b"{\"a\":[1,{\"b\":\"]}\"}]}".to_vec())
    );
    assert_eq!(ps[1], RoomPacket::Other(b"true".to_vec()));
}
