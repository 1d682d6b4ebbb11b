use room_relay::codec::{encode_state_packet, DeltaPacket, RoomPacket, StatePacket};
use room_relay::pattern::RoomAnnouncePattern;
use room_relay::provider::RoomProvider;
use room_relay::rooms::Rooms;

/// A real document update: one entry in the room's root map, encoded by the
/// engine itself.
fn engine_update() -> Vec<u8> {
    let doc = yrs::Doc::new();
    let map = doc.get_or_insert_map("shapes");
    {
        let mut txn = yrs::Transact::transact_mut(&doc);
        yrs::Map::insert(&map, &mut txn, "k", "v".to_string());
    }
    let txn = yrs::Transact::transact(&doc);
    yrs::ReadTxn::encode_state_as_update_v1(&txn, &yrs::StateVector::default())
}

#[test]
fn provider_emits_snapshot_then_strictly_increasing_ids() {
    let mut rooms = Rooms::new();
    let rid = "X".to_string();
    assert!(rooms.begin_episode(&rid));
    let announce = RoomAnnouncePattern::new(
        ".".to_string(),
        "room.provider.".to_string(),
        "X".to_string(),
        "instance0".to_string(),
    );
    let mut p = RoomProvider::new(announce, ".doc".to_string());

    // the first object is always a full snapshot at (0, 0, 0)
    let (h0, payload0) = p.send_initial_snapshot(&rooms).unwrap();
    assert_eq!((h0.group_id, h0.object_id, h0.priority), (0, 0, 0));
    assert!(payload0.starts_with(&b"{\"packet_type\":\"doc_snapshot\",\"update\":["[..]));

    // a state packet is merged and re-encoded at (0, 1, 1)
    let upd = engine_update();
    let pkt = RoomPacket::StatePacket(StatePacket::DocDelta(DeltaPacket {
        update: upd.clone(),
    }));
    let (h1, payload1) = p.handle_packet(&mut rooms, pkt).unwrap();
    assert_eq!((h1.group_id, h1.object_id, h1.priority), (0, 1, 1));
    assert_eq!(
        payload1,
        encode_state_packet(&StatePacket::DocDelta(DeltaPacket {
            update: upd.clone()
        }))
    );

    // an opaque packet is forwarded verbatim at (0, 2, 2)
    let (h2, payload2) = p
        .handle_packet(&mut rooms, RoomPacket::Other(b"{\"cursor\":3}".to_vec()))
        .unwrap();
    assert_eq!((h2.group_id, h2.object_id, h2.priority), (0, 2, 2));
    assert_eq!(payload2, b"{\"cursor\":3}".to_vec());
}

#[test]
fn merged_updates_reach_the_room_document() {
    let mut rooms = Rooms::new();
    let rid = "X".to_string();
    assert!(rooms.begin_episode(&rid));
    let upd = engine_update();
    rooms.apply_state_update(&rid, &upd).unwrap();

    // the room's snapshot, decoded by a plain engine document, holds the entry
    let snap = rooms.encode_room_snapshot(&rid).unwrap();
    let doc = yrs::Doc::new();
    let map = doc.get_or_insert_map("shapes");
    {
        let mut txn = yrs::Transact::transact_mut(&doc);
        let u = <yrs::Update as yrs::updates::decoder::Decode>::decode_v1(&snap).unwrap();
        txn.apply_update(u).unwrap();
    }
    let txn = yrs::Transact::transact(&doc);
    let got: String = yrs::Map::get_as(&map, &txn, "k").unwrap();
    assert_eq!(got, "v");
}
