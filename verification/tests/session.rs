use room_relay::codec::{decode_packets, encode_state_packet, SnapshotPacket, StatePacket};
use room_relay::index_packet::IndexPacket;
use room_relay::rooms::Rooms;
use room_relay::session::{serve_announce, serve_announce_decision, SessionConfig};

fn config() -> SessionConfig {
    SessionConfig {
        index_namespace: ".".to_string(),
        participant_prefix: "room.participant.".to_string(),
        provider_prefix: "room.provider.".to_string(),
        track: ".doc".to_string(),
    }
}

/// A real document update: one entry in the room's root map, encoded by the
/// engine itself.
fn engine_update() -> Vec<u8> {
    let doc = yrs::Doc::new();
    let map = doc.get_or_insert_map("shapes");
    {
        let mut txn = yrs::Transact::transact_mut(&doc);
        yrs::Map::insert(&map, &mut txn, "k", "v".to_string());
    }
    let txn = yrs::Transact::transact(&doc);
    yrs::ReadTxn::encode_state_as_update_v1(&txn, &yrs::StateVector::default())
}

#[test]
fn matching_announce_starts_one_episode() {
    let mut rooms = Rooms::new();
    let cfg = config();
    let ep = serve_announce_decision(
        &mut rooms,
        &cfg,
        ".room.participant.X.A".to_string(),
        "instance0".to_string(),
    )
    .unwrap();
    assert_eq!(ep.room_id, "X");
    assert_eq!(ep.listener.announce.room_id, "X");
    assert_eq!(ep.listener.announce.publisher_id, "A");
    assert_eq!(ep.listener.track, ".doc");
    assert_eq!(ep.provider.announce.to_namespace(), ".room.provider.X.instance0");
    assert_eq!(ep.channel_capacity, 1024);

    // a second announce for the same room while active is dropped
    let again = serve_announce_decision(
        &mut rooms,
        &cfg,
        ".room.participant.X.B".to_string(),
        "instance1".to_string(),
    );
    assert!(again.is_none());

    // after the episode ends the room can be served again
    rooms.end_episode(&"X".to_string());
    let third = serve_announce_decision(
        &mut rooms,
        &cfg,
        ".room.participant.X.B".to_string(),
        "instance2".to_string(),
    );
    assert!(third.is_some());
}

#[test]
fn non_matching_announce_is_ignored() {
    let mut rooms = Rooms::new();
    let cfg = config();
    assert!(serve_announce_decision(
        &mut rooms,
        &cfg,
        ".room.provider.X.A".to_string(),
        "instance0".to_string(),
    )
    .is_none());
    assert!(serve_announce_decision(
        &mut rooms,
        &cfg,
        ".room.participantX.A".to_string(),
        "instance0".to_string(),
    )
    .is_none());
    assert!(rooms.get_room(&"X".to_string()).is_none());
}

#[test]
fn minted_instance_id_lands_in_provider_namespace() {
    let mut rooms = Rooms::new();
    let cfg = config();
    let ep = serve_announce(&mut rooms, &cfg, ".room.participant.X.A".to_string()).unwrap();
    let ns = ep.provider.announce.to_namespace();
    assert!(ns.starts_with(".room.provider.X."));
    assert!(ns.len() > ".room.provider.X.".len());
}

#[test]
fn end_to_end_announce_to_republish() {
    let mut rooms = Rooms::new();
    let cfg = config();

    // participant announces under .room.participant.X.A
    let ep = serve_announce_decision(
        &mut rooms,
        &cfg,
        ".room.participant.X.A".to_string(),
        "feedcafe".to_string(),
    )
    .unwrap();
    let mut listener = ep.listener;
    let mut provider = ep.provider;

    // the index feed emits +A: the listener asks to subscribe to A's track
    let actions = listener.handle_packet(IndexPacket::from(String::from("+A")));
    assert_eq!(actions.len(), 1);
    assert_eq!(actions[0].namespace, ".room.participant.X.A");
    assert_eq!(actions[0].track, ".doc");

    // the provider first publishes a full snapshot
    let (h0, payload0) = provider.send_initial_snapshot(&rooms).unwrap();
    assert_eq!((h0.group_id, h0.object_id, h0.priority), (0, 0, 0));
    assert!(payload0.starts_with(&b"{\"packet_type\":\"doc_snapshot\""[..]));

    // the participant sends one object carrying a doc_snapshot
    let upd = engine_update();
    let mut payload: Vec<u8> = b"[".to_vec();
    payload.extend_from_slice(&encode_state_packet(&StatePacket::DocSnapshot(
        SnapshotPacket {
            update: upd.clone(),
        },
    )));
    payload.extend_from_slice(b"]");
    let mut pkts = decode_packets(&payload).unwrap();
    assert_eq!(pkts.len(), 1);

    // the provider applies it and republishes it as the next object
    let (h1, payload1) = provider
        .handle_packet(&mut rooms, pkts.remove(0))
        .unwrap();
    assert_eq!((h1.group_id, h1.object_id, h1.priority), (0, 1, 1));
    assert_eq!(
        payload1,
        encode_state_packet(&StatePacket::DocSnapshot(SnapshotPacket { update: upd }))
    );
    assert!(provider
        .announce
        .to_namespace()
        .starts_with(".room.provider.X."));
}
