use room_relay::index_packet::IndexPacket;
use room_relay::listener::RoomListener;
use room_relay::pattern::RoomAnnouncePattern;

fn room_listener() -> RoomListener {
    RoomListener::new(
        RoomAnnouncePattern::new(
            ".".to_string(),
            "room.participant.".to_string(),
            "X".to_string(),
            "A".to_string(),
        ),
        ".doc".to_string(),
    )
}

fn sorted_ids(l: &RoomListener) -> Vec<String> {
    let mut ids = l.participant_ids().clone();
    ids.sort();
    ids
}

#[test]
fn insert_tracks_and_starts_once() {
    let mut l = room_listener();
    let a1 = l.handle_packet(IndexPacket::Insert("a".to_string()));
    assert_eq!(a1.len(), 1);
    assert_eq!(a1[0].namespace, ".room.participant.X.a");
    assert_eq!(a1[0].track, ".doc");
    // a duplicate insert is a no-op
    let a2 = l.handle_packet(IndexPacket::Insert("a".to_string()));
    assert_eq!(a2.len(), 0);
    assert_eq!(sorted_ids(&l), vec!["a".to_string()]);
}

#[test]
fn remove_untracks() {
    let mut l = room_listener();
    l.handle_packet(IndexPacket::Insert("a".to_string()));
    l.handle_packet(IndexPacket::Insert("b".to_string()));
    let acts = l.handle_packet(IndexPacket::Remove("a".to_string()));
    assert_eq!(acts.len(), 0);
    assert_eq!(sorted_ids(&l), vec!["b".to_string()]);
}

#[test]
fn snapshot_reconciliation() {
    let mut l = room_listener();
    l.handle_packet(IndexPacket::Insert("a".to_string()));
    l.handle_packet(IndexPacket::Insert("b".to_string()));
    l.handle_packet(IndexPacket::Insert("c".to_string()));
    let acts = l.handle_packet(IndexPacket::Snapshot(vec![
        "b".to_string(),
        "c".to_string(),
        "d".to_string(),
    ]));
    // a removed, d added and started, b/c untouched
    assert_eq!(
        sorted_ids(&l),
        vec!["b".to_string(), "c".to_string(), "d".to_string()]
    );
    assert_eq!(acts.len(), 1);
    assert_eq!(acts[0].namespace, ".room.participant.X.d");
    assert_eq!(acts[0].track, ".doc");
}

#[test]
fn snapshot_deduplicates_new_ids() {
    let mut l = room_listener();
    let acts = l.handle_packet(IndexPacket::Snapshot(vec![
        "a".to_string(),
        "a".to_string(),
        "b".to_string(),
    ]));
    assert_eq!(sorted_ids(&l), vec!["a".to_string(), "b".to_string()]);
    assert_eq!(acts.len(), 2);
    assert_eq!(acts[0].namespace, ".room.participant.X.a");
    assert_eq!(acts[1].namespace, ".room.participant.X.b");
}

#[test]
fn empty_snapshot_clears_the_set() {
    let mut l = room_listener();
    l.handle_packet(IndexPacket::Insert("a".to_string()));
    let acts = l.handle_packet(IndexPacket::Snapshot(vec![]));
    assert_eq!(acts.len(), 0);
    assert_eq!(sorted_ids(&l), Vec::<String>::new());
}
