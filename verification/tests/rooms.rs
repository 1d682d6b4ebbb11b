use room_relay::rooms::{Room, RoomError, Rooms};

#[test]
fn room_activation_flag() {
    let mut r = Room::new();
    assert!(!r.is_active());
    r.activate();
    assert!(r.is_active());
    r.deactivate();
    assert!(!r.is_active());
}

#[test]
fn registry_lookup_does_not_create() {
    let rooms = Rooms::new();
    assert!(rooms.get_room(&"X".to_string()).is_none());
}

#[test]
fn registry_insert_then_lookup() {
    let mut rooms = Rooms::new();
    rooms.insert("X".to_string(), Room::new());
    let room = rooms.get_room(&"X".to_string()).unwrap();
    assert!(!room.is_active());
    assert!(rooms.get_room(&"Y".to_string()).is_none());
}

#[test]
fn single_active_episode_per_room() {
    let mut rooms = Rooms::new();
    // first attempt claims the room, the second is a no-op
    assert!(rooms.begin_episode(&"X".to_string()));
    assert!(!rooms.begin_episode(&"X".to_string()));
    // another room is unaffected
    assert!(rooms.begin_episode(&"Y".to_string()));
    // once the episode ends the room can be served again
    rooms.end_episode(&"X".to_string());
    assert!(rooms.begin_episode(&"X".to_string()));
}

#[test]
fn apply_to_unknown_room_is_rejected() {
    let mut rooms = Rooms::new();
    let r = rooms.apply_state_update(&"X".to_string(), &vec![1, 2, 3]);
    assert_eq!(r, Err(RoomError::UnknownRoom));
}

#[test]
fn apply_malformed_update_is_rejected() {
    let mut rooms = Rooms::new();
    assert!(rooms.begin_episode(&"X".to_string()));
    let r = rooms.apply_state_update(&"X".to_string(), &vec![255, 255, 255, 255]);
    assert_eq!(r, Err(RoomError::DocFailed));
}

#[test]
fn snapshot_of_unknown_room_is_rejected() {
    let rooms = Rooms::new();
    let r = rooms.encode_room_snapshot(&"X".to_string());
    assert_eq!(r, Err(RoomError::UnknownRoom));
}
