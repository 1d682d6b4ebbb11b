use room_relay::pattern::RoomAnnouncePattern;

#[test]
fn test_room_announce_pattern() {
    let index_namespace = ".".to_string();
    let prefix_participant = "room.participant.".to_string();
    let prefix_room = "room.provider.".to_string();
    assert_eq!(
        RoomAnnouncePattern::parse_announce(
            index_namespace.clone(),
            prefix_participant.clone(),
            ".room.participant.xyz.abc".to_string()
        )
        .unwrap(),
        RoomAnnouncePattern::new(
            index_namespace.clone(),
            prefix_participant.clone(),
            "xyz".to_string(),
            "abc".to_string()
        )
    );

    assert_eq!(
        RoomAnnouncePattern::parse_announce(
            index_namespace.clone(),
            prefix_room.clone(),
            ".room.provider.xyz.abc".to_string()
        )
        .unwrap(),
        RoomAnnouncePattern::new(
            index_namespace.clone(),
            prefix_room.clone(),
            "xyz".to_string(),
            "abc".to_string()
        )
    );

    assert_eq!(
        RoomAnnouncePattern::parse_announce(
            index_namespace.clone(),
            prefix_participant.clone(),
            ".room.participantxyz.abc".to_string()
        ),
        None,
    );
}

#[test]
fn parse_is_left_inverse_of_to_namespace() {
    let p = RoomAnnouncePattern::new(
        ".".to_string(),
        "room.participant.".to_string(),
        "myroom".to_string(),
        "alice".to_string(),
    );
    let ns = p.to_namespace();
    assert_eq!(ns, ".room.participant.myroom.alice");
    let q = RoomAnnouncePattern::parse_announce(
        ".".to_string(),
        "room.participant.".to_string(),
        ns,
    )
    .unwrap();
    assert_eq!(q, p);
}

#[test]
fn parse_needs_two_components() {
    assert_eq!(
        RoomAnnouncePattern::parse_announce(
            ".".to_string(),
            "room.participant.".to_string(),
            ".room.participant.onlyroom".to_string()
        ),
        None,
    );
}

#[test]
fn parse_ignores_extra_components() {
    let q = RoomAnnouncePattern::parse_announce(
        ".".to_string(),
        "room.participant.".to_string(),
        ".room.participant.x.y.z.w".to_string(),
    )
    .unwrap();
    assert_eq!(q.room_id, "x");
    assert_eq!(q.publisher_id, "y");
}

#[test]
fn to_index_track_format() {
    let p = RoomAnnouncePattern::new(
        ".".to_string(),
        "room.participant.".to_string(),
        "X".to_string(),
        "A".to_string(),
    );
    assert_eq!(p.to_index_track(), "room.participant.X.");
}
