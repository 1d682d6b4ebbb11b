use room_relay::index_packet::IndexPacket;

#[test]
fn test_index_packet_parse() {
    assert_eq!(
        IndexPacket::from(String::from("+a")),
        IndexPacket::Insert(String::from("a"))
    );
    assert_eq!(
        IndexPacket::from(String::from("+")),
        IndexPacket::Insert(String::from(""))
    );
    assert_eq!(
        IndexPacket::from(String::from("-b")),
        IndexPacket::Remove(String::from("b"))
    );
    assert_eq!(
        IndexPacket::from(String::from("")),
        IndexPacket::Snapshot(vec![])
    );
    assert_eq!(
        IndexPacket::from(String::from("a\nb\nc\n")),
        IndexPacket::Snapshot(vec![
            String::from("a"),
            String::from("b"),
            String::from("c")
        ])
    );
    assert_eq!(
        IndexPacket::from(String::from("a\n")),
        IndexPacket::Snapshot(vec![String::from("a")])
    );
    assert_eq!(
        IndexPacket::from(String::from(
            "-avjVnd-ZhAhSiWwcrSBZ\naM7kvaj-Y1LnFZ4krInja\n"
        )),
        IndexPacket::Snapshot(vec![
            String::from("-avjVnd-ZhAhSiWwcrSBZ"),
            String::from("aM7kvaj-Y1LnFZ4krInja")
        ])
    );
}

#[test]
fn index_packet_two_line_snapshot() {
    assert_eq!(
        IndexPacket::from(String::from("a\nb\n")),
        IndexPacket::Snapshot(vec![String::from("a"), String::from("b")])
    );
}

#[test]
fn index_packet_fallback_is_empty_snapshot() {
    assert_eq!(
        IndexPacket::from(String::from("garbage")),
        IndexPacket::Snapshot(vec![])
    );
}

#[test]
fn index_packet_remove_empty_id() {
    assert_eq!(
        IndexPacket::from(String::from("-")),
        IndexPacket::Remove(String::from(""))
    );
}

#[test]
fn index_packet_from_raw_bytes() {
    assert_eq!(
        IndexPacket::from_payload(b"+abc"),
        IndexPacket::Insert(String::from("abc"))
    );
    assert_eq!(
        IndexPacket::from_payload(b"a\nb\n"),
        IndexPacket::Snapshot(vec![String::from("a"), String::from("b")])
    );
}

#[test]
fn index_packet_blank_lines_dropped() {
    assert_eq!(
        IndexPacket::from(String::from("\n\na\n\nb")),
        IndexPacket::Snapshot(vec![String::from("a"), String::from("b")])
    );
}
