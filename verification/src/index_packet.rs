//! The index feed's line protocol.
//!
//! A payload on a room's index track is UTF-8 text: an empty string is a
//! snapshot with no members; text containing a line separator is a snapshot
//! whose members are the non-empty lines, in order; a single line starting
//! with `+` or `-` inserts or removes the member named by the remainder; any
//! other single line degrades to an empty snapshot rather than an error.

use vstd::prelude::*;
use vstd::string::*;
use crate::pattern::{find_char_from, find_from, lemma_find_from_props};

verus! {

/// The characters `String::from_utf8_lossy` reads out of a byte payload:
/// its UTF-8 text, with invalid sequences replaced. A function of the bytes
/// alone.
pub uninterp spec fn utf8_lossy(b: Seq<u8>) -> Seq<char>;

/// Relies on std's String::from_utf8_lossy: decodes a payload as UTF-8 text,
/// replacing invalid sequences rather than failing.
#[verifier::external_body]
fn lossy_string(bytes: &[u8]) -> (r: String)
    ensures
        r@ == utf8_lossy(bytes@),
{
    String::from_utf8_lossy(bytes).to_string()
}

/// One membership event read off a room's index track.
#[derive(Debug, PartialEq, Eq)]
pub enum IndexPacket {
    Insert(String),
    Remove(String),
    Snapshot(Vec<String>),
}

/// Mathematical shape of an [`IndexPacket`]: identifiers as character
/// sequences.
pub enum IndexEvent {
    Insert(Seq<char>),
    Remove(Seq<char>),
    Snapshot(Seq<Seq<char>>),
}

/// The views of the strings in `v`, in order.
pub open spec fn string_views(v: Seq<String>) -> Seq<Seq<char>> {
    v.map_values(|x: String| x@)
}

/// The non-empty lines of `s` from position `i` on, splitting on `'\n'`.
pub open spec fn nonempty_lines_from(s: Seq<char>, i: int) -> Seq<Seq<char>>
    decreases s.len() - i,
    via nonempty_lines_from_dec
{
    if i < 0 || i >= s.len() {
        Seq::empty()
    } else {
        let d = find_from(s, '\n', i);
        let head = s.subrange(i, d);
        let next = if d < s.len() {
            d + 1
        } else {
            s.len() as int
        };
        (if head.len() == 0 {
            Seq::<Seq<char>>::empty()
        } else {
            seq![head]
        }) + nonempty_lines_from(s, next)
    }
}

#[via_fn]
proof fn nonempty_lines_from_dec(s: Seq<char>, i: int) {
    if 0 <= i < s.len() {
        lemma_find_from_props(s, '\n', i);
    }
}

/// What parsing an index payload yields.
pub open spec fn index_packet_spec(s: Seq<char>) -> IndexEvent {
    if s.len() == 0 {
        IndexEvent::Snapshot(Seq::empty())
    } else if s.contains('\n') {
        IndexEvent::Snapshot(nonempty_lines_from(s, 0))
    } else if s[0] == '+' {
        IndexEvent::Insert(s.subrange(1, s.len() as int))
    } else if s[0] == '-' {
        IndexEvent::Remove(s.subrange(1, s.len() as int))
    } else {
        IndexEvent::Snapshot(Seq::empty())
    }
}

impl IndexPacket {
    /// The membership event this packet denotes.
    pub open spec fn model(self) -> IndexEvent {
        match self {
            IndexPacket::Insert(s) => IndexEvent::Insert(s@),
            IndexPacket::Remove(s) => IndexEvent::Remove(s@),
            IndexPacket::Snapshot(v) => IndexEvent::Snapshot(string_views(v@)),
        }
    }

    /// Parse an index payload. Total: unparseable single-line content degrades
    /// to an empty snapshot, by design of the protocol.
    pub fn from(value: String) -> (r: IndexPacket)
        ensures
            r.model() == index_packet_spec(value@),
    {
        let s = value.as_str();
        let len = s.unicode_len();
        if len == 0 {
            let parts: Vec<String> = Vec::new();
            assert(string_views(parts@) =~= Seq::<Seq<char>>::empty());
            return IndexPacket::Snapshot(parts);
        }
        let d0 = find_char_from(s, '\n', 0);
        proof {
            lemma_find_from_props(s@, '\n', 0);
        }
        if d0 < len {
            assert(s@.contains('\n'));
            let mut parts: Vec<String> = Vec::new();
            let mut i: usize = 0;
            while i < len
                invariant
                    0 <= i <= len,
                    len == s@.len(),
                    string_views(parts@) + nonempty_lines_from(s@, i as int) == nonempty_lines_from(
                        s@,
                        0,
                    ),
                decreases len - i,
            {
                let e = find_char_from(s, '\n', i);
                let ghost old_parts = parts@;
                if e > i {
                    parts.push(String::from_str(s.substring_char(i, e)));
                    assert(string_views(parts@) =~= string_views(old_parts).push(
                        s@.subrange(i as int, e as int),
                    ));
                }
                let ghost next: int = if e < len {
                    e + 1
                } else {
                    len as int
                };
                assert(string_views(parts@) + nonempty_lines_from(s@, next) == nonempty_lines_from(
                    s@,
                    0,
                ));
                if e == len {
                    i = len;
                } else {
                    i = e + 1;
                }
                assert(i as int == next);
            }
            assert(nonempty_lines_from(s@, i as int) =~= Seq::<Seq<char>>::empty());
            assert(string_views(parts@) =~= nonempty_lines_from(s@, 0));
            return IndexPacket::Snapshot(parts);
        }
        assert(!s@.contains('\n'));
        let c0 = s.get_char(0);
        if c0 == '+' {
            IndexPacket::Insert(String::from_str(s.substring_char(1, len)))
        } else if c0 == '-' {
            IndexPacket::Remove(String::from_str(s.substring_char(1, len)))
        } else {
            let parts: Vec<String> = Vec::new();
            assert(string_views(parts@) =~= Seq::<Seq<char>>::empty());
            IndexPacket::Snapshot(parts)
        }
    }

    /// Parse an index payload arriving as raw bytes: its UTF-8 text, read
    /// leniently, parsed as an index packet.
    pub fn from_payload(bytes: &[u8]) -> (r: IndexPacket)
        ensures
            r.model() == index_packet_spec(utf8_lossy(bytes@)),
    {
        IndexPacket::from(lossy_string(bytes))
    }
}

} // verus!
