//! The room-packet wire format.
//!
//! An object payload on a participant's track is a JSON array of values. Each
//! element is either a state packet — an object with exactly the members
//! `packet_type` (the string `doc_snapshot` or `doc_delta`) and `update` (an
//! array of byte values) — or any other JSON value, which is relayed opaquely
//! and never interpreted. This module defines the packet types, an encoder
//! for state packets, and a decoder that splits a payload into packets,
//! classifying each element.
//!
//! The decoder works directly on the payload bytes (JSON structure is ASCII;
//! on well-formed UTF-8 this reads the same as decoding to text first), and
//! it is deliberately lenient about what an opaque element may hold: the
//! array structure and the state-packet grammar are checked exactly, but an
//! element that is not a state packet is measured to its structural extent —
//! balanced brackets, strings with escapes, a bare token run — and forwarded
//! as it stands, whether or not its content is valid JSON. Only a payload
//! that is not one array, or whose elements cannot be delimited at all, is an
//! error.

use vstd::arithmetic::div_mod::{lemma_fundamental_div_mod, lemma_fundamental_div_mod_converse_div};
use vstd::prelude::*;
use vstd::slice::{slice_index_get, slice_subrange, slice_to_vec};
use vstd::string::*;

verus! {

/// A full-state update blob for the room document.
#[derive(Debug, PartialEq, Eq)]
pub struct SnapshotPacket {
    pub update: Vec<u8>,
}

/// An incremental update blob for the room document.
#[derive(Debug, PartialEq, Eq)]
pub struct DeltaPacket {
    pub update: Vec<u8>,
}

/// A packet that must be merged into room state before being relayed.
#[derive(Debug, PartialEq, Eq)]
pub enum StatePacket {
    DocSnapshot(SnapshotPacket),
    DocDelta(DeltaPacket),
}

/// One element of a payload: a state packet to merge, or an opaque JSON value
/// (kept as its raw text) to forward verbatim.
#[derive(Debug, PartialEq, Eq)]
pub enum RoomPacket {
    StatePacket(StatePacket),
    Other(Vec<u8>),
}

/// Whether a state packet is a full snapshot (else it is a delta).
pub open spec fn state_is_snapshot(p: StatePacket) -> bool {
    match p {
        StatePacket::DocSnapshot(_) => true,
        StatePacket::DocDelta(_) => false,
    }
}

/// The update blob a state packet carries.
pub open spec fn state_update(p: StatePacket) -> Seq<u8> {
    match p {
        StatePacket::DocSnapshot(s) => s.update@,
        StatePacket::DocDelta(d) => d.update@,
    }
}

/// The characters of `s` as bytes (by truncating cast; the literals this is
/// applied to are ASCII).
pub open spec fn ascii_bytes(s: Seq<char>) -> Seq<u8> {
    s.map_values(|c: char| c as u8)
}

/// JSON insignificant whitespace.
pub open spec fn is_ws(b: u8) -> bool {
    b == 32 || b == 9 || b == 10 || b == 13
}

/// An ASCII decimal digit.
pub open spec fn is_digit(b: u8) -> bool {
    48 <= b <= 57
}

/// The shortest decimal digit string of `n`.
pub open spec fn dec_digits(n: u8) -> Seq<u8> {
    let v = n as int;
    if v < 10 {
        seq![(48 + v) as u8]
    } else if v < 100 {
        seq![(48 + v / 10) as u8, (48 + v % 10) as u8]
    } else {
        seq![(48 + v / 100) as u8, (48 + (v / 10) % 10) as u8, (48 + v % 10) as u8]
    }
}

/// The bytes of a JSON array body listing `u` as decimal numbers separated by
/// commas, without the surrounding brackets.
pub open spec fn update_list_bytes(u: Seq<u8>) -> Seq<u8>
    decreases u.len(),
{
    if u.len() == 0 {
        Seq::empty()
    } else if u.len() == 1 {
        dec_digits(u[0])
    } else {
        dec_digits(u[0]) + seq![44u8] + update_list_bytes(u.skip(1))
    }
}

/// The canonical JSON encoding of a state packet with the given tag and
/// update bytes: tag first, then the update byte array, no whitespace.
pub open spec fn encoded_state(snap: bool, u: Seq<u8>) -> Seq<u8> {
    ascii_bytes("{\"packet_type\":\""@) + (if snap {
        ascii_bytes("doc_snapshot"@)
    } else {
        ascii_bytes("doc_delta"@)
    }) + ascii_bytes("\",\"update\":["@) + update_list_bytes(u) + ascii_bytes("]}"@)
}

/// The canonical JSON encoding of a state packet.
pub open spec fn encoded_state_packet(p: StatePacket) -> Seq<u8> {
    encoded_state(state_is_snapshot(p), state_update(p))
}

/// Append the bytes of `s`'s characters to `out`.
#[verifier::loop_isolation(false)]
fn push_ascii(out: &mut Vec<u8>, s: &str)
    ensures
        final(out)@ == old(out)@ + ascii_bytes(s@),
{
    let n = s.unicode_len();
    let mut j: usize = 0;
    while j < n
        invariant
            0 <= j <= n,
            out@ == old(out)@ + ascii_bytes(s@.take(j as int)),
        decreases n - j,
    {
        let c = s.get_char(j);
        out.push(c as u8);
        proof {
            assert(s@.take(j + 1) =~= s@.take(j as int).push(s@[j as int]));
            assert(ascii_bytes(s@.take(j + 1)) =~= ascii_bytes(s@.take(j as int)).push(
                s@[j as int] as u8,
            ));
        }
        j += 1;
    }
    proof {
        assert(s@.take(n as int) =~= s@);
    }
}

/// Append the decimal digits of `n` to `out`.
fn push_dec(out: &mut Vec<u8>, n: u8)
    ensures
        final(out)@ == old(out)@ + dec_digits(n),
{
    if n >= 100 {
        out.push(48 + n / 100);
        out.push(48 + (n / 10) % 10);
        out.push(48 + n % 10);
        assert(final(out)@ =~= old(out)@ + dec_digits(n));
    } else if n >= 10 {
        out.push(48 + n / 10);
        out.push(48 + n % 10);
        assert(final(out)@ =~= old(out)@ + dec_digits(n));
    } else {
        out.push(48 + n);
        assert(final(out)@ =~= old(out)@ + dec_digits(n));
    }
}

proof fn lemma_update_list_snoc(v: Seq<u8>, b: u8)
    ensures
        update_list_bytes(v.push(b)) == if v.len() == 0 {
            dec_digits(b)
        } else {
            update_list_bytes(v) + seq![44u8] + dec_digits(b)
        },
    decreases v.len(),
{
    let w = v.push(b);
    if v.len() == 0 {
        assert(w.len() == 1);
        assert(w[0] == b);
        assert(update_list_bytes(w) =~= dec_digits(b));
    } else {
        assert(w[0] == v[0]);
        assert(w.skip(1) =~= v.skip(1).push(b));
        lemma_update_list_snoc(v.skip(1), b);
        if v.len() == 1 {
            assert(update_list_bytes(w) =~= update_list_bytes(v) + seq![44u8] + dec_digits(b));
        } else {
            assert(update_list_bytes(w) =~= update_list_bytes(v) + seq![44u8] + dec_digits(b));
        }
    }
}

/// Encode one state packet as its canonical JSON bytes.
#[verifier::loop_isolation(false)]
pub fn encode_state_packet(p: &StatePacket) -> (r: Vec<u8>)
    ensures
        r@ == encoded_state_packet(*p),
{
    let mut out: Vec<u8> = Vec::new();
    push_ascii(&mut out, "{\"packet_type\":\"");
    match p {
        StatePacket::DocSnapshot(_) => push_ascii(&mut out, "doc_snapshot"),
        StatePacket::DocDelta(_) => push_ascii(&mut out, "doc_delta"),
    }
    push_ascii(&mut out, "\",\"update\":[");
    let ghost head = out@;
    let u: &Vec<u8> = match p {
        StatePacket::DocSnapshot(s) => &s.update,
        StatePacket::DocDelta(d) => &d.update,
    };
    let m = u.len();
    let mut i: usize = 0;
    while i < m
        invariant
            0 <= i <= m,
            m == u@.len(),
            u@ == state_update(*p),
            i == 0 ==> out@ == head,
            i > 0 ==> out@ == head + update_list_bytes(u@.take(i as int)),
        decreases m - i,
    {
        if i > 0 {
            out.push(44);
        }
        push_dec(&mut out, u[i]);
        proof {
            assert(u@.take(i + 1) =~= u@.take(i as int).push(u@[i as int]));
            lemma_update_list_snoc(u@.take(i as int), u@[i as int]);
            if i == 0 {
                assert(update_list_bytes(u@.take(1)) == dec_digits(u@[0]));
                assert(out@ =~= head + update_list_bytes(u@.take(1)));
            } else {
                assert(out@ =~= head + update_list_bytes(u@.take(i + 1)));
            }
        }
        i += 1;
    }
    proof {
        assert(u@.take(m as int) =~= u@);
        if m == 0 {
            assert(update_list_bytes(u@) =~= Seq::<u8>::empty());
            assert(out@ =~= head + update_list_bytes(u@));
        }
    }
    push_ascii(&mut out, "]}");
    proof {
        assert(out@ =~= encoded_state_packet(*p));
    }
    out
}

/// Index of the first non-whitespace byte at or after `i`; the length of `s`
/// when there is none.
pub open spec fn skip_ws_spec(s: Seq<u8>, i: int) -> int
    decreases s.len() - i,
{
    if i < 0 || i >= s.len() {
        s.len() as int
    } else if !is_ws(s[i]) {
        i
    } else {
        skip_ws_spec(s, i + 1)
    }
}

proof fn lemma_skip_ws_props(s: Seq<u8>, i: int)
    requires
        0 <= i <= s.len(),
    ensures
        i <= skip_ws_spec(s, i) <= s.len(),
        skip_ws_spec(s, i) < s.len() ==> !is_ws(s[skip_ws_spec(s, i)]),
    decreases s.len() - i,
{
    if i < s.len() && is_ws(s[i]) {
        lemma_skip_ws_props(s, i + 1);
    }
}

#[verifier::loop_isolation(false)]
fn skip_ws_at(s: &[u8], from: usize) -> (r: usize)
    requires
        from <= s@.len(),
    ensures
        r == skip_ws_spec(s@, from as int),
        from <= r <= s@.len(),
{
    let n = s.len();
    let mut i: usize = from;
    while i < n
        invariant
            from <= i <= n,
            skip_ws_spec(s@, from as int) == skip_ws_spec(s@, i as int),
        decreases n - i,
    {
        let b = *slice_index_get(s, i);
        if !(b == 32 || b == 9 || b == 10 || b == 13) {
            return i;
        }
        i += 1;
    }
    n
}

/// End of a JSON string whose opening quote stands just before `i`: the index
/// after the closing quote, tracking backslash escapes; nothing when the
/// string is unterminated.
pub open spec fn skip_string_spec(s: Seq<u8>, i: int, escaped: bool) -> Option<int>
    decreases s.len() - i,
{
    if i < 0 || i >= s.len() {
        None
    } else if escaped {
        skip_string_spec(s, i + 1, false)
    } else if s[i] == 92 {
        skip_string_spec(s, i + 1, true)
    } else if s[i] == 34 {
        Some(i + 1)
    } else {
        skip_string_spec(s, i + 1, false)
    }
}

proof fn lemma_skip_string_props(s: Seq<u8>, i: int, escaped: bool)
    requires
        0 <= i,
    ensures
        skip_string_spec(s, i, escaped) matches Some(j) ==> i < j <= s.len(),
    decreases s.len() - i,
{
    if 0 <= i < s.len() {
        if escaped {
            lemma_skip_string_props(s, i + 1, false);
        } else if s[i] == 92 {
            lemma_skip_string_props(s, i + 1, true);
        } else if s[i] != 34 {
            lemma_skip_string_props(s, i + 1, false);
        }
    }
}

#[verifier::loop_isolation(false)]
fn skip_string_at(s: &[u8], from: usize) -> (r: Option<usize>)
    ensures
        match (r, skip_string_spec(s@, from as int, false)) {
            (Some(a), Some(b)) => a == b,
            (None, None) => true,
            _ => false,
        },
{
    let n = s.len();
    let mut i: usize = from;
    let mut esc: bool = false;
    while i < n
        invariant
            from <= i,
            skip_string_spec(s@, from as int, false) == skip_string_spec(s@, i as int, esc),
        decreases n - i,
    {
        let b = *slice_index_get(s, i);
        if esc {
            esc = false;
        } else if b == 92 {
            esc = true;
        } else if b == 34 {
            return Some(i + 1);
        }
        i += 1;
    }
    None
}

/// End of a JSON container whose opening bracket(s) stand before `i`: the
/// index after the bracket that closes nesting level `depth`, skipping over
/// strings; nothing when unterminated. Bracket kinds are not matched against
/// each other: this measures extent, it does not validate.
pub open spec fn skip_container_spec(s: Seq<u8>, i: int, depth: int) -> Option<int>
    decreases s.len() - i,
    via skip_container_dec
{
    if i < 0 || i >= s.len() {
        None
    } else if s[i] == 34 {
        match skip_string_spec(s, i + 1, false) {
            None => None,
            Some(j) => skip_container_spec(s, j, depth),
        }
    } else if s[i] == 123 || s[i] == 91 {
        skip_container_spec(s, i + 1, depth + 1)
    } else if s[i] == 125 || s[i] == 93 {
        if depth == 1 {
            Some(i + 1)
        } else {
            skip_container_spec(s, i + 1, depth - 1)
        }
    } else {
        skip_container_spec(s, i + 1, depth)
    }
}

#[via_fn]
proof fn skip_container_dec(s: Seq<u8>, i: int, depth: int) {
    if 0 <= i < s.len() && s[i] == 34 {
        lemma_skip_string_props(s, i + 1, false);
    }
}

proof fn lemma_skip_container_props(s: Seq<u8>, i: int, depth: int)
    requires
        0 <= i,
    ensures
        skip_container_spec(s, i, depth) matches Some(j) ==> i < j <= s.len(),
    decreases s.len() - i,
{
    if 0 <= i < s.len() {
        if s[i] == 34 {
            lemma_skip_string_props(s, i + 1, false);
            match skip_string_spec(s, i + 1, false) {
                None => {},
                Some(j) => {
                    lemma_skip_container_props(s, j, depth);
                },
            }
        } else if s[i] == 123 || s[i] == 91 {
            lemma_skip_container_props(s, i + 1, depth + 1);
        } else if s[i] == 125 || s[i] == 93 {
            if depth != 1 {
                lemma_skip_container_props(s, i + 1, depth - 1);
            }
        } else {
            lemma_skip_container_props(s, i + 1, depth);
        }
    }
}

#[verifier::loop_isolation(false)]
fn skip_container_at(s: &[u8], from: usize) -> (r: Option<usize>)
    ensures
        match (r, skip_container_spec(s@, from as int, 1)) {
            (Some(a), Some(b)) => a == b,
            (None, None) => true,
            _ => false,
        },
{
    let n = s.len();
    let mut i: usize = from;
    let mut depth: u128 = 1;
    while i < n
        invariant
            from <= i,
            1 <= depth <= 1 + (i - from),
            skip_container_spec(s@, from as int, 1) == skip_container_spec(
                s@,
                i as int,
                depth as int,
            ),
        decreases n - i,
    {
        let b = *slice_index_get(s, i);
        if b == 34 {
            match skip_string_at(s, i + 1) {
                None => {
                    return None;
                },
                Some(j) => {
                    proof {
                        lemma_skip_string_props(s@, i as int + 1, false);
                    }
                    i = j;
                },
            }
        } else if b == 123 || b == 91 {
            depth = depth + 1;
            i += 1;
        } else if b == 125 || b == 93 {
            if depth == 1 {
                return Some(i + 1);
            }
            depth = depth - 1;
            i += 1;
        } else {
            i += 1;
        }
    }
    None
}

/// End of a bare JSON scalar starting at `i`: the first following byte that is
/// whitespace or a structural delimiter, or the length of `s`. The token run
/// itself is not validated as a number or literal: extent, not validity.
pub open spec fn scalar_end_spec(s: Seq<u8>, i: int) -> int
    decreases s.len() - i,
{
    if i < 0 || i >= s.len() {
        s.len() as int
    } else if is_ws(s[i]) || s[i] == 44 || s[i] == 93 || s[i] == 125 {
        i
    } else {
        scalar_end_spec(s, i + 1)
    }
}

proof fn lemma_scalar_end_props(s: Seq<u8>, i: int)
    requires
        0 <= i <= s.len(),
    ensures
        i <= scalar_end_spec(s, i) <= s.len(),
    decreases s.len() - i,
{
    if i < s.len() && !(is_ws(s[i]) || s[i] == 44 || s[i] == 93 || s[i] == 125) {
        lemma_scalar_end_props(s, i + 1);
    }
}

#[verifier::loop_isolation(false)]
fn scalar_end_at(s: &[u8], from: usize) -> (r: usize)
    requires
        from <= s@.len(),
    ensures
        r == scalar_end_spec(s@, from as int),
        from <= r <= s@.len(),
{
    let n = s.len();
    let mut i: usize = from;
    while i < n
        invariant
            from <= i <= n,
            scalar_end_spec(s@, from as int) == scalar_end_spec(s@, i as int),
        decreases n - i,
    {
        let b = *slice_index_get(s, i);
        if b == 32 || b == 9 || b == 10 || b == 13 || b == 44 || b == 93 || b == 125 {
            return i;
        }
        i += 1;
    }
    n
}

/// Extent of one JSON value starting at `i` (which must not be whitespace):
/// the index just after it, or nothing when it is unterminated or empty.
/// Like its parts, this measures extent without validating content: a
/// malformed element is carried opaquely rather than rejected.
pub open spec fn skip_value_spec(s: Seq<u8>, i: int) -> Option<int> {
    if i < 0 || i >= s.len() {
        None
    } else if s[i] == 34 {
        skip_string_spec(s, i + 1, false)
    } else if s[i] == 123 || s[i] == 91 {
        skip_container_spec(s, i + 1, 1)
    } else {
        let e = scalar_end_spec(s, i);
        if e == i {
            None
        } else {
            Some(e)
        }
    }
}

proof fn lemma_skip_value_props(s: Seq<u8>, i: int)
    requires
        0 <= i,
    ensures
        skip_value_spec(s, i) matches Some(j) ==> i < j <= s.len(),
{
    if 0 <= i < s.len() {
        lemma_skip_string_props(s, i + 1, false);
        lemma_skip_container_props(s, i + 1, 1);
        lemma_scalar_end_props(s, i);
    }
}

fn skip_value_at(s: &[u8], from: usize) -> (r: Option<usize>)
    requires
        from <= s@.len(),
    ensures
        match (r, skip_value_spec(s@, from as int)) {
            (Some(a), Some(b)) => a == b,
            (None, None) => true,
            _ => false,
        },
        r matches Some(j) ==> from < j <= s@.len(),
{
    proof {
        lemma_skip_value_props(s@, from as int);
    }
    let n = s.len();
    if from >= n {
        return None;
    }
    let b = *slice_index_get(s, from);
    if b == 34 {
        skip_string_at(s, from + 1)
    } else if b == 123 || b == 91 {
        skip_container_at(s, from + 1)
    } else {
        let e = scalar_end_at(s, from);
        if e == from {
            None
        } else {
            Some(e)
        }
    }
}

/// The byte ranges of the elements of a JSON array, starting just after the
/// opening bracket or a separating comma at `i - 1`: each range is one
/// element's extent, exclusive of surrounding whitespace; nothing when the
/// array is malformed or followed by trailing content.
pub open spec fn elements_spec(s: Seq<u8>, i: int) -> Option<Seq<(int, int)>>
    decreases s.len() - i,
    via elements_dec
{
    let a = skip_ws_spec(s, i);
    match skip_value_spec(s, a) {
        None => None,
        Some(e) => {
            let c = skip_ws_spec(s, e);
            if c < s.len() && s[c] == 44 {
                match elements_spec(s, c + 1) {
                    None => None,
                    Some(rest) => Some(seq![(a, e)] + rest),
                }
            } else if c < s.len() && s[c] == 93 {
                if skip_ws_spec(s, c + 1) == s.len() {
                    Some(seq![(a, e)])
                } else {
                    None
                }
            } else {
                None
            }
        },
    }
}

#[via_fn]
proof fn elements_dec(s: Seq<u8>, i: int) {
    if i < 0 {
        assert(skip_ws_spec(s, i) == s.len());
    } else if i <= s.len() {
        lemma_skip_ws_props(s, i);
    } else {
        assert(skip_ws_spec(s, i) == s.len());
    }
    let a = skip_ws_spec(s, i);
    if 0 <= a {
        lemma_skip_value_props(s, a);
        match skip_value_spec(s, a) {
            None => {},
            Some(e) => {
                lemma_skip_ws_props(s, e);
            },
        }
    }
}

/// The byte ranges of the elements of a payload that is a JSON array, or
/// nothing when the payload is not one array with nothing after it.
pub open spec fn packet_ranges(s: Seq<u8>) -> Option<Seq<(int, int)>> {
    let a = skip_ws_spec(s, 0);
    if a < s.len() && s[a] == 91 {
        let b = skip_ws_spec(s, a + 1);
        if b < s.len() && s[b] == 93 {
            if skip_ws_spec(s, b + 1) == s.len() {
                Some(Seq::empty())
            } else {
                None
            }
        } else {
            elements_spec(s, a + 1)
        }
    } else {
        None
    }
}

/// Whether the bytes of `lit`'s characters stand in `s` at position `i`.
pub open spec fn match_lit_spec(s: Seq<u8>, i: int, lit: Seq<char>) -> bool {
    0 <= i && i + lit.len() <= s.len() && s.subrange(i, i + lit.len() as int) == ascii_bytes(lit)
}

#[verifier::loop_isolation(false)]
fn match_lit(s: &[u8], at: usize, pat: &str) -> (r: bool)
    ensures
        r == match_lit_spec(s@, at as int, pat@),
{
    let n = s.len();
    let plen = pat.unicode_len();
    if at > n || plen > n - at {
        return false;
    }
    let mut j: usize = 0;
    while j < plen
        invariant
            0 <= j <= plen,
            at + plen <= n,
            forall|k: int| 0 <= k < j ==> s@[at + k] == (pat@[k] as u8),
        decreases plen - j,
    {
        if *slice_index_get(s, at + j) != pat.get_char(j) as u8 {
            assert(s@.subrange(at as int, at as int + pat@.len() as int)[j as int] != ascii_bytes(
                pat@,
            )[j as int]);
            return false;
        }
        j += 1;
    }
    assert(s@.subrange(at as int, at as int + pat@.len() as int) =~= ascii_bytes(pat@));
    true
}

/// A JSON number usable as a byte at position `i`: one to three decimal
/// digits without a leading zero, not followed by another digit, valued at
/// most 255. Yields the value and the position after the digits.
pub open spec fn parse_u8_spec(s: Seq<u8>, i: int) -> Option<(u8, int)> {
    if !(0 <= i < s.len() && is_digit(s[i])) {
        None
    } else {
        let d0 = s[i] - 48;
        if i + 1 < s.len() && is_digit(s[i + 1]) {
            if d0 == 0 {
                None
            } else {
                let d1 = s[i + 1] - 48;
                if i + 2 < s.len() && is_digit(s[i + 2]) {
                    let d2 = s[i + 2] - 48;
                    if i + 3 < s.len() && is_digit(s[i + 3]) {
                        None
                    } else if d0 * 100 + d1 * 10 + d2 > 255 {
                        None
                    } else {
                        Some(((d0 * 100 + d1 * 10 + d2) as u8, i + 3))
                    }
                } else {
                    Some(((d0 * 10 + d1) as u8, i + 2))
                }
            }
        } else {
            Some((d0 as u8, i + 1))
        }
    }
}

fn parse_u8_at(s: &[u8], at: usize) -> (r: Option<(u8, usize)>)
    ensures
        match (r, parse_u8_spec(s@, at as int)) {
            (Some((v1, p1)), Some((v2, p2))) => v1 == v2 && p1 == p2,
            (None, None) => true,
            _ => false,
        },
        r matches Some((_, p)) ==> at < p <= s@.len(),
{
    let n = s.len();
    if at >= n {
        return None;
    }
    let b0 = *slice_index_get(s, at);
    if !(48 <= b0 && b0 <= 57) {
        return None;
    }
    let d0 = b0 - 48;
    if at + 1 < n {
        let b1 = *slice_index_get(s, at + 1);
        if 48 <= b1 && b1 <= 57 {
            if d0 == 0 {
                return None;
            }
            let d1 = b1 - 48;
            if at + 2 < n {
                let b2 = *slice_index_get(s, at + 2);
                if 48 <= b2 && b2 <= 57 {
                    let d2 = b2 - 48;
                    if at + 3 < n {
                        let b3 = *slice_index_get(s, at + 3);
                        if 48 <= b3 && b3 <= 57 {
                            return None;
                        }
                    }
                    let v: u16 = d0 as u16 * 100 + d1 as u16 * 10 + d2 as u16;
                    if v > 255 {
                        return None;
                    }
                    return Some((v as u8, at + 3));
                }
            }
            return Some((d0 * 10 + d1, at + 2));
        }
    }
    Some((d0, at + 1))
}

/// The `packet_type` member at position `i`: its key, a colon, and one of the
/// two recognized tag strings, whitespace allowed around the colon. Yields
/// whether the tag is `doc_snapshot` and the position after the tag string.
pub open spec fn parse_tag_spec(s: Seq<u8>, i: int) -> Option<(bool, int)> {
    if match_lit_spec(s, i, "\"packet_type\""@) {
        let c = skip_ws_spec(s, i + "\"packet_type\""@.len());
        if c < s.len() && s[c] == 58 {
            let v = skip_ws_spec(s, c + 1);
            if match_lit_spec(s, v, "\"doc_snapshot\""@) {
                Some((true, v + "\"doc_snapshot\""@.len()))
            } else if match_lit_spec(s, v, "\"doc_delta\""@) {
                Some((false, v + "\"doc_delta\""@.len()))
            } else {
                None
            }
        } else {
            None
        }
    } else {
        None
    }
}

fn parse_tag_at(s: &[u8], at: usize) -> (r: Option<(bool, usize)>)
    ensures
        match (r, parse_tag_spec(s@, at as int)) {
            (Some((v1, p1)), Some((v2, p2))) => v1 == v2 && p1 == p2,
            (None, None) => true,
            _ => false,
        },
        r matches Some((_, p)) ==> p <= s@.len(),
{
    let n = s.len();
    let key = "\"packet_type\"";
    if !match_lit(s, at, key) {
        return None;
    }
    let c = skip_ws_at(s, at + key.unicode_len());
    if !(c < n && *slice_index_get(s, c) == 58) {
        return None;
    }
    let v = skip_ws_at(s, c + 1);
    let snap = "\"doc_snapshot\"";
    if match_lit(s, v, snap) {
        return Some((true, v + snap.unicode_len()));
    }
    let delta = "\"doc_delta\"";
    if match_lit(s, v, delta) {
        return Some((false, v + delta.unicode_len()));
    }
    None
}

/// The members of a non-empty byte array starting after its opening bracket
/// or after a comma at `i - 1`: whitespace, a byte value, then either a comma
/// and more members or the closing bracket. Yields the bytes and the position
/// after the closing bracket.
pub open spec fn parse_items_spec(s: Seq<u8>, i: int) -> Option<(Seq<u8>, int)>
    decreases s.len() - i,
    via parse_items_dec
{
    let a = skip_ws_spec(s, i);
    match parse_u8_spec(s, a) {
        None => None,
        Some((nv, e)) => {
            let c = skip_ws_spec(s, e);
            if c < s.len() && s[c] == 44 {
                match parse_items_spec(s, c + 1) {
                    None => None,
                    Some((rest, j)) => Some((seq![nv] + rest, j)),
                }
            } else if c < s.len() && s[c] == 93 {
                Some((seq![nv], c + 1))
            } else {
                None
            }
        },
    }
}

#[via_fn]
proof fn parse_items_dec(s: Seq<u8>, i: int) {
    if 0 <= i <= s.len() {
        lemma_skip_ws_props(s, i);
    }
    let a = skip_ws_spec(s, i);
    match parse_u8_spec(s, a) {
        None => {},
        Some((nv, e)) => {
            if 0 <= e <= s.len() {
                lemma_skip_ws_props(s, e);
            }
        },
    }
}

proof fn lemma_parse_items_props(s: Seq<u8>, i: int)
    ensures
        parse_items_spec(s, i) matches Some((u, j)) ==> j <= s.len(),
    decreases s.len() - i,
{
    if 0 <= i <= s.len() {
        lemma_skip_ws_props(s, i);
    }
    let a = skip_ws_spec(s, i);
    match parse_u8_spec(s, a) {
        None => {},
        Some((nv, e)) => {
            if 0 <= e <= s.len() {
                lemma_skip_ws_props(s, e);
            }
            let c = skip_ws_spec(s, e);
            if c < s.len() && s[c] == 44 {
                lemma_parse_items_props(s, c + 1);
            }
        },
    }
}

#[verifier::loop_isolation(false)]
fn parse_items_at(s: &[u8], at: usize) -> (r: Option<(Vec<u8>, usize)>)
    requires
        at <= s@.len(),
    ensures
        match (r, parse_items_spec(s@, at as int)) {
            (Some((v1, p1)), Some((v2, p2))) => v1@ == v2 && p1 == p2,
            (None, None) => true,
            _ => false,
        },
        r matches Some((_, p)) ==> p <= s@.len(),
{
    let n = s.len();
    let mut acc: Vec<u8> = Vec::new();
    let mut cur: usize = at;
    proof {
        lemma_parse_items_props(s@, at as int);
        match parse_items_spec(s@, at as int) {
            None => {},
            Some((rest, j)) => {
                assert(Seq::<u8>::empty() + rest =~= rest);
            },
        }
    }
    loop
        invariant
            cur <= n,
            match parse_items_spec(s@, cur as int) {
                None => parse_items_spec(s@, at as int) is None,
                Some((rest, j)) => parse_items_spec(s@, at as int) matches Some((full, j2))
                    && full == acc@ + rest && j2 == j && j <= s@.len(),
            },
        decreases n - cur,
    {
        let a = skip_ws_at(s, cur);
        match parse_u8_at(s, a) {
            None => {
                return None;
            },
            Some((nv, e)) => {
                let c = skip_ws_at(s, e);
                let ghost acc_before = acc@;
                if c < n && *slice_index_get(s, c) == 44 {
                    acc.push(nv);
                    proof {
                        match parse_items_spec(s@, c + 1) {
                            None => {},
                            Some((rest, j)) => {
                                assert(acc_before + (seq![nv] + rest) =~= acc@ + rest);
                            },
                        }
                    }
                    cur = c + 1;
                } else if c < n && *slice_index_get(s, c) == 93 {
                    acc.push(nv);
                    proof {
                        assert(acc_before + seq![nv] =~= acc@);
                    }
                    return Some((acc, c + 1));
                } else {
                    return None;
                }
            },
        }
    }
}

/// The `update` member at position `i`: its key, a colon, and a (possibly
/// empty) array of byte values, whitespace allowed between tokens. Yields the
/// bytes and the position after the closing bracket.
pub open spec fn parse_update_field_spec(s: Seq<u8>, i: int) -> Option<(Seq<u8>, int)> {
    if match_lit_spec(s, i, "\"update\""@) {
        let c = skip_ws_spec(s, i + "\"update\""@.len());
        if c < s.len() && s[c] == 58 {
            let b = skip_ws_spec(s, c + 1);
            if b < s.len() && s[b] == 91 {
                let d = skip_ws_spec(s, b + 1);
                if d < s.len() && s[d] == 93 {
                    Some((Seq::empty(), d + 1))
                } else {
                    parse_items_spec(s, b + 1)
                }
            } else {
                None
            }
        } else {
            None
        }
    } else {
        None
    }
}

fn parse_update_field_at(s: &[u8], at: usize) -> (r: Option<(Vec<u8>, usize)>)
    ensures
        match (r, parse_update_field_spec(s@, at as int)) {
            (Some((v1, p1)), Some((v2, p2))) => v1@ == v2 && p1 == p2,
            (None, None) => true,
            _ => false,
        },
        r matches Some((_, p)) ==> p <= s@.len(),
{
    let n = s.len();
    let key = "\"update\"";
    if !match_lit(s, at, key) {
        return None;
    }
    let c = skip_ws_at(s, at + key.unicode_len());
    if !(c < n && *slice_index_get(s, c) == 58) {
        return None;
    }
    let b = skip_ws_at(s, c + 1);
    if !(b < n && *slice_index_get(s, b) == 91) {
        return None;
    }
    let d = skip_ws_at(s, b + 1);
    if d < n && *slice_index_get(s, d) == 93 {
        let empty: Vec<u8> = Vec::new();
        return Some((empty, d + 1));
    }
    parse_items_at(s, b + 1)
}

/// What a payload element yields when read as a state packet: whether it is a
/// snapshot, and its update bytes. It must be one JSON object holding exactly
/// the `packet_type` and `update` members, in either order, with nothing but
/// whitespace around them; anything else yields nothing and the element is
/// relayed opaquely instead.
pub open spec fn parse_state_spec(s: Seq<u8>) -> Option<(bool, Seq<u8>)> {
    let a = skip_ws_spec(s, 0);
    if a < s.len() && s[a] == 123 {
        let k1 = skip_ws_spec(s, a + 1);
        match parse_tag_spec(s, k1) {
            Some((snap, e1)) => {
                let c = skip_ws_spec(s, e1);
                if c < s.len() && s[c] == 44 {
                    let k2 = skip_ws_spec(s, c + 1);
                    match parse_update_field_spec(s, k2) {
                        Some((u, e2)) => {
                            let z = skip_ws_spec(s, e2);
                            if z < s.len() && s[z] == 125 && skip_ws_spec(s, z + 1) == s.len() {
                                Some((snap, u))
                            } else {
                                None
                            }
                        },
                        None => None,
                    }
                } else {
                    None
                }
            },
            None => {
                match parse_update_field_spec(s, k1) {
                    Some((u, e1)) => {
                        let c = skip_ws_spec(s, e1);
                        if c < s.len() && s[c] == 44 {
                            let k2 = skip_ws_spec(s, c + 1);
                            match parse_tag_spec(s, k2) {
                                Some((snap, e2)) => {
                                    let z = skip_ws_spec(s, e2);
                                    if z < s.len() && s[z] == 125 && skip_ws_spec(s, z + 1)
                                        == s.len() {
                                        Some((snap, u))
                                    } else {
                                        None
                                    }
                                },
                                None => None,
                            }
                        } else {
                            None
                        }
                    },
                    None => None,
                }
            },
        }
    } else {
        None
    }
}

/// Read one payload element as a state packet, or nothing when it does not
/// have that exact shape.
pub fn parse_state_packet(elem: &[u8]) -> (r: Option<StatePacket>)
    ensures
        match (r, parse_state_spec(elem@)) {
            (Some(p), Some((snap, u))) => state_is_snapshot(p) == snap && state_update(p) == u,
            (None, None) => true,
            _ => false,
        },
{
    let n = elem.len();
    let a = skip_ws_at(elem, 0);
    if !(a < n && *slice_index_get(elem, a) == 123) {
        return None;
    }
    let k1 = skip_ws_at(elem, a + 1);
    match parse_tag_at(elem, k1) {
        Some((snap, e1)) => {
            let c = skip_ws_at(elem, e1);
            if !(c < n && *slice_index_get(elem, c) == 44) {
                return None;
            }
            let k2 = skip_ws_at(elem, c + 1);
            match parse_update_field_at(elem, k2) {
                Some((u, e2)) => {
                    let z = skip_ws_at(elem, e2);
                    if z < n && *slice_index_get(elem, z) == 125 && skip_ws_at(elem, z + 1) == n {
                        Some(build_state_packet(snap, u))
                    } else {
                        None
                    }
                },
                None => None,
            }
        },
        None => {
            match parse_update_field_at(elem, k1) {
                Some((u, e1)) => {
                    let c = skip_ws_at(elem, e1);
                    if !(c < n && *slice_index_get(elem, c) == 44) {
                        return None;
                    }
                    let k2 = skip_ws_at(elem, c + 1);
                    match parse_tag_at(elem, k2) {
                        Some((snap, e2)) => {
                            let z = skip_ws_at(elem, e2);
                            if z < n && *slice_index_get(elem, z) == 125 && skip_ws_at(
                                elem,
                                z + 1,
                            ) == n {
                                Some(build_state_packet(snap, u))
                            } else {
                                None
                            }
                        },
                        None => None,
                    }
                },
                None => None,
            }
        },
    }
}

fn build_state_packet(snap: bool, update: Vec<u8>) -> (r: StatePacket)
    ensures
        state_is_snapshot(r) == snap,
        state_update(r) == update@,
{
    if snap {
        StatePacket::DocSnapshot(SnapshotPacket { update })
    } else {
        StatePacket::DocDelta(DeltaPacket { update })
    }
}

/// A payload that is not one JSON array (a protocol violation, fatal to the
/// object being served).
#[derive(Clone, Copy, Debug, PartialEq, Eq, Structural)]
pub struct PayloadError;

/// How the element of `s` spanning `lo..hi` must appear among the decoded
/// packets: as the state packet it parses to, else as its raw bytes.
pub open spec fn classified(s: Seq<u8>, lo: int, hi: int, p: RoomPacket) -> bool {
    match parse_state_spec(s.subrange(lo, hi)) {
        Some((snap, u)) => match p {
            RoomPacket::StatePacket(sp) => state_is_snapshot(sp) == snap && state_update(sp) == u,
            RoomPacket::Other(_) => false,
        },
        None => match p {
            RoomPacket::Other(raw) => raw@ == s.subrange(lo, hi),
            RoomPacket::StatePacket(_) => false,
        },
    }
}

/// Decode one object payload into its packets: the payload must be one JSON
/// array; each element becomes the state packet it parses to, or its raw
/// bytes to forward opaquely. An opaque element is delimited by structural
/// extent only, not validated as JSON (see the module note on leniency); the
/// error is reserved for a payload that is not one array.
#[verifier::loop_isolation(false)]
pub fn decode_packets(payload: &[u8]) -> (r: Result<Vec<RoomPacket>, PayloadError>)
    ensures
        match r {
            Ok(ps) => packet_ranges(payload@) matches Some(rs) && ps@.len() == rs.len() && (forall|
                k: int,
            |
                0 <= k < rs.len() ==> classified(payload@, rs[k].0, rs[k].1, #[trigger] ps@[k])),
            Err(_) => packet_ranges(payload@) is None,
        },
{
    let n = payload.len();
    let a = skip_ws_at(payload, 0);
    if !(a < n && *slice_index_get(payload, a) == 91) {
        return Err(PayloadError);
    }
    let b = skip_ws_at(payload, a + 1);
    if b < n && *slice_index_get(payload, b) == 93 {
        if skip_ws_at(payload, b + 1) == n {
            let empty: Vec<RoomPacket> = Vec::new();
            return Ok(empty);
        } else {
            return Err(PayloadError);
        }
    }
    let mut out: Vec<RoomPacket> = Vec::new();
    let ghost rs_acc: Seq<(int, int)> = Seq::empty();
    let mut cur: usize = a + 1;
    loop
        invariant
            cur <= n,
            n == payload@.len(),
            out@.len() == rs_acc.len(),
            forall|k: int|
                0 <= k < rs_acc.len() ==> classified(
                    payload@,
                    rs_acc[k].0,
                    rs_acc[k].1,
                    #[trigger] out@[k],
                ),
            match elements_spec(payload@, cur as int) {
                None => elements_spec(payload@, a as int + 1) is None,
                Some(rest) => elements_spec(payload@, a as int + 1) matches Some(full) && full
                    == rs_acc + rest,
            },
            packet_ranges(payload@) == elements_spec(payload@, a as int + 1),
        decreases n - cur,
    {
        let lo = skip_ws_at(payload, cur);
        match skip_value_at(payload, lo) {
            None => {
                return Err(PayloadError);
            },
            Some(hi) => {
                let c = skip_ws_at(payload, hi);
                let elem = slice_subrange(payload, lo, hi);
                let pkt = match parse_state_packet(elem) {
                    Some(sp) => RoomPacket::StatePacket(sp),
                    None => RoomPacket::Other(slice_to_vec(elem)),
                };
                assert(classified(payload@, lo as int, hi as int, pkt));
                let ghost rs_before = rs_acc;
                let ghost out_before = out@;
                if c < n && *slice_index_get(payload, c) == 44 {
                    out.push(pkt);
                    proof {
                        rs_acc = rs_acc.push((lo as int, hi as int));
                        match elements_spec(payload@, c + 1) {
                            None => {},
                            Some(rest) => {
                                assert(rs_before + (seq![(lo as int, hi as int)] + rest) =~= rs_acc
                                    + rest);
                            },
                        }
                    }
                    cur = c + 1;
                } else if c < n && *slice_index_get(payload, c) == 93 {
                    if skip_ws_at(payload, c + 1) == n {
                        out.push(pkt);
                        proof {
                            rs_acc = rs_acc.push((lo as int, hi as int));
                            assert(rs_before + seq![(lo as int, hi as int)] =~= rs_acc);
                        }
                        return Ok(out);
                    } else {
                        return Err(PayloadError);
                    }
                } else {
                    return Err(PayloadError);
                }
            },
        }
    }
}

proof fn lemma_parse_u8_of_dec(s: Seq<u8>, q: int, n: u8)
    requires
        0 <= q,
        q + dec_digits(n).len() < s.len(),
        s.subrange(q, q + dec_digits(n).len() as int) == dec_digits(n),
        !is_digit(s[q + dec_digits(n).len() as int]),
    ensures
        parse_u8_spec(s, q) == Some((n, q + dec_digits(n).len() as int)),
{
    let v = n as int;
    let l = dec_digits(n).len() as int;
    if v < 10 {
        assert(s[q] == (48 + v) as u8) by {
            assert(s.subrange(q, q + l)[0] == dec_digits(n)[0]);
        }
    } else if v < 100 {
        assert(s[q] == (48 + v / 10) as u8) by {
            assert(s.subrange(q, q + l)[0] == dec_digits(n)[0]);
        }
        assert(s[q + 1] == (48 + v % 10) as u8) by {
            assert(s.subrange(q, q + l)[1] == dec_digits(n)[1]);
        }
        lemma_fundamental_div_mod(v, 10);
    } else {
        assert(s[q] == (48 + v / 100) as u8) by {
            assert(s.subrange(q, q + l)[0] == dec_digits(n)[0]);
        }
        assert(s[q + 1] == (48 + (v / 10) % 10) as u8) by {
            assert(s.subrange(q, q + l)[1] == dec_digits(n)[1]);
        }
        assert(s[q + 2] == (48 + v % 10) as u8) by {
            assert(s.subrange(q, q + l)[2] == dec_digits(n)[2]);
        }
        lemma_fundamental_div_mod(v, 10);
        lemma_fundamental_div_mod(v / 10, 10);
        let q100 = (v / 10) / 10;
        let r2 = (v / 10) % 10;
        let r10 = v % 10;
        assert(v == 100 * q100 + (10 * r2 + r10));
        lemma_fundamental_div_mod_converse_div(v, 100, q100, 10 * r2 + r10);
    }
}

proof fn lemma_parse_items_of_list(s: Seq<u8>, q: int, u: Seq<u8>)
    requires
        0 <= q,
        u.len() >= 1,
        q + update_list_bytes(u).len() < s.len(),
        s.subrange(q, q + update_list_bytes(u).len() as int) == update_list_bytes(u),
        s[q + update_list_bytes(u).len() as int] == 93,
    ensures
        parse_items_spec(s, q) == Some((u, q + update_list_bytes(u).len() + 1)),
    decreases u.len(),
{
    let ul = update_list_bytes(u);
    let d = dec_digits(u[0]);
    if u.len() == 1 {
        assert(ul == d);
        assert(s[q] == d[0]) by {
            assert(s.subrange(q, q + ul.len() as int)[0] == ul[0]);
        }
        assert(is_digit(s[q]) && !is_ws(s[q]));
        assert(skip_ws_spec(s, q) == q);
        assert(s.subrange(q, q + d.len() as int) =~= d);
        lemma_parse_u8_of_dec(s, q, u[0]);
        let e = q + d.len() as int;
        assert(!is_ws(s[e]));
        assert(skip_ws_spec(s, e) == e);
        assert(seq![u[0]] =~= u);
    } else {
        assert(ul == d + seq![44u8] + update_list_bytes(u.skip(1)));
        assert(s[q] == d[0]) by {
            assert(s.subrange(q, q + ul.len() as int)[0] == ul[0]);
            assert(ul[0] == d[0]);
        }
        assert(is_digit(s[q]) && !is_ws(s[q]));
        assert(skip_ws_spec(s, q) == q);
        assert forall|k: int| 0 <= k < d.len() implies s.subrange(
            q,
            q + d.len() as int,
        )[k] == d[k] by {
            assert(s.subrange(q, q + ul.len() as int)[k] == ul[k]);
            assert(ul[k] == d[k]);
        }
        assert(s.subrange(q, q + d.len() as int) =~= d);
        assert(s[q + d.len() as int] == 44) by {
            assert(s.subrange(q, q + ul.len() as int)[d.len() as int] == ul[d.len() as int]);
            assert(ul[d.len() as int] == 44);
        }
        lemma_parse_u8_of_dec(s, q, u[0]);
        let e = q + d.len() as int;
        assert(!is_ws(s[e]));
        assert(skip_ws_spec(s, e) == e);
        let q2 = e + 1;
        let rest = update_list_bytes(u.skip(1));
        assert(q2 + rest.len() == q + ul.len());
        assert forall|k: int| 0 <= k < rest.len() implies s.subrange(
            q2,
            q2 + rest.len() as int,
        )[k] == rest[k] by {
            assert(s.subrange(q, q + ul.len() as int)[d.len() + 1 + k] == ul[d.len() + 1 + k]);
            assert(ul[d.len() + 1 + k] == rest[k]);
        }
        assert(s.subrange(q2, q2 + rest.len() as int) =~= rest);
        assert(u.skip(1).len() >= 1);
        lemma_parse_items_of_list(s, q2, u.skip(1));
        assert(seq![u[0]] + u.skip(1) =~= u);
    }
}

proof fn lemma_encoded_tag(p: StatePacket)
    ensures
        ({
            let s = encoded_state_packet(p);
            let tl: int = if state_is_snapshot(p) {
                12int
            } else {
                9int
            };
            &&& s.len() == 30 + tl + update_list_bytes(state_update(p)).len()
            &&& s[0] == 123 && !is_ws(s[0])
            &&& s[1] == 34 && !is_ws(s[1])
            &&& parse_tag_spec(s, 1) == Some((state_is_snapshot(p), 17 + tl))
        }),
{
    reveal_strlit("{\"packet_type\":\"");
    reveal_strlit("doc_snapshot");
    reveal_strlit("doc_delta");
    reveal_strlit("\",\"update\":[");
    reveal_strlit("]}");
    reveal_strlit("\"packet_type\"");
    reveal_strlit("\"doc_snapshot\"");
    reveal_strlit("\"doc_delta\"");
    let snap = state_is_snapshot(p);
    let s = encoded_state_packet(p);
    let a = ascii_bytes("{\"packet_type\":\""@);
    let t = if snap {
        ascii_bytes("doc_snapshot"@)
    } else {
        ascii_bytes("doc_delta"@)
    };
    let b = ascii_bytes("\",\"update\":["@);
    let ul = update_list_bytes(state_update(p));
    let c = ascii_bytes("]}"@);
    let tl = t.len() as int;
    assert(a.len() == 16 && b.len() == 12 && c.len() == 2);
    assert(s.len() == 30 + tl + ul.len());
    assert forall|k: int| 0 <= k < 16 implies s[k] == a[k] by {}
    assert forall|k: int| 0 <= k < tl implies s[16 + k] == t[k] by {}
    assert(s[16 + tl] == b[0]);
    assert(s[0] == 123 && !is_ws(s[0]));
    assert(s[1] == 34 && !is_ws(s[1]));
    assert(skip_ws_spec(s, 1) == 1);
    let keyl = ascii_bytes("\"packet_type\""@);
    assert(keyl.len() == 13);
    assert(s.subrange(1, 14) =~= keyl);
    assert(match_lit_spec(s, 1, "\"packet_type\""@));
    assert(s[14] == 58 && !is_ws(s[14]));
    assert(skip_ws_spec(s, 14) == 14);
    assert(s[15] == 34 && !is_ws(s[15]));
    assert(skip_ws_spec(s, 15) == 15);
    let snapl = ascii_bytes("\"doc_snapshot\""@);
    let deltal = ascii_bytes("\"doc_delta\""@);
    assert(snapl.len() == 14 && deltal.len() == 11);
    if snap {
        assert(s.subrange(15, 29) =~= snapl);
        assert(match_lit_spec(s, 15, "\"doc_snapshot\""@));
        assert(parse_tag_spec(s, 1) == Some((true, 17 + tl)));
    } else {
        // the snapshot tag does not match a delta encoding
        assert(s[20] == t[4] && t[4] == 100);
        assert(snapl[5] == 115);
        if s.subrange(15, 29) == snapl {
            assert(s.subrange(15, 29)[5] == snapl[5]);
        }
        assert(!match_lit_spec(s, 15, "\"doc_snapshot\""@));
        assert(s.subrange(15, 26) =~= deltal);
        assert(match_lit_spec(s, 15, "\"doc_delta\""@));
        assert(parse_tag_spec(s, 1) == Some((false, 17 + tl)));
    }
}

proof fn lemma_encoded_update_field(p: StatePacket)
    ensures
        ({
            let s = encoded_state_packet(p);
            let tl: int = if state_is_snapshot(p) {
                12int
            } else {
                9int
            };
            let e2 = 29 + tl + update_list_bytes(state_update(p)).len() as int;
            &&& s[17 + tl] == 44 && !is_ws(s[17 + tl])
            &&& s[18 + tl] == 34 && !is_ws(s[18 + tl])
            &&& parse_update_field_spec(s, 18 + tl) == Some((state_update(p), e2))
            &&& s[e2] == 125 && !is_ws(s[e2])
            &&& e2 + 1 == s.len()
        }),
{
    reveal_strlit("{\"packet_type\":\"");
    reveal_strlit("doc_snapshot");
    reveal_strlit("doc_delta");
    reveal_strlit("\",\"update\":[");
    reveal_strlit("]}");
    reveal_strlit("\"update\"");
    let snap = state_is_snapshot(p);
    let u = state_update(p);
    let s = encoded_state_packet(p);
    let a = ascii_bytes("{\"packet_type\":\""@);
    let t = if snap {
        ascii_bytes("doc_snapshot"@)
    } else {
        ascii_bytes("doc_delta"@)
    };
    let b = ascii_bytes("\",\"update\":["@);
    let ul = update_list_bytes(u);
    let c = ascii_bytes("]}"@);
    let tl = t.len() as int;
    let b0 = 16 + tl;
    let u0 = b0 + 12;
    let c0 = u0 + ul.len() as int;
    assert(a.len() == 16 && b.len() == 12 && c.len() == 2);
    assert(s.len() == c0 + 2);
    assert forall|k: int| 0 <= k < 12 implies s[b0 + k] == b[k] by {}
    assert forall|k: int| 0 <= k < ul.len() implies s[u0 + k] == ul[k] by {}
    assert(s[c0] == c[0] && s[c0 + 1] == c[1]);
    let e1 = b0 + 1;
    assert(s[e1] == b[1] && b[1] == 44 && !is_ws(s[e1]));
    let k2 = e1 + 1;
    assert(s[k2] == b[2] && b[2] == 34 && !is_ws(s[k2]));
    let updl = ascii_bytes("\"update\""@);
    assert(updl.len() == 8);
    assert(s.subrange(k2, k2 + 8) =~= updl);
    assert(match_lit_spec(s, k2, "\"update\""@));
    assert(s[k2 + 8] == b[10] && b[10] == 58 && !is_ws(s[k2 + 8]));
    assert(skip_ws_spec(s, k2 + 8) == k2 + 8);
    assert(s[k2 + 9] == b[11] && b[11] == 91 && !is_ws(s[k2 + 9]));
    assert(skip_ws_spec(s, k2 + 9) == k2 + 9);
    assert(u0 == k2 + 10);
    let e2 = c0 + 1;
    if u.len() == 0 {
        assert(ul.len() == 0);
        assert(s[u0] == c[0] && c[0] == 93 && !is_ws(s[u0]));
        assert(skip_ws_spec(s, u0) == u0);
        assert(parse_update_field_spec(s, k2) == Some((Seq::<u8>::empty(), e2)));
        assert(u =~= Seq::<u8>::empty());
    } else {
        assert(s[u0] == ul[0]);
        assert(ul[0] == dec_digits(u[0])[0]);
        assert(is_digit(s[u0]) && !is_ws(s[u0]) && s[u0] != 93);
        assert(skip_ws_spec(s, u0) == u0);
        assert(s.subrange(u0, u0 + ul.len() as int) =~= ul);
        assert(s[c0] == 93);
        lemma_parse_items_of_list(s, u0, u);
        assert(parse_update_field_spec(s, k2) == Some((u, e2)));
    }
    assert(s[e2] == c[1] && c[1] == 125 && !is_ws(s[e2]));
}

/// The decoder inverts the encoder: every state packet's canonical encoding
/// reads back as exactly that packet, so a state packet republished by a
/// provider is recognized unchanged by any listener of the same protocol.
pub proof fn lemma_decode_inverts_encode(p: StatePacket)
    ensures
        parse_state_spec(encoded_state_packet(p)) == Some(
            (state_is_snapshot(p), state_update(p)),
        ),
{
    lemma_encoded_tag(p);
    lemma_encoded_update_field(p);
    let s = encoded_state_packet(p);
    let tl: int = if state_is_snapshot(p) {
        12int
    } else {
        9int
    };
    let e1 = 17 + tl;
    let e2 = 29 + tl + update_list_bytes(state_update(p)).len() as int;
    assert(skip_ws_spec(s, 0) == 0);
    assert(skip_ws_spec(s, 1) == 1);
    assert(skip_ws_spec(s, e1) == e1);
    assert(skip_ws_spec(s, e1 + 1) == e1 + 1);
    assert(skip_ws_spec(s, e2) == e2);
    assert(skip_ws_spec(s, e2 + 1) == s.len());
}

} // verus!
