//! Hierarchical namespace patterns used to address rooms, participants and
//! providers on the relay.
//!
//! A pattern `{index_namespace, prefix, room_id, publisher_id}` renders as the
//! namespace `index_namespace + prefix + room_id + "." + publisher_id`, and
//! `parse_announce` recovers the room and publisher components from such a
//! namespace when it starts with `index_namespace + prefix` and at least two
//! dot-separated components follow.

use vstd::prelude::*;
use vstd::string::*;

verus! {

/// Address of one published track: an index namespace, a role prefix, a room
/// identifier and a publisher identifier.
#[derive(Clone, Debug, PartialEq, Eq)]
pub struct RoomAnnouncePattern {
    pub index_namespace: String,
    pub prefix: String,
    pub room_id: String,
    pub publisher_id: String,
}

/// Index of the first occurrence of `c` in `s` at or after `i`; `s.len()` when
/// there is none.
pub open spec fn find_from(s: Seq<char>, c: char, i: int) -> int
    decreases s.len() - i,
{
    if i < 0 || i >= s.len() {
        s.len() as int
    } else if s[i] == c {
        i
    } else {
        find_from(s, c, i + 1)
    }
}

/// The namespace a pattern renders to.
pub open spec fn namespace_of(p: RoomAnnouncePattern) -> Seq<char> {
    p.index_namespace@ + p.prefix@ + p.room_id@ + seq!['.'] + p.publisher_id@
}

/// The track name of the room's index feed.
pub open spec fn index_track_of(p: RoomAnnouncePattern) -> Seq<char> {
    p.prefix@ + p.room_id@ + seq!['.']
}

/// What parsing an announce string yields: the room and publisher components,
/// or nothing when the string does not start with `ns + prefix` or fewer than
/// two dot-separated components follow that head.
pub open spec fn parse_spec(ns: Seq<char>, prefix: Seq<char>, a: Seq<char>) -> Option<
    (Seq<char>, Seq<char>),
> {
    let h = ns.len() + prefix.len();
    if a.len() >= h && a.subrange(0, h as int) == ns + prefix {
        let d1 = find_from(a, '.', h as int);
        if d1 == a.len() {
            None
        } else {
            let d2 = find_from(a, '.', d1 + 1);
            Some((a.subrange(h as int, d1), a.subrange(d1 + 1, d2)))
        }
    } else {
        None
    }
}

/// Whether the characters of `s` starting at `from` are exactly `pat`.
fn is_prefix_at(s: &str, from: usize, pat: &str) -> (r: bool)
    requires
        from + pat@.len() <= s@.len(),
    ensures
        r <==> s@.subrange(from as int, from as int + pat@.len() as int) == pat@,
{
    let slen = s.unicode_len();
    let plen = pat.unicode_len();
    let mut j: usize = 0;
    while j < plen
        invariant
            0 <= j <= plen,
            plen == pat@.len(),
            slen == s@.len(),
            from + plen <= slen,
            forall|k: int| 0 <= k < j ==> s@[from + k] == pat@[k],
        decreases plen - j,
    {
        if s.get_char(from + j) != pat.get_char(j) {
            assert(s@.subrange(from as int, from as int + pat@.len() as int)[j as int]
                != pat@[j as int]);
            return false;
        }
        j += 1;
    }
    assert(s@.subrange(from as int, from as int + pat@.len() as int) =~= pat@);
    true
}

/// Index of the first occurrence of `c` in `s` at or after `from`; the length
/// of `s` when there is none.
pub(crate) fn find_char_from(s: &str, c: char, from: usize) -> (r: usize)
    requires
        from <= s@.len(),
    ensures
        r == find_from(s@, c, from as int),
        from <= r <= s@.len(),
        r < s@.len() ==> s@[r as int] == c,
{
    let slen = s.unicode_len();
    let mut i: usize = from;
    while i < slen
        invariant
            from <= i <= slen,
            slen == s@.len(),
            find_from(s@, c, from as int) == find_from(s@, c, i as int),
        decreases slen - i,
    {
        if s.get_char(i) == c {
            return i;
        }
        i += 1;
    }
    slen
}

impl RoomAnnouncePattern {
    pub fn new(
        index_namespace: String,
        prefix: String,
        room_id: String,
        publisher_id: String,
    ) -> (r: Self)
        ensures
            r.index_namespace@ == index_namespace@,
            r.prefix@ == prefix@,
            r.room_id@ == room_id@,
            r.publisher_id@ == publisher_id@,
    {
        Self { index_namespace, prefix, room_id, publisher_id }
    }

    /// Parse an announce string into its parts.
    ///
    /// Succeeds exactly when `announce` starts with `index_namespace + prefix`
    /// and at least two dot-separated components follow: the first becomes the
    /// room identifier, the second the publisher identifier, and anything
    /// after the second dot is ignored.
    pub fn parse_announce(index_namespace: String, prefix: String, announce: String) -> (r: Option<Self>)
        ensures
            match r {
                Some(p) => {
                    &&& parse_spec(index_namespace@, prefix@, announce@) == Some(
                        (p.room_id@, p.publisher_id@),
                    )
                    &&& p.index_namespace@ == index_namespace@
                    &&& p.prefix@ == prefix@
                },
                None => parse_spec(index_namespace@, prefix@, announce@) is None,
            },
    {
        let a = announce.as_str();
        let alen = a.unicode_len();
        let nslen = index_namespace.as_str().unicode_len();
        let plen = prefix.as_str().unicode_len();
        if alen < nslen || alen - nslen < plen {
            return None;
        }
        let head_len = nslen + plen;
        if !is_prefix_at(a, 0, index_namespace.as_str()) {
            assert(a@.subrange(0, head_len as int) != index_namespace@ + prefix@) by {
                assert(a@.subrange(0, nslen as int) != index_namespace@);
                assert((index_namespace@ + prefix@).subrange(0, nslen as int) =~= index_namespace@);
                if a@.subrange(0, head_len as int) == index_namespace@ + prefix@ {
                    assert(a@.subrange(0, head_len as int).subrange(0, nslen as int) =~= a@.subrange(
                        0,
                        nslen as int,
                    ));
                }
            }
            return None;
        }
        if !is_prefix_at(a, nslen, prefix.as_str()) {
            assert(a@.subrange(0, head_len as int) != index_namespace@ + prefix@) by {
                assert((index_namespace@ + prefix@).subrange(nslen as int, head_len as int)
                    =~= prefix@);
                if a@.subrange(0, head_len as int) == index_namespace@ + prefix@ {
                    assert(a@.subrange(0, head_len as int).subrange(nslen as int, head_len as int)
                        =~= a@.subrange(nslen as int, head_len as int));
                }
            }
            return None;
        }
        assert(a@.subrange(0, head_len as int) =~= index_namespace@ + prefix@);
        let d1 = find_char_from(a, '.', head_len);
        if d1 == alen {
            return None;
        }
        let d2 = find_char_from(a, '.', d1 + 1);
        let room_id = String::from_str(a.substring_char(head_len, d1));
        let publisher_id = String::from_str(a.substring_char(d1 + 1, d2));
        Some(Self { index_namespace, prefix, room_id, publisher_id })
    }

    /// The namespace this pattern addresses.
    pub fn to_namespace(&self) -> (r: String)
        ensures
            r@ == namespace_of(*self),
    {
        let mut out = String::new();
        out.append(self.index_namespace.as_str());
        out.append(self.prefix.as_str());
        out.append(self.room_id.as_str());
        out.append(".");
        out.append(self.publisher_id.as_str());
        proof {
            reveal_strlit(".");
            assert(out@ =~= namespace_of(*self));
        }
        out
    }

    /// The track name of the room's index feed.
    pub fn to_index_track(&self) -> (r: String)
        ensures
            r@ == index_track_of(*self),
    {
        let mut out = String::new();
        out.append(self.prefix.as_str());
        out.append(self.room_id.as_str());
        out.append(".");
        proof {
            reveal_strlit(".");
            assert(out@ =~= index_track_of(*self));
        }
        out
    }
}

/// `find_from` lands at or after `i`, no earlier character is `c`, and when it
/// lands inside the sequence it lands on `c`.
pub(crate) proof fn lemma_find_from_props(s: Seq<char>, c: char, i: int)
    requires
        0 <= i <= s.len(),
    ensures
        i <= find_from(s, c, i) <= s.len(),
        forall|j: int| i <= j < find_from(s, c, i) ==> s[j] != c,
        find_from(s, c, i) < s.len() ==> s[find_from(s, c, i)] == c,
    decreases s.len() - i,
{
    if i < s.len() && s[i] != c {
        lemma_find_from_props(s, c, i + 1);
    }
}

proof fn lemma_find_from_hit(s: Seq<char>, c: char, i: int, k: int)
    requires
        0 <= i <= k < s.len(),
        s[k] == c,
        forall|j: int| i <= j < k ==> s[j] != c,
    ensures
        find_from(s, c, i) == k,
    decreases k - i,
{
    if i < k {
        lemma_find_from_hit(s, c, i + 1, k);
    }
}

proof fn lemma_find_from_miss(s: Seq<char>, c: char, i: int)
    requires
        0 <= i <= s.len(),
        forall|j: int| i <= j < s.len() ==> s[j] != c,
    ensures
        find_from(s, c, i) == s.len(),
    decreases s.len() - i,
{
    if i < s.len() {
        lemma_find_from_miss(s, c, i + 1);
    }
}

/// Parsing is a left inverse of rendering: a pattern whose room and publisher
/// identifiers contain no dot is recovered exactly from its own namespace.
pub proof fn lemma_parse_inverts_namespace(p: RoomAnnouncePattern)
    requires
        !p.room_id@.contains('.'),
        !p.publisher_id@.contains('.'),
    ensures
        parse_spec(p.index_namespace@, p.prefix@, namespace_of(p)) == Some(
            (p.room_id@, p.publisher_id@),
        ),
{
    let ns = p.index_namespace@;
    let pre = p.prefix@;
    let room = p.room_id@;
    let pb = p.publisher_id@;
    let a = namespace_of(p);
    let h = (ns.len() + pre.len()) as int;
    let d1 = h + room.len() as int;
    assert(a.subrange(0, h) =~= ns + pre);
    assert(a[d1] == '.');
    assert forall|j: int| h <= j < d1 implies a[j] != '.' by {
        assert(a[j] == room[j - h]);
        assert(!room.contains('.'));
    }
    lemma_find_from_hit(a, '.', h, d1);
    assert forall|j: int| d1 + 1 <= j < a.len() implies a[j] != '.' by {
        assert(a[j] == pb[j - d1 - 1]);
        assert(!pb.contains('.'));
    }
    lemma_find_from_miss(a, '.', d1 + 1);
    assert(a.subrange(h, d1) =~= room);
    assert(a.subrange(d1 + 1, a.len() as int) =~= pb);
}

/// Parsing fails on any string that does not start with `ns + prefix`, and on
/// any that does but has no dot after that head (fewer than two components).
pub proof fn lemma_parse_rejects(ns: Seq<char>, prefix: Seq<char>, a: Seq<char>)
    ensures
        a.len() < ns.len() + prefix.len() || a.subrange(0, (ns.len() + prefix.len()) as int) != ns
            + prefix ==> parse_spec(ns, prefix, a) is None,
        a.len() >= ns.len() + prefix.len() && (forall|j: int|
            ns.len() + prefix.len() <= j < a.len() ==> a[j] != '.') ==> parse_spec(ns, prefix, a)
            is None,
{
    let h = (ns.len() + prefix.len()) as int;
    if a.len() >= ns.len() + prefix.len() && (forall|j: int| h <= j < a.len() ==> a[j] != '.') {
        lemma_find_from_miss(a, '.', h);
    }
}

} // verus!
