//! The outbound side of one room-serving episode.
//!
//! A provider owns the room's outbound track, announced under a freshly
//! minted provider namespace. It first emits one object carrying a full
//! document snapshot; then, for every packet received from the participants'
//! forwarding channel, it merges state packets into the room's document and
//! emits every packet — merged or passthrough — as the next object, with
//! object id and priority each one higher than the last and a constant group
//! id for the whole episode.

use vstd::prelude::*;
use crate::codec::{
    encode_state_packet, encoded_state_packet, state_is_snapshot, state_update, RoomPacket,
    SnapshotPacket, StatePacket,
};
use crate::pattern::RoomAnnouncePattern;
use crate::rooms::{RoomError, Rooms};

verus! {

/// Ordering header of one published object.
#[derive(Clone, Copy, Debug, PartialEq, Eq, Structural)]
pub struct ObjectHeader {
    pub group_id: u64,
    pub object_id: u64,
    pub priority: u64,
}

/// What kind of packet an emitted object carried.
#[derive(Clone, Copy, Debug, PartialEq, Eq, Structural)]
pub enum EmitKind {
    Snapshot,
    Delta,
    Passthrough,
}

/// Record of one emitted object: its header, what kind of packet it carried,
/// and its payload bytes.
pub struct Emitted {
    pub group_id: u64,
    pub object_id: u64,
    pub priority: u64,
    pub kind: EmitKind,
    pub payload: Seq<u8>,
}

/// The kind of emission a packet causes.
pub open spec fn kind_of(p: RoomPacket) -> EmitKind {
    match p {
        RoomPacket::StatePacket(sp) => if state_is_snapshot(sp) {
            EmitKind::Snapshot
        } else {
            EmitKind::Delta
        },
        RoomPacket::Other(_) => EmitKind::Passthrough,
    }
}

/// Emits one room's outbound objects and merges state packets into the
/// room's document as they pass through.
pub struct RoomProvider {
    /// The provider namespace this episode publishes under.
    pub announce: RoomAnnouncePattern,
    /// The track name published within that namespace.
    pub track: String,
    pub group_id: u64,
    pub object_id: u64,
    pub priority: u64,
    pub started: bool,
    /// The objects emitted so far, in order.
    pub emitted: Ghost<Seq<Emitted>>,
}

impl RoomProvider {
    /// The emission discipline: one fixed group; the first object is the
    /// snapshot at object id zero; each later object raises object id and
    /// priority by one, so both equal the object's position.
    pub open spec fn wf(self) -> bool {
        &&& self.group_id == 0
        &&& self.priority == self.object_id
        &&& (!self.started ==> self.emitted@.len() == 0 && self.object_id == 0)
        &&& (self.started ==> self.emitted@.len() == self.object_id + 1)
        &&& (self.started ==> self.emitted@[0].kind == EmitKind::Snapshot)
        &&& forall|i: int|
            0 <= i < self.emitted@.len() ==> (#[trigger] self.emitted@[i]).group_id == 0
                && self.emitted@[i].object_id == i && self.emitted@[i].priority == i
    }

    pub fn new(announce: RoomAnnouncePattern, track: String) -> (r: Self)
        ensures
            r.wf(),
            !r.started,
            r.announce == announce,
            r.track@ == track@,
            r.emitted@ == Seq::<Emitted>::empty(),
    {
        Self {
            announce,
            track,
            group_id: 0,
            object_id: 0,
            priority: 0,
            started: false,
            emitted: Ghost(Seq::empty()),
        }
    }

    /// Emit the episode's first object: a full snapshot of the room's current
    /// document, encoded as a state packet, at object id and priority zero.
    pub fn send_initial_snapshot(&mut self, rooms: &Rooms) -> (r: Result<
        (ObjectHeader, Vec<u8>),
        RoomError,
    >)
        requires
            old(self).wf(),
            !old(self).started,
            rooms.wf(),
        ensures
            final(self).wf(),
            final(self).announce == old(self).announce,
            final(self).track == old(self).track,
            match r {
                Ok((h, payload)) => {
                    &&& final(self).started
                    &&& h.group_id == 0 && h.object_id == 0 && h.priority == 0
                    &&& exists|u: Seq<u8>| payload@ == #[trigger] crate::codec::encoded_state(
                        true,
                        u,
                    )
                    &&& final(self).emitted@ == seq![
                        Emitted {
                            group_id: 0,
                            object_id: 0,
                            priority: 0,
                            kind: EmitKind::Snapshot,
                            payload: payload@,
                        },
                    ]
                },
                Err(e) => *final(self) == *old(self) && (e == RoomError::UnknownRoom <==> !rooms.has_room(
                    old(self).announce.room_id@,
                )),
            },
    {
        let bytes = match rooms.encode_room_snapshot(&self.announce.room_id) {
            Ok(b) => b,
            Err(e) => {
                return Err(e);
            },
        };
        let ghost u = bytes@;
        let packet = StatePacket::DocSnapshot(SnapshotPacket { update: bytes });
        let payload = encode_state_packet(&packet);
        self.started = true;
        proof {
            self.emitted@ = seq![
                Emitted {
                    group_id: 0,
                    object_id: 0,
                    priority: 0,
                    kind: EmitKind::Snapshot,
                    payload: payload@,
                },
            ];
            assert(payload@ == crate::codec::encoded_state(true, u));
        }
        Ok((ObjectHeader { group_id: 0, object_id: 0, priority: 0 }, payload))
    }

    /// Merge and emit one packet from the forwarding channel. A state packet
    /// is first applied to the room's document and then emitted in its
    /// canonical encoding; any other packet is always emitted, as its raw
    /// bytes, untouched — only a state packet the engine or registry refuses
    /// can fail. The object id and priority each rise by one; the group id
    /// stays fixed. On failure nothing is emitted and nothing changes.
    pub fn handle_packet(&mut self, rooms: &mut Rooms, packet: RoomPacket) -> (r: Result<
        (ObjectHeader, Vec<u8>),
        RoomError,
    >)
        requires
            old(self).wf(),
            old(self).started,
            old(self).object_id < u64::MAX,
            old(rooms).wf(),
        ensures
            final(self).wf(),
            final(rooms).wf(),
            final(self).announce == old(self).announce,
            final(self).track == old(self).track,
            forall|k: Seq<char>|
                #![trigger final(rooms).has_room(k)]
                final(rooms).has_room(k) <==> old(rooms).has_room(k),
            forall|k: Seq<char>|
                k != old(self).announce.room_id@ && old(rooms).has_room(k) ==> final(rooms).room_of(k) == old(rooms).room_of(k),
            packet matches RoomPacket::Other(_) ==> r is Ok,
            match r {
                Ok((h, payload)) => {
                    &&& h.group_id == 0
                    &&& h.object_id == old(self).object_id + 1
                    &&& h.priority == old(self).priority + 1
                    &&& final(self).started && final(self).object_id == old(self).object_id + 1
                    &&& final(self).emitted@ == old(self).emitted@.push(
                        Emitted {
                            group_id: 0,
                            object_id: h.object_id,
                            priority: h.priority,
                            kind: kind_of(packet),
                            payload: payload@,
                        },
                    )
                    &&& match packet {
                        RoomPacket::StatePacket(sp) => {
                            &&& payload@ == encoded_state_packet(sp)
                            &&& old(rooms).has_room(old(self).announce.room_id@)
                            &&& final(rooms).room_of(
                                old(self).announce.room_id@,
                            ).value.state.history() == old(rooms).room_of(
                                old(self).announce.room_id@,
                            ).value.state.history().push(state_update(sp))
                        },
                        RoomPacket::Other(raw) => {
                            &&& payload@ == raw@
                            &&& *final(rooms) == *old(rooms)
                        },
                    }
                },
                Err(_) => {
                    &&& *final(self) == *old(self)
                    &&& (old(rooms).has_room(old(self).announce.room_id@) ==> final(rooms).room_of(
                        old(self).announce.room_id@,
                    ).value.state.history() == old(rooms).room_of(
                        old(self).announce.room_id@,
                    ).value.state.history())
                },
            },
    {
        let next_object = self.object_id + 1;
        let next_priority = self.priority + 1;
        match packet {
            RoomPacket::StatePacket(sp) => {
                let applied = match &sp {
                    StatePacket::DocSnapshot(s) => rooms.apply_state_update(
                        &self.announce.room_id,
                        &s.update,
                    ),
                    StatePacket::DocDelta(d) => rooms.apply_state_update(
                        &self.announce.room_id,
                        &d.update,
                    ),
                };
                match applied {
                    Ok(_) => {},
                    Err(e) => {
                        return Err(e);
                    },
                }
                let payload = encode_state_packet(&sp);
                self.object_id = next_object;
                self.priority = next_priority;
                proof {
                    self.emitted@ = self.emitted@.push(
                        Emitted {
                            group_id: 0,
                            object_id: next_object,
                            priority: next_priority,
                            kind: kind_of(RoomPacket::StatePacket(sp)),
                            payload: payload@,
                        },
                    );
                }
                Ok((
                    ObjectHeader { group_id: 0, object_id: next_object, priority: next_priority },
                    payload,
                ))
            },
            RoomPacket::Other(raw) => {
                self.object_id = next_object;
                self.priority = next_priority;
                proof {
                    self.emitted@ = self.emitted@.push(
                        Emitted {
                            group_id: 0,
                            object_id: next_object,
                            priority: next_priority,
                            kind: EmitKind::Passthrough,
                            payload: raw@,
                        },
                    );
                }
                Ok((ObjectHeader { group_id: 0, object_id: next_object, priority: next_priority }, raw))
            },
        }
    }
}

/// On a provider track the first emitted object is always a full snapshot,
/// object ids and priorities rise strictly in emission order, and the group
/// id is the same for every object of the episode.
pub proof fn lemma_provider_emission_monotonic(p: RoomProvider)
    requires
        p.wf(),
        p.emitted@.len() > 0,
    ensures
        p.emitted@[0].kind == EmitKind::Snapshot,
        forall|i: int, j: int|
            0 <= i < j < p.emitted@.len() ==> (#[trigger] p.emitted@[i]).object_id < (
            #[trigger] p.emitted@[j]).object_id && p.emitted@[i].priority < p.emitted@[j].priority,
        forall|i: int|
            0 <= i < p.emitted@.len() ==> (#[trigger] p.emitted@[i]).group_id
                == p.emitted@[0].group_id,
{
}

/// The update blobs of the state packets in `ps`, in order; other packets
/// contribute nothing.
pub open spec fn state_updates(ps: Seq<RoomPacket>) -> Seq<Seq<u8>>
    decreases ps.len(),
{
    if ps.len() == 0 {
        Seq::empty()
    } else {
        let rest = state_updates(ps.skip(1));
        match ps[0] {
            RoomPacket::StatePacket(sp) => seq![state_update(sp)] + rest,
            RoomPacket::Other(_) => rest,
        }
    }
}

/// The document history after a provider consumes `ps` starting from history
/// `h`: exactly what `handle_packet` does to the room's document, packet by
/// packet.
pub open spec fn run_history(h: Seq<Seq<u8>>, ps: Seq<RoomPacket>) -> Seq<Seq<u8>>
    decreases ps.len(),
{
    if ps.len() == 0 {
        h
    } else {
        let h2 = match ps[0] {
            RoomPacket::StatePacket(sp) => h.push(state_update(sp)),
            RoomPacket::Other(_) => h,
        };
        run_history(h2, ps.skip(1))
    }
}

/// Merging only touches state packets: consuming any packet sequence leaves
/// the document's history extended by exactly the state updates, in order,
/// whatever other packets stand between them.
pub proof fn lemma_merge_ignores_others(h: Seq<Seq<u8>>, ps: Seq<RoomPacket>)
    ensures
        run_history(h, ps) == h + state_updates(ps),
    decreases ps.len(),
{
    if ps.len() == 0 {
        assert(h + state_updates(ps) =~= h);
    } else {
        match ps[0] {
            RoomPacket::StatePacket(sp) => {
                lemma_merge_ignores_others(h.push(state_update(sp)), ps.skip(1));
                assert(h.push(state_update(sp)) + state_updates(ps.skip(1)) =~= h + (seq![
                    state_update(sp),
                ] + state_updates(ps.skip(1))));
            },
            RoomPacket::Other(_) => {
                lemma_merge_ignores_others(h, ps.skip(1));
            },
        }
    }
}

/// State updates split over concatenation.
pub proof fn lemma_state_updates_app(ps1: Seq<RoomPacket>, ps2: Seq<RoomPacket>)
    ensures
        state_updates(ps1 + ps2) == state_updates(ps1) + state_updates(ps2),
    decreases ps1.len(),
{
    if ps1.len() == 0 {
        assert(ps1 + ps2 =~= ps2);
        assert(state_updates(ps1) + state_updates(ps2) =~= state_updates(ps2));
    } else {
        assert((ps1 + ps2).skip(1) =~= ps1.skip(1) + ps2);
        lemma_state_updates_app(ps1.skip(1), ps2);
        assert((ps1 + ps2)[0] == ps1[0]);
        match ps1[0] {
            RoomPacket::StatePacket(sp) => {
                assert(seq![state_update(sp)] + (state_updates(ps1.skip(1)) + state_updates(ps2))
                    =~= (seq![state_update(sp)] + state_updates(ps1.skip(1))) + state_updates(
                    ps2,
                ));
            },
            RoomPacket::Other(_) => {},
        }
    }
}

/// An unrelated passthrough packet interleaved anywhere in the consumed
/// sequence leaves the merged document state untouched: a document that
/// consumes a snapshot and then a delta ends in the same state whatever
/// other packets stand before, between or after them.
pub proof fn lemma_other_packet_interleaving_irrelevant(
    h: Seq<Seq<u8>>,
    ps1: Seq<RoomPacket>,
    p: RoomPacket,
    ps2: Seq<RoomPacket>,
)
    requires
        p matches RoomPacket::Other(_),
    ensures
        run_history(h, ps1 + seq![p] + ps2) == run_history(h, ps1 + ps2),
    decreases ps1.len(),
{
    lemma_merge_ignores_others(h, ps1 + seq![p] + ps2);
    lemma_merge_ignores_others(h, ps1 + ps2);
    lemma_state_updates_app(ps1 + seq![p], ps2);
    lemma_state_updates_app(ps1, seq![p]);
    lemma_state_updates_app(ps1, ps2);
    assert((ps1 + seq![p]) + ps2 =~= ps1 + seq![p] + ps2);
    assert(seq![p].skip(1) =~= Seq::<RoomPacket>::empty());
    assert(state_updates(Seq::<RoomPacket>::empty()) =~= Seq::<Seq<u8>>::empty());
    assert(seq![p][0] == p);
    assert(state_updates(seq![p]) =~= Seq::<Seq<u8>>::empty());
    assert(state_updates(ps1) + Seq::<Seq<u8>>::empty() =~= state_updates(ps1));
    assert(h + (state_updates(ps1) + state_updates(ps2)) =~= run_history(h, ps1 + ps2));
}

} // verus!
