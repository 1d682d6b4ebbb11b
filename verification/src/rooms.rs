//! The room registry.
//!
//! One entry per room identifier, created on first use and kept for the
//! process lifetime. Each room carries its mergeable document and an
//! episode flag: the flag is true while exactly one listener/provider pair is
//! serving the room, and claiming it (`begin_episode`) is a single atomic
//! step against the registry, so two attempts to serve the same room yield
//! exactly one episode.

use vstd::prelude::*;
use crate::doc::RoomDoc;

verus! {

/// State of one room: its shared document and the episode flag.
pub struct RoomState {
    pub state: RoomDoc,
    pub active: bool,
}

/// One room's state, as held by the registry.
pub struct Room {
    pub value: RoomState,
}

/// A registry operation failed: the room is unknown, or the document engine
/// rejected the work.
#[derive(Clone, Copy, Debug, PartialEq, Eq, Structural)]
pub enum RoomError {
    UnknownRoom,
    DocFailed,
}

impl Room {
    /// A fresh room: empty document, no episode running.
    pub fn new() -> (r: Room)
        ensures
            r.value.state.history() == Seq::<Seq<u8>>::empty(),
            !r.value.active,
    {
        Room { value: RoomState { state: RoomDoc::new(), active: false } }
    }

    /// Mark an episode as running on this room.
    pub fn activate(&mut self)
        ensures
            final(self).value.active,
            final(self).value.state == old(self).value.state,
    {
        self.value.active = true;
    }

    /// Mark the room as free for a future episode.
    pub fn deactivate(&mut self)
        ensures
            !final(self).value.active,
            final(self).value.state == old(self).value.state,
    {
        self.value.active = false;
    }

    /// Whether an episode is running on this room.
    pub fn is_active(&self) -> (b: bool)
        ensures
            b == self.value.active,
    {
        self.value.active
    }
}

/// Registry of all rooms, keyed by the raw room identifier.
pub struct Rooms {
    pub entries: Vec<(String, Room)>,
}

impl Rooms {
    /// Room identifiers are stored without repetition.
    pub open spec fn wf(self) -> bool {
        forall|i: int, j: int|
            0 <= i < j < self.entries@.len() ==> self.entries@[i].0@ != self.entries@[j].0@
    }

    /// Whether a room with this identifier exists.
    pub open spec fn has_room(self, id: Seq<char>) -> bool {
        exists|i: int| 0 <= i < self.entries@.len() && self.entries@[i].0@ == id
    }

    /// The index of the entry with this identifier.
    pub open spec fn spec_index_of(self, id: Seq<char>) -> int {
        choose|i: int| 0 <= i < self.entries@.len() && self.entries@[i].0@ == id
    }

    /// The room stored under this identifier.
    pub open spec fn room_of(self, id: Seq<char>) -> Room {
        self.entries@[self.spec_index_of(id)].1
    }

    /// With unique identifiers, an entry whose identifier matches is the
    /// entry the registry resolves that identifier to.
    pub proof fn lemma_index_of(self, id: Seq<char>, i: int)
        requires
            self.wf(),
            0 <= i < self.entries@.len(),
            self.entries@[i].0@ == id,
        ensures
            self.has_room(id),
            self.spec_index_of(id) == i,
            self.room_of(id) == self.entries@[i].1,
    {
        assert(self.has_room(id));
        let j = self.spec_index_of(id);
        assert(0 <= j < self.entries@.len() && self.entries@[j].0@ == id);
        if i < j {
            assert(self.entries@[i].0@ != self.entries@[j].0@);
        } else if j < i {
            assert(self.entries@[j].0@ != self.entries@[i].0@);
        }
    }

    /// An empty registry.
    pub fn new() -> (r: Rooms)
        ensures
            r.wf(),
            forall|k: Seq<char>| !r.has_room(k),
    {
        Rooms { entries: Vec::new() }
    }

    /// Read-only lookup; does not create.
    #[verifier::loop_isolation(false)]
    pub fn get_room(&self, key: &String) -> (r: Option<&Room>)
        requires
            self.wf(),
        ensures
            match r {
                Some(room) => self.has_room(key@) && *room == self.room_of(key@),
                None => !self.has_room(key@),
            },
    {
        let n = self.entries.len();
        let mut i: usize = 0;
        while i < n
            invariant
                0 <= i <= n,
                forall|j: int| 0 <= j < i ==> self.entries@[j].0@ != key@,
            decreases n - i,
        {
            if self.entries[i].0.eq(key) {
                proof {
                    self.lemma_index_of(key@, i as int);
                }
                return Some(&self.entries[i].1);
            }
            i += 1;
        }
        None
    }

    /// Remove and return the entry for `id`, leaving every other room as it
    /// was. The registry no longer resolves `id` until the room is put back.
    #[verifier::loop_isolation(false)]
    fn take_room(&mut self, id: &String) -> (r: Option<Room>)
        requires
            old(self).wf(),
        ensures
            final(self).wf(),
            match r {
                Some(room) => {
                    &&& old(self).has_room(id@)
                    &&& room == old(self).room_of(id@)
                    &&& forall|k: Seq<char>|
                        #![trigger final(self).has_room(k)]
                        final(self).has_room(k) <==> (old(self).has_room(k) && k != id@)
                    &&& forall|k: Seq<char>|
                        k != id@ && old(self).has_room(k) ==> final(self).room_of(k) == old(self).room_of(k)
                },
                None => !old(self).has_room(id@) && *final(self) == *old(self),
            },
    {
        let n = self.entries.len();
        let mut i: usize = 0;
        while i < n
            invariant
                0 <= i <= n,
                self == old(self),
                forall|j: int| 0 <= j < i ==> self.entries@[j].0@ != id@,
            decreases n - i,
        {
            if self.entries[i].0.eq(id) {
                proof {
                    old(self).lemma_index_of(id@, i as int);
                }
                let ghost before = self.entries@;
                let e = self.entries.swap_remove(i);
                proof {
                    let after = self.entries@;
                    // uniqueness of the remaining entries
                    assert forall|p: int, q: int|
                        0 <= p < q < after.len() implies after[p].0@ != after[q].0@ by {
                        let psrc: int = if p == i {
                            before.len() - 1
                        } else {
                            p
                        };
                        let qsrc: int = if q == i {
                            before.len() - 1
                        } else {
                            q
                        };
                        assert(after[p] == before[psrc] && after[q] == before[qsrc]);
                        assert(psrc != qsrc);
                    }
                    // membership of every other identifier is unchanged
                    assert forall|k: Seq<char>|
                        #![trigger self.has_room(k)]
                        self.has_room(k) <==> (old(self).has_room(k) && k != id@) by {
                        if self.has_room(k) {
                            let p = choose|p: int|
                                0 <= p < after.len() && (#[trigger] after[p].0)@ == k;
                            let psrc: int = if p == i {
                                before.len() - 1
                            } else {
                                p
                            };
                            assert(after[p] == before[psrc]);
                            assert(before[psrc].0@ == k);
                            assert(psrc != i);
                            assert(old(self).has_room(k));
                            assert(before[i as int].0@ == id@);
                        }
                        if old(self).has_room(k) && k != id@ {
                            let p = choose|p: int|
                                0 <= p < before.len() && (#[trigger] before[p].0)@ == k;
                            assert(p != i);
                            let pdst: int = if p == before.len() - 1 {
                                i as int
                            } else {
                                p
                            };
                            assert(after[pdst] == before[p]);
                            assert(self.has_room(k));
                        }
                    }
                    // resolution of every other identifier is unchanged
                    assert forall|k: Seq<char>|
                        k != id@ && old(self).has_room(k) implies self.room_of(k) == old(self).room_of(k) by {
                        let p = old(self).spec_index_of(k);
                        assert(0 <= p < before.len() && before[p].0@ == k);
                        assert(p != i);
                        let pdst: int = if p == before.len() - 1 {
                            i as int
                        } else {
                            p
                        };
                        assert(after[pdst] == before[p]);
                        self.lemma_index_of(k, pdst);
                    }
                }
                return Some(e.1);
            }
            i += 1;
        }
        proof {
            assert forall|j: int|
                0 <= j < self.entries@.len() implies self.entries@[j].0@ != id@ by {}
        }
        None
    }

    /// Store `room` under `id`, replacing any previous entry for it; every
    /// other room is left as it was.
    fn set_room(&mut self, id: String, room: Room)
        requires
            old(self).wf(),
        ensures
            final(self).wf(),
            forall|k: Seq<char>|
                #![trigger final(self).has_room(k)]
                final(self).has_room(k) <==> (old(self).has_room(k) || k == id@),
            final(self).room_of(id@) == room,
            forall|k: Seq<char>|
                k != id@ && old(self).has_room(k) ==> final(self).room_of(k) == old(self).room_of(
                    k,
                ) && final(self).has_room(k),
    {
        let taken = self.take_room(&id);
        let ghost mid = *self;
        let ghost idv = id@;
        self.entries.push((id, room));
        proof {
            let after = self.entries@;
            assert(after =~= mid.entries@.push(after[after.len() - 1]));
            assert(after[after.len() - 1].0@ == idv);
            assert(!mid.has_room(idv));
            assert forall|p: int, q: int|
                0 <= p < q < after.len() implies after[p].0@ != after[q].0@ by {
                if q == after.len() - 1 {
                    assert(after[p] == mid.entries@[p]);
                    assert(mid.has_room(after[p].0@));
                } else {
                    assert(after[p] == mid.entries@[p] && after[q] == mid.entries@[q]);
                }
            }
            self.lemma_index_of(idv, after.len() - 1);
            assert forall|k: Seq<char>|
                #![trigger self.has_room(k)]
                self.has_room(k) <==> (old(self).has_room(k) || k == idv) by {
                if self.has_room(k) && k != idv {
                    let p = choose|p: int| 0 <= p < after.len() && (#[trigger] after[p].0)@ == k;
                    assert(p != after.len() - 1);
                    assert(mid.entries@[p].0@ == k);
                    assert(mid.has_room(k));
                }
                if old(self).has_room(k) && k != idv {
                    assert(mid.has_room(k));
                    let p = choose|p: int|
                        0 <= p < mid.entries@.len() && (#[trigger] mid.entries@[p].0)@ == k;
                    assert(after[p] == mid.entries@[p]);
                    assert(self.has_room(k));
                }
            }
            assert forall|k: Seq<char>|
                k != idv && old(self).has_room(k) implies self.room_of(k) == old(self).room_of(k)
                && self.has_room(k) by {
                assert(mid.has_room(k));
                let p = mid.spec_index_of(k);
                assert(0 <= p < mid.entries@.len() && mid.entries@[p].0@ == k);
                assert(after[p] == mid.entries@[p]);
                self.lemma_index_of(k, p);
                assert(mid.room_of(k) == old(self).room_of(k));
            }
        }
    }

    /// Insert a room under an identifier (replacing any previous room for
    /// it).
    pub fn insert(&mut self, room_id: String, room: Room)
        requires
            old(self).wf(),
        ensures
            final(self).wf(),
            forall|k: Seq<char>|
                #![trigger final(self).has_room(k)]
                final(self).has_room(k) <==> (old(self).has_room(k) || k == room_id@),
            final(self).room_of(room_id@) == room,
            forall|k: Seq<char>|
                k != room_id@ && old(self).has_room(k) ==> final(self).room_of(k) == old(self).room_of(k) && final(self).has_room(k),
    {
        self.set_room(room_id, room)
    }

    /// Claim the room for a new episode, creating it with an empty document
    /// on first use: returns true and marks the room active when no episode
    /// was running, and is a no-op returning false when one was.
    pub fn begin_episode(&mut self, room_id: &String) -> (started: bool)
        requires
            old(self).wf(),
        ensures
            final(self).wf(),
            final(self).has_room(room_id@),
            forall|k: Seq<char>|
                #![trigger final(self).has_room(k)]
                final(self).has_room(k) <==> (old(self).has_room(k) || k == room_id@),
            started == !(old(self).has_room(room_id@) && old(self).room_of(
                room_id@,
            ).value.active),
            final(self).room_of(room_id@).value.active,
            old(self).has_room(room_id@) ==> final(self).room_of(room_id@).value.state == old(self).room_of(room_id@).value.state,
            !old(self).has_room(room_id@) ==> final(self).room_of(room_id@).value.state.history()
                == Seq::<Seq<u8>>::empty(),
            forall|k: Seq<char>|
                k != room_id@ && old(self).has_room(k) ==> final(self).room_of(k) == old(self).room_of(k),
    {
        match self.take_room(room_id) {
            Some(mut room) => {
                if room.is_active() {
                    self.set_room(room_id.clone(), room);
                    false
                } else {
                    room.activate();
                    self.set_room(room_id.clone(), room);
                    true
                }
            },
            None => {
                let mut room = Room::new();
                room.activate();
                self.set_room(room_id.clone(), room);
                true
            },
        }
    }

    /// End the room's episode: clear its flag so a future announce can serve
    /// it again. Unknown identifiers are ignored.
    pub fn end_episode(&mut self, room_id: &String)
        requires
            old(self).wf(),
        ensures
            final(self).wf(),
            forall|k: Seq<char>|
                #![trigger final(self).has_room(k)]
                final(self).has_room(k) <==> old(self).has_room(k),
            old(self).has_room(room_id@) ==> !final(self).room_of(room_id@).value.active && final(self).room_of(room_id@).value.state == old(self).room_of(room_id@).value.state,
            forall|k: Seq<char>|
                k != room_id@ && old(self).has_room(k) ==> final(self).room_of(k) == old(self).room_of(k),
    {
        match self.take_room(room_id) {
            Some(mut room) => {
                room.deactivate();
                self.set_room(room_id.clone(), room);
            },
            None => {},
        }
    }

    /// Merge one update blob into the room's document.
    pub fn apply_state_update(&mut self, room_id: &String, update: &Vec<u8>) -> (r: Result<
        (),
        RoomError,
    >)
        requires
            old(self).wf(),
        ensures
            final(self).wf(),
            forall|k: Seq<char>|
                #![trigger final(self).has_room(k)]
                final(self).has_room(k) <==> old(self).has_room(k),
            match r {
                Ok(_) => old(self).has_room(room_id@) && final(self).room_of(
                    room_id@,
                ).value.state.history() == old(self).room_of(room_id@).value.state.history().push(
                    update@,
                ) && final(self).room_of(room_id@).value.active == old(self).room_of(
                    room_id@,
                ).value.active,
                Err(e) => {
                    &&& (e == RoomError::UnknownRoom <==> !old(self).has_room(room_id@))
                    &&& (old(self).has_room(room_id@) ==> final(self).room_of(
                        room_id@,
                    ).value.state.history() == old(self).room_of(room_id@).value.state.history()
                        && final(self).room_of(room_id@).value.active == old(self).room_of(
                        room_id@,
                    ).value.active)
                },
            },
            forall|k: Seq<char>|
                k != room_id@ && old(self).has_room(k) ==> final(self).room_of(k) == old(self).room_of(k),
    {
        match self.take_room(room_id) {
            Some(mut room) => {
                let applied = room.value.state.apply(update);
                self.set_room(room_id.clone(), room);
                match applied {
                    Ok(_) => Ok(()),
                    Err(_) => Err(RoomError::DocFailed),
                }
            },
            None => Err(RoomError::UnknownRoom),
        }
    }

    /// Encode the room's full document state as one update blob. The room is
    /// reported unknown exactly when it is; for an existing room the bytes
    /// come from the document engine — nothing is claimed of them, and only
    /// the engine's own refusal remains as a failure.
    #[verifier::loop_isolation(false)]
    pub fn encode_room_snapshot(&self, room_id: &String) -> (r: Result<Vec<u8>, RoomError>)
        requires
            self.wf(),
        ensures
            r == Result::<Vec<u8>, RoomError>::Err(RoomError::UnknownRoom) <==> !self.has_room(
                room_id@,
            ),
    {
        match self.get_room(room_id) {
            Some(room) => {
                match room.value.state.encode_snapshot() {
                    Ok(bytes) => Ok(bytes),
                    Err(_) => Err(RoomError::DocFailed),
                }
            },
            None => Err(RoomError::UnknownRoom),
        }
    }
}

} // verus!
