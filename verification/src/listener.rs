//! Membership tracking for one room-serving episode.
//!
//! A room listener follows the room's index track and keeps the set of
//! participant identifiers currently believed live. Each index packet is
//! reconciled against that set; for every identifier that becomes newly
//! tracked the listener asks for one ingest subscription to be started, named
//! by the participant's namespace and the room's data track.

use vstd::prelude::*;
use crate::index_packet::{string_views, IndexEvent, IndexPacket};
use crate::pattern::RoomAnnouncePattern;

verus! {

/// A request to start ingesting one participant's published track.
#[derive(Debug)]
pub struct StartIngest {
    /// The namespace the participant publishes under.
    pub namespace: String,
    /// The track to subscribe to within that namespace.
    pub track: String,
}

/// The namespace a participant with identifier `id` publishes under, relative
/// to the room addressed by `p`.
pub open spec fn participant_namespace(p: RoomAnnouncePattern, id: Seq<char>) -> Seq<char> {
    p.index_namespace@ + p.prefix@ + p.room_id@ + seq!['.'] + id
}

/// No two strings in `v` have the same characters.
pub open spec fn unique_views(v: Seq<String>) -> bool {
    forall|i: int, j: int| 0 <= i < j < v.len() ==> v[i]@ != v[j]@
}

/// The identifiers a snapshot starts ingesting: those members of `ids`, in
/// order and without repetition, that are not already in `tracked`.
pub open spec fn newly_tracked(known: Set<Seq<char>>, ids: Seq<Seq<char>>) -> Seq<Seq<char>>
    decreases ids.len(),
{
    if ids.len() == 0 {
        Seq::empty()
    } else {
        let rest = newly_tracked(known.insert(ids[0]), ids.skip(1));
        if known.contains(ids[0]) {
            rest
        } else {
            seq![ids[0]] + rest
        }
    }
}

/// The namespaces of a list of ingest requests, in order.
pub open spec fn action_namespaces(v: Seq<StartIngest>) -> Seq<Seq<char>> {
    v.map_values(|a: StartIngest| a.namespace@)
}

/// Whether some string in `v` has the characters of `id`.
#[verifier::loop_isolation(false)]
fn contains_string(v: &Vec<String>, id: &String) -> (r: bool)
    ensures
        r == string_views(v@).contains(id@),
{
    let n = v.len();
    let mut i: usize = 0;
    while i < n
        invariant
            0 <= i <= n,
            forall|j: int| 0 <= j < i ==> v@[j]@ != id@,
        decreases n - i,
    {
        if v[i].eq(id) {
            assert(string_views(v@)[i as int] == id@);
            return true;
        }
        i += 1;
    }
    assert forall|j: int| 0 <= j < v@.len() implies string_views(v@)[j] != id@ by {
        assert(string_views(v@)[j] == v@[j]@);
    }
    false
}

/// Tracks the live participant set of one room and decides which ingest
/// subscriptions to start as membership changes.
pub struct RoomListener {
    /// The announce pattern of the room being served.
    pub announce: RoomAnnouncePattern,
    /// The data track name participants publish on.
    pub track: String,
    pub participants: Vec<String>,
}

impl RoomListener {
    /// The participant identifiers are stored without repetition.
    pub open spec fn wf(self) -> bool {
        unique_views(self.participants@)
    }

    /// The set of identifiers currently believed live.
    pub open spec fn participant_set(self) -> Set<Seq<char>> {
        string_views(self.participants@).to_set()
    }

    pub fn new(announce: RoomAnnouncePattern, track: String) -> (r: Self)
        ensures
            r.wf(),
            r.participant_set() =~= Set::<Seq<char>>::empty(),
            r.announce == announce,
            r.track@ == track@,
    {
        let r = Self { announce, track, participants: Vec::new() };
        proof {
            assert(string_views(r.participants@) =~= Seq::<Seq<char>>::empty());
        }
        r
    }

    /// The identifiers currently tracked, in storage order.
    pub fn participant_ids(&self) -> (r: &Vec<String>)
        ensures
            string_views(r@).to_set() == self.participant_set(),
    {
        &self.participants
    }

    #[verifier::loop_isolation(false)]
    fn contains_participant(&self, id: &String) -> (r: bool)
        ensures
            r == self.participant_set().contains(id@),
    {
        let n = self.participants.len();
        let mut i: usize = 0;
        while i < n
            invariant
                0 <= i <= n,
                forall|j: int| 0 <= j < i ==> self.participants@[j]@ != id@,
            decreases n - i,
        {
            if self.participants[i].eq(id) {
                assert(string_views(self.participants@)[i as int] == id@);
                return true;
            }
            i += 1;
        }
        assert forall|j: int| 0 <= j < self.participants@.len() implies string_views(
            self.participants@,
        )[j] != id@ by {
            assert(string_views(self.participants@)[j] == self.participants@[j]@);
        }
        false
    }

    /// Drop `id` from the tracked set. An already-running ingest task for it
    /// is not cancelled here; it ends with its own stream.
    #[verifier::loop_isolation(false)]
    pub fn remove_participant(&mut self, id: &String)
        requires
            old(self).wf(),
        ensures
            final(self).wf(),
            final(self).participant_set() =~= old(self).participant_set().remove(id@),
            final(self).announce == old(self).announce,
            final(self).track == old(self).track,
    {
        let n = self.participants.len();
        let mut i: usize = 0;
        while i < n
            invariant
                0 <= i <= n,
                self == old(self),
                forall|j: int| 0 <= j < i ==> self.participants@[j]@ != id@,
            decreases n - i,
        {
            if self.participants[i].eq(id) {
                let ghost before = self.participants@;
                self.participants.swap_remove(i);
                proof {
                    let after = self.participants@;
                    assert forall|x: Seq<char>| string_views(after).contains(x) implies
                        string_views(before).contains(x) && x != id@ by {
                        let k = choose|k: int|
                            0 <= k < after.len() && string_views(after)[k] == x;
                        let ksrc: int = if k == i { before.len() - 1 } else { k };
                        assert(after[k] == before[ksrc]);
                        assert(string_views(before)[ksrc] == x);
                        assert(ksrc != i);
                        assert(before[i as int]@ == id@);
                    }
                    assert forall|x: Seq<char>|
                        string_views(before).contains(x) && x != id@ implies string_views(
                        after,
                    ).contains(x) by {
                        let k = choose|k: int|
                            0 <= k < before.len() && string_views(before)[k] == x;
                        let kdst: int = if k == before.len() - 1 { i as int } else { k };
                        assert(k != i);
                        assert(after[kdst] == before[k]);
                        assert(string_views(after)[kdst] == x);
                    }
                    assert(self.participant_set() =~= old(self).participant_set().remove(id@));
                    assert forall|p: int, q: int| 0 <= p < q < after.len() implies after[p]@
                        != after[q]@ by {
                        let psrc: int = if p == i { before.len() - 1 } else { p };
                        let qsrc: int = if q == i { before.len() - 1 } else { q };
                        assert(after[p] == before[psrc] && after[q] == before[qsrc]);
                        assert(psrc != qsrc);
                    }
                }
                return ;
            }
            i += 1;
        }
        proof {
            assert forall|x: Seq<char>| string_views(self.participants@).contains(x) implies x
                != id@ by {
                let k = choose|k: int|
                    0 <= k < self.participants@.len() && string_views(self.participants@)[k] == x;
                assert(self.participants@[k]@ != id@);
            }
            assert(self.participant_set() =~= old(self).participant_set().remove(id@));
        }
    }

    /// Track `id` if it is new. Returns the ingest subscription to start for
    /// it, or nothing when the identifier was already tracked (a duplicate
    /// insert is a no-op).
    pub fn add_participant(&mut self, id: String) -> (started: Option<StartIngest>)
        requires
            old(self).wf(),
        ensures
            final(self).wf(),
            final(self).participant_set() =~= old(self).participant_set().insert(id@),
            final(self).announce == old(self).announce,
            final(self).track == old(self).track,
            started is Some <==> !old(self).participant_set().contains(id@),
            match started {
                Some(a) => a.namespace@ == participant_namespace(old(self).announce, id@)
                    && a.track@ == old(self).track@,
                None => true,
            },
    {
        if self.contains_participant(&id) {
            proof {
                assert(self.participant_set() =~= old(self).participant_set().insert(id@));
            }
            return None;
        }
        let ghost before = self.participants@;
        let ghost idv = id@;
        let pattern = RoomAnnouncePattern::new(
            self.announce.index_namespace.clone(),
            self.announce.prefix.clone(),
            self.announce.room_id.clone(),
            id.clone(),
        );
        let namespace = pattern.to_namespace();
        let track = self.track.clone();
        self.participants.push(id);
        proof {
            assert(namespace@ =~= participant_namespace(old(self).announce, idv));
            assert(string_views(self.participants@) =~= string_views(before).push(idv));
            assert forall|x: Seq<char>|
                string_views(before).push(idv).contains(x) implies string_views(
                before,
            ).contains(x) || x == idv by {
                let k = choose|k: int|
                    0 <= k < string_views(before).push(idv).len() && string_views(before).push(
                        idv,
                    )[k] == x;
                if k < before.len() {
                    assert(string_views(before)[k] == x);
                }
            }
            assert forall|x: Seq<char>|
                old(self).participant_set().insert(idv).contains(x) implies string_views(
                self.participants@,
            ).contains(x) by {
                if x == idv {
                    assert(string_views(self.participants@)[before.len() as int] == idv);
                } else {
                    let k = choose|k: int|
                        0 <= k < before.len() && string_views(before)[k] == x;
                    assert(string_views(self.participants@)[k] == x);
                }
            }
            assert(self.participant_set() =~= old(self).participant_set().insert(idv));
            assert forall|j: int| 0 <= j < before.len() implies before[j]@ != idv by {
                assert(string_views(before)[j] == before[j]@);
            }
        }
        Some(StartIngest { namespace, track })
    }

    /// Apply one index packet to the tracked set, returning the ingest
    /// subscriptions to start. An insert tracks the identifier and starts one
    /// ingest when it is new; a remove only untracks; a snapshot reconciles:
    /// identifiers absent from it are dropped, identifiers new in it are
    /// tracked and started, identifiers in both are untouched.
    #[verifier::loop_isolation(false)]
    pub fn handle_packet(&mut self, packet: IndexPacket) -> (actions: Vec<StartIngest>)
        requires
            old(self).wf(),
        ensures
            final(self).wf(),
            final(self).announce == old(self).announce,
            final(self).track == old(self).track,
            match packet.model() {
                IndexEvent::Insert(id) => {
                    &&& final(self).participant_set() =~= old(self).participant_set().insert(id)
                    &&& (old(self).participant_set().contains(id) ==> actions@.len() == 0)
                    &&& (!old(self).participant_set().contains(id) ==> actions@.len() == 1
                        && actions@[0].namespace@ == participant_namespace(old(self).announce, id)
                        && actions@[0].track@ == old(self).track@)
                },
                IndexEvent::Remove(id) => {
                    &&& final(self).participant_set() =~= old(self).participant_set().remove(id)
                    &&& actions@.len() == 0
                },
                IndexEvent::Snapshot(ids) => {
                    &&& final(self).participant_set() =~= ids.to_set()
                    &&& action_namespaces(actions@) == newly_tracked(
                        old(self).participant_set(),
                        ids,
                    ).map_values(|x: Seq<char>| participant_namespace(old(self).announce, x))
                    &&& forall|i: int|
                        0 <= i < actions@.len() ==> (#[trigger] actions@[i]).track@ == old(
                            self,
                        ).track@
                },
            },
    {
        match packet {
            IndexPacket::Insert(id) => {
                let a = self.add_participant(id);
                let mut actions: Vec<StartIngest> = Vec::new();
                if let Some(x) = a {
                    actions.push(x);
                }
                actions
            },
            IndexPacket::Remove(id) => {
                self.remove_participant(&id);
                Vec::new()
            },
            IndexPacket::Snapshot(ids) => {
                let ghost old_set = old(self).participant_set();
                let ghost idviews = string_views(ids@);
                // Reconcile, first phase: keep only the identifiers the
                // snapshot still names.
                let mut kept: Vec<String> = Vec::new();
                let n0 = self.participants.len();
                let mut i: usize = 0;
                while i < n0
                    invariant
                        0 <= i <= n0,
                        n0 == self.participants@.len(),
                        self == old(self),
                        unique_views(kept@),
                        forall|x: Seq<char>| #![trigger string_views(kept@).contains(x)]
                            string_views(kept@).contains(x) <==> ((exists|j: int|
                                0 <= j < i && (#[trigger] self.participants@[j])@ == x)
                                && idviews.contains(x)),
                    decreases n0 - i,
                {
                    let ghost kept_before = kept@;
                    let ghost xv = self.participants@[i as int]@;
                    if contains_string(&ids, &self.participants[i]) {
                        assert(idviews.contains(xv));
                        if !contains_string(&kept, &self.participants[i]) {
                            kept.push(self.participants[i].clone());
                            proof {
                                assert(string_views(kept@) =~= string_views(kept_before).push(xv));
                                assert forall|x: Seq<char>|
                                    string_views(kept@).contains(x) implies ((exists|j: int|
                                        0 <= j < i + 1 && (#[trigger] self.participants@[j])@ == x)
                                        && idviews.contains(x)) by {
                                    let k = choose|k: int|
                                        0 <= k < kept@.len() && string_views(kept@)[k] == x;
                                    if k < kept_before.len() {
                                        assert(string_views(kept_before)[k] == x);
                                        assert(string_views(kept_before).contains(x));
                                        let j0 = choose|j: int|
                                            0 <= j < i && (#[trigger] self.participants@[j])@
                                                == x;
                                        assert(0 <= j0 < i + 1 && self.participants@[j0]@ == x);
                                    } else {
                                        assert(x == xv);
                                        assert(0 <= i < i + 1 && self.participants@[i as int]@
                                            == x);
                                    }
                                }
                                assert forall|x: Seq<char>|
                                    ((exists|j: int|
                                        0 <= j < i + 1 && (#[trigger] self.participants@[j])@ == x)
                                        && idviews.contains(x)) implies string_views(
                                    kept@,
                                ).contains(x) by {
                                    let j = choose|j: int|
                                        0 <= j < i + 1 && (#[trigger] self.participants@[j])@
                                            == x;
                                    if j < i {
                                        assert(string_views(kept_before).contains(x));
                                        let k = choose|k: int|
                                            0 <= k < kept_before.len() && string_views(
                                                kept_before,
                                            )[k] == x;
                                        assert(string_views(kept@)[k] == x);
                                    } else {
                                        assert(string_views(kept@)[kept_before.len() as int]
                                            == xv);
                                    }
                                }
                                assert forall|p: int, q: int|
                                    0 <= p < q < kept@.len() implies kept@[p]@ != kept@[q]@ by {
                                    if q == kept@.len() - 1 {
                                        assert(string_views(kept_before)[p] == kept@[p]@);
                                        assert(!string_views(kept_before).contains(xv));
                                    } else {
                                        assert(kept_before[p]@ != kept_before[q]@);
                                    }
                                }
                            assert(forall|x: Seq<char>| #![trigger string_views(kept@).contains(x)]
                                string_views(kept@).contains(x) <==> ((exists|j: int|
                                    0 <= j < i + 1 && (#[trigger] self.participants@[j])@ == x)
                                    && idviews.contains(x)));
                            }
                        } else {
                            proof {
                                assert(string_views(kept@).contains(xv));
                                assert forall|x: Seq<char>|
                                    string_views(kept@).contains(x) implies ((exists|j: int|
                                        0 <= j < i + 1 && (#[trigger] self.participants@[j])@ == x)
                                        && idviews.contains(x)) by {
                                    let j0 = choose|j: int|
                                        0 <= j < i && (#[trigger] self.participants@[j])@ == x;
                                    assert(0 <= j0 < i + 1 && self.participants@[j0]@ == x);
                                }
                                assert forall|x: Seq<char>|
                                    ((exists|j: int|
                                        0 <= j < i + 1 && (#[trigger] self.participants@[j])@ == x)
                                        && idviews.contains(x)) implies string_views(
                                    kept@,
                                ).contains(x) by {
                                    let j = choose|j: int|
                                        0 <= j < i + 1 && (#[trigger] self.participants@[j])@
                                            == x;
                                    if j == i {
                                        assert(x == xv);
                                    }
                                }
                            assert(forall|x: Seq<char>| #![trigger string_views(kept@).contains(x)]
                                string_views(kept@).contains(x) <==> ((exists|j: int|
                                    0 <= j < i + 1 && (#[trigger] self.participants@[j])@ == x)
                                    && idviews.contains(x)));
                            }
                        }
                    } else {
                        proof {
                            assert(!idviews.contains(xv));
                            assert forall|x: Seq<char>|
                                string_views(kept@).contains(x) implies ((exists|j: int|
                                    0 <= j < i + 1 && (#[trigger] self.participants@[j])@ == x)
                                    && idviews.contains(x)) by {
                                let j0 = choose|j: int|
                                    0 <= j < i && (#[trigger] self.participants@[j])@ == x;
                                assert(0 <= j0 < i + 1 && self.participants@[j0]@ == x);
                            }
                            assert forall|x: Seq<char>|
                                ((exists|j: int|
                                    0 <= j < i + 1 && (#[trigger] self.participants@[j])@ == x)
                                    && idviews.contains(x)) implies string_views(
                                kept@,
                            ).contains(x) by {
                                let j = choose|j: int|
                                    0 <= j < i + 1 && (#[trigger] self.participants@[j])@ == x;
                                assert(j != i);
                            }
                            assert(forall|x: Seq<char>| #![trigger string_views(kept@).contains(x)]
                                string_views(kept@).contains(x) <==> ((exists|j: int|
                                    0 <= j < i + 1 && (#[trigger] self.participants@[j])@ == x)
                                    && idviews.contains(x)));
                        }
                    }
                    i += 1;
                }
                let ghost keptv = kept@;
                self.participants = kept;
                proof {
                    assert forall|x: Seq<char>|
                        string_views(keptv).contains(x) implies old_set.contains(x)
                            && idviews.contains(x) by {
                        let j = choose|j: int|
                            0 <= j < n0 && (#[trigger] old(self).participants@[j])@ == x;
                        assert(string_views(old(self).participants@)[j] == x);
                    }
                    assert forall|x: Seq<char>|
                        old_set.contains(x) && idviews.contains(x) implies string_views(
                        keptv,
                    ).contains(x) by {
                        let j = choose|j: int|
                            0 <= j < old(self).participants@.len() && string_views(
                                old(self).participants@,
                            )[j] == x;
                        assert(old(self).participants@[j]@ == x);
                    }
                    assert(self.participant_set() =~= old_set.intersect(idviews.to_set()));
                }
                let ghost kept_set = self.participant_set();
                // Second phase: track and start every identifier the snapshot
                // names that is not already tracked, in snapshot order.
                let mut actions: Vec<StartIngest> = Vec::new();
                let ghost done: Seq<Seq<char>> = Seq::empty();
                let m = ids.len();
                let mut k: usize = 0;
                proof {
                    assert(idviews.take(0) =~= Seq::<Seq<char>>::empty());
                    assert(idviews.skip(0) =~= idviews);
                    assert(old_set.union(idviews.take(0).to_set()) =~= old_set);
                }
                while k < m
                    invariant
                        0 <= k <= m,
                        m == ids@.len(),
                        self.wf(),
                        self.announce == old(self).announce,
                        self.track == old(self).track,
                        kept_set =~= old_set.intersect(idviews.to_set()),
                        idviews == string_views(ids@),
                        self.participant_set() =~= kept_set.union(
                            idviews.take(k as int).to_set(),
                        ),
                        newly_tracked(old_set, idviews) == done + newly_tracked(
                            old_set.union(idviews.take(k as int).to_set()),
                            idviews.skip(k as int),
                        ),
                        action_namespaces(actions@) == done.map_values(
                            |x: Seq<char>| participant_namespace(old(self).announce, x),
                        ),
                        forall|i: int|
                            0 <= i < actions@.len() ==> (#[trigger] actions@[i]).track@ == old(
                                self,
                            ).track@,
                    decreases m - k,
                {
                    let ghost spec_k = old_set.union(idviews.take(k as int).to_set());
                    let ghost idv = idviews[k as int];
                    proof {
                        assert(idviews.contains(idv));
                        assert(self.participant_set().contains(idv) <==> spec_k.contains(idv)) by {
                            assert(kept_set.contains(idv) <==> old_set.contains(idv));
                        }
                        assert(idviews.skip(k as int)[0] == idv);
                        assert(idviews.skip(k as int).skip(1) =~= idviews.skip(k as int + 1));
                        assert(spec_k.insert(idv) =~= old_set.union(
                            idviews.take(k as int + 1).to_set(),
                        )) by {
                            assert forall|x: Seq<char>|
                                idviews.take(k as int + 1).to_set().contains(x) implies spec_k
                                    .insert(idv).contains(x) by {
                                let j = choose|j: int|
                                    0 <= j < k as int + 1 && #[trigger] idviews.take(
                                        k as int + 1,
                                    )[j] == x;
                                if j < k as int {
                                    assert(idviews.take(k as int)[j] == x);
                                }
                            }
                            assert forall|x: Seq<char>|
                                idviews.take(k as int).to_set().contains(x) implies idviews.take(
                                k as int + 1,
                            ).to_set().contains(x) by {
                                let j = choose|j: int|
                                    0 <= j < k as int && idviews.take(k as int)[j] == x;
                                assert(idviews.take(k as int + 1)[j] == x);
                            }
                            assert(idviews.take(k as int + 1)[k as int] == idv);
                        }
                    }
                    let ghost done_before = done;
                    let ghost actions_before = actions@;
                    let idk = ids[k].clone();
                    let a = self.add_participant(idk);
                    if let Some(x) = a {
                        actions.push(x);
                        proof {
                            done = done.push(idv);
                            assert(action_namespaces(actions@) =~= action_namespaces(
                                actions_before,
                            ).push(participant_namespace(old(self).announce, idv)));
                            assert(done.map_values(
                                |x: Seq<char>| participant_namespace(old(self).announce, x),
                            ) =~= done_before.map_values(
                                |x: Seq<char>| participant_namespace(old(self).announce, x),
                            ).push(participant_namespace(old(self).announce, idv)));
                            assert(seq![idv] + newly_tracked(
                                spec_k.insert(idv),
                                idviews.skip(k as int + 1),
                            ) =~= seq![idv].push(idv).take(1) + newly_tracked(
                                spec_k.insert(idv),
                                idviews.skip(k as int + 1),
                            ));
                            assert(done_before + (seq![idv] + newly_tracked(
                                spec_k.insert(idv),
                                idviews.skip(k as int + 1),
                            )) =~= done + newly_tracked(
                                spec_k.insert(idv),
                                idviews.skip(k as int + 1),
                            ));
                        }
                    }
                    k += 1;
                }
                proof {
                    assert(idviews.take(m as int) =~= idviews);
                    assert(idviews.skip(m as int) =~= Seq::<Seq<char>>::empty());
                    assert(done + newly_tracked(
                        old_set.union(idviews.to_set()),
                        Seq::<Seq<char>>::empty(),
                    ) =~= done);
                    assert(self.participant_set() =~= idviews.to_set());
                }
                actions
            },
        }
    }
}

} // verus!
