//! Per-connection orchestration decisions.
//!
//! A session watches the announces arriving from its subscriber role. Each
//! announce namespace is matched against the participant-prefix pattern;
//! matches resolve or create the room and, when no episode is already running
//! on it, claim it and set up one listener/provider pair; everything else is
//! ignored. The asynchronous plumbing around these decisions — the transport
//! session, the forwarding channel, running the pair and ending the episode —
//! lives with the caller; the decisions themselves are here.

use vstd::prelude::*;
use crate::listener::RoomListener;
use crate::pattern::{parse_spec, RoomAnnouncePattern};
use crate::provider::RoomProvider;
use crate::rooms::Rooms;

verus! {

/// Process-wide configuration the session decisions need: the index
/// namespace, the two role prefixes, and the data track name.
pub struct SessionConfig {
    pub index_namespace: String,
    pub participant_prefix: String,
    pub provider_prefix: String,
    pub track: String,
}

/// Everything one room-serving episode starts from: the room claimed, a fresh
/// listener on the participant announce, a fresh provider under the provider
/// namespace, and the bound of the forwarding channel between them.
pub struct Episode {
    pub room_id: String,
    pub listener: RoomListener,
    pub provider: RoomProvider,
    pub channel_capacity: usize,
}

/// Relies on uuid::Uuid::new_v4 and its Display form: a freshly generated
/// random identifier; nothing is promised of its value.
#[verifier::external_body]
fn new_instance_id() -> String {
    uuid::Uuid::new_v4().to_string()
}

/// How a fresh episode relates to the configuration and the announce it was
/// started for: the listener follows the parsed participant pattern, the
/// provider publishes under the provider prefix for the same room, and the
/// forwarding channel is bounded.
pub open spec fn episode_for(
    ep: Episode,
    config: SessionConfig,
    room_id: Seq<char>,
    publisher_id: Seq<char>,
) -> bool {
    &&& ep.room_id@ == room_id
    &&& ep.listener.wf()
    &&& ep.listener.participant_set() =~= Set::<Seq<char>>::empty()
    &&& ep.listener.announce.index_namespace@ == config.index_namespace@
    &&& ep.listener.announce.prefix@ == config.participant_prefix@
    &&& ep.listener.announce.room_id@ == room_id
    &&& ep.listener.announce.publisher_id@ == publisher_id
    &&& ep.listener.track@ == config.track@
    &&& ep.provider.wf()
    &&& !ep.provider.started
    &&& ep.provider.announce.index_namespace@ == config.index_namespace@
    &&& ep.provider.announce.prefix@ == config.provider_prefix@
    &&& ep.provider.announce.room_id@ == room_id
    &&& ep.provider.track@ == config.track@
    &&& ep.channel_capacity == 1024
}

/// Decide what one announce leads to, with the provider's instance identifier
/// given by the caller. A namespace that does not parse under the participant
/// prefix is ignored and the registry is untouched. A parsed namespace
/// resolves or creates its room atomically: when an episode is already
/// running on it, nothing starts (the duplicate announce is dropped);
/// otherwise the room is claimed and a fresh episode is returned.
pub fn serve_announce_decision(
    rooms: &mut Rooms,
    config: &SessionConfig,
    namespace: String,
    instance_id: String,
) -> (r: Option<Episode>)
    requires
        old(rooms).wf(),
    ensures
        final(rooms).wf(),
        match parse_spec(config.index_namespace@, config.participant_prefix@, namespace@) {
            None => r is None && *final(rooms) == *old(rooms),
            Some((room_id, publisher_id)) => {
                &&& (forall|k: Seq<char>|
                    #![trigger final(rooms).has_room(k)]
                    final(rooms).has_room(k) <==> (old(rooms).has_room(k) || k == room_id))
                &&& (forall|k: Seq<char>|
                    k != room_id && old(rooms).has_room(k) ==> final(rooms).room_of(k) == old(
                        rooms,
                    ).room_of(k))
                &&& (r is Some <==> !(old(rooms).has_room(room_id) && old(rooms).room_of(
                    room_id,
                ).value.active))
                &&& final(rooms).room_of(room_id).value.active
                &&& (old(rooms).has_room(room_id) ==> final(rooms).room_of(room_id).value.state
                    == old(rooms).room_of(room_id).value.state)
                &&& (!old(rooms).has_room(room_id) ==> final(rooms).room_of(
                    room_id,
                ).value.state.history() == Seq::<Seq<u8>>::empty())
                &&& match r {
                    Some(ep) => episode_for(ep, *config, room_id, publisher_id)
                        && ep.provider.announce.publisher_id@ == instance_id@,
                    None => true,
                }
            },
        },
{
    let pat = match RoomAnnouncePattern::parse_announce(
        config.index_namespace.clone(),
        config.participant_prefix.clone(),
        namespace,
    ) {
        Some(p) => p,
        None => {
            return None;
        },
    };
    let started = rooms.begin_episode(&pat.room_id);
    if !started {
        return None;
    }
    let room_id = pat.room_id.clone();
    let provider_announce = RoomAnnouncePattern::new(
        config.index_namespace.clone(),
        config.provider_prefix.clone(),
        pat.room_id.clone(),
        instance_id,
    );
    let listener = RoomListener::new(pat, config.track.clone());
    let provider = RoomProvider::new(provider_announce, config.track.clone());
    Some(Episode { room_id, listener, provider, channel_capacity: 1024 })
}

/// Decide what one announce leads to, minting a fresh random instance
/// identifier for the provider namespace. What holds of the result holds for
/// every identifier the generator may return.
pub fn serve_announce(rooms: &mut Rooms, config: &SessionConfig, namespace: String) -> (r: Option<
    Episode,
>)
    requires
        old(rooms).wf(),
    ensures
        final(rooms).wf(),
        match parse_spec(config.index_namespace@, config.participant_prefix@, namespace@) {
            None => r is None && *final(rooms) == *old(rooms),
            Some((room_id, publisher_id)) => {
                &&& (forall|k: Seq<char>|
                    #![trigger final(rooms).has_room(k)]
                    final(rooms).has_room(k) <==> (old(rooms).has_room(k) || k == room_id))
                &&& (forall|k: Seq<char>|
                    k != room_id && old(rooms).has_room(k) ==> final(rooms).room_of(k) == old(
                        rooms,
                    ).room_of(k))
                &&& (r is Some <==> !(old(rooms).has_room(room_id) && old(rooms).room_of(
                    room_id,
                ).value.active))
                &&& final(rooms).room_of(room_id).value.active
                &&& (old(rooms).has_room(room_id) ==> final(rooms).room_of(room_id).value.state
                    == old(rooms).room_of(room_id).value.state)
                &&& (!old(rooms).has_room(room_id) ==> final(rooms).room_of(
                    room_id,
                ).value.state.history() == Seq::<Seq<u8>>::empty())
                &&& match r {
                    Some(ep) => episode_for(ep, *config, room_id, publisher_id),
                    None => true,
                }
            },
        },
{
    let instance_id = new_instance_id();
    serve_announce_decision(rooms, config, namespace, instance_id)
}

} // verus!
