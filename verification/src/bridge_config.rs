//! Assemble the full DDS configuration from a topology.
use vstd::prelude::*;

use crate::domain_map::{
    build_domain_map, domain_id_of, is_domain_partition, lemma_lookup_agrees_with_links,
    lemma_domain_partition_unique, lemma_lookup_finds_known_rooms, linked, passage_ends,
    room_domain_id, same_domains,
};
use crate::room_config::{build_room_config, is_room_config_for};
use crate::text::views;
use crate::topic_gen::{generate_topics, is_topic_for};
use crate::{DDSConfig, DomainMap, Room, RoomConfig, Topology};

verus! {

/// The ids of the rooms, in order.
pub open spec fn room_ids_of(rooms: Seq<Room>) -> Seq<Seq<char>> {
    rooms.map_values(|r: Room| r.id@)
}

/// `c` is the configuration of topology `t`:
/// - its domains partition the rooms by the passages, with no bridges;
/// - room `i` is configured with the id of the domain that holds it (0 when
///   none does);
/// - topic `i` is the topic of room `i`.
pub open spec fn is_config_for(t: Topology, c: DDSConfig) -> bool {
    &&& c.domains.bridges@.len() == 0
    &&& is_domain_partition(room_ids_of(t.rooms@), passage_ends(t.passages@), c.domains.domains@)
    &&& c.domains.domains@.len() <= t.rooms@.len()
    &&& c.rooms@.len() == t.rooms@.len()
    &&& forall|i: int|
        0 <= i < t.rooms@.len() ==> is_room_config_for(
            #[trigger] c.rooms@[i],
            t.rooms@[i],
            match domain_id_of(c.domains.domains@, t.rooms@[i].id@) {
                Some(d) => d,
                None => 0,
            },
        )
    &&& c.topics@.len() == t.rooms@.len()
    &&& forall|i: int| 0 <= i < t.rooms@.len() ==> is_topic_for(#[trigger] c.topics@[i], t.rooms@[i])
}

/// Build a complete DDS configuration from a topology.
pub fn build_dds_config(topology: &Topology) -> (c: DDSConfig)
    ensures
        is_config_for(*topology, c),
{
    let rooms_in = &topology.rooms;
    let mut room_ids: Vec<String> = Vec::new();
    let mut i: usize = 0;
    while i < rooms_in.len()
        invariant
            i <= rooms_in@.len(),
            views(room_ids@) == room_ids_of(rooms_in@.take(i as int)),
        decreases rooms_in.len() - i,
    {
        room_ids.push(rooms_in[i].id.clone());
        assert(room_ids_of(rooms_in@.take(i + 1)) =~= room_ids_of(rooms_in@.take(i as int)).push(
            rooms_in@[i as int].id@,
        ));
        assert(views(room_ids@) =~= room_ids_of(rooms_in@.take(i + 1)));
        i += 1;
    }
    assert(rooms_in@.take(rooms_in@.len() as int) =~= rooms_in@);
    let domains = build_domain_map(room_ids.as_slice(), topology.passages.as_slice());
    let mut rooms: Vec<RoomConfig> = Vec::new();
    let mut k: usize = 0;
    while k < rooms_in.len()
        invariant
            k <= rooms_in@.len(),
            rooms@.len() == k,
            forall|j: int|
                0 <= j < k ==> is_room_config_for(
                    #[trigger] rooms@[j],
                    rooms_in@[j],
                    match domain_id_of(domains.domains@, rooms_in@[j].id@) {
                        Some(d) => d,
                        None => 0,
                    },
                ),
        decreases rooms_in.len() - k,
    {
        let r = &rooms_in[k];
        let domain_id = match room_domain_id(&domains, r.id.as_str()) {
            Some(d) => d,
            None => 0,
        };
        rooms.push(build_room_config(r, domain_id));
        k += 1;
    }
    let topics = generate_topics(rooms_in.as_slice());
    DDSConfig { rooms, domains, topics }
}

/// In a configuration, every room is configured with the domain that holds
/// it, and two rooms get the same domain id exactly when passages link them.
pub proof fn lemma_config_rooms_share_domain_iff_linked(t: Topology, c: DDSConfig, i: int, j: int)
    requires
        is_config_for(t, c),
        t.rooms@.len() <= 0x1_0000_0000,
        0 <= i < t.rooms@.len(),
        0 <= j < t.rooms@.len(),
    ensures
        domain_id_of(c.domains.domains@, t.rooms@[i].id@) == Some(c.rooms@[i].domain_id),
        (c.rooms@[i].domain_id == c.rooms@[j].domain_id) <==> linked(
            room_ids_of(t.rooms@),
            passage_ends(t.passages@),
            t.rooms@[i].id@,
            t.rooms@[j].id@,
        ),
{
    let ids = room_ids_of(t.rooms@);
    let es = passage_ends(t.passages@);
    let ds = c.domains.domains@;
    assert(ids[i] == t.rooms@[i].id@ && ids[j] == t.rooms@[j].id@);
    lemma_lookup_finds_known_rooms(ids, es, ds, ids[i]);
    lemma_lookup_finds_known_rooms(ids, es, ds, ids[j]);
    assert(is_room_config_for(c.rooms@[i], t.rooms@[i], domain_id_of(ds, ids[i])->0));
    assert(is_room_config_for(c.rooms@[j], t.rooms@[j], domain_id_of(ds, ids[j])->0));
    lemma_lookup_agrees_with_links(ids, es, ds, ids[i], ids[j]);
}

/// In a configuration, the topic configured for room `i` is the name of
/// topic `i`.
pub proof fn lemma_config_topic_names_agree(t: Topology, c: DDSConfig, i: int)
    requires
        is_config_for(t, c),
        0 <= i < t.rooms@.len(),
    ensures
        c.rooms@[i].topic@ == c.topics@[i].name@,
{
    assert(is_topic_for(c.topics@[i], t.rooms@[i]));
    assert(is_room_config_for(
        c.rooms@[i],
        t.rooms@[i],
        match domain_id_of(c.domains.domains@, t.rooms@[i].id@) {
            Some(d) => d,
            None => 0,
        },
    ));
}

/// The domains of a configuration are the domain map of its room ids: any map
/// that meets `build_domain_map`'s contract for the rooms' ids and the
/// passages agrees with them domain by domain, and both have no bridges.
pub proof fn lemma_config_domains_are_domain_map(t: Topology, c: DDSConfig, m: DomainMap)
    requires
        is_config_for(t, c),
        m.bridges@.len() == 0,
        is_domain_partition(room_ids_of(t.rooms@), passage_ends(t.passages@), m.domains@),
    ensures
        same_domains(c.domains.domains@, m.domains@),
        c.domains.bridges@.len() == m.bridges@.len(),
{
    lemma_domain_partition_unique(
        room_ids_of(t.rooms@),
        passage_ends(t.passages@),
        c.domains.domains@,
        m.domains@,
    );
}

} // verus!
