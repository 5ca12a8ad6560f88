//! Map room topology to DDS configurations.
use vstd::prelude::*;

use crate::text::push_char;
use crate::{FieldDef, Room, RoomConfig, RoomSchema};

verus! {

/// `s` with every space replaced by an underscore.
pub open spec fn spaces_to_underscores(s: Seq<char>) -> Seq<char> {
    s.map_values(|c: char| if c == ' ' { '_' } else { c })
}

/// The topic name of a room with id `id`: `room_`, then the id with its
/// spaces turned into underscores.
pub open spec fn topic_name_of(id: Seq<char>) -> Seq<char> {
    "room_"@ + spaces_to_underscores(id)
}

/// A topic name is `room_` followed by the id, each space of the id becoming
/// an underscore and every other character kept.
pub proof fn lemma_topic_name_chars(id: Seq<char>)
    ensures
        topic_name_of(id).len() == id.len() + 5,
        topic_name_of(id).subrange(0, 5) == seq!['r', 'o', 'o', 'm', '_'],
        forall|i: int|
            0 <= i < id.len() ==> #[trigger] topic_name_of(id)[i + 5] == (if id[i] == ' ' {
                '_'
            } else {
                id[i]
            }),
{
    reveal_strlit("room_");
    assert(topic_name_of(id).subrange(0, 5) =~= seq!['r', 'o', 'o', 'm', '_']);
}

/// Topic names tell apart ids without spaces: every other character is kept.
pub proof fn lemma_topic_names_distinguish_ids_without_spaces(a: Seq<char>, b: Seq<char>)
    requires
        !a.contains(' '),
        !b.contains(' '),
        topic_name_of(a) == topic_name_of(b),
    ensures
        a == b,
{
    lemma_topic_name_chars(a);
    lemma_topic_name_chars(b);
    assert forall|i: int| 0 <= i < a.len() implies a[i] == b[i] by {
        assert(topic_name_of(a)[i + 5] == topic_name_of(b)[i + 5]);
        if a[i] == ' ' {
            assert(a.contains(' '));
        }
        if b[i] == ' ' {
            assert(b.contains(' '));
        }
        assert(i < b.len());
        assert(topic_name_of(a)[i + 5] == a[i]);
        assert(topic_name_of(b)[i + 5] == b[i]);
    }
    assert(a =~= b);
}

/// The history depth for an agent count: the count, but at least one.
pub open spec fn depth_for(agent_count: usize) -> usize {
    if agent_count < 1 {
        1
    } else {
        agent_count
    }
}

/// Generate a DDS topic name from a room.
pub fn room_topic_name(room: &Room) -> (name: String)
    ensures
        name@ == topic_name_of(room.id@),
        name@.len() == room.id@.len() + 5,
        name@.subrange(0, 5) == seq!['r', 'o', 'o', 'm', '_'],
        forall|i: int|
            0 <= i < room.id@.len() ==> #[trigger] name@[i + 5] == (if room.id@[i] == ' ' {
                '_'
            } else {
                room.id@[i]
            }),
{
    let mut name = String::from_str("room_");
    let ghost prefix = name@;
    for c in it: room.id.as_str().chars()
        invariant
            it.seq() == room.id@,
            prefix == "room_"@,
            name@ == prefix + spaces_to_underscores(it.seq().take(it.index() as int)),
    {
        let ghost before = name@;
        let ghost i = it.index();
        if c == ' ' {
            push_char(&mut name, '_');
        } else {
            push_char(&mut name, c);
        }
        proof {
            assert(spaces_to_underscores(it.seq().take(i + 1)) =~= spaces_to_underscores(
                it.seq().take(i as int),
            ).push(if c == ' ' { '_' } else { c }));
            assert(name@ =~= prefix + spaces_to_underscores(it.seq().take(i + 1)));
        }
    }
    proof {
        assert(room.id@.take(room.id@.len() as int) =~= room.id@);
        lemma_topic_name_chars(room.id@);
    }
    name
}

/// Compute history depth from the agent count.
pub fn history_depth(room: &Room) -> (d: usize)
    ensures
        d == depth_for(room.agent_count),
        d >= 1,
        room.agent_count >= 1 ==> d == room.agent_count,
        room.agent_count == 0 ==> d == 1,
{
    if room.agent_count < 1 {
        1
    } else {
        room.agent_count
    }
}

/// The configuration of `room` in the domain `domain_id`.
pub open spec fn is_room_config_for(c: RoomConfig, room: Room, domain_id: u32) -> bool {
    &&& c.room_id@ == room.id@
    &&& c.topic@ == topic_name_of(room.id@)
    &&& c.domain_id == domain_id
    &&& c.history_depth == depth_for(room.agent_count)
}

/// Build a RoomConfig from a Room given its assigned domain_id.
pub fn build_room_config(room: &Room, domain_id: u32) -> (c: RoomConfig)
    ensures
        is_room_config_for(c, *room, domain_id),
        c.room_id@ == room.id@,
        c.domain_id == domain_id,
        c.history_depth == (if room.agent_count < 1 {
            1
        } else {
            room.agent_count
        }),
        c.topic@.len() == room.id@.len() + 5,
        c.topic@.subrange(0, 5) == seq!['r', 'o', 'o', 'm', '_'],
        forall|i: int|
            0 <= i < room.id@.len() ==> #[trigger] c.topic@[i + 5] == (if room.id@[i] == ' ' {
                '_'
            } else {
                room.id@[i]
            }),
{
    let c = RoomConfig {
        room_id: room.id.clone(),
        topic: room_topic_name(room),
        domain_id,
        history_depth: history_depth(room),
    };
    proof {
        lemma_topic_name_chars(room.id@);
    }
    c
}

/// A room's configuration carries the room's own id (not its display name),
/// the domain it was given, the agent count as history depth (one when there
/// are no agents), and as topic `room_` followed by the id with spaces turned
/// into underscores.
pub proof fn lemma_room_config_fields(c: RoomConfig, room: Room, domain_id: u32)
    requires
        is_room_config_for(c, room, domain_id),
    ensures
        c.room_id@ == room.id@,
        c.domain_id == domain_id,
        c.history_depth >= 1,
        room.agent_count >= 1 ==> c.history_depth == room.agent_count,
        room.agent_count == 0 ==> c.history_depth == 1,
        c.topic@.len() == room.id@.len() + 5,
        c.topic@.subrange(0, 5) == seq!['r', 'o', 'o', 'm', '_'],
        forall|i: int|
            0 <= i < room.id@.len() ==> #[trigger] c.topic@[i + 5] == (if room.id@[i] == ' ' {
                '_'
            } else {
                room.id@[i]
            }),
{
    lemma_topic_name_chars(room.id@);
}

/// Whether `f` is the field with the given name, type and key flag.
pub open spec fn is_field(f: FieldDef, name: Seq<char>, data_type: Seq<char>, is_key: bool) -> bool {
    f.name@ == name && f.data_type@ == data_type && f.is_key == is_key
}

/// Infer a RoomSchema from a room if none provided, returning a default: the
/// key `room_id`, then `name`, both strings, then `agent_count` as `uint32`.
pub fn default_schema(_room: &Room) -> (s: RoomSchema)
    ensures
        s.fields@.len() == 3,
        is_field(s.fields@[0], "room_id"@, "string"@, true),
        is_field(s.fields@[1], "name"@, "string"@, false),
        is_field(s.fields@[2], "agent_count"@, "uint32"@, false),
{
    let mut fields: Vec<FieldDef> = Vec::new();
    fields.push(
        FieldDef {
            name: String::from_str("room_id"),
            data_type: String::from_str("string"),
            is_key: true,
        },
    );
    fields.push(
        FieldDef {
            name: String::from_str("name"),
            data_type: String::from_str("string"),
            is_key: false,
        },
    );
    fields.push(
        FieldDef {
            name: String::from_str("agent_count"),
            data_type: String::from_str("uint32"),
            is_key: false,
        },
    );
    RoomSchema { fields }
}

} // verus!
