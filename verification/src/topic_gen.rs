//! Generate DDS topic definitions from room schemas.
use vstd::prelude::*;

use crate::room_config::{lemma_topic_name_chars, room_topic_name, topic_name_of};
use crate::text::views;
use crate::{FieldDef, Room, TopicDef};

verus! {

/// The names of the key fields, in schema order.
pub open spec fn key_field_names(fields: Seq<FieldDef>) -> Seq<Seq<char>> {
    fields.filter(|f: FieldDef| f.is_key).map_values(|f: FieldDef| f.name@)
}

/// `t` is the topic of `room`: the room's topic name, that name followed by
/// `Type` as its type, and the room's key fields.
pub open spec fn is_topic_for(t: TopicDef, room: Room) -> bool {
    &&& t.name@ == topic_name_of(room.id@)
    &&& t.data_type@ == topic_name_of(room.id@) + "Type"@
    &&& views(t.key_fields@) == key_field_names(room.schema.fields@)
}

/// Some field of `fields` marked as key has the name `x`.
pub open spec fn names_a_key_field(fields: Seq<FieldDef>, x: Seq<char>) -> bool {
    exists|i: int| 0 <= i < fields.len() && (#[trigger] fields[i]).is_key && fields[i].name@ == x
}

/// The key field names are the names of the schema's key fields, in schema
/// order: one for each field marked as key, each such field's name among
/// them, and every one of them the name of a key field.
pub proof fn lemma_key_field_names(fields: Seq<FieldDef>, keys: Seq<Seq<char>>)
    requires
        keys == key_field_names(fields),
    ensures
        keys.len() == fields.filter(|f: FieldDef| f.is_key).len(),
        forall|j: int|
            0 <= j < keys.len() ==> #[trigger] keys[j] == fields.filter(|f: FieldDef| f.is_key)[j].name@,
        forall|i: int|
            0 <= i < fields.len() && (#[trigger] fields[i]).is_key ==> keys.contains(fields[i].name@),
        forall|j: int| 0 <= j < keys.len() ==> #[trigger] names_a_key_field(fields, keys[j]),
{
    broadcast use vstd::seq_lib::group_filter_ensures;

    let p = |f: FieldDef| f.is_key;
    let kept = fields.filter(p);
    assert forall|i: int| 0 <= i < fields.len() && (#[trigger] fields[i]).is_key implies keys.contains(
        fields[i].name@,
    ) by {
        assert(p(fields[i]));
        assert(kept.contains(fields[i]));
        let j = choose|j: int| 0 <= j < kept.len() && kept[j] == fields[i];
        assert(keys[j] == fields[i].name@);
    }
    assert forall|j: int| 0 <= j < keys.len() implies #[trigger] names_a_key_field(fields, keys[j]) by {
        assert(keys.len() == kept.len());
        assert(keys[j] == kept[j].name@);
        assert(p(kept[j]));
        assert(kept.contains(kept[j]));
        fields.lemma_filter_contains_rev(p, kept[j]);
        let i = choose|i: int| 0 <= i < fields.len() && fields[i] == kept[j];
        assert(fields[i].is_key && fields[i].name@ == keys[j]);
    }
}

/// A room's topic is named `room_` followed by the id with spaces turned into
/// underscores, its type is that name followed by `Type`, and its key fields
/// are the names of the schema's key fields in schema order.
pub proof fn lemma_topic_fields(t: TopicDef, room: Room)
    requires
        is_topic_for(t, room),
    ensures
        t.name@.len() == room.id@.len() + 5,
        t.name@.subrange(0, 5) == seq!['r', 'o', 'o', 'm', '_'],
        forall|i: int|
            0 <= i < room.id@.len() ==> #[trigger] t.name@[i + 5] == (if room.id@[i] == ' ' {
                '_'
            } else {
                room.id@[i]
            }),
        t.data_type@ == t.name@ + seq!['T', 'y', 'p', 'e'],
        t.key_fields@.len() == room.schema.fields@.filter(|f: FieldDef| f.is_key).len(),
        forall|j: int|
            0 <= j < t.key_fields@.len() ==> #[trigger] t.key_fields@[j]@
                == room.schema.fields@.filter(|f: FieldDef| f.is_key)[j].name@,
        forall|i: int|
            0 <= i < room.schema.fields@.len() && (#[trigger] room.schema.fields@[i]).is_key
                ==> views(t.key_fields@).contains(room.schema.fields@[i].name@),
        forall|j: int|
            0 <= j < t.key_fields@.len() ==> #[trigger] names_a_key_field(
                room.schema.fields@,
                t.key_fields@[j]@,
            ),
{
    lemma_topic_name_chars(room.id@);
    reveal_strlit("Type");
    assert("Type"@ =~= seq!['T', 'y', 'p', 'e']);
    lemma_key_field_names(room.schema.fields@, views(t.key_fields@));
    assert forall|j: int| 0 <= j < t.key_fields@.len() implies #[trigger] t.key_fields@[j]@
        == room.schema.fields@.filter(|f: FieldDef| f.is_key)[j].name@ by {
        assert(views(t.key_fields@)[j] == t.key_fields@[j]@);
    }
    assert forall|j: int| 0 <= j < t.key_fields@.len() implies #[trigger] names_a_key_field(
        room.schema.fields@,
        t.key_fields@[j]@,
    ) by {
        assert(views(t.key_fields@)[j] == t.key_fields@[j]@);
    }
}

/// Generate a topic definition from a room and its schema.
pub fn generate_topic(room: &Room) -> (t: TopicDef)
    ensures
        is_topic_for(t, *room),
        t.name@.len() == room.id@.len() + 5,
        t.name@.subrange(0, 5) == seq!['r', 'o', 'o', 'm', '_'],
        forall|i: int|
            0 <= i < room.id@.len() ==> #[trigger] t.name@[i + 5] == (if room.id@[i] == ' ' {
                '_'
            } else {
                room.id@[i]
            }),
        t.data_type@ == t.name@ + seq!['T', 'y', 'p', 'e'],
        t.key_fields@.len() == room.schema.fields@.filter(|f: FieldDef| f.is_key).len(),
        forall|j: int|
            0 <= j < t.key_fields@.len() ==> #[trigger] t.key_fields@[j]@
                == room.schema.fields@.filter(|f: FieldDef| f.is_key)[j].name@,
        forall|i: int|
            0 <= i < room.schema.fields@.len() && (#[trigger] room.schema.fields@[i]).is_key
                ==> views(t.key_fields@).contains(room.schema.fields@[i].name@),
{
    let name = room_topic_name(room);
    let data_type = name.clone().concat("Type");
    let fields = &room.schema.fields;
    let ghost p = |f: FieldDef| f.is_key;
    let ghost g = |f: FieldDef| f.name@;
    let mut key_fields: Vec<String> = Vec::new();
    let mut i: usize = 0;
    proof {
        reveal(Seq::filter);
        assert(views(key_fields@) =~= fields@.take(0).filter(p).map_values(g));
    }
    while i < fields.len()
        invariant
            i <= fields@.len(),
            p == (|f: FieldDef| f.is_key),
            g == (|f: FieldDef| f.name@),
            views(key_fields@) == fields@.take(i as int).filter(p).map_values(g),
        decreases fields.len() - i,
    {
        let ghost before = views(key_fields@);
        proof {
            reveal(Seq::filter);
            assert(fields@.take(i + 1).drop_last() =~= fields@.take(i as int));
            assert(fields@.take(i + 1).last() == fields@[i as int]);
        }
        if fields[i].is_key {
            key_fields.push(fields[i].name.clone());
            proof {
                assert(fields@.take(i + 1).filter(p) == fields@.take(i as int).filter(p).push(
                    fields@[i as int],
                ));
                let kept = fields@.take(i as int).filter(p);
                assert(views(key_fields@) =~= before.push(fields@[i as int].name@));
                assert(kept.push(fields@[i as int]).map_values(g) =~= kept.map_values(g).push(
                    fields@[i as int].name@,
                ));
            }
        } else {
            proof {
                assert(fields@.take(i + 1).filter(p) == fields@.take(i as int).filter(p));
            }
        }
        i += 1;
    }
    proof {
        assert(fields@.take(fields@.len() as int) =~= fields@);
    }
    let t = TopicDef { name, data_type, key_fields };
    proof {
        lemma_topic_fields(t, *room);
    }
    t
}

/// Generate topic definitions for all rooms, one per room in order.
pub fn generate_topics(rooms: &[Room]) -> (ts: Vec<TopicDef>)
    ensures
        ts@.len() == rooms@.len(),
        forall|i: int| 0 <= i < rooms@.len() ==> is_topic_for(#[trigger] ts@[i], rooms@[i]),
{
    let mut ts: Vec<TopicDef> = Vec::new();
    let mut i: usize = 0;
    while i < rooms.len()
        invariant
            i <= rooms@.len(),
            ts@.len() == i,
            forall|j: int| 0 <= j < i ==> is_topic_for(#[trigger] ts@[j], rooms@[j]),
        decreases rooms.len() - i,
    {
        ts.push(generate_topic(&rooms[i]));
        i += 1;
    }
    ts
}

/// What is wrong with a topic, if anything: an empty name, else an empty type.
pub open spec fn topic_problem(t: TopicDef) -> Option<Seq<char>> {
    if t.name@.len() == 0 {
        Some("topic name must not be empty"@)
    } else if t.data_type@.len() == 0 {
        Some("type name must not be empty"@)
    } else {
        None
    }
}

/// Validate that a topic definition is well-formed.
pub fn validate_topic(topic: &TopicDef) -> (r: Result<(), String>)
    ensures
        match r {
            Ok(()) => topic_problem(*topic) is None,
            Err(e) => topic_problem(*topic) == Some(e@),
        },
        (r is Ok) <==> (topic.name@.len() > 0 && topic.data_type@.len() > 0),
        r matches Err(e) ==> e@ == (if topic.name@.len() == 0 {
            "topic name must not be empty"@
        } else {
            "type name must not be empty"@
        }),
{
    if topic.name.as_str().is_empty() {
        return Err(String::from_str("topic name must not be empty"));
    }
    if topic.data_type.as_str().is_empty() {
        return Err(String::from_str("type name must not be empty"));
    }
    Ok(())
}

/// A topic has a problem exactly when its name or its type is empty; an
/// empty name is reported first.
pub proof fn lemma_topic_problem_is_emptiness(t: TopicDef)
    ensures
        (topic_problem(t) is None) <==> (t.name@.len() > 0 && t.data_type@.len() > 0),
        t.name@.len() == 0 ==> topic_problem(t) == Some("topic name must not be empty"@),
        t.name@.len() > 0 && t.data_type@.len() == 0 ==> topic_problem(t) == Some(
            "type name must not be empty"@,
        ),
{
}

/// Every generated topic is well-formed: its name starts with `room_`, so
/// neither the name nor the type is empty.
pub proof fn lemma_generated_topic_is_valid(t: TopicDef, room: Room)
    requires
        is_topic_for(t, room),
    ensures
        topic_problem(t) is None,
{
    reveal_strlit("room_");
    assert(t.name@.len() > 0);
    assert(t.data_type@.len() > 0);
}

} // verus!
