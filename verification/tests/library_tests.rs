use room_dds_bridge::bridge_config;
use room_dds_bridge::domain_map;
use room_dds_bridge::pub_sub;
use room_dds_bridge::qos_policy;
use room_dds_bridge::room_config;
use room_dds_bridge::topic_gen;
use room_dds_bridge::{
    Agent, Durability, HistoryKind, Passage, Reliability, Room, RoomSchema, Ternary, TopicDef,
    Topology,
};

fn passage(from: &str, to: &str) -> Passage {
    Passage { from: from.into(), to: to.into(), ternary: Ternary::Zero }
}

fn bare_room(id: &str, agent_count: usize) -> Room {
    Room { id: id.into(), name: id.into(), agent_count, schema: RoomSchema { fields: vec![] } }
}

fn agent(id: &str, room_id: &str, publishes: bool, subscribes: bool) -> Agent {
    Agent { id: id.into(), room_id: room_id.into(), publishes, subscribes }
}

fn names(v: &[&str]) -> Vec<String> {
    v.iter().map(|s| s.to_string()).collect()
}

// ── domains ─────────────────────────────────────────────────────────────────

#[test]
fn domains_are_sorted_components_with_repeats_kept() {
    let map = domain_map::build_domain_map(&names(&["c", "a", "b", "a"]), &[passage("c", "a")]);
    assert_eq!(map.domains.len(), 2);
    assert_eq!(map.domains[0].id, 0);
    assert_eq!(map.domains[0].rooms, vec!["a", "a", "c"]);
    assert_eq!(map.domains[1].id, 1);
    assert_eq!(map.domains[1].rooms, vec!["b"]);
    assert!(map.bridges.is_empty());
}

#[test]
fn domains_ordered_by_code_point() {
    let map = domain_map::build_domain_map(&names(&["a", "B", "ab", "Z"]), &[]);
    let firsts: Vec<&str> = map.domains.iter().map(|d| d.rooms[0].as_str()).collect();
    assert_eq!(firsts, vec!["B", "Z", "a", "ab"]);
}

#[test]
fn passage_to_unknown_room_joins_nothing() {
    let map = domain_map::build_domain_map(&names(&["a", "b"]), &[passage("a", "z"), passage("z", "b")]);
    assert_eq!(map.domains.len(), 2);
    assert!(map.bridges.is_empty());
}

#[test]
fn no_rooms_no_domains() {
    let map = domain_map::build_domain_map(&[], &[passage("a", "b")]);
    assert!(map.domains.is_empty());
    assert!(map.bridges.is_empty());
}

#[test]
fn links_are_transitive_across_passages() {
    let rooms = names(&["d", "c", "b", "a", "e"]);
    let map = domain_map::build_domain_map(&rooms, &[passage("a", "b"), passage("d", "c"), passage("c", "b")]);
    assert_eq!(map.domains.len(), 2);
    assert_eq!(map.domains[0].rooms, vec!["a", "b", "c", "d"]);
    assert_eq!(map.domains[1].rooms, vec!["e"]);
}

#[test]
fn lookup_agrees_with_links() {
    let rooms = names(&["x", "y", "z"]);
    let map = domain_map::build_domain_map(&rooms, &[passage("y", "x")]);
    assert_eq!(domain_map::room_domain_id(&map, "x"), Some(0));
    assert_eq!(domain_map::room_domain_id(&map, "y"), Some(0));
    assert_eq!(domain_map::room_domain_id(&map, "z"), Some(1));
    assert_eq!(domain_map::room_domain_id(&map, "w"), None);
}

// ── rooms and topics ────────────────────────────────────────────────────────

#[test]
fn topic_name_replaces_every_space() {
    assert_eq!(room_config::room_topic_name(&bare_room(" a b  c ", 1)), "room__a_b__c_");
    assert_eq!(room_config::room_topic_name(&bare_room("café bar", 1)), "room_café_bar");
    assert_eq!(room_config::room_topic_name(&bare_room("", 1)), "room_");
}

#[test]
fn history_depth_at_least_one() {
    assert_eq!(room_config::history_depth(&bare_room("r", 0)), 1);
    assert_eq!(room_config::history_depth(&bare_room("r", 1)), 1);
    assert_eq!(room_config::history_depth(&bare_room("r", usize::MAX)), usize::MAX);
}

#[test]
fn default_schema_fields() {
    let s = room_config::default_schema(&bare_room("r", 1));
    let got: Vec<(&str, &str, bool)> =
        s.fields.iter().map(|f| (f.name.as_str(), f.data_type.as_str(), f.is_key)).collect();
    assert_eq!(
        got,
        vec![("room_id", "string", true), ("name", "string", false), ("agent_count", "uint32", false)]
    );
}

#[test]
fn generated_topic_is_valid() {
    let mut room = bare_room("my room", 2);
    room.schema = room_config::default_schema(&room);
    let t = topic_gen::generate_topic(&room);
    assert_eq!(t.name, "room_my_room");
    assert_eq!(t.data_type, "room_my_roomType");
    assert_eq!(t.key_fields, vec!["room_id"]);
    assert_eq!(topic_gen::validate_topic(&t), Ok(()));
}

#[test]
fn validate_reports_each_problem() {
    let no_name = TopicDef { name: "".into(), data_type: "".into(), key_fields: vec![] };
    assert_eq!(topic_gen::validate_topic(&no_name), Err("topic name must not be empty".to_string()));
    let no_type = TopicDef { name: "n".into(), data_type: "".into(), key_fields: vec![] };
    assert_eq!(topic_gen::validate_topic(&no_type), Err("type name must not be empty".to_string()));
}

// ── qos ─────────────────────────────────────────────────────────────────────

#[test]
fn default_qos_is_zero_state() {
    let q = qos_policy::default_qos(0);
    assert_eq!(q.reliability, Reliability::BestEffort);
    assert_eq!(q.durability, Durability::Volatile);
    assert_eq!(q.depth, 1);
    assert_eq!(q.history, HistoryKind::KeepLast(1));
    assert_eq!(qos_policy::default_qos(9), qos_policy::qos_from_ternary(Ternary::Zero, 9));
}

#[test]
fn durability_tells_states_apart() {
    let all = [Ternary::Neg, Ternary::Zero, Ternary::Pos];
    for a in all {
        for b in all {
            let same = qos_policy::durability_from_ternary(a) == qos_policy::durability_from_ternary(b);
            assert_eq!(same, a == b);
        }
        let reliable = qos_policy::reliability_from_ternary(a) == Reliability::Reliable;
        assert_eq!(reliable, a == Ternary::Pos);
    }
}

// ── pub/sub ─────────────────────────────────────────────────────────────────

#[test]
fn assignments_sorted_by_room_and_in_agent_order() {
    let agents = vec![
        agent("p2", "b", true, false),
        agent("s1", "a", false, true),
        agent("p1", "b", true, true),
        agent("idle", "c", false, false),
    ];
    let asg = pub_sub::assign_pub_sub(&agents);
    let rooms: Vec<&str> = asg.iter().map(|e| e.room_id.as_str()).collect();
    assert_eq!(rooms, vec!["a", "b", "c"]);
    assert_eq!(asg[0].publishers, Vec::<String>::new());
    assert_eq!(asg[0].subscribers, vec!["s1"]);
    assert_eq!(asg[1].publishers, vec!["p2", "p1"]);
    assert_eq!(asg[1].subscribers, vec!["p1"]);
    assert!(asg[2].publishers.is_empty() && asg[2].subscribers.is_empty());
}

#[test]
fn assignment_lists_whom_can_publish_accepts() {
    let agents = vec![agent("a1", "r1", true, false), agent("a2", "r2", false, true)];
    let asg = pub_sub::assign_pub_sub(&agents);
    for who in ["a1", "a2", "a3"] {
        for room in ["r1", "r2", "r3"] {
            let listed_pub = asg.iter().any(|e| e.room_id == room && e.publishers.iter().any(|p| p == who));
            let listed_sub = asg.iter().any(|e| e.room_id == room && e.subscribers.iter().any(|p| p == who));
            assert_eq!(listed_pub, pub_sub::can_publish(&agents, who, room));
            assert_eq!(listed_sub, pub_sub::can_subscribe(&agents, who, room));
        }
    }
}

#[test]
fn no_agents_no_assignments() {
    assert!(pub_sub::assign_pub_sub(&[]).is_empty());
    assert!(!pub_sub::can_publish(&[], "a", "r"));
}

// ── full configuration ──────────────────────────────────────────────────────

#[test]
fn config_rooms_carry_their_domain() {
    let topo = Topology {
        rooms: vec![bare_room("zeta", 0), bare_room("alpha", 3), bare_room("mid", 1)],
        passages: vec![passage("mid", "zeta")],
        agents: vec![],
    };
    let c = bridge_config::build_dds_config(&topo);
    assert_eq!(c.domains.domains.len(), 2);
    assert_eq!(c.domains.domains[0].rooms, vec!["alpha"]);
    assert_eq!(c.domains.domains[1].rooms, vec!["mid", "zeta"]);
    let ids: Vec<u32> = c.rooms.iter().map(|r| r.domain_id).collect();
    assert_eq!(ids, vec![1, 0, 1]);
    assert_eq!(c.rooms[0].history_depth, 1);
    assert_eq!(c.rooms[1].topic, "room_alpha");
    for i in 0..3 {
        assert_eq!(c.rooms[i].topic, c.topics[i].name);
    }
    assert!(c.domains.bridges.is_empty());
}

#[test]
fn ternary_values() {
    assert_eq!(Ternary::Neg.value(), -1);
    assert_eq!(Ternary::Zero.value(), 0);
    assert_eq!(Ternary::Pos.value(), 1);
}

#[test]
fn domain_map_ignores_order_direction_and_state() {
    let a = domain_map::build_domain_map(
        &names(&["a", "b", "c", "d"]),
        &[passage("a", "b"), Passage { from: "d".into(), to: "c".into(), ternary: Ternary::Pos }],
    );
    let b = domain_map::build_domain_map(
        &names(&["d", "c", "b", "a"]),
        &[Passage { from: "c".into(), to: "d".into(), ternary: Ternary::Neg }, passage("b", "a")],
    );
    assert_eq!(a, b);
}

#[test]
fn config_domains_are_the_domain_map() {
    let topo = Topology {
        rooms: vec![bare_room("q", 1), bare_room("p", 1), bare_room("r", 1)],
        passages: vec![passage("r", "q")],
        agents: vec![],
    };
    let c = bridge_config::build_dds_config(&topo);
    let m = domain_map::build_domain_map(&names(&["q", "p", "r"]), &topo.passages);
    assert_eq!(c.domains, m);
}
