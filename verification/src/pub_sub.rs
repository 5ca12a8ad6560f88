//! Publisher/subscriber assignment.
use vstd::prelude::*;

use crate::text::{distinct_names, lex_lt, same_text, sorted_copy, views};
use crate::{Agent, PubSubAssignment};

verus! {

/// Agent `a` takes a role in room `r`: it is in `r` and publishes (when
/// `publishing`) or subscribes (otherwise).
pub open spec fn takes_role(a: Agent, r: Seq<char>, publishing: bool) -> bool {
    a.room_id@ == r && if publishing {
        a.publishes
    } else {
        a.subscribes
    }
}

/// The ids of the agents taking the role in room `r`, in agent order.
pub open spec fn role_holders(agents: Seq<Agent>, r: Seq<char>, publishing: bool) -> Seq<
    Seq<char>,
> {
    agents.filter(|a: Agent| takes_role(a, r, publishing)).map_values(|a: Agent| a.id@)
}

/// The room ids that the agents name.
pub open spec fn agent_rooms(agents: Seq<Agent>) -> Seq<Seq<char>> {
    agents.map_values(|a: Agent| a.room_id@)
}

/// The room ids of the assignments.
pub open spec fn assigned_rooms(asg: Seq<PubSubAssignment>) -> Seq<Seq<char>> {
    asg.map_values(|e: PubSubAssignment| e.room_id@)
}

/// One assignment per room that an agent names, sorted by room id, each
/// listing the room's publishers and subscribers in agent order.
pub open spec fn is_assignment_for(agents: Seq<Agent>, asg: Seq<PubSubAssignment>) -> bool {
    &&& forall|i: int, j: int|
        0 <= i < j < asg.len() ==> lex_lt(#[trigger] asg[i].room_id@, #[trigger] asg[j].room_id@)
    &&& forall|r: Seq<char>| assigned_rooms(asg).contains(r) <==> agent_rooms(agents).contains(r)
    &&& forall|i: int|
        0 <= i < asg.len() ==> views((#[trigger] asg[i]).publishers@) == role_holders(
            agents,
            asg[i].room_id@,
            true,
        ) && views(asg[i].subscribers@) == role_holders(agents, asg[i].room_id@, false)
}

/// The ids of the agents taking the role in `room`, in agent order.
fn role_holders_of(agents: &[Agent], room: &str, publishing: bool) -> (ids: Vec<String>)
    ensures
        views(ids@) == role_holders(agents@, room@, publishing),
{
    let ghost p = |a: Agent| takes_role(a, room@, publishing);
    let ghost g = |a: Agent| a.id@;
    let mut ids: Vec<String> = Vec::new();
    let mut i: usize = 0;
    proof {
        reveal(Seq::filter);
        assert(views(ids@) =~= agents@.take(0).filter(p).map_values(g));
    }
    while i < agents.len()
        invariant
            i <= agents@.len(),
            p == (|a: Agent| takes_role(a, room@, publishing)),
            g == (|a: Agent| a.id@),
            views(ids@) == agents@.take(i as int).filter(p).map_values(g),
        decreases agents.len() - i,
    {
        let ghost before = views(ids@);
        let a = &agents[i];
        proof {
            reveal(Seq::filter);
            assert(agents@.take(i + 1).drop_last() =~= agents@.take(i as int));
            assert(agents@.take(i + 1).last() == agents@[i as int]);
        }
        let role = if publishing {
            a.publishes
        } else {
            a.subscribes
        };
        if role && same_text(a.room_id.as_str(), room) {
            ids.push(a.id.clone());
            proof {
                let kept = agents@.take(i as int).filter(p);
                assert(agents@.take(i + 1).filter(p) == kept.push(agents@[i as int]));
                assert(views(ids@) =~= before.push(agents@[i as int].id@));
                assert(kept.push(agents@[i as int]).map_values(g) =~= kept.map_values(g).push(
                    agents@[i as int].id@,
                ));
            }
        } else {
            proof {
                assert(agents@.take(i + 1).filter(p) == agents@.take(i as int).filter(p));
            }
        }
        i += 1;
    }
    proof {
        assert(agents@.take(agents@.len() as int) =~= agents@);
    }
    ids
}

/// Assign publishers and subscribers per room based on agent declarations.
pub fn assign_pub_sub(agents: &[Agent]) -> (asg: Vec<PubSubAssignment>)
    ensures
        is_assignment_for(agents@, asg@),
{
    let mut named: Vec<String> = Vec::new();
    let mut i: usize = 0;
    while i < agents.len()
        invariant
            i <= agents@.len(),
            views(named@) == agent_rooms(agents@.take(i as int)),
        decreases agents.len() - i,
    {
        named.push(agents[i].room_id.clone());
        assert(agent_rooms(agents@.take(i + 1)) =~= agent_rooms(agents@.take(i as int)).push(
            agents@[i as int].room_id@,
        ));
        assert(views(named@) =~= agent_rooms(agents@.take(i + 1)));
        i += 1;
    }
    assert(agents@.take(agents@.len() as int) =~= agents@);
    let distinct = distinct_names(named.as_slice());
    let rooms = sorted_copy(distinct.as_slice());
    let ghost rv = views(rooms@);
    let ghost dv = views(distinct@);
    proof {
        dv.lemma_multiset_has_no_duplicates();
        assert forall|x: Seq<char>| rv.to_multiset().contains(x) implies rv.to_multiset().count(x)
            == 1 by {}
        rv.lemma_multiset_has_no_duplicates_conv();
        assert forall|x: Seq<char>| rv.contains(x) <==> dv.contains(x) by {
            vstd::seq_lib::to_multiset_contains(rv, x);
            vstd::seq_lib::to_multiset_contains(dv, x);
        }
    }
    let mut asg: Vec<PubSubAssignment> = Vec::new();
    let mut k: usize = 0;
    while k < rooms.len()
        invariant
            k <= rooms@.len(),
            rv == views(rooms@),
            asg@.len() == k,
            forall|j: int| 0 <= j < k ==> (#[trigger] asg@[j]).room_id@ == rv[j],
            forall|j: int|
                0 <= j < k ==> views((#[trigger] asg@[j]).publishers@) == role_holders(
                    agents@,
                    asg@[j].room_id@,
                    true,
                ) && views(asg@[j].subscribers@) == role_holders(agents@, asg@[j].room_id@, false),
        decreases rooms.len() - k,
    {
        let room = rooms[k].as_str();
        let publishers = role_holders_of(agents, room, true);
        let subscribers = role_holders_of(agents, room, false);
        asg.push(PubSubAssignment { room_id: rooms[k].clone(), publishers, subscribers });
        k += 1;
    }
    proof {
        assert(assigned_rooms(asg@) =~= rv);
        assert forall|a: int, b: int| 0 <= a < b < asg@.len() implies lex_lt(
            #[trigger] asg@[a].room_id@,
            #[trigger] asg@[b].room_id@,
        ) by {
            assert(rv[a] != rv[b]);
        }
    }
    asg
}

/// Agent `agent_id` is declared in room `room_id` with the role.
pub open spec fn has_role(agents: Seq<Agent>, agent_id: Seq<char>, room_id: Seq<char>, publishing: bool) -> bool {
    exists|i: int|
        0 <= i < agents.len() && (#[trigger] agents[i]).id@ == agent_id && takes_role(
            agents[i],
            room_id,
            publishing,
        )
}

fn any_with_role(agents: &[Agent], agent_id: &str, room_id: &str, publishing: bool) -> (r: bool)
    ensures
        r == has_role(agents@, agent_id@, room_id@, publishing),
{
    let mut i: usize = 0;
    while i < agents.len()
        invariant
            i <= agents@.len(),
            forall|j: int|
                0 <= j < i ==> !((#[trigger] agents@[j]).id@ == agent_id@ && takes_role(
                    agents@[j],
                    room_id@,
                    publishing,
                )),
        decreases agents.len() - i,
    {
        let a = &agents[i];
        let role = if publishing {
            a.publishes
        } else {
            a.subscribes
        };
        if role && same_text(a.id.as_str(), agent_id) && same_text(a.room_id.as_str(), room_id) {
            return true;
        }
        i += 1;
    }
    false
}

/// Check if an agent can publish to a room.
pub fn can_publish(agents: &[Agent], agent_id: &str, room_id: &str) -> (r: bool)
    ensures
        r == has_role(agents@, agent_id@, room_id@, true),
{
    any_with_role(agents, agent_id, room_id, true)
}

/// Check if an agent can subscribe to a room.
pub fn can_subscribe(agents: &[Agent], agent_id: &str, room_id: &str) -> (r: bool)
    ensures
        r == has_role(agents@, agent_id@, room_id@, false),
{
    any_with_role(agents, agent_id, room_id, false)
}

/// Some assignment for room `r` lists agent `x` for the role.
pub open spec fn is_listed(asg: Seq<PubSubAssignment>, x: Seq<char>, r: Seq<char>, publishing: bool) -> bool {
    exists|i: int|
        0 <= i < asg.len() && (#[trigger] asg[i]).room_id@ == r && views(
            if publishing {
                asg[i].publishers@
            } else {
                asg[i].subscribers@
            },
        ).contains(x)
}

/// The assignment lists an agent for a role in a room exactly when the agent
/// is declared there with that role: `assign_pub_sub` lists whom
/// `can_publish` and `can_subscribe` accept.
pub proof fn lemma_assignment_agrees_with_roles(
    agents: Seq<Agent>,
    asg: Seq<PubSubAssignment>,
    x: Seq<char>,
    r: Seq<char>,
    publishing: bool,
)
    requires
        is_assignment_for(agents, asg),
    ensures
        is_listed(asg, x, r, publishing) <==> has_role(agents, x, r, publishing),
{
    broadcast use vstd::seq_lib::group_filter_ensures;

    let p = |a: Agent| takes_role(a, r, publishing);
    let g = |a: Agent| a.id@;
    let kept = agents.filter(p);
    assert(role_holders(agents, r, publishing) == kept.map_values(g));
    if has_role(agents, x, r, publishing) {
        let i = choose|i: int|
            0 <= i < agents.len() && (#[trigger] agents[i]).id@ == x && takes_role(
                agents[i],
                r,
                publishing,
            );
        assert(agent_rooms(agents)[i] == r);
        assert(assigned_rooms(asg).contains(r));
        let k = choose|k: int| 0 <= k < asg.len() && assigned_rooms(asg)[k] == r;
        assert(asg[k].room_id@ == r);
        assert(kept.contains(agents[i]));
        let j = choose|j: int| 0 <= j < kept.len() && kept[j] == agents[i];
        assert(kept.map_values(g)[j] == x);
        assert(views(
            if publishing {
                asg[k].publishers@
            } else {
                asg[k].subscribers@
            },
        ).contains(x));
    }
    if is_listed(asg, x, r, publishing) {
        let k = choose|k: int|
            0 <= k < asg.len() && (#[trigger] asg[k]).room_id@ == r && views(
                if publishing {
                    asg[k].publishers@
                } else {
                    asg[k].subscribers@
                },
            ).contains(x);
        assert(kept.map_values(g).contains(x));
        let j = choose|j: int| 0 <= j < kept.len() && kept.map_values(g)[j] == x;
        assert(p(kept[j]));
        agents.lemma_filter_contains_rev(p, kept[j]);
        let i = choose|i: int| 0 <= i < agents.len() && agents[i] == kept[j];
        assert(agents[i].id@ == x);
    }
}

} // verus!
