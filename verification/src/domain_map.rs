//! Build the domain map from the room topology.
//!
//! Rooms joined by passages share a domain; the connected components of the
//! room graph become the domains.
use vstd::prelude::*;

use crate::text::{
    distinct_names, is_sorted, lemma_lex_le_antisymmetric, lemma_sorted_permutation_unique,
    lemma_strictly_sorted_unique, lex_le, lex_lt, position_of, sorted_copy, views,
};
use crate::{Domain, DomainMap, Passage};

verus! {

// ── The room graph ──────────────────────────────────────────────────────────
/// The names of the two rooms of each passage.
pub open spec fn passage_ends(ps: Seq<Passage>) -> Seq<(Seq<char>, Seq<char>)> {
    ps.map_values(|p: Passage| (p.from@, p.to@))
}

/// A passage joins its rooms only where both are among the known rooms.
pub open spec fn binds(ids: Seq<Seq<char>>, e: (Seq<char>, Seq<char>)) -> bool {
    ids.contains(e.0) && ids.contains(e.1)
}

/// A numbering of room names keeps the passages `es` when every passage that
/// joins two known rooms gives both the same number.
pub open spec fn keeps(
    ids: Seq<Seq<char>>,
    es: Seq<(Seq<char>, Seq<char>)>,
    label: spec_fn(Seq<char>) -> int,
) -> bool {
    forall|k: int|
        0 <= k < es.len() && binds(ids, #[trigger] es[k]) ==> label(es[k].0) == label(es[k].1)
}

/// Rooms `a` and `b` are linked when every numbering that keeps the passages
/// gives them the same number: they lie in one connected component of the
/// graph whose edges are the passages between known rooms.
pub open spec fn linked(
    ids: Seq<Seq<char>>,
    es: Seq<(Seq<char>, Seq<char>)>,
    a: Seq<char>,
    b: Seq<char>,
) -> bool {
    forall|label: spec_fn(Seq<char>) -> int| #[trigger] keeps(ids, es, label) ==> label(a) == label(b)
}

/// A room is linked to itself.
pub proof fn lemma_linked_reflexive(
    ids: Seq<Seq<char>>,
    es: Seq<(Seq<char>, Seq<char>)>,
    a: Seq<char>,
)
    ensures
        linked(ids, es, a, a),
{
}

/// Being linked goes both ways.
pub proof fn lemma_linked_symmetric(
    ids: Seq<Seq<char>>,
    es: Seq<(Seq<char>, Seq<char>)>,
    a: Seq<char>,
    b: Seq<char>,
)
    requires
        linked(ids, es, a, b),
    ensures
        linked(ids, es, b, a),
{
    assert forall|label: spec_fn(Seq<char>) -> int| #[trigger]
        keeps(ids, es, label) implies label(b) == label(a) by {}
}

/// Being linked carries over: a room linked to one linked to a third is
/// linked to the third.
pub proof fn lemma_linked_transitive(
    ids: Seq<Seq<char>>,
    es: Seq<(Seq<char>, Seq<char>)>,
    a: Seq<char>,
    b: Seq<char>,
    c: Seq<char>,
)
    requires
        linked(ids, es, a, b),
        linked(ids, es, b, c),
    ensures
        linked(ids, es, a, c),
{
    assert forall|label: spec_fn(Seq<char>) -> int| #[trigger]
        keeps(ids, es, label) implies label(a) == label(c) by {}
}

/// The two rooms of every passage between known rooms are linked.
pub proof fn lemma_passage_links_its_rooms(
    ids: Seq<Seq<char>>,
    es: Seq<(Seq<char>, Seq<char>)>,
    k: int,
)
    requires
        0 <= k < es.len(),
        binds(ids, es[k]),
    ensures
        linked(ids, es, es[k].0, es[k].1),
{
    assert forall|label: spec_fn(Seq<char>) -> int| #[trigger]
        keeps(ids, es, label) implies label(es[k].0) == label(es[k].1) by {}
}

proof fn lemma_keeps_prefix(
    ids: Seq<Seq<char>>,
    es: Seq<(Seq<char>, Seq<char>)>,
    k: int,
    label: spec_fn(Seq<char>) -> int,
)
    requires
        0 <= k < es.len(),
        keeps(ids, es.take(k + 1), label),
    ensures
        keeps(ids, es.take(k), label),
        binds(ids, es[k]) ==> label(es[k].0) == label(es[k].1),
{
    assert forall|m: int| 0 <= m < es.take(k).len() && binds(ids, #[trigger] es.take(k)[m]) implies label(
        es.take(k)[m].0,
    ) == label(es.take(k)[m].1) by {
        assert(es.take(k)[m] == es.take(k + 1)[m]);
    }
    assert(es.take(k + 1)[k] == es[k]);
}

proof fn lemma_linked_prefix_grows(
    ids: Seq<Seq<char>>,
    es: Seq<(Seq<char>, Seq<char>)>,
    k: int,
    a: Seq<char>,
    b: Seq<char>,
)
    requires
        0 <= k < es.len(),
        linked(ids, es.take(k), a, b),
    ensures
        linked(ids, es.take(k + 1), a, b),
{
    assert forall|label: spec_fn(Seq<char>) -> int| #[trigger]
        keeps(ids, es.take(k + 1), label) implies label(a) == label(b) by {
        lemma_keeps_prefix(ids, es, k, label);
    }
}

proof fn lemma_linked_through_passage(
    ids: Seq<Seq<char>>,
    es: Seq<(Seq<char>, Seq<char>)>,
    k: int,
    a: Seq<char>,
    b: Seq<char>,
)
    requires
        0 <= k < es.len(),
        binds(ids, es[k]),
        linked(ids, es.take(k), a, es[k].0),
        linked(ids, es.take(k), es[k].1, b),
    ensures
        linked(ids, es.take(k + 1), a, b),
{
    assert forall|label: spec_fn(Seq<char>) -> int| #[trigger]
        keeps(ids, es.take(k + 1), label) implies label(a) == label(b) by {
        lemma_keeps_prefix(ids, es, k, label);
    }
}

// ── Numbering rooms by component ────────────────────────────────────────────
/// The position of `s` in a sequence without duplicates.
spec fn slot(u: Seq<Seq<char>>, s: Seq<char>) -> int {
    choose|i: int| 0 <= i < u.len() && u[i] == s
}

/// The numbering that gives each name in `u` the label at its slot.
spec fn label_fn(u: Seq<Seq<char>>, labels: Seq<usize>) -> spec_fn(Seq<char>) -> int {
    |s: Seq<char>| labels[slot(u, s)] as int
}

proof fn lemma_slot(u: Seq<Seq<char>>, i: int)
    requires
        u.no_duplicates(),
        0 <= i < u.len(),
    ensures
        slot(u, u[i]) == i,
{
    let j = slot(u, u[i]);
    assert(0 <= j < u.len() && u[j] == u[i]);
}

/// Labels the distinct names `u` so that two names share a label exactly when
/// the passages link them.
fn component_labels(
    ids: &[String],
    passages: &[Passage],
    u: &Vec<String>,
) -> (labels: Vec<usize>)
    requires
        views(u@).no_duplicates(),
        forall|x: Seq<char>| views(u@).contains(x) <==> views(ids@).contains(x),
    ensures
        labels@.len() == u@.len(),
        keeps(views(ids@), passage_ends(passages@), label_fn(views(u@), labels@)),
        forall|i: int, j: int|
            0 <= i < u@.len() && 0 <= j < u@.len() && #[trigger] labels@[i] == #[trigger] labels@[j]
                ==> linked(views(ids@), passage_ends(passages@), u@[i]@, u@[j]@),
{
    let ghost ids_v = views(ids@);
    let ghost uv = views(u@);
    let ghost es = passage_ends(passages@);
    let mut labels: Vec<usize> = Vec::new();
    let mut w: usize = 0;
    while w < u.len()
        invariant
            w <= u@.len(),
            labels@.len() == w,
            forall|x: int| 0 <= x < w ==> labels@[x] == x,
        decreases u.len() - w,
    {
        labels.push(w);
        w += 1;
    }
    let mut k: usize = 0;
    while k < passages.len()
        invariant
            ids_v == views(ids@),
            uv == views(u@),
            es == passage_ends(passages@),
            uv.no_duplicates(),
            forall|x: Seq<char>| uv.contains(x) <==> ids_v.contains(x),
            k <= passages@.len(),
            labels@.len() == u@.len(),
            keeps(ids_v, es.take(k as int), label_fn(uv, labels@)),
            forall|i: int, j: int|
                0 <= i < u@.len() && 0 <= j < u@.len() && #[trigger] labels@[i]
                    == #[trigger] labels@[j] ==> linked(ids_v, es.take(k as int), uv[i], uv[j]),
        decreases passages.len() - k,
    {
        let ghost old_labels = labels@;
        let from = position_of(u.as_slice(), passages[k].from.as_str());
        let to = position_of(u.as_slice(), passages[k].to.as_str());
        assert(es[k as int] == (passages@[k as int].from@, passages@[k as int].to@));
        match (from, to) {
            (Some(iu), Some(iv)) => {
                let la = labels[iu];
                let lb = labels[iv];
                let mut x: usize = 0;
                while x < labels.len()
                    invariant
                        labels@.len() == old_labels.len(),
                        x <= labels@.len(),
                        forall|y: int|
                            0 <= y < x ==> labels@[y] == (if old_labels[y] == lb {
                                la
                            } else {
                                old_labels[y]
                            }),
                        forall|y: int| x <= y < labels@.len() ==> labels@[y] == old_labels[y],
                    decreases labels.len() - x,
                {
                    if labels[x] == lb {
                        labels.set(x, la);
                    }
                    x += 1;
                }
                proof {
                    assert(uv[iu as int] == es[k as int].0);
                    assert(uv[iv as int] == es[k as int].1);
                    lemma_slot(uv, iu as int);
                    lemma_slot(uv, iv as int);
                    assert(binds(ids_v, es[k as int]));
                    let old_f = label_fn(uv, old_labels);
                    let new_f = label_fn(uv, labels@);
                    assert forall|m: int|
                        0 <= m < es.take(k + 1).len() && binds(
                            ids_v,
                            #[trigger] es.take(k + 1)[m],
                        ) implies new_f(es.take(k + 1)[m].0) == new_f(es.take(k + 1)[m].1) by {
                        let e = es.take(k + 1)[m];
                        let a = slot(uv, e.0);
                        let b = slot(uv, e.1);
                        assert(uv.contains(e.0) && uv.contains(e.1));
                        assert(0 <= a < uv.len() && 0 <= b < uv.len());
                        if m < k {
                            assert(es.take(k as int)[m] == e);
                            assert(old_f(e.0) == old_f(e.1));
                        } else {
                            assert(e == es[k as int]);
                        }
                    }
                    assert forall|i: int, j: int|
                        0 <= i < u@.len() && 0 <= j < u@.len() && #[trigger] labels@[i]
                            == #[trigger] labels@[j] implies linked(
                            ids_v,
                            es.take(k + 1),
                            uv[i],
                            uv[j],
                        ) by {
                        if old_labels[i] == old_labels[j] {
                            lemma_linked_prefix_grows(ids_v, es, k as int, uv[i], uv[j]);
                        } else if old_labels[i] == la {
                            assert(old_labels[j] == lb);
                            assert(old_labels[i] == old_labels[iu as int]);
                            assert(old_labels[iv as int] == old_labels[j]);
                            lemma_linked_through_passage(ids_v, es, k as int, uv[i], uv[j]);
                        } else {
                            assert(old_labels[i] == lb && old_labels[j] == la);
                            assert(old_labels[j] == old_labels[iu as int]);
                            assert(old_labels[iv as int] == old_labels[i]);
                            lemma_linked_through_passage(ids_v, es, k as int, uv[j], uv[i]);
                            lemma_linked_symmetric(ids_v, es.take(k + 1), uv[j], uv[i]);
                        }
                    }
                }
            },
            _ => {
                proof {
                    assert(!binds(ids_v, es[k as int]));
                    let f = label_fn(uv, labels@);
                    assert forall|m: int|
                        0 <= m < es.take(k + 1).len() && binds(
                            ids_v,
                            #[trigger] es.take(k + 1)[m],
                        ) implies f(es.take(k + 1)[m].0) == f(es.take(k + 1)[m].1) by {
                        assert(es.take(k as int)[m] == es.take(k + 1)[m]);
                    }
                    assert forall|i: int, j: int|
                        0 <= i < u@.len() && 0 <= j < u@.len() && #[trigger] labels@[i]
                            == #[trigger] labels@[j] implies linked(
                            ids_v,
                            es.take(k + 1),
                            uv[i],
                            uv[j],
                        ) by {
                        lemma_linked_prefix_grows(ids_v, es, k as int, uv[i], uv[j]);
                    }
                }
            },
        }
        k += 1;
    }
    assert(es.take(passages@.len() as int) =~= es);
    labels
}

// ── Domains ─────────────────────────────────────────────────────────────────
/// The room names of a domain.
pub open spec fn room_names(d: Domain) -> Seq<Seq<char>> {
    views(d.rooms@)
}

/// The domains for rooms `ids` and passages `es`:
/// - domain `k` has id `k` (taken as a `u32`, as the position is);
/// - each domain holds one connected component of rooms, every room of the
///   component as often as `ids` names it and no other room;
/// - every room of `ids` is in a domain;
/// - the rooms of a domain are sorted, and the domains are sorted by their
///   first (least) room.
pub open spec fn is_domain_partition(
    ids: Seq<Seq<char>>,
    es: Seq<(Seq<char>, Seq<char>)>,
    ds: Seq<Domain>,
) -> bool {
    &&& forall|k: int| 0 <= k < ds.len() ==> (#[trigger] ds[k]).id == k as u32
    &&& forall|k: int| 0 <= k < ds.len() ==> room_names(#[trigger] ds[k]).len() > 0
    &&& forall|k: int| 0 <= k < ds.len() ==> is_sorted(room_names(#[trigger] ds[k]))
    &&& forall|k: int, m: int|
        0 <= k < m < ds.len() ==> lex_lt(
            room_names(#[trigger] ds[k])[0],
            room_names(#[trigger] ds[m])[0],
        )
    &&& forall|k: int, r: Seq<char>|
        0 <= k < ds.len() ==> #[trigger] room_names(ds[k]).to_multiset().count(r) == if linked(
            ids,
            es,
            room_names(ds[k])[0],
            r,
        ) {
            ids.to_multiset().count(r)
        } else {
            0
        }
    &&& forall|r: Seq<char>|
        ids.contains(r) ==> exists|k: int| 0 <= k < ds.len() && #[trigger] room_names(ds[k]).contains(r)
}

/// The label of each sorted name.
fn labels_of_sorted(sorted: &Vec<String>, u: &Vec<String>, labels: &Vec<usize>) -> (slab: Vec<usize>)
    requires
        views(u@).no_duplicates(),
        labels@.len() == u@.len(),
        forall|i: int| 0 <= i < sorted@.len() ==> views(u@).contains(#[trigger] sorted@[i]@),
    ensures
        slab@.len() == sorted@.len(),
        forall|i: int|
            0 <= i < sorted@.len() ==> #[trigger] slab@[i] as int == label_fn(views(u@), labels@)(
                sorted@[i]@,
            ),
{
    let mut slab: Vec<usize> = Vec::new();
    let mut i: usize = 0;
    while i < sorted.len()
        invariant
            i <= sorted@.len(),
            views(u@).no_duplicates(),
            labels@.len() == u@.len(),
            forall|j: int| 0 <= j < sorted@.len() ==> views(u@).contains(#[trigger] sorted@[j]@),
            slab@.len() == i,
            forall|j: int|
                0 <= j < i ==> #[trigger] slab@[j] as int == label_fn(views(u@), labels@)(
                    sorted@[j]@,
                ),
        decreases sorted.len() - i,
    {
        let found = position_of(u.as_slice(), sorted[i].as_str());
        proof {
            assert(views(u@).contains(sorted@[i as int]@));
        }
        let p = found.unwrap();
        proof {
            assert(views(u@)[p as int] == sorted@[i as int]@);
            lemma_slot(views(u@), p as int);
        }
        slab.push(labels[p]);
        i += 1;
    }
    slab
}

/// The distinct labels in order of first occurrence, with the position where
/// each first occurs.
fn first_labels(slab: &Vec<usize>) -> (r: (Vec<usize>, Ghost<Seq<int>>))
    ensures
        r.0@.len() == r.1@.len(),
        forall|k: int|
            0 <= k < r.0@.len() ==> 0 <= #[trigger] r.1@[k] < slab@.len() && slab@[r.1@[k]]
                == r.0@[k] && forall|j: int| 0 <= j < r.1@[k] ==> slab@[j] != r.0@[k],
        forall|k: int, m: int| 0 <= k < m < r.0@.len() ==> #[trigger] r.1@[k] < #[trigger] r.1@[m],
        forall|j: int| 0 <= j < slab@.len() ==> r.0@.contains(#[trigger] slab@[j]),
        r.0@.len() <= slab@.len(),
{
    let mut dl: Vec<usize> = Vec::new();
    let ghost mut first: Seq<int> = Seq::empty();
    let mut i: usize = 0;
    while i < slab.len()
        invariant
            i <= slab@.len(),
            dl@.len() == first.len(),
            dl@.len() <= i,
            forall|k: int|
                0 <= k < dl@.len() ==> 0 <= #[trigger] first[k] < i && slab@[first[k]] == dl@[k]
                    && forall|j: int| 0 <= j < first[k] ==> slab@[j] != dl@[k],
            forall|k: int, m: int| 0 <= k < m < dl@.len() ==> #[trigger] first[k] < #[trigger] first[m],
            forall|j: int| 0 <= j < i ==> dl@.contains(#[trigger] slab@[j]),
        decreases slab.len() - i,
    {
        let lab = slab[i];
        let mut k: usize = 0;
        let mut seen = false;
        while k < dl.len()
            invariant
                k <= dl@.len(),
                seen ==> dl@.contains(lab),
                !seen ==> forall|m: int| 0 <= m < k ==> dl@[m] != lab,
            decreases dl.len() - k,
        {
            if dl[k] == lab {
                seen = true;
            }
            k += 1;
        }
        if !seen {
            let ghost old_dl = dl@;
            dl.push(lab);
            proof {
                first = first.push(i as int);
                assert forall|m: int| 0 <= m < old_dl.len() implies #[trigger] first[m] < i by {}
                assert forall|j: int| 0 <= j < i implies slab@[j] != lab by {
                    assert(old_dl.contains(slab@[j]));
                }
                assert forall|j: int| 0 <= j <= i implies dl@.contains(#[trigger] slab@[j]) by {
                    if j < i {
                        assert(old_dl.contains(slab@[j]));
                        let m = choose|m: int| 0 <= m < old_dl.len() && old_dl[m] == slab@[j];
                        assert(dl@[m] == slab@[j]);
                    } else {
                        assert(dl@[old_dl.len() as int] == lab);
                    }
                }
            }
        }
        i += 1;
    }
    (dl, Ghost(first))
}

/// The sorted names whose label is `lab`, in their sorted order.
fn rooms_with_label(
    sorted: &Vec<String>,
    slab: &Vec<usize>,
    lab: usize,
    Ghost(f): Ghost<int>,
    Ghost(lf): Ghost<spec_fn(Seq<char>) -> int>,
) -> (rooms: Vec<String>)
    requires
        slab@.len() == sorted@.len(),
        0 <= f < slab@.len(),
        slab@[f] == lab,
        forall|j: int| 0 <= j < f ==> slab@[j] != lab,
        is_sorted(views(sorted@)),
        forall|i: int| 0 <= i < sorted@.len() ==> #[trigger] slab@[i] as int == lf(sorted@[i]@),
    ensures
        rooms@.len() > 0,
        rooms@[0]@ == sorted@[f]@,
        is_sorted(views(rooms@)),
        forall|r: Seq<char>| #[trigger]
            views(rooms@).to_multiset().count(r) == if lf(r) == lab {
                views(sorted@).to_multiset().count(r)
            } else {
                0
            },
{
    let ghost sv = views(sorted@);
    let mut rooms: Vec<String> = Vec::new();
    let ghost mut idx: Seq<int> = Seq::empty();
    let mut i: usize = 0;
    proof {
        assert(views(rooms@) =~= sv.take(0));
        assert forall|r: Seq<char>| #[trigger] sv.take(0).to_multiset().count(r) == 0 by {
            vstd::seq_lib::to_multiset_contains(sv.take(0), r);
        }
    }
    while i < sorted.len()
        invariant
            sv == views(sorted@),
            slab@.len() == sorted@.len(),
            0 <= f < slab@.len(),
            slab@[f] == lab,
            forall|j: int| 0 <= j < f ==> slab@[j] != lab,
            is_sorted(sv),
            forall|j: int| 0 <= j < sorted@.len() ==> #[trigger] slab@[j] as int == lf(sorted@[j]@),
            i <= sorted@.len(),
            idx.len() == rooms@.len(),
            forall|j: int|
                0 <= j < idx.len() ==> 0 <= #[trigger] idx[j] < i && rooms@[j]@ == sv[idx[j]],
            forall|a: int, b: int| 0 <= a < b < idx.len() ==> #[trigger] idx[a] < #[trigger] idx[b],
            i <= f ==> rooms@.len() == 0,
            i > f ==> rooms@.len() > 0 && idx[0] == f,
            forall|r: Seq<char>| #[trigger]
                views(rooms@).to_multiset().count(r) == if lf(r) == lab {
                    sv.take(i as int).to_multiset().count(r)
                } else {
                    0
                },
        decreases sorted.len() - i,
    {
        let ghost before = views(rooms@);
        proof {
            assert(sv.take(i + 1) =~= sv.take(i as int).push(sv[i as int]));
            vstd::seq_lib::to_multiset_build(sv.take(i as int), sv[i as int]);
        }
        if slab[i] == lab {
            rooms.push(sorted[i].clone());
            proof {
                idx = idx.push(i as int);
                assert(views(rooms@) =~= before.push(sv[i as int]));
                vstd::seq_lib::to_multiset_build(before, sv[i as int]);
            }
        } else {
            proof {
                assert(views(rooms@) == before);
                assert(lf(sv[i as int]) != lab);
            }
        }
        i += 1;
    }
    proof {
        assert(sv.take(sorted@.len() as int) =~= sv);
        assert forall|a: int, b: int| 0 <= a <= b < views(rooms@).len() implies lex_le(
            #[trigger] views(rooms@)[a],
            #[trigger] views(rooms@)[b],
        ) by {
            if a < b {
                assert(idx[a] < idx[b]);
            }
            assert(sv[idx[a]] == views(rooms@)[a]);
            assert(sv[idx[b]] == views(rooms@)[b]);
        }
    }
    rooms
}

/// Build domain map: rooms connected by passages share a domain, and
/// disconnected components get separate domains. Every passage between known
/// rooms joins them into one domain, so no passage crosses domains and the map
/// has no bridges.
pub fn build_domain_map(room_ids: &[String], passages: &[Passage]) -> (map: DomainMap)
    ensures
        map.bridges@.len() == 0,
        is_domain_partition(views(room_ids@), passage_ends(passages@), map.domains@),
        map.domains@.len() <= room_ids@.len(),
{
    let ghost ids = views(room_ids@);
    let ghost es = passage_ends(passages@);
    let u = distinct_names(room_ids);
    let labels = component_labels(room_ids, passages, &u);
    let ghost uv = views(u@);
    let ghost lf = label_fn(uv, labels@);
    let sorted = sorted_copy(room_ids);
    let ghost sv = views(sorted@);
    proof {
        assert forall|x: Seq<char>| sv.contains(x) <==> ids.contains(x) by {
            vstd::seq_lib::to_multiset_contains(sv, x);
            vstd::seq_lib::to_multiset_contains(ids, x);
        }
        assert forall|i: int| 0 <= i < sorted@.len() implies uv.contains(#[trigger] sorted@[i]@) by {
            assert(sv[i] == sorted@[i]@);
        }
    }
    let slab = labels_of_sorted(&sorted, &u, &labels);
    let (dl, Ghost(first)) = first_labels(&slab);
    let mut domains: Vec<Domain> = Vec::new();
    let mut k: usize = 0;
    while k < dl.len()
        invariant
            k <= dl@.len(),
            sv == views(sorted@),
            lf == label_fn(uv, labels@),
            slab@.len() == sorted@.len(),
            is_sorted(sv),
            forall|i: int| 0 <= i < sorted@.len() ==> #[trigger] slab@[i] as int == lf(sorted@[i]@),
            dl@.len() == first.len(),
            forall|m: int|
                0 <= m < dl@.len() ==> 0 <= #[trigger] first[m] < slab@.len() && slab@[first[m]]
                    == dl@[m] && forall|j: int| 0 <= j < first[m] ==> slab@[j] != dl@[m],
            domains@.len() == k,
            forall|m: int|
                0 <= m < k ==> {
                    &&& (#[trigger] domains@[m]).id == m as u32
                    &&& room_names(domains@[m]).len() > 0
                    &&& room_names(domains@[m])[0] == sv[first[m]]
                    &&& is_sorted(room_names(domains@[m]))
                    &&& forall|r: Seq<char>| #[trigger]
                        room_names(domains@[m]).to_multiset().count(r) == if lf(r) == dl@[m] {
                            sv.to_multiset().count(r)
                        } else {
                            0
                        }
                },
        decreases dl.len() - k,
    {
        let rooms = rooms_with_label(&sorted, &slab, dl[k], Ghost(first[k as int]), Ghost(lf));
        assert(rooms@[0]@ == sv[first[k as int]]);
        domains.push(Domain { id: k as u32, rooms });
        k += 1;
    }
    proof {
        vstd::seq_lib::to_multiset_len(sv);
        vstd::seq_lib::to_multiset_len(ids);
        lemma_domains_partition(ids, es, uv, labels@, sv, slab@, dl@, first, domains@);
    }
    DomainMap { domains, bridges: Vec::new() }
}

proof fn lemma_domains_partition(
    ids: Seq<Seq<char>>,
    es: Seq<(Seq<char>, Seq<char>)>,
    uv: Seq<Seq<char>>,
    labels: Seq<usize>,
    sv: Seq<Seq<char>>,
    slab: Seq<usize>,
    dl: Seq<usize>,
    first: Seq<int>,
    ds: Seq<Domain>,
)
    requires
        uv.no_duplicates(),
        forall|x: Seq<char>| uv.contains(x) <==> ids.contains(x),
        labels.len() == uv.len(),
        keeps(ids, es, label_fn(uv, labels)),
        forall|i: int, j: int|
            0 <= i < uv.len() && 0 <= j < uv.len() && #[trigger] labels[i] == #[trigger] labels[j]
                ==> linked(ids, es, uv[i], uv[j]),
        sv.to_multiset() == ids.to_multiset(),
        is_sorted(sv),
        slab.len() == sv.len(),
        forall|i: int| 0 <= i < sv.len() ==> #[trigger] slab[i] as int == label_fn(uv, labels)(sv[i]),
        dl.len() == first.len(),
        forall|m: int|
            0 <= m < dl.len() ==> 0 <= #[trigger] first[m] < slab.len() && slab[first[m]] == dl[m]
                && forall|j: int| 0 <= j < first[m] ==> slab[j] != dl[m],
        forall|k: int, m: int| 0 <= k < m < dl.len() ==> #[trigger] first[k] < #[trigger] first[m],
        forall|j: int| 0 <= j < slab.len() ==> dl.contains(#[trigger] slab[j]),
        ds.len() == dl.len(),
        forall|m: int|
            0 <= m < ds.len() ==> {
                &&& (#[trigger] ds[m]).id == m as u32
                &&& room_names(ds[m]).len() > 0
                &&& room_names(ds[m])[0] == sv[first[m]]
                &&& is_sorted(room_names(ds[m]))
                &&& forall|r: Seq<char>| #[trigger]
                    room_names(ds[m]).to_multiset().count(r) == if label_fn(uv, labels)(r) == dl[m] {
                        sv.to_multiset().count(r)
                    } else {
                        0
                    }
            },
    ensures
        is_domain_partition(ids, es, ds),
{
    let lf = label_fn(uv, labels);
    assert forall|x: Seq<char>| sv.contains(x) <==> ids.contains(x) by {
        vstd::seq_lib::to_multiset_contains(sv, x);
        vstd::seq_lib::to_multiset_contains(ids, x);
    }
    // Within the known rooms, equal labels are exactly linked rooms.
    assert forall|x: Seq<char>, y: Seq<char>|
        ids.contains(x) && ids.contains(y) implies (lf(x) == lf(y) <==> #[trigger] linked(
            ids,
            es,
            x,
            y,
        )) by {
        assert(uv.contains(x) && uv.contains(y));
        let i = choose|i: int| 0 <= i < uv.len() && uv[i] == x;
        let j = choose|j: int| 0 <= j < uv.len() && uv[j] == y;
        lemma_slot(uv, i);
        lemma_slot(uv, j);
        if lf(x) == lf(y) {
            assert(labels[i] == labels[j]);
        }
        if linked(ids, es, x, y) {
            assert(keeps(ids, es, lf));
        }
    }
    // Equal names carry equal labels, so distinct labels mean distinct names.
    assert forall|k: int, m: int| 0 <= k < m < ds.len() implies lex_lt(
        room_names(#[trigger] ds[k])[0],
        room_names(#[trigger] ds[m])[0],
    ) by {
        assert(first[k] < first[m]);
        assert(sv[first[k]] == room_names(ds[k])[0]);
        assert(lex_le(sv[first[k]], sv[first[m]]));
        if sv[first[k]] == sv[first[m]] {
            assert(slab[first[k]] as int == lf(sv[first[k]]));
            assert(slab[first[m]] as int == lf(sv[first[m]]));
            assert(slab[first[k]] != dl[m]);
        }
    }
    assert forall|k: int, r: Seq<char>| 0 <= k < ds.len() implies #[trigger] room_names(
        ds[k],
    ).to_multiset().count(r) == if linked(ids, es, room_names(ds[k])[0], r) {
        ids.to_multiset().count(r)
    } else {
        0
    } by {
        let a = room_names(ds[k])[0];
        assert(a == sv[first[k]]);
        assert(sv.contains(a));
        assert(slab[first[k]] as int == lf(a));
        if ids.contains(r) {
            assert(lf(r) == lf(a) <==> linked(ids, es, a, r));
        } else {
            vstd::seq_lib::to_multiset_contains(ids, r);
            vstd::seq_lib::to_multiset_contains(sv, r);
        }
    }
    assert forall|r: Seq<char>| ids.contains(r) implies exists|k: int|
        0 <= k < ds.len() && #[trigger] room_names(ds[k]).contains(r) by {
        assert(sv.contains(r));
        let i = choose|i: int| 0 <= i < sv.len() && sv[i] == r;
        assert(dl.contains(slab[i]));
        let k = choose|k: int| 0 <= k < dl.len() && dl[k] == slab[i];
        assert(lf(r) == dl[k]);
        vstd::seq_lib::to_multiset_contains(sv, r);
        vstd::seq_lib::to_multiset_contains(room_names(ds[k]), r);
        assert(room_names(ds[k]).to_multiset().count(r) > 0);
    }
}

// ── Lookup ──────────────────────────────────────────────────────────────────
/// The id of the first domain, in map order, whose rooms hold `r`; `None`
/// when no domain does.
pub open spec fn domain_id_of(ds: Seq<Domain>, r: Seq<char>) -> Option<u32>
    decreases ds.len(),
{
    if ds.len() == 0 {
        None
    } else if room_names(ds[0]).contains(r) {
        Some(ds[0].id)
    } else {
        domain_id_of(ds.drop_first(), r)
    }
}

/// Find which domain a room belongs to.
pub fn room_domain_id(map: &DomainMap, room_id: &str) -> (r: Option<u32>)
    ensures
        r == domain_id_of(map.domains@, room_id@),
{
    let ghost ds = map.domains@;
    let mut i: usize = 0;
    assert(ds.skip(0) =~= ds);
    while i < map.domains.len()
        invariant
            ds == map.domains@,
            i <= ds.len(),
            domain_id_of(ds, room_id@) == domain_id_of(ds.skip(i as int), room_id@),
        decreases map.domains.len() - i,
    {
        let d = &map.domains[i];
        assert(ds.skip(i as int)[0] == ds[i as int]);
        if let Some(j) = position_of(d.rooms.as_slice(), room_id) {
            assert(room_names(ds[i as int])[j as int] == room_id@);
            return Some(d.id);
        }
        assert(ds.skip(i as int).drop_first() =~= ds.skip(i + 1));
        i += 1;
    }
    None
}

proof fn lemma_domain_id_of_first(ds: Seq<Domain>, r: Seq<char>, k: int)
    requires
        0 <= k < ds.len(),
        room_names(ds[k]).contains(r),
        forall|j: int| 0 <= j < k ==> !room_names(#[trigger] ds[j]).contains(r),
    ensures
        domain_id_of(ds, r) == Some(ds[k].id),
    decreases k,
{
    if k > 0 {
        assert(!room_names(ds[0]).contains(r));
        assert forall|j: int| 0 <= j < k - 1 implies !room_names(#[trigger] ds.drop_first()[j]).contains(
            r,
        ) by {
            assert(ds.drop_first()[j] == ds[j + 1]);
        }
        lemma_domain_id_of_first(ds.drop_first(), r, k - 1);
    }
}

proof fn lemma_domain_id_of_none(ds: Seq<Domain>, r: Seq<char>)
    requires
        forall|j: int| 0 <= j < ds.len() ==> !room_names(#[trigger] ds[j]).contains(r),
    ensures
        domain_id_of(ds, r) == None::<u32>,
    decreases ds.len(),
{
    if ds.len() > 0 {
        assert(!room_names(ds[0]).contains(r));
        assert forall|j: int| 0 <= j < ds.len() - 1 implies !room_names(
            #[trigger] ds.drop_first()[j],
        ).contains(r) by {
            assert(ds.drop_first()[j] == ds[j + 1]);
        }
        lemma_domain_id_of_none(ds.drop_first(), r);
    }
}

/// In a domain partition, a room found in domain `k` is linked to that
/// domain's first room, and is one of the known rooms.
proof fn lemma_member_linked(
    ids: Seq<Seq<char>>,
    es: Seq<(Seq<char>, Seq<char>)>,
    ds: Seq<Domain>,
    k: int,
    r: Seq<char>,
)
    requires
        is_domain_partition(ids, es, ds),
        0 <= k < ds.len(),
        room_names(ds[k]).contains(r),
    ensures
        linked(ids, es, room_names(ds[k])[0], r),
        ids.contains(r),
{
    vstd::seq_lib::to_multiset_contains(room_names(ds[k]), r);
    vstd::seq_lib::to_multiset_contains(ids, r);
    assert(room_names(ds[k]).to_multiset().count(r) > 0);
}

/// In a domain partition, no room is in two domains.
pub proof fn lemma_one_domain_per_room(
    ids: Seq<Seq<char>>,
    es: Seq<(Seq<char>, Seq<char>)>,
    ds: Seq<Domain>,
    k: int,
    m: int,
    r: Seq<char>,
)
    requires
        is_domain_partition(ids, es, ds),
        0 <= k < ds.len(),
        0 <= m < ds.len(),
        room_names(ds[k]).contains(r),
        room_names(ds[m]).contains(r),
    ensures
        k == m,
{
    let a = room_names(ds[k])[0];
    let b = room_names(ds[m])[0];
    lemma_member_linked(ids, es, ds, k, r);
    lemma_member_linked(ids, es, ds, m, r);
    lemma_linked_symmetric(ids, es, b, r);
    lemma_linked_transitive(ids, es, a, r, b);
    lemma_linked_symmetric(ids, es, a, b);
    assert(room_names(ds[m]).contains(b) && room_names(ds[k]).contains(a)) by {
        assert(room_names(ds[m])[0] == b);
        assert(room_names(ds[k])[0] == a);
    }
    lemma_member_linked(ids, es, ds, m, b);
    lemma_member_linked(ids, es, ds, k, a);
    // b is in domain k and a is in domain m.
    vstd::seq_lib::to_multiset_contains(ids, b);
    vstd::seq_lib::to_multiset_contains(ids, a);
    vstd::seq_lib::to_multiset_contains(room_names(ds[k]), b);
    vstd::seq_lib::to_multiset_contains(room_names(ds[m]), a);
    assert(room_names(ds[k]).to_multiset().count(b) > 0);
    assert(room_names(ds[m]).to_multiset().count(a) > 0);
    let i = choose|i: int| 0 <= i < room_names(ds[k]).len() && room_names(ds[k])[i] == b;
    let j = choose|j: int| 0 <= j < room_names(ds[m]).len() && room_names(ds[m])[j] == a;
    assert(is_sorted(room_names(ds[k])));
    assert(is_sorted(room_names(ds[m])));
    assert(lex_le(room_names(ds[k])[0], room_names(ds[k])[i]));
    assert(lex_le(room_names(ds[m])[0], room_names(ds[m])[j]));
    lemma_lex_le_antisymmetric(a, b);
    if k < m {
        assert(lex_lt(room_names(ds[k])[0], room_names(ds[m])[0]));
    } else if m < k {
        assert(lex_lt(room_names(ds[m])[0], room_names(ds[k])[0]));
    }
}

/// In a domain partition, the lookup finds a domain for exactly the known rooms.
pub proof fn lemma_lookup_finds_known_rooms(
    ids: Seq<Seq<char>>,
    es: Seq<(Seq<char>, Seq<char>)>,
    ds: Seq<Domain>,
    r: Seq<char>,
)
    requires
        is_domain_partition(ids, es, ds),
    ensures
        domain_id_of(ds, r) is Some <==> ids.contains(r),
{
    if ids.contains(r) {
        let k = choose|k: int| 0 <= k < ds.len() && #[trigger] room_names(ds[k]).contains(r);
        assert forall|j: int| 0 <= j < k implies !room_names(#[trigger] ds[j]).contains(r) by {
            if room_names(ds[j]).contains(r) {
                lemma_one_domain_per_room(ids, es, ds, j, k, r);
            }
        }
        lemma_domain_id_of_first(ds, r, k);
    } else {
        assert forall|j: int| 0 <= j < ds.len() implies !room_names(#[trigger] ds[j]).contains(r) by {
            if room_names(ds[j]).contains(r) {
                lemma_member_linked(ids, es, ds, j, r);
            }
        }
        lemma_domain_id_of_none(ds, r);
    }
}

/// In a domain partition with ids that fit in `u32`, two known rooms get the
/// same domain id exactly when passages link them.
pub proof fn lemma_lookup_agrees_with_links(
    ids: Seq<Seq<char>>,
    es: Seq<(Seq<char>, Seq<char>)>,
    ds: Seq<Domain>,
    x: Seq<char>,
    y: Seq<char>,
)
    requires
        is_domain_partition(ids, es, ds),
        ds.len() <= 0x1_0000_0000,
        ids.contains(x),
        ids.contains(y),
    ensures
        (domain_id_of(ds, x) == domain_id_of(ds, y)) <==> linked(ids, es, x, y),
{
    let k = choose|k: int| 0 <= k < ds.len() && #[trigger] room_names(ds[k]).contains(x);
    let m = choose|m: int| 0 <= m < ds.len() && #[trigger] room_names(ds[m]).contains(y);
    assert forall|j: int| 0 <= j < k implies !room_names(#[trigger] ds[j]).contains(x) by {
        if room_names(ds[j]).contains(x) {
            lemma_one_domain_per_room(ids, es, ds, j, k, x);
        }
    }
    assert forall|j: int| 0 <= j < m implies !room_names(#[trigger] ds[j]).contains(y) by {
        if room_names(ds[j]).contains(y) {
            lemma_one_domain_per_room(ids, es, ds, j, m, y);
        }
    }
    lemma_domain_id_of_first(ds, x, k);
    lemma_domain_id_of_first(ds, y, m);
    let a = room_names(ds[k])[0];
    lemma_member_linked(ids, es, ds, k, x);
    lemma_member_linked(ids, es, ds, m, y);
    if linked(ids, es, x, y) {
        lemma_linked_transitive(ids, es, a, x, y);
        vstd::seq_lib::to_multiset_contains(ids, y);
        vstd::seq_lib::to_multiset_contains(room_names(ds[k]), y);
        assert(room_names(ds[k]).to_multiset().count(y) > 0);
        lemma_one_domain_per_room(ids, es, ds, k, m, y);
    }
    if k == m {
        lemma_linked_symmetric(ids, es, a, x);
        lemma_linked_transitive(ids, es, x, a, y);
    }
    if domain_id_of(ds, x) == domain_id_of(ds, y) {
        assert(ds[k].id == ds[m].id);
        assert(k as u32 == m as u32);
    }
}

/// In a domain partition, the two rooms of a passage between known rooms are
/// in the same domain: no passage crosses from one domain to another.
pub proof fn lemma_passage_stays_in_domain(
    ids: Seq<Seq<char>>,
    es: Seq<(Seq<char>, Seq<char>)>,
    ds: Seq<Domain>,
    k: int,
)
    requires
        is_domain_partition(ids, es, ds),
        ds.len() <= 0x1_0000_0000,
        0 <= k < es.len(),
        binds(ids, es[k]),
    ensures
        domain_id_of(ds, es[k].0) == domain_id_of(ds, es[k].1),
        domain_id_of(ds, es[k].0) is Some,
{
    lemma_passage_links_its_rooms(ids, es, k);
    lemma_lookup_agrees_with_links(ids, es, ds, es[k].0, es[k].1);
    lemma_lookup_finds_known_rooms(ids, es, ds, es[k].0);
}

// ── Uniqueness ──────────────────────────────────────────────────────────────
/// Two domain sequences agree: same length, and domain by domain the same id
/// and the same room names in the same order.
pub open spec fn same_domains(ds1: Seq<Domain>, ds2: Seq<Domain>) -> bool {
    &&& ds1.len() == ds2.len()
    &&& forall|k: int|
        0 <= k < ds1.len() ==> (#[trigger] ds1[k]).id == ds2[k].id && room_names(ds1[k])
            == room_names(ds2[k])
}

/// The first room of a domain of one partition is the first room of some
/// domain of any other partition of the same rooms and passages.
proof fn lemma_first_room_is_first_in_both(
    ids: Seq<Seq<char>>,
    es: Seq<(Seq<char>, Seq<char>)>,
    dsa: Seq<Domain>,
    dsb: Seq<Domain>,
    k: int,
) -> (m: int)
    requires
        is_domain_partition(ids, es, dsa),
        is_domain_partition(ids, es, dsb),
        0 <= k < dsa.len(),
    ensures
        0 <= m < dsb.len(),
        room_names(dsb[m])[0] == room_names(dsa[k])[0],
{
    let a = room_names(dsa[k])[0];
    assert(room_names(dsa[k]).contains(a)) by {
        assert(room_names(dsa[k])[0] == a);
    }
    lemma_member_linked(ids, es, dsa, k, a);
    let m = choose|m: int| 0 <= m < dsb.len() && #[trigger] room_names(dsb[m]).contains(a);
    let b = room_names(dsb[m])[0];
    assert(room_names(dsb[m]).contains(b)) by {
        assert(room_names(dsb[m])[0] == b);
    }
    lemma_member_linked(ids, es, dsb, m, a);
    lemma_member_linked(ids, es, dsb, m, b);
    let j = choose|j: int| 0 <= j < room_names(dsb[m]).len() && room_names(dsb[m])[j] == a;
    assert(is_sorted(room_names(dsb[m])));
    assert(lex_le(room_names(dsb[m])[0], room_names(dsb[m])[j]));
    lemma_linked_symmetric(ids, es, b, a);
    vstd::seq_lib::to_multiset_contains(ids, b);
    vstd::seq_lib::to_multiset_contains(room_names(dsa[k]), b);
    assert(room_names(dsa[k]).to_multiset().count(b) > 0);
    let i = choose|i: int| 0 <= i < room_names(dsa[k]).len() && room_names(dsa[k])[i] == b;
    assert(is_sorted(room_names(dsa[k])));
    assert(lex_le(room_names(dsa[k])[0], room_names(dsa[k])[i]));
    lemma_lex_le_antisymmetric(a, b);
    m
}

/// The domains of rooms and passages are unique: any two domain partitions of
/// the same rooms and passages agree domain by domain.
pub proof fn lemma_domain_partition_unique(
    ids: Seq<Seq<char>>,
    es: Seq<(Seq<char>, Seq<char>)>,
    ds1: Seq<Domain>,
    ds2: Seq<Domain>,
)
    requires
        is_domain_partition(ids, es, ds1),
        is_domain_partition(ids, es, ds2),
    ensures
        same_domains(ds1, ds2),
{
    let f1 = Seq::new(ds1.len(), |k: int| room_names(ds1[k])[0]);
    let f2 = Seq::new(ds2.len(), |k: int| room_names(ds2[k])[0]);
    assert forall|x: Seq<char>| f1.contains(x) <==> f2.contains(x) by {
        if f1.contains(x) {
            let k = choose|k: int| 0 <= k < f1.len() && f1[k] == x;
            let m = lemma_first_room_is_first_in_both(ids, es, ds1, ds2, k);
            assert(f2[m] == x);
        }
        if f2.contains(x) {
            let k = choose|k: int| 0 <= k < f2.len() && f2[k] == x;
            let m = lemma_first_room_is_first_in_both(ids, es, ds2, ds1, k);
            assert(f1[m] == x);
        }
    }
    assert forall|i: int, j: int| 0 <= i < j < f1.len() implies lex_lt(
        #[trigger] f1[i],
        #[trigger] f1[j],
    ) by {
        assert(lex_lt(room_names(ds1[i])[0], room_names(ds1[j])[0]));
    }
    assert forall|i: int, j: int| 0 <= i < j < f2.len() implies lex_lt(
        #[trigger] f2[i],
        #[trigger] f2[j],
    ) by {
        assert(lex_lt(room_names(ds2[i])[0], room_names(ds2[j])[0]));
    }
    lemma_strictly_sorted_unique(f1, f2);
    assert(ds1.len() == f1.len() && ds2.len() == f2.len());
    assert forall|k: int| 0 <= k < ds1.len() implies (#[trigger] ds1[k]).id == ds2[k].id
        && room_names(ds1[k]) == room_names(ds2[k]) by {
        assert(f1[k] == f2[k]);
        let n1 = room_names(ds1[k]);
        let n2 = room_names(ds2[k]);
        assert(n1[0] == n2[0]);
        assert forall|r: Seq<char>| n1.to_multiset().count(r) == n2.to_multiset().count(r) by {
            assert(n1.to_multiset().count(r) == if linked(ids, es, n1[0], r) {
                ids.to_multiset().count(r)
            } else {
                0
            });
            assert(n2.to_multiset().count(r) == if linked(ids, es, n2[0], r) {
                ids.to_multiset().count(r)
            } else {
                0
            });
        }
        assert(n1.to_multiset() =~= n2.to_multiset());
        assert(is_sorted(n1) && is_sorted(n2));
        lemma_sorted_permutation_unique(n1, n2);
    }
}

/// `es1` and `es2` hold the same passages up to order and direction: each
/// passage of one is in the other, as it is or with its two rooms swapped.
pub open spec fn same_passages(
    es1: Seq<(Seq<char>, Seq<char>)>,
    es2: Seq<(Seq<char>, Seq<char>)>,
) -> bool {
    &&& forall|k: int|
        0 <= k < es1.len() ==> es2.contains(#[trigger] es1[k]) || es2.contains((es1[k].1, es1[k].0))
    &&& forall|k: int|
        0 <= k < es2.len() ==> es1.contains(#[trigger] es2[k]) || es1.contains((es2[k].1, es2[k].0))
}

proof fn lemma_keeps_same_passages(
    ids1: Seq<Seq<char>>,
    es1: Seq<(Seq<char>, Seq<char>)>,
    ids2: Seq<Seq<char>>,
    es2: Seq<(Seq<char>, Seq<char>)>,
    label: spec_fn(Seq<char>) -> int,
)
    requires
        forall|x: Seq<char>| ids1.contains(x) <==> ids2.contains(x),
        same_passages(es1, es2),
        keeps(ids1, es1, label),
    ensures
        keeps(ids2, es2, label),
{
    assert forall|k: int| 0 <= k < es2.len() && binds(ids2, #[trigger] es2[k]) implies label(
        es2[k].0,
    ) == label(es2[k].1) by {
        let e = es2[k];
        if es1.contains(e) {
            let j = choose|j: int| 0 <= j < es1.len() && es1[j] == e;
            assert(binds(ids1, es1[j]));
        } else {
            assert(es1.contains((e.1, e.0)));
            let j = choose|j: int| 0 <= j < es1.len() && es1[j] == (e.1, e.0);
            assert(binds(ids1, es1[j]));
        }
    }
}

/// The domain partition depends on the rooms only as a multiset and on the
/// passages only as unordered pairs: reordering rooms or passages, or swapping
/// the two rooms of a passage, keeps a partition a partition. (The ternary
/// state of a passage does not enter `passage_ends` at all.)
pub proof fn lemma_partition_ignores_order(
    ids1: Seq<Seq<char>>,
    es1: Seq<(Seq<char>, Seq<char>)>,
    ids2: Seq<Seq<char>>,
    es2: Seq<(Seq<char>, Seq<char>)>,
    ds: Seq<Domain>,
)
    requires
        ids1.to_multiset() == ids2.to_multiset(),
        same_passages(es1, es2),
        is_domain_partition(ids1, es1, ds),
    ensures
        is_domain_partition(ids2, es2, ds),
{
    assert forall|x: Seq<char>| ids1.contains(x) <==> ids2.contains(x) by {
        vstd::seq_lib::to_multiset_contains(ids1, x);
        vstd::seq_lib::to_multiset_contains(ids2, x);
    }
    assert forall|a: Seq<char>, b: Seq<char>| #[trigger]
        linked(ids1, es1, a, b) == linked(ids2, es2, a, b) by {
        if linked(ids1, es1, a, b) {
            assert forall|label: spec_fn(Seq<char>) -> int| #[trigger]
                keeps(ids2, es2, label) implies label(a) == label(b) by {
                lemma_keeps_same_passages(ids2, es2, ids1, es1, label);
            }
        }
        if linked(ids2, es2, a, b) {
            assert forall|label: spec_fn(Seq<char>) -> int| #[trigger]
                keeps(ids1, es1, label) implies label(a) == label(b) by {
                lemma_keeps_same_passages(ids1, es1, ids2, es2, label);
            }
        }
    }
    assert forall|k: int, r: Seq<char>| 0 <= k < ds.len() implies #[trigger] room_names(
        ds[k],
    ).to_multiset().count(r) == if linked(ids2, es2, room_names(ds[k])[0], r) {
        ids2.to_multiset().count(r)
    } else {
        0
    } by {
        assert(linked(ids1, es1, room_names(ds[k])[0], r) == linked(
            ids2,
            es2,
            room_names(ds[k])[0],
            r,
        ));
    }
}

/// The domain map does not depend on the order of the rooms or of the
/// passages, nor on the direction of a passage: two partitions of rooms that
/// are permutations of each other, by the same passages up to order and
/// direction, agree domain by domain.
pub proof fn lemma_domain_map_ignores_order(
    ids1: Seq<Seq<char>>,
    es1: Seq<(Seq<char>, Seq<char>)>,
    ds1: Seq<Domain>,
    ids2: Seq<Seq<char>>,
    es2: Seq<(Seq<char>, Seq<char>)>,
    ds2: Seq<Domain>,
)
    requires
        ids1.to_multiset() == ids2.to_multiset(),
        same_passages(es1, es2),
        is_domain_partition(ids1, es1, ds1),
        is_domain_partition(ids2, es2, ds2),
    ensures
        same_domains(ds1, ds2),
{
    lemma_partition_ignores_order(ids1, es1, ids2, es2, ds1);
    lemma_domain_partition_unique(ids2, es2, ds1, ds2);
}

} // verus!
