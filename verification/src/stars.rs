//! The star-portal puzzle: the portal graph and the shortest hop count
//! between the first and the last star.  The star coordinates and the
//! travelled distance are floating-point work and stay outside the
//! library.

use vstd::prelude::*;
use std::collections::HashMap;

verus! {

broadcast use vstd::std_specs::hash::group_hash_axioms;


/// The destinations reachable from `source`, in input order.
pub open spec fn destinations_of(pairs: Seq<(u32, u32)>, source: u32) -> Seq<u32>
    decreases pairs.len(),
{
    if pairs.len() == 0 {
        Seq::empty()
    } else {
        let init = destinations_of(pairs.drop_last(), source);
        if pairs.last().0 == source {
            init.push(pairs.last().1)
        } else {
            init
        }
    }
}

/// Builds the portal map: each source star to its destinations, in input
/// order.
pub fn get_portal_paths(pairs: &Vec<(u32, u32)>) -> (m: HashMap<u32, Vec<u32>>)
    ensures
        forall|s: u32| m@.contains_key(s) <==> destinations_of(pairs@, s).len() > 0,
        forall|s: u32| #[trigger]
            m@.contains_key(s) ==> m@[s]@ == destinations_of(pairs@, s),
{
    let mut m: HashMap<u32, Vec<u32>> = HashMap::new();
    let mut i: usize = 0;
    while i < pairs.len()
        invariant
            i <= pairs@.len(),
            forall|s: u32| m@.contains_key(s) <==> destinations_of(pairs@.take(i as int), s).len()
                > 0,
            forall|s: u32| #[trigger]
                m@.contains_key(s) ==> m@[s]@ == destinations_of(pairs@.take(i as int), s),
        decreases pairs@.len() - i,
    {
        let (source, destination) = pairs[i];
        proof {
            assert(pairs@.take(i + 1).drop_last() =~= pairs@.take(i as int));
            assert(pairs@.take(i + 1).last() == pairs@[i as int]);
        }
        let ghost before = m@;
        match m.remove(&source) {
            Some(mut path) => {
                path.push(destination);
                m.insert(source, path);
                proof {
                    assert forall|s: u32| #[trigger]
                        m@.contains_key(s) implies m@[s]@ == destinations_of(
                        pairs@.take(i + 1),
                        s,
                    ) by {
                        if s != source {
                            assert(before.contains_key(s) ==> before[s]@ == destinations_of(
                                pairs@.take(i as int),
                                s,
                            ));
                        }
                    }
                }
            },
            None => {
                let mut path: Vec<u32> = Vec::new();
                path.push(destination);
                m.insert(source, path);
                proof {
                    assert(destinations_of(pairs@.take(i as int), source) =~= Seq::<u32>::empty());
                    assert forall|s: u32| #[trigger]
                        m@.contains_key(s) implies m@[s]@ == destinations_of(
                        pairs@.take(i + 1),
                        s,
                    ) by {
                        if s != source {
                            assert(before.contains_key(s) ==> before[s]@ == destinations_of(
                                pairs@.take(i as int),
                                s,
                            ));
                        } else {
                            assert(m@[source]@ =~= Seq::<u32>::empty().push(destination));
                        }
                    }
                }
            },
        }
        i = i + 1;
    }
    proof {
        assert(pairs@.take(pairs@.len() as int) =~= pairs@);
    }
    m
}

/// An edge of the portal map.
pub open spec fn has_edge(m: Map<u32, Vec<u32>>, a: u32, b: u32) -> bool {
    m.contains_key(a) && m[a]@.contains(b)
}

/// A walk through the portal map from `start` to `goal`.
pub open spec fn is_path(m: Map<u32, Vec<u32>>, p: Seq<u32>, start: u32, goal: u32) -> bool {
    &&& p.len() >= 1
    &&& p[0] == start
    &&& p.last() == goal
    &&& forall|k: int| 0 <= k < p.len() - 1 ==> has_edge(m, #[trigger] p[k], p[k + 1])
}

/// The successors of a star in the portal map.
fn successors_of(m: &HashMap<u32, Vec<u32>>, n: &u32) -> (r: Vec<u32>)
    ensures
        m@.contains_key(*n) ==> r@ == m@[*n]@,
        !m@.contains_key(*n) ==> r@ == Seq::<u32>::empty(),
{
    match m.get(n) {
        Some(v) => {
            let mut r: Vec<u32> = Vec::new();
            let mut i: usize = 0;
            while i < v.len()
                invariant
                    i <= v@.len(),
                    r@ =~= v@.take(i as int),
                decreases v@.len() - i,
            {
                r.push(v[i]);
                proof {
                    assert(r@ =~= v@.take(i + 1));
                }
                i = i + 1;
            }
            proof {
                assert(v@.take(v@.len() as int) =~= v@);
            }
            r
        },
        None => Vec::new(),
    }
}

/// Relies on `pathfinding::directed::bfs::bfs`: a breadth-first search
/// from `start`, following `successors_of` over the portal map, to the
/// star `goal`.  Its documentation promises the shortest path, holding
/// both endpoints, or nothing when no path exists.
#[verifier::external_body]
pub fn shortest_portal_path(m: &HashMap<u32, Vec<u32>>, start: u32, goal: u32) -> (r: Option<
    Vec<u32>,
>)
    ensures
        match r {
            Some(p) => is_path(m@, p@, start, goal) && forall|q: Seq<u32>|
                #[trigger] is_path(m@, q, start, goal) ==> p@.len() <= q.len(),
            None => forall|q: Seq<u32>| !(#[trigger] is_path(m@, q, start, goal)),
        },
{
    pathfinding::directed::bfs::bfs(
        &start,
        |p: &u32| successors_of(m, p),
        |p: &u32| *p == goal,
    )
}

/// An edge of the pair list: `b` is a listed destination of `a`.
pub open spec fn pair_edge(pairs: Seq<(u32, u32)>, a: u32, b: u32) -> bool {
    destinations_of(pairs, a).contains(b)
}

/// A walk along listed portal pairs from `start` to `goal`.
pub open spec fn is_pair_path(pairs: Seq<(u32, u32)>, p: Seq<u32>, start: u32, goal: u32) -> bool {
    &&& p.len() >= 1
    &&& p[0] == start
    &&& p.last() == goal
    &&& forall|k: int| 0 <= k < p.len() - 1 ==> pair_edge(pairs, #[trigger] p[k], p[k + 1])
}

/// The shortest route from the first star to the last of `star_count`
/// stars: the path and its number of portal jumps.  Nothing when there
/// are no stars, or no route.
pub fn shortest_route_jumps(pairs: &Vec<(u32, u32)>, star_count: u32) -> (r: Option<(
    Vec<u32>,
    usize,
)>)
    ensures
        match r {
            Some(p) => star_count >= 1 && p.1 == p.0@.len() - 1 && is_pair_path(
                pairs@,
                p.0@,
                0,
                (star_count - 1) as u32,
            ) && forall|q: Seq<u32>|
                #[trigger] is_pair_path(pairs@, q, 0, (star_count - 1) as u32) ==> p.0@.len()
                    <= q.len(),
            None => star_count == 0 || (forall|q: Seq<u32>|
                !(#[trigger] is_pair_path(pairs@, q, 0, (star_count - 1) as u32))),
        },
{
    if star_count == 0 {
        return None;
    }
    let m = get_portal_paths(pairs);
    let goal = star_count - 1;
    proof {
        assert forall|a: u32, b: u32| #[trigger] has_edge(m@, a, b) == pair_edge(
            pairs@,
            a,
            b,
        ) by {
            if destinations_of(pairs@, a).len() > 0 {
                assert(m@.contains_key(a));
            }
        }
        assert forall|q: Seq<u32>|
            #![trigger is_path(m@, q, 0, goal)]
            #![trigger is_pair_path(pairs@, q, 0, goal)]
            is_path(m@, q, 0, goal) == is_pair_path(pairs@, q, 0, goal) by {
            if is_path(m@, q, 0, goal) {
                assert forall|k: int| 0 <= k < q.len() - 1 implies pair_edge(
                    pairs@,
                    #[trigger] q[k],
                    q[k + 1],
                ) by {
                    assert(has_edge(m@, q[k], q[k + 1]));
                }
            }
            if is_pair_path(pairs@, q, 0, goal) {
                assert forall|k: int| 0 <= k < q.len() - 1 implies has_edge(
                    m@,
                    #[trigger] q[k],
                    q[k + 1],
                ) by {
                    assert(pair_edge(pairs@, q[k], q[k + 1]));
                }
            }
        }
    }
    match shortest_portal_path(&m, 0, goal) {
        Some(p) => {
            let jumps = p.len() - 1;
            proof {
                assert(is_path(m@, p@, 0, goal));
                assert(p@.len() >= 1);
            }
            Some((p, jumps))
        },
        None => None,
    }
}

} // verus!
