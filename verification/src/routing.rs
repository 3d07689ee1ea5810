//! Routing over the measured distances.
//!
//! The nodes taken into account are those the node has measurements from
//! and those that sent a topology announcement (at most `MAX_SWARM_SIZE`,
//! first come first served). Edge `u -> v` exists when `u` measured `v`, and
//! weighs the measured distance. Path lengths are exact sums of the I16F16
//! distance bits, kept in an `i64`.
use vstd::prelude::*;
use crate::assoc::{contains_u64, has_key, keys_of, lookup};
use crate::dijkstra::{
    achievable, as_ints, dv, is_path, lemma_extend_path, nonneg_weights, optimal, path_cost,
    shortest, shortest_distances, no_path, shortest_path, shortest_path_spec, square, step_ok, wt,
};
use crate::mds::MAX_SWARM_SIZE;
use crate::node_state::{link_between, Link, Neighbours};
use crate::topology::Topology;

verus! {

/// Adds each key of `ks` in turn to `acc`, skipping keys already there and
/// stopping to grow at `MAX_SWARM_SIZE` keys.
pub open spec fn collect_spec(acc: Seq<u64>, ks: Seq<u64>) -> Seq<u64>
    decreases ks.len(),
{
    if ks.len() == 0 {
        acc
    } else {
        let a = collect_spec(acc, ks.drop_last());
        if a.contains(ks.last()) || a.len() >= MAX_SWARM_SIZE {
            a
        } else {
            a.push(ks.last())
        }
    }
}

/// The nodes routing takes into account: the nodes measurements came from,
/// then the senders of topology announcements.
pub open spec fn nodes_spec(topology: Topology, neighbours: Seq<(u64, Seq<(u64, Link)>)>) -> Seq<
    u64,
> {
    collect_spec(Seq::empty(), keys_of(neighbours) + keys_of(topology.table()))
}

/// What `collect_spec` guarantees: no key twice, at most `MAX_SWARM_SIZE`
/// keys, only keys of `ks`, and every key of `ks` unless full.
pub proof fn lemma_collect(ks: Seq<u64>)
    ensures
        collect_spec(Seq::empty(), ks).no_duplicates(),
        collect_spec(Seq::empty(), ks).len() <= MAX_SWARM_SIZE,
        forall|x: u64| #[trigger] collect_spec(Seq::empty(), ks).contains(x) ==> ks.contains(x),
        forall|x: u64|
            #[trigger] ks.contains(x) ==> collect_spec(Seq::empty(), ks).contains(x) || collect_spec(
                Seq::empty(),
                ks,
            ).len() == MAX_SWARM_SIZE,
    decreases ks.len(),
{
    if ks.len() > 0 {
        let prev = ks.drop_last();
        lemma_collect(prev);
        let a = collect_spec(Seq::empty(), prev);
        let r = collect_spec(Seq::empty(), ks);
        assert forall|x: u64| #[trigger] r.contains(x) implies ks.contains(x) by {
            if a.contains(x) {
                assert(prev.contains(x));
                let i = choose|i: int| 0 <= i < prev.len() && prev[i] == x;
                assert(ks[i] == x);
            } else {
                assert(x == ks.last());
                assert(ks[ks.len() - 1] == x);
            }
        }
        assert forall|x: u64| #[trigger] ks.contains(x) implies r.contains(x) || r.len()
            == MAX_SWARM_SIZE by {
            let i = choose|i: int| 0 <= i < ks.len() && ks[i] == x;
            if i < ks.len() - 1 {
                assert(prev[i] == x);
                assert(prev.contains(x));
                if a.contains(x) && r != a {
                    let j = choose|j: int| 0 <= j < a.len() && a[j] == x;
                    assert(r[j] == x);
                }
            } else if r != a {
                assert(r[r.len() - 1] == x);
            }
        }
        if r != a {
            assert forall|i: int, j: int| 0 <= i < r.len() && 0 <= j < r.len() && i != j implies r[i]
                != r[j] by {
                if i < a.len() && j < a.len() {
                } else if i == a.len() {
                    assert(a[j] == r[j]);
                } else {
                    assert(a[i] == r[i]);
                }
            }
        }
    }
}

/// Collects the nodes routing takes into account.
pub fn collect_nodes(topology: &Topology, neighbours: &Neighbours) -> (nodes: Vec<u64>)
    ensures
        nodes@ == nodes_spec(*topology, neighbours@),
{
    let ghost ks = keys_of(neighbours@) + keys_of(topology.table());
    let mut nodes: Vec<u64> = Vec::new();
    let a = neighbours.keys();
    let b = topology.table_keys();
    assert(ks =~= a@ + b@);
    for i in 0..a.len()
        invariant
            ks == a@ + b@,
            nodes@ == collect_spec(Seq::empty(), ks.take(i as int)),
    {
        assert(ks.take(i + 1).drop_last() =~= ks.take(i as int));
        assert(ks.take(i + 1).last() == a@[i as int]);
        if !contains_u64(&nodes, a[i]) && nodes.len() < MAX_SWARM_SIZE {
            nodes.push(a[i]);
        }
    }
    for i in 0..b.len()
        invariant
            ks == a@ + b@,
            nodes@ == collect_spec(Seq::empty(), ks.take(a.len() + i)),
    {
        assert(ks.take(a.len() + i + 1).drop_last() =~= ks.take(a.len() + i));
        assert(ks.take(a.len() + i + 1).last() == b@[i as int]);
        if !contains_u64(&nodes, b[i]) && nodes.len() < MAX_SWARM_SIZE {
            nodes.push(b[i]);
        }
    }
    assert(ks.take(a.len() + b.len()) =~= ks);
    nodes
}

/// The weight of the edge `u -> v`: the distance `u` measured to `v`.
pub open spec fn edge_weight(nb: Seq<(u64, Seq<(u64, Link)>)>, u: u64, v: u64) -> Option<i32> {
    match link_between(nb, u, v) {
        Some(l) => Some(l.dist),
        None => None,
    }
}

/// No measured distance is negative.
pub open spec fn nonneg_distances(nb: Seq<(u64, Seq<(u64, Link)>)>) -> bool {
    forall|u: u64, v: u64| #[trigger] link_between(nb, u, v) matches Some(l) ==> l.dist >= 0
}

/// `p` is a route from `from` to `to` through `nodes` only, each hop along
/// a measured link.
pub open spec fn is_route(
    nb: Seq<(u64, Seq<(u64, Link)>)>,
    nodes: Seq<u64>,
    p: Seq<u64>,
    from: u64,
    to: u64,
) -> bool {
    &&& p.len() >= 1
    &&& p[0] == from
    &&& p[p.len() - 1] == to
    &&& forall|k: int| 0 <= k < p.len() ==> nodes.contains(#[trigger] p[k])
    &&& forall|k: int| 0 <= k < p.len() - 1 ==> (#[trigger] edge_weight(nb, p[k], p[k + 1])) is Some
}

/// Total measured distance along `p`.
pub open spec fn route_length(nb: Seq<(u64, Seq<(u64, Link)>)>, p: Seq<u64>) -> int
    decreases p.len(),
{
    if p.len() <= 1 {
        0
    } else {
        route_length(nb, p.drop_last()) + wt(edge_weight(nb, p[p.len() - 2], p[p.len() - 1]))
    }
}

/// `p` is a route from `from` to `to` and no such route is shorter.
pub open spec fn is_shortest_route(
    nb: Seq<(u64, Seq<(u64, Link)>)>,
    nodes: Seq<u64>,
    p: Seq<u64>,
    from: u64,
    to: u64,
) -> bool {
    &&& is_route(nb, nodes, p, from, to)
    &&& forall|q: Seq<u64>| #[trigger]
        is_route(nb, nodes, q, from, to) ==> route_length(nb, p) <= route_length(nb, q)
}

/// There is a route from `from` to `to`.
pub open spec fn has_route(
    nb: Seq<(u64, Seq<(u64, Link)>)>,
    nodes: Seq<u64>,
    from: u64,
    to: u64,
) -> bool {
    exists|q: Seq<u64>| #[trigger] is_route(nb, nodes, q, from, to)
}

/// The weight matrix over `nodes`.
pub open spec fn weights_spec(nb: Seq<(u64, Seq<(u64, Link)>)>, nodes: Seq<u64>) -> Seq<
    Seq<Option<i32>>,
> {
    Seq::new(nodes.len(), |i: int| Seq::new(nodes.len(), |j: int| edge_weight(nb, nodes[i], nodes[j])))
}

/// Position of `x` in `nodes`.
pub open spec fn pos_of(nodes: Seq<u64>, x: u64) -> int {
    choose|i: int| 0 <= i < nodes.len() && nodes[i] == x
}

proof fn lemma_pos_of(nodes: Seq<u64>, x: u64)
    requires
        nodes.no_duplicates(),
        nodes.contains(x),
    ensures
        0 <= pos_of(nodes, x) < nodes.len(),
        nodes[pos_of(nodes, x)] == x,
        forall|i: int| 0 <= i < nodes.len() && nodes[i] == x ==> i == pos_of(nodes, x),
{
}

/// Index paths over `nodes` are routes of the same length.
proof fn lemma_index_to_route(
    nb: Seq<(u64, Seq<(u64, Link)>)>,
    nodes: Seq<u64>,
    q: Seq<int>,
    s: int,
    t: int,
)
    requires
        is_path(weights_spec(nb, nodes), q, s, t),
    ensures
        is_route(nb, nodes, q.map_values(|i: int| nodes[i]), nodes[s], nodes[t]),
        route_length(nb, q.map_values(|i: int| nodes[i])) == path_cost(weights_spec(nb, nodes), q),
    decreases q.len(),
{
    let w = weights_spec(nb, nodes);
    let p = q.map_values(|i: int| nodes[i]);
    assert forall|k: int| 0 <= k < p.len() implies nodes.contains(#[trigger] p[k]) by {
        assert(0 <= q[k] < w.len());
    }
    assert forall|k: int| 0 <= k < p.len() - 1 implies (#[trigger] edge_weight(
        nb,
        p[k],
        p[k + 1],
    )) is Some by {
        assert(step_ok(w, q, k));
        assert(0 <= q[k] < w.len());
        assert(0 <= q[k + 1] < w.len());
    }
    if q.len() > 1 {
        crate::dijkstra::lemma_prefix_path(w, q, s, t, q.len() - 1);
        assert(q.take(q.len() - 1) =~= q.drop_last());
        lemma_index_to_route(nb, nodes, q.drop_last(), s, q[q.len() - 2]);
        assert(p.drop_last() =~= q.drop_last().map_values(|i: int| nodes[i]));
        assert(0 <= q[q.len() - 2] < w.len());
        assert(0 <= q[q.len() - 1] < w.len());
    }
}

/// Routes through `nodes` are index paths of the same length.
proof fn lemma_route_to_index(
    nb: Seq<(u64, Seq<(u64, Link)>)>,
    nodes: Seq<u64>,
    p: Seq<u64>,
    from: u64,
    to: u64,
)
    requires
        nodes.no_duplicates(),
        is_route(nb, nodes, p, from, to),
    ensures
        is_path(
            weights_spec(nb, nodes),
            p.map_values(|x: u64| pos_of(nodes, x)),
            pos_of(nodes, from),
            pos_of(nodes, to),
        ),
        path_cost(weights_spec(nb, nodes), p.map_values(|x: u64| pos_of(nodes, x))) == route_length(
            nb,
            p,
        ),
    decreases p.len(),
{
    let w = weights_spec(nb, nodes);
    let q = p.map_values(|x: u64| pos_of(nodes, x));
    assert forall|k: int| 0 <= k < q.len() implies 0 <= #[trigger] q[k] < w.len() by {
        assert(nodes.contains(p[k]));
        lemma_pos_of(nodes, p[k]);
    }
    assert forall|k: int| 0 <= k < q.len() - 1 implies #[trigger] step_ok(w, q, k) by {
        assert(nodes.contains(p[k]));
        assert(nodes.contains(p[k + 1]));
        lemma_pos_of(nodes, p[k]);
        lemma_pos_of(nodes, p[k + 1]);
        assert(edge_weight(nb, p[k], p[k + 1]) is Some);
    }
    assert(nodes.contains(p[0]));
    assert(nodes.contains(p[p.len() - 1]));
    if p.len() > 1 {
        let pd = p.drop_last();
        assert forall|k: int| 0 <= k < pd.len() implies nodes.contains(#[trigger] pd[k]) by {
            assert(nodes.contains(p[k]));
        }
        assert forall|k: int| 0 <= k < pd.len() - 1 implies (#[trigger] edge_weight(
            nb,
            pd[k],
            pd[k + 1],
        )) is Some by {
            assert(edge_weight(nb, p[k], p[k + 1]) is Some);
        }
        lemma_route_to_index(nb, nodes, pd, from, p[p.len() - 2]);
        assert(q.drop_last() =~= pd.map_values(|x: u64| pos_of(nodes, x)));
        assert(nodes.contains(p[p.len() - 2]));
        lemma_pos_of(nodes, p[p.len() - 2]);
        lemma_pos_of(nodes, p[p.len() - 1]);
    }
}

/// Builds the weight matrix over `nodes`.
fn build_weights(neighbours: &Neighbours, nodes: &Vec<u64>) -> (w: Vec<Vec<Option<i32>>>)
    requires
        neighbours.wf(),
    ensures
        w.deep_view() == weights_spec(neighbours@, nodes@),
        square(w.deep_view()),
{
    let n = nodes.len();
    let mut w: Vec<Vec<Option<i32>>> = Vec::new();
    for i in 0..n
        invariant
            n == nodes.len(),
            neighbours.wf(),
            w.len() == i,
            forall|k: int| 0 <= k < i ==> #[trigger] w@[k]@ == weights_spec(neighbours@, nodes@)[k],
    {
        let mut row: Vec<Option<i32>> = Vec::new();
        for j in 0..n
            invariant
                n == nodes.len(),
                i < n,
                neighbours.wf(),
                row.len() == j,
                forall|k: int|
                    0 <= k < j ==> #[trigger] row@[k] == edge_weight(
                        neighbours@,
                        nodes@[i as int],
                        nodes@[k],
                    ),
        {
            let e = match neighbours.get_link(nodes[i], nodes[j]) {
                Some(l) => Some(l.dist),
                None => None,
            };
            row.push(e);
        }
        assert(row@ =~= weights_spec(neighbours@, nodes@)[i as int]);
        w.push(row);
    }
    assert(w.deep_view() =~= weights_spec(neighbours@, nodes@)) by {
        assert forall|k: int| 0 <= k < n implies #[trigger] w.deep_view()[k] == weights_spec(
            neighbours@,
            nodes@,
        )[k] by {
            assert(w.deep_view()[k] =~= w@[k]@);
        }
    }
    w
}

/// The route routing picks from this node to `target`: the path that
/// `shortest_path` returns on the weight matrix of the tracked nodes, as MAC
/// keys; `None` when either end is not tracked or `target` is unreachable.
pub open spec fn route_choice(
    topology: Topology,
    target: u64,
    nb: Seq<(u64, Seq<(u64, Link)>)>,
) -> Option<Seq<u64>> {
    let nodes = nodes_spec(topology, nb);
    let own = topology.state().mac;
    if !nodes.contains(own) || !nodes.contains(target) {
        None
    } else {
        match shortest_path_spec(
            weights_spec(nb, nodes),
            pos_of(nodes, own),
            pos_of(nodes, target) as usize,
        ) {
            None => None,
            Some(pi) => Some(pi.map_values(|i: usize| nodes[i as int])),
        }
    }
}

/// Position of `x` in `v`, if present.
fn position(v: &Vec<u64>, x: u64) -> (r: Option<usize>)
    ensures
        r matches Some(i) ==> i < v.len() && v@[i as int] == x,
        r is None ==> !v@.contains(x),
{
    let mut i: usize = 0;
    while i < v.len()
        invariant
            i <= v.len(),
            forall|j: int| 0 <= j < i ==> #[trigger] v@[j] != x,
        decreases v.len() - i,
    {
        if v[i] == x {
            return Some(i);
        }
        i += 1;
    }
    None
}

/// Shortest route from this node to `target` (over the nodes routing takes
/// into account), or `None` when there is none.
fn dijkstra_inner(topology: &Topology, target: u64, neighbours: &Neighbours) -> (r: Option<
    Vec<u64>,
>)
    requires
        neighbours.wf(),
        nonneg_distances(neighbours@),
    ensures
        r is None <==> !has_route(
            neighbours@,
            nodes_spec(*topology, neighbours@),
            topology.state().mac,
            target,
        ),
        r matches Some(p) ==> is_shortest_route(
            neighbours@,
            nodes_spec(*topology, neighbours@),
            p@,
            topology.state().mac,
            target,
        ),
        r matches Some(p) ==> p@.no_duplicates(),
        match r {
            Some(p) => route_choice(*topology, target, neighbours@) == Some(p@),
            None => route_choice(*topology, target, neighbours@) is None,
        },
{
    let own_mac = topology.own_mac();
    let all_nodes = collect_nodes(topology, neighbours);
    let ghost nodes = all_nodes@;
    let ghost nb = neighbours@;
    proof {
        lemma_collect(keys_of(neighbours@) + keys_of(topology.table()));
    }
    let si = match position(&all_nodes, own_mac) {
        Some(i) => i,
        None => {
            proof {
                assert forall|q: Seq<u64>| !#[trigger] is_route(nb, nodes, q, own_mac, target) by {
                    if is_route(nb, nodes, q, own_mac, target) {
                        assert(nodes.contains(q[0]));
                    }
                }
            }
            return None;
        },
    };
    let ti = match position(&all_nodes, target) {
        Some(i) => i,
        None => {
            proof {
                assert forall|q: Seq<u64>| !#[trigger] is_route(nb, nodes, q, own_mac, target) by {
                    if is_route(nb, nodes, q, own_mac, target) {
                        assert(nodes.contains(q[q.len() - 1]));
                    }
                }
            }
            return None;
        },
    };
    let w = build_weights(neighbours, &all_nodes);
    let ghost g = w.deep_view();
    proof {
        assert(nonneg_weights(g)) by {
            assert forall|i: int, j: int| 0 <= i < g.len() && 0 <= j < g.len() implies wt(
                #[trigger] g[i][j],
            ) >= 0 by {
                assert(g[i][j] == edge_weight(nb, nodes[i], nodes[j]));
                if link_between(nb, nodes[i], nodes[j]) is Some {
                }
            }
        }
        lemma_pos_of(nodes, own_mac);
        lemma_pos_of(nodes, target);
        assert(si as int == pos_of(nodes, own_mac));
        assert(ti as int == pos_of(nodes, target));
    }
    match shortest_path(&w, si, ti) {
        None => {
            proof {
                assert forall|q: Seq<u64>| !#[trigger] is_route(nb, nodes, q, own_mac, target) by {
                    if is_route(nb, nodes, q, own_mac, target) {
                        lemma_route_to_index(nb, nodes, q, own_mac, target);
                        let qi = q.map_values(|x: u64| pos_of(nodes, x));
                        assert(is_path(g, qi, si as int, ti as int));
                    }
                }
            }
            None
        },
        Some(pi) => {
            let mut path: Vec<u64> = Vec::new();
            for k in 0..pi.len()
                invariant
                    all_nodes@ == nodes,
                    g == weights_spec(nb, nodes),
                    is_path(g, as_ints(pi@), si as int, ti as int),
                    path.len() == k,
                    k <= pi.len(),
                    forall|j: int| 0 <= j < k ==> #[trigger] path@[j] == nodes[pi@[j] as int],
            {
                assert(0 <= as_ints(pi@)[k as int] < g.len());
                assert(as_ints(pi@)[k as int] == pi@[k as int] as int);
                assert(g.len() == nodes.len());
                path.push(all_nodes[pi[k]]);
            }
            proof {
                let qi = as_ints(pi@);
                lemma_index_to_route(nb, nodes, qi, si as int, ti as int);
                assert(path@ =~= qi.map_values(|i: int| nodes[i]));
                assert forall|q: Seq<u64>| #[trigger]
                    is_route(nb, nodes, q, own_mac, target) implies route_length(nb, path@)
                    <= route_length(nb, q) by {
                    lemma_route_to_index(nb, nodes, q, own_mac, target);
                    let qq = q.map_values(|x: u64| pos_of(nodes, x));
                    assert(is_path(g, qq, si as int, ti as int));
                }
                assert forall|a: int, b: int| 0 <= a < path@.len() && 0 <= b < path@.len() && a != b implies path@[a]
                    != path@[b] by {
                    assert(pi@[a] != pi@[b]);
                    assert(0 <= qi[a] < nodes.len() && 0 <= qi[b] < nodes.len());
                }
                assert(path@ =~= pi@.map_values(|i: usize| nodes[i as int]));
            }
            Some(path)
        },
    }
}

/// Shortest route from this node to `target`, as the list of MAC keys from
/// this node to the target, or `None` when `target` cannot be reached
/// through the nodes routing takes into account.
pub fn dijkstra_path(topology: &Topology, target: u64, neighbours: &Neighbours) -> (r: Option<
    Vec<u64>,
>)
    requires
        neighbours.wf(),
        nonneg_distances(neighbours@),
    ensures
        r is None <==> !has_route(
            neighbours@,
            nodes_spec(*topology, neighbours@),
            topology.state().mac,
            target,
        ),
        r matches Some(p) ==> is_shortest_route(
            neighbours@,
            nodes_spec(*topology, neighbours@),
            p@,
            topology.state().mac,
            target,
        ),
        r matches Some(p) ==> p@.no_duplicates(),
        match r {
            Some(p) => route_choice(*topology, target, neighbours@) == Some(p@),
            None => route_choice(*topology, target, neighbours@) is None,
        },
{
    dijkstra_inner(topology, target, neighbours)
}

/// The smoothed RSSI measured along each hop of `p`.
pub open spec fn hop_rssi(nb: Seq<(u64, Seq<(u64, Link)>)>, p: Seq<u64>) -> Seq<i32> {
    Seq::new(
        (if p.len() == 0 {
            0
        } else {
            p.len() - 1
        }) as nat,
        |i: int|
            match link_between(nb, p[i], p[i + 1]) {
                Some(l) => l.ema_rssi,
                None => i32::MIN,
            },
    )
}

/// The smoothed RSSI (I16F16 dBm) of each hop of a shortest route from this
/// node to `target`, or `None` when `target` cannot be reached.
pub fn dijkstra_rssi(topology: &Topology, target: u64, neighbours: &Neighbours) -> (r: Option<
    Vec<i32>,
>)
    requires
        neighbours.wf(),
        nonneg_distances(neighbours@),
    ensures
        r is None <==> !has_route(
            neighbours@,
            nodes_spec(*topology, neighbours@),
            topology.state().mac,
            target,
        ),
        r matches Some(h) ==> exists|p: Seq<u64>|
            is_shortest_route(
                neighbours@,
                nodes_spec(*topology, neighbours@),
                p,
                topology.state().mac,
                target,
            ) && #[trigger] hop_rssi(neighbours@, p) == h@,
        match r {
            Some(h) => route_choice(*topology, target, neighbours@) matches Some(p) && h@ == hop_rssi(
                neighbours@,
                p,
            ),
            None => route_choice(*topology, target, neighbours@) is None,
        },
{
    let path = match dijkstra_inner(topology, target, neighbours) {
        Some(p) => p,
        None => {
            return None;
        },
    };
    let ghost nb = neighbours@;
    let hops = if path.len() == 0 {
        0
    } else {
        path.len() - 1
    };
    let mut rssi_hops: Vec<i32> = Vec::new();
    for i in 0..hops
        invariant
            neighbours.wf(),
            nb == neighbours@,
            hops == path.len() - 1,
            path.len() >= 1,
            forall|k: int| 0 <= k < path.len() - 1 ==> (#[trigger] edge_weight(nb, path@[k], path@[k + 1])) is Some,
            rssi_hops.len() == i,
            forall|k: int| 0 <= k < i ==> #[trigger] rssi_hops@[k] == hop_rssi(nb, path@)[k],
    {
        assert(edge_weight(nb, path@[i as int], path@[i + 1]) is Some);
        let l = neighbours.get_link(path[i], path[i + 1]).unwrap();
        rssi_hops.push(l.ema_rssi);
    }
    assert(hop_rssi(nb, path@) =~= rssi_hops@);
    Some(rssi_hops)
}

/// `dijkstra_rssi` reports the hops of the very route `dijkstra_path`
/// returns for the same inputs: given what the two calls returned (each as
/// its contract states it in terms of `route_choice`), one is `Some` exactly
/// when the other is, and the hops are those of the route.
pub proof fn lemma_rssi_follows_path(
    topology: Topology,
    target: u64,
    nb: Seq<(u64, Seq<(u64, Link)>)>,
    path: Option<Seq<u64>>,
    hops: Option<Seq<i32>>,
)
    requires
        match path {
            Some(p) => route_choice(topology, target, nb) == Some(p),
            None => route_choice(topology, target, nb) is None,
        },
        match hops {
            Some(h) => route_choice(topology, target, nb) matches Some(p) && h == hop_rssi(nb, p),
            None => route_choice(topology, target, nb) is None,
        },
    ensures
        path is Some <==> hops is Some,
        path matches Some(p) ==> hops == Some(hop_rssi(nb, p)),
{
}

/// `p` goes from `from` to `to` along measured links, every node but the
/// last among `nodes`.
pub open spec fn is_estimate_route(
    nb: Seq<(u64, Seq<(u64, Link)>)>,
    nodes: Seq<u64>,
    p: Seq<u64>,
    from: u64,
    to: u64,
) -> bool {
    &&& p.len() >= 1
    &&& p[0] == from
    &&& p[p.len() - 1] == to
    &&& forall|k: int| 0 <= k < p.len() - 1 ==> nodes.contains(#[trigger] p[k])
    &&& forall|k: int| 0 <= k < p.len() - 1 ==> (#[trigger] edge_weight(nb, p[k], p[k + 1])) is Some
}

/// `x` is the length of a shortest estimate route from `from` to `to`.
pub open spec fn is_estimate(
    nb: Seq<(u64, Seq<(u64, Link)>)>,
    nodes: Seq<u64>,
    from: u64,
    to: u64,
    x: int,
) -> bool {
    &&& exists|p: Seq<u64>| #[trigger]
        is_estimate_route(nb, nodes, p, from, to) && route_length(nb, p) == x
    &&& forall|q: Seq<u64>| #[trigger]
        is_estimate_route(nb, nodes, q, from, to) ==> x <= route_length(nb, q)
}

/// For a node that routing takes into account, the estimated distance is
/// the length of the route that `dijkstra_path` returns: a node with an
/// estimate can be reached, and every shortest route to it has exactly the
/// estimated length.
pub proof fn lemma_estimate_is_route_length(
    nb: Seq<(u64, Seq<(u64, Link)>)>,
    nodes: Seq<u64>,
    from: u64,
    to: u64,
    x: int,
    p: Seq<u64>,
)
    requires
        nodes.contains(to),
        is_estimate(nb, nodes, from, to, x),
    ensures
        has_route(nb, nodes, from, to),
        is_shortest_route(nb, nodes, p, from, to) ==> route_length(nb, p) == x,
{
    let q = choose|q: Seq<u64>| #[trigger]
        is_estimate_route(nb, nodes, q, from, to) && route_length(nb, q) == x;
    assert forall|k: int| 0 <= k < q.len() implies nodes.contains(#[trigger] q[k]) by {
        if k == q.len() - 1 {
        } else {
            assert(nodes.contains(q[k]));
        }
    }
    assert(is_route(nb, nodes, q, from, to));
    if is_shortest_route(nb, nodes, p, from, to) {
        assert(is_estimate_route(nb, nodes, p, from, to));
    }
}

/// `own` measured `v` directly.
pub open spec fn is_direct(nb: Seq<(u64, Seq<(u64, Link)>)>, own: u64, v: u64) -> bool {
    match lookup(nb, own) {
        Some(links) => has_key(links, v),
        None => false,
    }
}

/// Candidate length of reaching `v` through node `i`: its distance plus the
/// link from it to `v`.
pub open spec fn via(
    nb: Seq<(u64, Seq<(u64, Link)>)>,
    nodes: Seq<u64>,
    d: Seq<Option<i64>>,
    i: int,
    v: u64,
) -> Option<int> {
    match (d[i], edge_weight(nb, nodes[i], v)) {
        (Some(x), Some(l)) => Some(x + l),
        _ => None,
    }
}

/// Least candidate over the nodes `0..i`.
pub open spec fn best_via(
    nb: Seq<(u64, Seq<(u64, Link)>)>,
    nodes: Seq<u64>,
    d: Seq<Option<i64>>,
    i: int,
    v: u64,
) -> Option<int>
    decreases i,
{
    if i <= 0 {
        None
    } else {
        min_opt(best_via(nb, nodes, d, i - 1, v), via(nb, nodes, d, i - 1, v))
    }
}

/// The least of two optional lengths.
pub open spec fn min_opt(a: Option<int>, b: Option<int>) -> Option<int> {
    match (a, b) {
        (Some(x), Some(y)) => Some(if y < x {
            y
        } else {
            x
        }),
        (Some(x), None) => Some(x),
        (None, _) => b,
    }
}

proof fn lemma_best_via(
    nb: Seq<(u64, Seq<(u64, Link)>)>,
    nodes: Seq<u64>,
    d: Seq<Option<i64>>,
    i: int,
    v: u64,
)
    requires
        i >= 0,
    ensures
        best_via(nb, nodes, d, i, v) matches Some(y) ==> exists|j: int|
            0 <= j < i && #[trigger] via(nb, nodes, d, j, v) == Some(y),
        forall|j: int|
            0 <= j < i && #[trigger] via(nb, nodes, d, j, v) is Some ==> best_via(nb, nodes, d, i, v)
                is Some && best_via(nb, nodes, d, i, v)->0 <= via(nb, nodes, d, j, v)->0,
    decreases i,
{
    if i > 0 {
        lemma_best_via(nb, nodes, d, i - 1, v);
        let a = best_via(nb, nodes, d, i - 1, v);
        let b = via(nb, nodes, d, i - 1, v);
        if a is Some {
            let j = choose|j: int| 0 <= j < i - 1 && #[trigger] via(nb, nodes, d, j, v) == a;
            assert(via(nb, nodes, d, j, v) == a);
        }
    }
}

/// Routes through `nodes` are estimate routes.
proof fn lemma_route_is_estimate(
    nb: Seq<(u64, Seq<(u64, Link)>)>,
    nodes: Seq<u64>,
    p: Seq<u64>,
    from: u64,
    to: u64,
)
    requires
        is_route(nb, nodes, p, from, to),
    ensures
        is_estimate_route(nb, nodes, p, from, to),
{
    assert forall|k: int| 0 <= k < p.len() - 1 implies nodes.contains(#[trigger] p[k]) by {
        assert(nodes.contains(p[k]));
    }
}

/// Estimate routes ending among `nodes` are routes through `nodes`.
proof fn lemma_estimate_is_route(
    nb: Seq<(u64, Seq<(u64, Link)>)>,
    nodes: Seq<u64>,
    p: Seq<u64>,
    from: u64,
    to: u64,
)
    requires
        is_estimate_route(nb, nodes, p, from, to),
        nodes.contains(to),
    ensures
        is_route(nb, nodes, p, from, to),
{
    assert forall|k: int| 0 <= k < p.len() implies nodes.contains(#[trigger] p[k]) by {
        if k < p.len() - 1 {
            assert(nodes.contains(p[k]));
        }
    }
}

/// An estimate route of two nodes or more is a route to its last but one
/// node, plus one link.
proof fn lemma_estimate_split(
    nb: Seq<(u64, Seq<(u64, Link)>)>,
    nodes: Seq<u64>,
    q: Seq<u64>,
    from: u64,
    to: u64,
)
    requires
        is_estimate_route(nb, nodes, q, from, to),
        q.len() >= 2,
    ensures
        is_route(nb, nodes, q.drop_last(), from, q[q.len() - 2]),
        edge_weight(nb, q[q.len() - 2], to) is Some,
        route_length(nb, q) == route_length(nb, q.drop_last()) + wt(
            edge_weight(nb, q[q.len() - 2], to),
        ),
{
    let p = q.drop_last();
    assert forall|k: int| 0 <= k < p.len() implies nodes.contains(#[trigger] p[k]) by {
        assert(nodes.contains(q[k]));
    }
    assert forall|k: int| 0 <= k < p.len() - 1 implies (#[trigger] edge_weight(
        nb,
        p[k],
        p[k + 1],
    )) is Some by {
        assert(edge_weight(nb, q[k], q[k + 1]) is Some);
    }
    let k = q.len() - 2;
    assert(edge_weight(nb, q[k], q[k + 1]) is Some);
    assert(q[k + 1] == to);
}

/// A route through `nodes` followed by one link is an estimate route.
proof fn lemma_route_extend(
    nb: Seq<(u64, Seq<(u64, Link)>)>,
    nodes: Seq<u64>,
    p: Seq<u64>,
    from: u64,
    u: u64,
    v: u64,
)
    requires
        is_route(nb, nodes, p, from, u),
        edge_weight(nb, u, v) is Some,
    ensures
        is_estimate_route(nb, nodes, p.push(v), from, v),
        route_length(nb, p.push(v)) == route_length(nb, p) + wt(edge_weight(nb, u, v)),
{
    let q = p.push(v);
    assert(q.drop_last() =~= p);
    assert forall|k: int| 0 <= k < q.len() - 1 implies nodes.contains(#[trigger] q[k]) by {
        assert(nodes.contains(p[k]));
    }
    assert forall|k: int| 0 <= k < q.len() - 1 implies (#[trigger] edge_weight(
        nb,
        q[k],
        q[k + 1],
    )) is Some by {
        if k < p.len() - 1 {
            assert(edge_weight(nb, p[k], p[k + 1]) is Some);
        }
    }
}

/// Whether this node measured `v` directly.
fn is_direct_exec(neighbours: &Neighbours, own: u64, v: u64) -> (r: bool)
    requires
        neighbours.wf(),
    ensures
        r == is_direct(neighbours@, own, v),
{
    match neighbours.find(own) {
        None => false,
        Some(ix) => {
            proof {
                crate::assoc::lemma_key_index(neighbours@, ix as int);
            }
            let links = neighbours.links_at(ix);
            crate::assoc::find_key(links, v).is_some()
        },
    }
}

/// The estimates for the nodes routing takes into account, in their order.
pub open spec fn own_estimates(
    nb: Seq<(u64, Seq<(u64, Link)>)>,
    nodes: Seq<u64>,
    d: Seq<Option<i64>>,
    own: u64,
    i: int,
) -> Seq<(u64, i64)>
    decreases i,
{
    if i <= 0 {
        Seq::empty()
    } else {
        let prev = own_estimates(nb, nodes, d, own, i - 1);
        match d[i - 1] {
            Some(x) => if nodes[i - 1] != own && !is_direct(nb, own, nodes[i - 1]) {
                prev.push((nodes[i - 1], x))
            } else {
                prev
            },
            None => prev,
        }
    }
}

/// The value under `v`, as an integer.
pub open spec fn lookup_int(s: Seq<(u64, i64)>, v: u64) -> Option<int> {
    match lookup(s, v) {
        Some(x) => Some(x as int),
        None => None,
    }
}

/// What `all_estimated_distances` holds under `v`.
pub open spec fn expected_estimate(
    nb: Seq<(u64, Seq<(u64, Link)>)>,
    nodes: Seq<u64>,
    d: Seq<Option<i64>>,
    own: u64,
    v: u64,
) -> Option<int> {
    if v == own || is_direct(nb, own, v) {
        None
    } else if nodes.contains(v) {
        match d[pos_of(nodes, v)] {
            Some(x) => Some(x as int),
            None => None,
        }
    } else {
        best_via(nb, nodes, d, nodes.len() as int, v)
    }
}

proof fn lemma_own_estimates(
    nb: Seq<(u64, Seq<(u64, Link)>)>,
    nodes: Seq<u64>,
    d: Seq<Option<i64>>,
    own: u64,
    i: int,
)
    requires
        nodes.no_duplicates(),
        0 <= i <= nodes.len(),
        d.len() == nodes.len(),
    ensures
        crate::assoc::unique_keys(own_estimates(nb, nodes, d, own, i)),
        forall|v: u64|
            #[trigger] lookup_int(own_estimates(nb, nodes, d, own, i), v) == if nodes.contains(v)
                && pos_of(nodes, v) < i {
                expected_estimate(nb, nodes, d, own, v)
            } else {
                None
            },
        forall|k: int|
            0 <= k < own_estimates(nb, nodes, d, own, i).len() ==> nodes.contains(
                #[trigger] own_estimates(nb, nodes, d, own, i)[k].0,
            ),
    decreases i,
{
    if i > 0 {
        lemma_own_estimates(nb, nodes, d, own, i - 1);
        let prev = own_estimates(nb, nodes, d, own, i - 1);
        let cur = own_estimates(nb, nodes, d, own, i);
        let x = nodes[i - 1];
        assert(nodes.contains(x));
        lemma_pos_of(nodes, x);
        if cur != prev {
            assert(!crate::assoc::has_key(prev, x)) by {
                if crate::assoc::has_key(prev, x) {
                    assert(lookup_int(prev, x) is Some);
                }
            }
            crate::node_state::lemma_insert_unique(prev, x, d[i - 1]->0);
            assert forall|v: u64| #[trigger] lookup_int(cur, v) == if nodes.contains(v) && pos_of(
                nodes,
                v,
            ) < i {
                expected_estimate(nb, nodes, d, own, v)
            } else {
                None
            } by {
                crate::node_state::lemma_insert_lookup(prev, x, d[i - 1]->0, v);
                assert(lookup_int(prev, v) == if nodes.contains(v) && pos_of(nodes, v) < i - 1 {
                    expected_estimate(nb, nodes, d, own, v)
                } else {
                    None
                });
                if nodes.contains(v) {
                    lemma_pos_of(nodes, v);
                }
            }
            assert forall|k: int| 0 <= k < cur.len() implies nodes.contains(#[trigger] cur[k].0) by {
                if k < prev.len() {
                    assert(cur[k] == prev[k]);
                }
            }
        } else {
            assert forall|v: u64| #[trigger] lookup_int(cur, v) == if nodes.contains(v) && pos_of(
                nodes,
                v,
            ) < i {
                expected_estimate(nb, nodes, d, own, v)
            } else {
                None
            } by {
                assert(lookup_int(prev, v) == if nodes.contains(v) && pos_of(nodes, v) < i - 1 {
                    expected_estimate(nb, nodes, d, own, v)
                } else {
                    None
                });
                if nodes.contains(v) {
                    lemma_pos_of(nodes, v);
                }
            }
        }
    }
}

/// What `expected_estimate` holds is a shortest estimate, and every node
/// with an estimate route (other than this node and its direct neighbours)
/// gets one.
proof fn lemma_expected(
    nb: Seq<(u64, Seq<(u64, Link)>)>,
    nodes: Seq<u64>,
    d: Seq<Option<i64>>,
    si: int,
    own: u64,
    v: u64,
)
    requires
        nodes.no_duplicates(),
        0 <= si < nodes.len(),
        nodes[si] == own,
        d.len() == nodes.len(),
        forall|j: int|
            0 <= j < nodes.len() ==> {
                &&& (#[trigger] d[j] is Some ==> shortest(weights_spec(nb, nodes), si, j, dv(d, j)))
                &&& (d[j] is None ==> no_path(weights_spec(nb, nodes), si, j))
            },
    ensures
        expected_estimate(nb, nodes, d, own, v) matches Some(y) ==> v != own && !is_direct(
            nb,
            own,
            v,
        ) && is_estimate(nb, nodes, own, v, y),
        (v != own && !is_direct(nb, own, v) && exists|q: Seq<u64>| #[trigger]
            is_estimate_route(nb, nodes, q, own, v)) ==> expected_estimate(nb, nodes, d, own, v)
            is Some,
{
    let g = weights_spec(nb, nodes);
    lemma_pos_of(nodes, own);
    assert(nodes.contains(own));
    assert(pos_of(nodes, own) == si);
    if v == own || is_direct(nb, own, v) {
        return;
    }
    if nodes.contains(v) {
        lemma_pos_of(nodes, v);
        let p = pos_of(nodes, v);
        if d[p] is Some {
            let y = dv(d, p);
            let qi = choose|qi: Seq<int>| #[trigger] is_path(g, qi, si, p) && path_cost(g, qi) == y;
            lemma_index_to_route(nb, nodes, qi, si, p);
            let r = qi.map_values(|i: int| nodes[i]);
            lemma_route_is_estimate(nb, nodes, r, own, v);
            assert(is_estimate_route(nb, nodes, r, own, v) && route_length(nb, r) == y);
            assert forall|q: Seq<u64>| #[trigger]
                is_estimate_route(nb, nodes, q, own, v) implies y <= route_length(nb, q) by {
                lemma_estimate_is_route(nb, nodes, q, own, v);
                lemma_route_to_index(nb, nodes, q, own, v);
                let qq = q.map_values(|x: u64| pos_of(nodes, x));
                assert(is_path(g, qq, si, p));
            }
        } else {
            if exists|q: Seq<u64>| #[trigger] is_estimate_route(nb, nodes, q, own, v) {
                let q = choose|q: Seq<u64>| #[trigger] is_estimate_route(nb, nodes, q, own, v);
                lemma_estimate_is_route(nb, nodes, q, own, v);
                lemma_route_to_index(nb, nodes, q, own, v);
                let qq = q.map_values(|x: u64| pos_of(nodes, x));
                assert(is_path(g, qq, si, p));
            }
        }
    } else {
        let n = nodes.len() as int;
        lemma_best_via(nb, nodes, d, n, v);
        assert forall|q: Seq<u64>| #[trigger] is_estimate_route(nb, nodes, q, own, v) implies ({
            let u = q[q.len() - 2];
            &&& q.len() >= 2
            &&& nodes.contains(u)
            &&& d[pos_of(nodes, u)] is Some
            &&& via(nb, nodes, d, pos_of(nodes, u), v) is Some
            &&& via(nb, nodes, d, pos_of(nodes, u), v)->0 <= route_length(nb, q)
        }) by {
            if q.len() < 2 {
                assert(q[0] == v);
            }
            let u = q[q.len() - 2];
            lemma_estimate_split(nb, nodes, q, own, v);
            let pd = q.drop_last();
            assert(nodes.contains(pd[pd.len() - 1]));
            lemma_pos_of(nodes, u);
            lemma_route_to_index(nb, nodes, pd, own, u);
            let qq = pd.map_values(|x: u64| pos_of(nodes, x));
            assert(is_path(g, qq, si, pos_of(nodes, u)));
        }
        if best_via(nb, nodes, d, n, v) is Some {
            let y = best_via(nb, nodes, d, n, v)->0;
            let j = choose|j: int| 0 <= j < n && #[trigger] via(nb, nodes, d, j, v) == Some(y);
            assert(via(nb, nodes, d, j, v) == Some(y));
            assert(d[j] is Some);
            let qi = choose|qi: Seq<int>| #[trigger] is_path(g, qi, si, j) && path_cost(g, qi) == dv(
                d,
                j,
            );
            lemma_index_to_route(nb, nodes, qi, si, j);
            let r = qi.map_values(|i: int| nodes[i]);
            lemma_route_extend(nb, nodes, r, own, nodes[j], v);
            assert(is_estimate_route(nb, nodes, r.push(v), own, v) && route_length(nb, r.push(v))
                == y);
            assert forall|q: Seq<u64>| #[trigger]
                is_estimate_route(nb, nodes, q, own, v) implies y <= route_length(nb, q) by {
                let u = q[q.len() - 2];
                assert(via(nb, nodes, d, pos_of(nodes, u), v) is Some);
            }
        } else {
            if exists|q: Seq<u64>| #[trigger] is_estimate_route(nb, nodes, q, own, v) {
                let q = choose|q: Seq<u64>| #[trigger] is_estimate_route(nb, nodes, q, own, v);
                let u = q[q.len() - 2];
                assert(via(nb, nodes, d, pos_of(nodes, u), v) is Some);
                lemma_pos_of(nodes, u);
            }
        }
    }
}

/// Estimated distance (in I16F16 bits, 64-bit) to every node reachable from
/// this node, except this node and the nodes it measured directly: the
/// length of a shortest route whose nodes, but the last, are among the
/// nodes routing takes into account.
pub fn all_estimated_distances(topology: &Topology, neighbours: &Neighbours) -> (r: Vec<(u64, i64)>)
    requires
        neighbours.wf(),
        nonneg_distances(neighbours@),
    ensures
        crate::assoc::unique_keys(r@),
        forall|i: int|
            0 <= i < r@.len() ==> {
                &&& #[trigger] r@[i].0 != topology.state().mac
                &&& !is_direct(neighbours@, topology.state().mac, r@[i].0)
                &&& is_estimate(
                    neighbours@,
                    nodes_spec(*topology, neighbours@),
                    topology.state().mac,
                    r@[i].0,
                    r@[i].1 as int,
                )
            },
        forall|v: u64, q: Seq<u64>|
            v != topology.state().mac && !is_direct(neighbours@, topology.state().mac, v)
                && #[trigger] is_estimate_route(
                neighbours@,
                nodes_spec(*topology, neighbours@),
                q,
                topology.state().mac,
                v,
            ) ==> has_key(r@, v),
{
    let own = topology.own_mac();
    let all_nodes = collect_nodes(topology, neighbours);
    let ghost nodes = all_nodes@;
    let ghost nb = neighbours@;
    proof {
        lemma_collect(keys_of(neighbours@) + keys_of(topology.table()));
    }
    let mut out: Vec<(u64, i64)> = Vec::new();
    let si = match position(&all_nodes, own) {
        Some(i) => i,
        None => {
            proof {
                assert forall|v: u64, q: Seq<u64>|
                    v != own && !is_direct(nb, own, v) && #[trigger] is_estimate_route(
                        nb,
                        nodes,
                        q,
                        own,
                        v,
                    ) implies has_key(out@, v) by {
                    if q.len() >= 2 {
                        assert(nodes.contains(q[0]));
                    }
                }
            }
            return out;
        },
    };
    let w = build_weights(neighbours, &all_nodes);
    let ghost g = w.deep_view();
    proof {
        assert(nonneg_weights(g)) by {
            assert forall|i: int, j: int| 0 <= i < g.len() && 0 <= j < g.len() implies wt(
                #[trigger] g[i][j],
            ) >= 0 by {
                assert(g[i][j] == edge_weight(nb, nodes[i], nodes[j]));
                if link_between(nb, nodes[i], nodes[j]) is Some {
                }
            }
        }
    }
    let d = shortest_distances(&w, si);
    let n = all_nodes.len();
    // The nodes routing takes into account.
    for i in 0..n
        invariant
            n == all_nodes.len(),
            nodes == all_nodes@,
            d.len() == n,
            neighbours.wf(),
            nb == neighbours@,
            out@ == own_estimates(nb, nodes, d@, own, i as int),
    {
        match d[i] {
            Some(x) => {
                if all_nodes[i] != own && !is_direct_exec(neighbours, own, all_nodes[i]) {
                    out.push((all_nodes[i], x));
                }
            },
            None => {},
        }
    }
    proof {
        lemma_own_estimates(nb, nodes, d@, own, n as int);
    }
    // Nodes beyond them, one link away from a reached node.
    for i in 0..n
        invariant
            n == all_nodes.len(),
            nodes == all_nodes@,
            nodes.no_duplicates(),
            d.len() == n,
            forall|v: int| 0 <= v < n ==> (#[trigger] d@[v] matches Some(x) ==> 0 <= x <= 10 * 0x7fff_ffff),
            neighbours.wf(),
            nonneg_distances(nb),
            nb == neighbours@,
            crate::assoc::unique_keys(out@),
            forall|v: u64| #[trigger]
                lookup_int(out@, v) == if nodes.contains(v) || v == own || is_direct(nb, own, v) {
                    if nodes.contains(v) {
                        expected_estimate(nb, nodes, d@, own, v)
                    } else {
                        None
                    }
                } else {
                    best_via(nb, nodes, d@, i as int, v)
                },
    {
        let ghost before = out@;
        match d[i] {
            None => {},
            Some(x) => {
                match neighbours.find(all_nodes[i]) {
                    None => {},
                    Some(ix) => {
                        proof {
                            crate::assoc::lemma_key_index(nb, ix as int);
                        }
                        let links = neighbours.links_at(ix);
                        let ghost ls = links@;
                        assert(crate::assoc::unique_keys(ls));
                        for k in 0..links.len()
                            invariant
                                n == all_nodes.len(),
                                nodes == all_nodes@,
                                nodes.no_duplicates(),
                                i < n,
                                d.len() == n,
                                d@[i as int] == Some(x),
                                0 <= x <= 10 * 0x7fff_ffff,
                                neighbours.wf(),
                                nb == neighbours@,
                                ls == links@,
                                lookup(nb, nodes[i as int]) == Some(ls),
                                crate::assoc::unique_keys(ls),
                                crate::assoc::unique_keys(out@),
                                forall|v: u64| #[trigger]
                                    lookup_int(out@, v) == if nodes.contains(v) || v == own
                                        || is_direct(nb, own, v) {
                                        lookup_int(before, v)
                                    } else if has_key(ls.take(k as int), v) {
                                        min_opt(
                                            best_via(nb, nodes, d@, i as int, v),
                                            via(nb, nodes, d@, i as int, v),
                                        )
                                    } else {
                                        best_via(nb, nodes, d@, i as int, v)
                                    },
                                forall|v: u64|
                                    !(nodes.contains(v) || v == own || is_direct(nb, own, v))
                                        ==> #[trigger] lookup_int(before, v) == best_via(
                                        nb,
                                        nodes,
                                        d@,
                                        i as int,
                                        v,
                                    ),
                        {
                            let v = links[k].0;
                            let l = links[k].1;
                            proof {
                                crate::assoc::lemma_key_index(ls, k as int);
                                assert(link_between(nb, nodes[i as int], v) == Some(l));
                                assert(via(nb, nodes, d@, i as int, v) == Some(x + l.dist));
                                assert forall|u: u64| #[trigger] has_key(ls.take(k + 1), u) <==> (
                                has_key(ls.take(k as int), u) || u == v) by {
                                    if has_key(ls.take(k + 1), u) {
                                        let j = choose|j: int|
                                            0 <= j < k + 1 && #[trigger] ls.take(k + 1)[j].0 == u;
                                        if j < k {
                                            assert(ls.take(k as int)[j].0 == u);
                                        }
                                    }
                                    if has_key(ls.take(k as int), u) {
                                        let j = choose|j: int|
                                            0 <= j < k && #[trigger] ls.take(k as int)[j].0 == u;
                                        assert(ls.take(k + 1)[j].0 == u);
                                    }
                                    if u == v {
                                        assert(ls.take(k + 1)[k as int].0 == u);
                                    }
                                }
                                assert(!has_key(ls.take(k as int), v)) by {
                                    if has_key(ls.take(k as int), v) {
                                        let j = choose|j: int|
                                            0 <= j < k && #[trigger] ls.take(k as int)[j].0 == v;
                                        assert(ls[j].0 == ls[k as int].0);
                                    }
                                }
                            }
                            if !contains_u64(&all_nodes, v) && v != own && !is_direct_exec(
                                neighbours,
                                own,
                                v,
                            ) {
                                let cand: i64 = x + l.dist as i64;
                                let ghost old_out = out@;
                                match crate::assoc::find_key(&out, v) {
                                    Some(j) => {
                                        if cand < out[j].1 {
                                            out.set(j, (v, cand));
                                            proof {
                                                crate::node_state::lemma_insert_unique(old_out, v, cand);
                                                assert forall|u: u64| #[trigger] lookup_int(out@, u)
                                                    == if u == v {
                                                    Some(cand as int)
                                                } else {
                                                    lookup_int(old_out, u)
                                                } by {
                                                    crate::node_state::lemma_insert_lookup(
                                                        old_out,
                                                        v,
                                                        cand,
                                                        u,
                                                    );
                                                }
                                            }
                                        } else {
                                            proof {
                                                crate::assoc::lemma_key_index(old_out, j as int);
                                            }
                                        }
                                    },
                                    None => {
                                        out.push((v, cand));
                                        proof {
                                            crate::node_state::lemma_insert_unique(old_out, v, cand);
                                            assert forall|u: u64| #[trigger] lookup_int(out@, u)
                                                == if u == v {
                                                Some(cand as int)
                                            } else {
                                                lookup_int(old_out, u)
                                            } by {
                                                crate::node_state::lemma_insert_lookup(
                                                    old_out,
                                                    v,
                                                    cand,
                                                    u,
                                                );
                                            }
                                        }
                                    },
                                }
                            }
                        }
                        proof {
                            assert(ls.take(ls.len() as int) =~= ls);
                            assert forall|v: u64|
                                !has_key(ls, v) implies #[trigger] via(nb, nodes, d@, i as int, v)
                                is None by {
                                assert(lookup(ls, v) is None);
                            }
                        }
                    },
                }
            },
        }
        proof {
            assert forall|v: u64| #[trigger]
                lookup_int(out@, v) == if nodes.contains(v) || v == own || is_direct(nb, own, v) {
                    if nodes.contains(v) {
                        expected_estimate(nb, nodes, d@, own, v)
                    } else {
                        None
                    }
                } else {
                    best_via(nb, nodes, d@, i + 1, v)
                } by {
                if d@[i as int] is None || !has_key(nb, nodes[i as int]) {
                    assert(via(nb, nodes, d@, i as int, v) is None);
                }
            }
        }
    }
    proof {
        assert(nodes[si as int] == own);
        assert forall|v: u64| #[trigger] lookup_int(out@, v) == expected_estimate(nb, nodes, d@, own, v) by {
            if !nodes.contains(v) && (v == own || is_direct(nb, own, v)) {
            }
        }
        assert forall|i: int| 0 <= i < out@.len() implies {
            &&& #[trigger] out@[i].0 != own
            &&& !is_direct(nb, own, out@[i].0)
            &&& is_estimate(nb, nodes, own, out@[i].0, out@[i].1 as int)
        } by {
            crate::assoc::lemma_key_index(out@, i);
            assert(lookup_int(out@, out@[i].0) == Some(out@[i].1 as int));
            lemma_expected(nb, nodes, d@, si as int, own, out@[i].0);
        }
        assert forall|v: u64, q: Seq<u64>|
            v != own && !is_direct(nb, own, v) && #[trigger] is_estimate_route(nb, nodes, q, own, v)
                implies has_key(out@, v) by {
            lemma_expected(nb, nodes, d@, si as int, own, v);
            assert(lookup_int(out@, v) is Some);
        }
    }
    out
}

} // verus!
