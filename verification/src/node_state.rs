//! What a node knows about the swarm: for every node it has heard of, the
//! links that node measured to its own neighbours.
use vstd::prelude::*;
use crate::assoc::{
    contains_u64, find_key, has_key, key_index, keys_of, lemma_key_index, lookup, unique_keys,
};
use crate::mds::MAX_SWARM_SIZE;

verus! {

/// What routing and the distance matrix read of one measured link: the
/// estimated distance (I16F16 metres) and the smoothed RSSI (I16F16 dBm).
#[derive(Clone, Copy)]
pub struct Link {
    pub dist: i32,
    pub ema_rssi: i32,
}

/// Marks an unknown distance in the neighbour matrix (`I16F16::MAX`).
pub const UNKNOWN_DISTANCE: i32 = i32::MAX;

/// For every node heard of (by MAC key), its measured links to other nodes.
pub struct Neighbours {
    entries: Vec<(u64, Vec<(u64, Link)>)>,
}

/// The links of one node as a sequence.
pub open spec fn link_seq(e: (u64, Vec<(u64, Link)>)) -> (u64, Seq<(u64, Link)>) {
    (e.0, e.1@)
}

impl View for Neighbours {
    type V = Seq<(u64, Seq<(u64, Link)>)>;

    closed spec fn view(&self) -> Seq<(u64, Seq<(u64, Link)>)> {
        self.entries@.map_values(|e: (u64, Vec<(u64, Link)>)| link_seq(e))
    }
}

/// No node twice, and no link target twice within a node.
pub open spec fn neighbours_wf(v: Seq<(u64, Seq<(u64, Link)>)>) -> bool {
    &&& unique_keys(v)
    &&& forall|i: int| 0 <= i < v.len() ==> unique_keys(#[trigger] v[i].1)
}

/// The link measured by `u` to `w`, if any.
pub open spec fn link_between(v: Seq<(u64, Seq<(u64, Link)>)>, u: u64, w: u64) -> Option<Link> {
    match lookup(v, u) {
        Some(links) => lookup(links, w),
        None => None,
    }
}

/// `v` with the links of `mac` replaced by `links` (added at the end when
/// `mac` is new).
pub open spec fn insert_spec(
    v: Seq<(u64, Seq<(u64, Link)>)>,
    mac: u64,
    links: Seq<(u64, Link)>,
) -> Seq<(u64, Seq<(u64, Link)>)> {
    if has_key(v, mac) {
        v.update(key_index(v, mac), (mac, links))
    } else {
        v.push((mac, links))
    }
}

/// `links` with the link to `w` set to `l` (added at the end when new).
pub open spec fn set_link_spec(links: Seq<(u64, Link)>, w: u64, l: Link) -> Seq<(u64, Link)> {
    if has_key(links, w) {
        links.update(key_index(links, w), (w, l))
    } else {
        links.push((w, l))
    }
}

/// Replacing or adding a key keeps the keys unique.
pub proof fn lemma_insert_unique<T>(s: Seq<(u64, T)>, k: u64, x: T)
    requires
        unique_keys(s),
    ensures
        has_key(s, k) ==> unique_keys(s.update(key_index(s, k), (k, x))),
        !has_key(s, k) ==> unique_keys(s.push((k, x))),
{
    if has_key(s, k) {
        let i = key_index(s, k);
        let t = s.update(i, (k, x));
        assert forall|a: int, b: int|
            0 <= a < t.len() && 0 <= b < t.len() && a != b implies #[trigger] t[a].0
            != #[trigger] t[b].0 by {
            if a != i && b != i {
                assert(s[a].0 != s[b].0);
            } else if a == i {
                assert(s[b].0 != s[i].0);
            } else {
                assert(s[a].0 != s[i].0);
            }
        }
    } else {
        let t = s.push((k, x));
        assert forall|a: int, b: int|
            0 <= a < t.len() && 0 <= b < t.len() && a != b implies #[trigger] t[a].0
            != #[trigger] t[b].0 by {
            if a < s.len() && b < s.len() {
                assert(s[a].0 != s[b].0);
            } else if a == s.len() {
                assert(s[b].0 == t[b].0);
            } else {
                assert(s[a].0 == t[a].0);
            }
        }
    }
}

/// After replacing or adding key `k`, it maps to the new value and other
/// keys keep theirs.
pub proof fn lemma_insert_lookup<T>(s: Seq<(u64, T)>, k: u64, x: T, j: u64)
    requires
        unique_keys(s),
    ensures
        lookup(
            if has_key(s, k) {
                s.update(key_index(s, k), (k, x))
            } else {
                s.push((k, x))
            },
            j,
        ) == if j == k {
            Some(x)
        } else {
            lookup(s, j)
        },
{
    lemma_insert_unique(s, k, x);
    let t = if has_key(s, k) {
        s.update(key_index(s, k), (k, x))
    } else {
        s.push((k, x))
    };
    let p = if has_key(s, k) {
        key_index(s, k)
    } else {
        s.len() as int
    };
    assert(t[p] == (k, x));
    lemma_key_index(t, p);
    if j != k {
        if has_key(s, j) {
            let q = key_index(s, j);
            assert(q != p);
            assert(t[q] == s[q]);
            lemma_key_index(t, q);
        } else {
            if has_key(t, j) {
                let q = key_index(t, j);
                assert(q != p);
                assert(s[q].0 == j);
            }
        }
    }
}

/// A copy of a link list.
fn copy_links(v: &Vec<(u64, Link)>) -> (r: Vec<(u64, Link)>)
    ensures
        r@ == v@,
{
    let mut r: Vec<(u64, Link)> = Vec::new();
    for k in 0..v.len()
        invariant
            r.len() == k,
            k <= v.len(),
            forall|j: int| 0 <= j < k ==> #[trigger] r@[j] == v@[j],
    {
        let e = v[k];
        r.push(e);
    }
    assert(r@ =~= v@);
    r
}

impl Neighbours {
    /// No node twice, and no link target twice within a node.
    pub open spec fn wf(&self) -> bool {
        neighbours_wf(self@)
    }

    /// An empty table.
    pub fn new() -> (r: Neighbours)
        ensures
            r@ == Seq::<(u64, Seq<(u64, Link)>)>::empty(),
            r.wf(),
    {
        let r = Neighbours { entries: Vec::new() };
        assert(r@ =~= Seq::<(u64, Seq<(u64, Link)>)>::empty());
        r
    }

    /// Number of nodes heard of.
    pub fn len(&self) -> (r: usize)
        ensures
            r == self@.len(),
    {
        self.entries.len()
    }

    /// The MAC key of the `i`-th node.
    pub fn key_at(&self, i: usize) -> (r: u64)
        requires
            i < self@.len(),
        ensures
            r == self@[i as int].0,
    {
        self.entries[i].0
    }

    /// The links of the `i`-th node.
    pub fn links_at(&self, i: usize) -> (r: &Vec<(u64, Link)>)
        requires
            i < self@.len(),
        ensures
            r@ == self@[i as int].1,
    {
        &self.entries[i].1
    }

    /// Position of node `mac`, if heard of.
    pub fn find(&self, mac: u64) -> (r: Option<usize>)
        requires
            self.wf(),
        ensures
            r is None <==> !has_key(self@, mac),
            r matches Some(i) ==> i < self@.len() && self@[i as int].0 == mac && i == key_index(
                self@,
                mac,
            ),
    {
        let r = find_key(&self.entries, mac);
        proof {
            let v = self@;
            let e = self.entries@;
            if has_key(v, mac) {
                let i = choose|i: int| 0 <= i < v.len() && #[trigger] v[i].0 == mac;
                assert(e[i].0 == mac);
            }
            if has_key(e, mac) {
                let i = choose|i: int| 0 <= i < e.len() && #[trigger] e[i].0 == mac;
                assert(v[i].0 == mac);
            }
            if r is Some {
                lemma_key_index(v, r->0 as int);
            }
        }
        r
    }

    /// Whether node `mac` has been heard of.
    pub fn contains_key(&self, mac: u64) -> (r: bool)
        requires
            self.wf(),
        ensures
            r == has_key(self@, mac),
    {
        self.find(mac).is_some()
    }

    /// The link measured by `u` to `w`, if any.
    pub fn get_link(&self, u: u64, w: u64) -> (r: Option<Link>)
        requires
            self.wf(),
        ensures
            r == link_between(self@, u, w),
    {
        match self.find(u) {
            None => None,
            Some(i) => {
                let links = &self.entries[i].1;
                proof {
                    lemma_key_index(self@, i as int);
                }
                match find_key(links, w) {
                    None => None,
                    Some(j) => {
                        proof {
                            assert(unique_keys(self@[i as int].1));
                            lemma_key_index(links@, j as int);
                        }
                        Some(links[j].1)
                    },
                }
            },
        }
    }

    /// Sets the links of `mac` to `links`, replacing what was there.
    pub fn insert(&mut self, mac: u64, links: Vec<(u64, Link)>)
        requires
            old(self).wf(),
            unique_keys(links@),
        ensures
            final(self)@ == insert_spec(old(self)@, mac, links@),
            final(self).wf(),
    {
        let ghost lv = links@;
        match self.find(mac) {
            Some(i) => {
                self.entries.set(i, (mac, links));
            },
            None => {
                self.entries.push((mac, links));
            },
        }
        proof {
            assert(self@ =~= insert_spec(old(self)@, mac, lv));
            lemma_insert_unique(old(self)@, mac, lv);
            let v = self@;
            assert forall|i: int| 0 <= i < v.len() implies unique_keys(#[trigger] v[i].1) by {
                if v[i].0 != mac {
                    if has_key(old(self)@, mac) {
                        assert(v[i] == old(self)@[i]);
                    } else {
                        assert(v[i] == old(self)@[i]);
                    }
                } else if has_key(old(self)@, mac) && i != key_index(old(self)@, mac) {
                    assert(v[i] == old(self)@[i]);
                }
            }
        }
    }

    /// Records the link measured by `u` to `w` (added if new, replaced
    /// otherwise). `u` must already be in the table.
    pub fn set_link(&mut self, u: u64, w: u64, l: Link)
        requires
            old(self).wf(),
            has_key(old(self)@, u),
        ensures
            final(self).wf(),
            final(self)@ == old(self)@.update(
                key_index(old(self)@, u),
                (u, set_link_spec(old(self)@[key_index(old(self)@, u)].1, w, l)),
            ),
    {
        let i = self.find(u).unwrap();
        let ghost old_links = self@[i as int].1;
        let mut links = copy_links(&self.entries[i].1);
        match find_key(&links, w) {
            Some(j) => {
                links.set(j, (w, l));
            },
            None => {
                links.push((w, l));
            },
        }
        self.entries.set(i, (u, links));
        proof {
            lemma_insert_unique(old_links, w, l);
            assert(self@ =~= old(self)@.update(
                key_index(old(self)@, u),
                (u, set_link_spec(old_links, w, l)),
            ));
            let v = self@;
            assert forall|k: int| 0 <= k < v.len() implies unique_keys(#[trigger] v[k].1) by {
                if k != i {
                    assert(v[k] == old(self)@[k]);
                }
            }
            assert forall|a: int, b: int|
                0 <= a < v.len() && 0 <= b < v.len() && a != b implies #[trigger] v[a].0
                != #[trigger] v[b].0 by {
                assert(v[a].0 == old(self)@[a].0);
                assert(v[b].0 == old(self)@[b].0);
            }
        }
    }

    /// The MAC keys of all nodes heard of, in table order.
    pub fn keys(&self) -> (r: Vec<u64>)
        ensures
            r@ == keys_of(self@),
    {
        let mut r: Vec<u64> = Vec::new();
        for i in 0..self.entries.len()
            invariant
                r.len() == i,
                i <= self.entries.len(),
                forall|k: int| 0 <= k < i ==> #[trigger] r@[k] == self@[k].0,
        {
            r.push(self.entries[i].0);
        }
        assert(r@ =~= keys_of(self@));
        r
    }
}

/// `o` lists the elements of `ks` in strictly increasing order.
pub open spec fn sorted_set_of(o: Seq<u64>, ks: Set<u64>) -> bool {
    &&& forall|i: int, j: int| 0 <= i < j < o.len() ==> #[trigger] o[i] < #[trigger] o[j]
    &&& forall|x: u64| #[trigger] o.contains(x) <==> ks.contains(x)
}

/// Strictly increasing sequences with the same elements are equal.
pub proof fn lemma_sorted_set_unique(a: Seq<u64>, b: Seq<u64>, ks: Set<u64>)
    requires
        sorted_set_of(a, ks),
        sorted_set_of(b, ks),
    ensures
        a == b,
    decreases a.len() + b.len(),
{
    if a.len() == 0 {
        if b.len() > 0 {
            assert(b.contains(b[0]));
            assert(!a.contains(b[0]));
        }
        assert(a =~= b);
    } else if b.len() == 0 {
        assert(a.contains(a[0]));
        assert(!b.contains(a[0]));
    } else {
        let la = a.last();
        let lb = b.last();
        assert(a.contains(la));
        assert(b.contains(lb));
        assert(b.contains(la));
        assert(a.contains(lb));
        let ia = choose|i: int| 0 <= i < a.len() && a[i] == lb;
        let ib = choose|i: int| 0 <= i < b.len() && b[i] == la;
        if ia < a.len() - 1 {
            assert(a[ia] < a[a.len() - 1]);
        }
        if ib < b.len() - 1 {
            assert(b[ib] < b[b.len() - 1]);
        }
        assert(la == lb);
        let ks2 = ks.remove(la);
        assert(sorted_set_of(a.drop_last(), ks2)) by {
            assert forall|x: u64| #[trigger] a.drop_last().contains(x) <==> ks2.contains(x) by {
                if a.drop_last().contains(x) {
                    let i = choose|i: int| 0 <= i < a.len() - 1 && a.drop_last()[i] == x;
                    assert(a[i] < a[a.len() - 1]);
                    assert(a.contains(x));
                }
                if ks2.contains(x) {
                    assert(a.contains(x));
                    let i = choose|i: int| 0 <= i < a.len() && a[i] == x;
                    assert(i != a.len() - 1);
                    assert(a.drop_last()[i] == x);
                }
            }
        }
        assert(sorted_set_of(b.drop_last(), ks2)) by {
            assert forall|x: u64| #[trigger] b.drop_last().contains(x) <==> ks2.contains(x) by {
                if b.drop_last().contains(x) {
                    let i = choose|i: int| 0 <= i < b.len() - 1 && b.drop_last()[i] == x;
                    assert(b[i] < b[b.len() - 1]);
                    assert(b.contains(x));
                }
                if ks2.contains(x) {
                    assert(b.contains(x));
                    let i = choose|i: int| 0 <= i < b.len() && b[i] == x;
                    assert(i != b.len() - 1);
                    assert(b.drop_last()[i] == x);
                }
            }
        }
        lemma_sorted_set_unique(a.drop_last(), b.drop_last(), ks2);
        assert(a =~= b.drop_last().push(lb));
        assert(b =~= b.drop_last().push(lb));
    }
}

/// How many nodes the distance matrix covers: at most `MAX_SWARM_SIZE`.
pub open spec fn matrix_cap(v: Seq<(u64, Seq<(u64, Link)>)>) -> int {
    if v.len() < MAX_SWARM_SIZE {
        v.len() as int
    } else {
        MAX_SWARM_SIZE as int
    }
}

/// The nodes the distance matrix covers: the first `matrix_cap` nodes of
/// the table.
pub open spec fn matrix_node_set(v: Seq<(u64, Seq<(u64, Link)>)>) -> Set<u64> {
    Set::new(|x: u64| keys_of(v).take(matrix_cap(v)).contains(x))
}

/// Entry `(i, j)` of the distance matrix over the node order `o`: the
/// distance `o[i]` measured to `o[j]`, 0 on the diagonal when not measured,
/// and `UNKNOWN_DISTANCE` otherwise.
pub open spec fn matrix_entry(v: Seq<(u64, Seq<(u64, Link)>)>, o: Seq<u64>, i: int, j: int) -> i32 {
    match link_between(v, o[i], o[j]) {
        Some(l) => l.dist,
        None => if i == j {
            0
        } else {
            UNKNOWN_DISTANCE
        },
    }
}

/// The distance matrix over the node order `o`.
pub open spec fn matrix_spec(v: Seq<(u64, Seq<(u64, Link)>)>, o: Seq<u64>) -> Seq<Seq<i32>> {
    Seq::new(o.len(), |i: int| Seq::new(o.len(), |j: int| matrix_entry(v, o, i, j)))
}

/// A node's view of the swarm.
pub struct NodeState {
    pub mac: u64,
    pub neighbours: Neighbours,
    pub mds: Vec<(i32, i32)>,
}

impl NodeState {
    /// A node that knows only itself (with no measurements yet).
    pub fn new(mac: u64) -> (s: NodeState)
        ensures
            s.mac == mac,
            s.neighbours.wf(),
            s.neighbours@ == seq![(mac, Seq::<(u64, Link)>::empty())],
            s.mds@ == Seq::<(i32, i32)>::empty(),
    {
        let mut state = NodeState { mac, neighbours: Neighbours::new(), mds: Vec::new() };
        state.neighbours.insert(mac, Vec::new());
        proof {
            assert(!has_key(Seq::<(u64, Seq<(u64, Link)>)>::empty(), mac));
            assert(state.neighbours@ =~= seq![(mac, Seq::<(u64, Link)>::empty())]);
        }
        state
    }

    /// What this node broadcasts to its neighbours: a copy of its own
    /// measured links (none when it has no entry of its own).
    pub fn own_measurements(&self) -> (r: Vec<(u64, Link)>)
        requires
            self.neighbours.wf(),
        ensures
            r@ == match lookup(self.neighbours@, self.mac) {
                Some(l) => l,
                None => Seq::<(u64, Link)>::empty(),
            },
    {
        match self.neighbours.find(self.mac) {
            Some(i) => copy_links(self.neighbours.links_at(i)),
            None => Vec::new(),
        }
    }

    /// Starts tracking node `mac` with no measurements (forgetting any it
    /// had).
    pub fn register_neighbour(&mut self, mac: u64)
        requires
            old(self).neighbours.wf(),
        ensures
            final(self).neighbours.wf(),
            final(self).neighbours@ == insert_spec(
                old(self).neighbours@,
                mac,
                Seq::<(u64, Link)>::empty(),
            ),
            final(self).mac == old(self).mac,
            final(self).mds@ == old(self).mds@,
    {
        let v: Vec<(u64, Link)> = Vec::new();
        assert(unique_keys(v@));
        self.neighbours.insert(mac, v);
    }

    /// Records the link this node measured from `self_addr` (itself) to
    /// `other_addr`. The node's own entry must exist, as `new` creates it.
    pub fn update_distance_from_self(&mut self, self_addr: u64, other_addr: u64, link: Link)
        requires
            old(self).neighbours.wf(),
            has_key(old(self).neighbours@, self_addr),
        ensures
            final(self).neighbours.wf(),
            final(self).neighbours@ == old(self).neighbours@.update(
                key_index(old(self).neighbours@, self_addr),
                (
                    self_addr,
                    set_link_spec(
                        old(self).neighbours@[key_index(old(self).neighbours@, self_addr)].1,
                        other_addr,
                        link,
                    ),
                ),
            ),
            final(self).mac == old(self).mac,
            final(self).mds@ == old(self).mds@,
    {
        self.neighbours.set_link(self_addr, other_addr, link);
    }

    /// Replaces what is known of `mac`'s measurements by `measurements`.
    pub fn update_measurements_from_neighbor(&mut self, mac: u64, measurements: Vec<(u64, Link)>)
        requires
            old(self).neighbours.wf(),
            unique_keys(measurements@),
        ensures
            final(self).neighbours.wf(),
            final(self).neighbours@ == insert_spec(old(self).neighbours@, mac, measurements@),
            final(self).mac == old(self).mac,
            final(self).mds@ == old(self).mds@,
    {
        self.neighbours.insert(mac, measurements);
    }

    /// The nodes covered by the distance matrix, in increasing MAC order.
    pub fn sorted_nodes(&self) -> (o: Vec<u64>)
        requires
            self.neighbours.wf(),
        ensures
            sorted_set_of(o@, matrix_node_set(self.neighbours@)),
            o.len() == matrix_cap(self.neighbours@),
    {
        let ghost v = self.neighbours@;
        let n = self.neighbours.len();
        let cap = if n < MAX_SWARM_SIZE {
            n
        } else {
            MAX_SWARM_SIZE
        };
        let mut o: Vec<u64> = Vec::new();
        for i in 0..cap
            invariant
                v == self.neighbours@,
                neighbours_wf(v),
                cap <= n == v.len(),
                o.len() == i,
                sorted_set_of(o@, Set::new(|x: u64| keys_of(v).take(i as int).contains(x))),
        {
            let k = self.neighbours.key_at(i);
            let mut p: usize = 0;
            while p < o.len() && o[p] < k
                invariant
                    p <= o.len(),
                    forall|q: int| 0 <= q < p ==> #[trigger] o@[q] < k,
                decreases o.len() - p,
            {
                p = p + 1;
            }
            let ghost old_o = o@;
            proof {
                // `k` is new: the keys are unique.
                if old_o.contains(k) {
                    assert(keys_of(v).take(i as int).contains(k));
                    let q = choose|q: int| 0 <= q < i && keys_of(v).take(i as int)[q] == k;
                    assert(v[q].0 == v[i as int].0);
                }
            }
            o.insert(p, k);
            proof {
                let no = o@;
                assert(no == old_o.insert(p as int, k));
                assert forall|a: int, b: int| 0 <= a < b < no.len() implies #[trigger] no[a]
                    < #[trigger] no[b] by {
                    if p < old_o.len() {
                        assert(old_o[p as int] != k);
                        assert(old_o[p as int] >= k);
                    }
                    if a < p && b < p {
                        assert(old_o[a] < old_o[b]);
                    } else if a < p && b == p {
                    } else if a < p && b > p {
                        assert(old_o[a] < k);
                        assert(old_o[b - 1] >= old_o[p as int] || b - 1 == p);
                    } else if a == p {
                        assert(old_o[b - 1] >= old_o[p as int] || b - 1 == p);
                    } else {
                        assert(old_o[a - 1] < old_o[b - 1]);
                    }
                }
                let ks = Set::new(|x: u64| keys_of(v).take(i + 1).contains(x));
                let t0 = keys_of(v).take(i as int);
                let t1 = keys_of(v).take(i + 1);
                assert(t1 =~= t0.push(k));
                assert forall|x: u64| #[trigger] no.contains(x) <==> ks.contains(x) by {
                    if no.contains(x) {
                        let q = choose|q: int| 0 <= q < no.len() && no[q] == x;
                        if q == p {
                            assert(x == k);
                            assert(t1[i as int] == k);
                        } else {
                            if q < p {
                                assert(old_o[q] == x);
                            } else {
                                assert(old_o[q - 1] == x);
                            }
                            assert(old_o.contains(x));
                            assert(t0.contains(x));
                            let r = choose|r: int| 0 <= r < t0.len() && t0[r] == x;
                            assert(t1[r] == x);
                        }
                        assert(t1.contains(x));
                    }
                    if ks.contains(x) {
                        assert(t1.contains(x));
                        let r = choose|r: int| 0 <= r < t1.len() && t1[r] == x;
                        if r == i {
                            assert(no[p as int] == k);
                            assert(no.contains(x));
                        } else {
                            assert(t0[r] == x);
                            assert(t0.contains(x));
                            assert(old_o.contains(x));
                            let q = choose|q: int| 0 <= q < old_o.len() && old_o[q] == x;
                            if q < p {
                                assert(no[q] == x);
                            } else {
                                assert(no[q + 1] == x);
                            }
                            assert(no.contains(x));
                        }
                    }
                }
            }
        }
        proof {
            assert(matrix_cap(v) == cap);
        }
        o
    }

    /// The matrix of measured distances between the nodes in increasing MAC
    /// order (at most `MAX_SWARM_SIZE` of them): entry `(i, j)` is what node
    /// `i` measured to node `j`, 0 on an unmeasured diagonal, and
    /// `UNKNOWN_DISTANCE` where nothing was measured.
    pub fn neighbour_matrix(&self) -> (r: Vec<Vec<i32>>)
        requires
            self.neighbours.wf(),
        ensures
            exists|o: Seq<u64>|
                sorted_set_of(o, matrix_node_set(self.neighbours@)) && #[trigger] matrix_spec(
                    self.neighbours@,
                    o,
                ) == r@.map_values(|row: Vec<i32>| row@),
        r.len() == matrix_cap(self.neighbours@),
        forall|i: int| 0 <= i < r.len() ==> #[trigger] r@[i]@.len() == r.len(),
    {
        let o = self.sorted_nodes();
        let m = o.len();
        let mut matrix: Vec<Vec<i32>> = Vec::new();
        for i in 0..m
            invariant
                m == o.len(),
                self.neighbours.wf(),
                matrix.len() == i,
                forall|k: int|
                    0 <= k < i ==> #[trigger] matrix@[k]@ == matrix_spec(self.neighbours@, o@)[k],
        {
            let mut row: Vec<i32> = Vec::new();
            for j in 0..m
                invariant
                    m == o.len(),
                    i < m,
                    self.neighbours.wf(),
                    row.len() == j,
                    forall|k: int|
                        0 <= k < j ==> #[trigger] row@[k] == matrix_entry(
                            self.neighbours@,
                            o@,
                            i as int,
                            k,
                        ),
            {
                let e = match self.neighbours.get_link(o[i], o[j]) {
                    Some(l) => l.dist,
                    None => if i == j {
                        0
                    } else {
                        UNKNOWN_DISTANCE
                    },
                };
                row.push(e);
            }
            assert(row@ =~= matrix_spec(self.neighbours@, o@)[i as int]);
            matrix.push(row);
        }
        assert(matrix_spec(self.neighbours@, o@) =~= matrix@.map_values(|row: Vec<i32>| row@));
        assert forall|i: int| 0 <= i < matrix.len() implies #[trigger] matrix@[i]@.len() == matrix.len() by {
            assert(matrix@[i]@ == matrix_spec(self.neighbours@, o@)[i]);
        }
        matrix
    }
}

} // verus!
