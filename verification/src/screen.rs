//! What the node's small display shows, computed as plain values: the rows
//! of the distance table and the points of the layout view. Drawing them is
//! left to the caller.
use vstd::prelude::*;
use crate::fixed_point::{fx_sub, fx_sub_spec};
use crate::mds::MAX_SWARM_SIZE;

verus! {

/// What the display shows.
#[derive(Clone, Copy, PartialEq, Eq, Structural)]
pub enum ScreenMode {
    Mds,
    Table,
}

/// Position of the first occurrence of `x` in `s`.
pub open spec fn first_pos(s: Seq<u64>, x: u64) -> Option<int>
    decreases s.len(),
{
    if s.len() == 0 {
        None
    } else {
        match first_pos(s.drop_last(), x) {
            Some(i) => Some(i),
            None => if s.last() == x {
                Some(s.len() - 1)
            } else {
                None
            },
        }
    }
}

/// Position of the first occurrence of `x` in `v`.
pub fn find_first(v: &Vec<u64>, x: u64) -> (r: Option<usize>)
    ensures
        r matches Some(i) ==> first_pos(v@, x) == Some(i as int),
        r is None ==> first_pos(v@, x) is None,
{
    let mut i: usize = 0;
    while i < v.len()
        invariant
            i <= v.len(),
            first_pos(v@.take(i as int), x) is None,
        decreases v.len() - i,
    {
        assert(v@.take(i + 1).drop_last() =~= v@.take(i as int));
        if v[i] == x {
            proof {
                lemma_first_pos_prefix(v@, x, i as int + 1);
            }
            return Some(i);
        }
        i += 1;
    }
    assert(v@.take(v.len() as int) =~= v@);
    None
}

/// A first occurrence within a prefix is the first occurrence.
proof fn lemma_first_pos_prefix(s: Seq<u64>, x: u64, k: int)
    requires
        0 <= k <= s.len(),
        first_pos(s.take(k), x) is Some,
    ensures
        first_pos(s, x) == first_pos(s.take(k), x),
    decreases s.len() - k,
{
    if k < s.len() {
        assert(s.take(k + 1).drop_last() =~= s.take(k));
        lemma_first_pos_prefix(s, x, k + 1);
    } else {
        assert(s.take(k) =~= s);
    }
}

/// Position of this node in the node list (0 when absent).
pub open spec fn self_index(macs: Seq<u64>, id: u64) -> int {
    match first_pos(macs, id) {
        Some(i) => i,
        None => 0,
    }
}

/// Distance shown for node `i`: this node's entry for it, unless absent or
/// unknown (`I16F16::MAX`).
pub open spec fn table_distance(
    macs: Seq<u64>,
    distances: Seq<Seq<i32>>,
    id: u64,
    i: int,
) -> Option<i32> {
    let s = self_index(macs, id);
    if s < distances.len() && i < distances[s].len() && distances[s][i] < i32::MAX {
        Some(distances[s][i])
    } else {
        None
    }
}

/// Sort key of a table row: the target first, then known distances from
/// nearest to farthest, then unknown distances.
pub open spec fn row_rank(row: (usize, Option<i32>), target: Option<int>) -> int {
    let t: int = if target == Some(row.0 as int) {
        0
    } else {
        1
    };
    match row.1 {
        Some(d) => t * 0x4_0000_0000 + (d + 0x8000_0000),
        None => t * 0x4_0000_0000 + 0x2_0000_0000,
    }
}

/// The table's rows before ordering: every node but this one, with its
/// distance, in list order.
pub open spec fn table_candidates(macs: Seq<u64>, distances: Seq<Seq<i32>>, id: u64) -> Seq<
    (usize, Option<i32>),
> {
    Seq::new(macs.len(), |i: int| (i as usize, table_distance(macs, distances, id, i))).filter(
        |row: (usize, Option<i32>)| row.0 != self_index(macs, id),
    )
}

fn rank_of(row: (usize, Option<i32>), target: Option<usize>) -> (r: u64)
    ensures
        r == row_rank(
            row,
            match target {
                Some(t) => Some(t as int),
                None => None,
            },
        ),
{
    let t: u64 = match target {
        Some(ti) => if ti == row.0 {
            0
        } else {
            1
        },
        None => 1,
    };
    match row.1 {
        Some(d) => t * 0x4_0000_0000 + (d as i64 + 0x8000_0000) as u64,
        None => t * 0x4_0000_0000 + 0x2_0000_0000,
    }
}

/// The rows of the distance table: one per node other than this one (index
/// into `macs` and the known distance), the target first, then known
/// distances from nearest to farthest, then unknown ones.
pub fn table_rows(
    macs: &Vec<u64>,
    distances: &Vec<Vec<i32>>,
    id: u64,
    target_mac: Option<u64>,
) -> (rows: Vec<(usize, Option<i32>)>)
    ensures
        rows@.to_multiset() == table_candidates(
            macs@,
            distances@.map_values(|r: Vec<i32>| r@),
            id,
        ).to_multiset(),
        forall|a: int, b: int|
            0 <= a < b < rows@.len() ==> row_rank(
                #[trigger] rows@[a],
                match target_mac {
                    Some(t) => first_pos(macs@, t),
                    None => None,
                },
            ) <= row_rank(
                #[trigger] rows@[b],
                match target_mac {
                    Some(t) => first_pos(macs@, t),
                    None => None,
                },
            ),
{
    let ghost dv = distances@.map_values(|r: Vec<i32>| r@);
    let self_idx = match find_first(macs, id) {
        Some(i) => i,
        None => 0,
    };
    let target_idx = match target_mac {
        Some(t) => find_first(macs, t),
        None => None,
    };
    let ghost tgt = match target_mac {
        Some(t) => first_pos(macs@, t),
        None => None,
    };
    assert(tgt == match target_idx {
        Some(t) => Some(t as int),
        None => None::<int>,
    });
    let ghost all = Seq::new(
        macs@.len(),
        |i: int| (i as usize, table_distance(macs@, dv, id, i)),
    );
    let ghost keep = |row: (usize, Option<i32>)| row.0 != self_index(macs@, id);
    let mut rows: Vec<(usize, Option<i32>)> = Vec::new();
    proof {
        let e = all.take(0);
        assert(e =~= Seq::<(usize, Option<i32>)>::empty());
        e.lemma_filter_len(keep);
        assert(e.filter(keep) =~= rows@);
    }
    for i in 0..macs.len()
        invariant
            self_idx == self_index(macs@, id),
            dv == distances@.map_values(|r: Vec<i32>| r@),
            all == Seq::new(
                macs@.len(),
                |i: int| (i as usize, table_distance(macs@, dv, id, i)),
            ),
            keep == (|row: (usize, Option<i32>)| row.0 != self_index(macs@, id)),
            tgt == match target_idx {
                Some(t) => Some(t as int),
                None => None::<int>,
            },
            rows@.to_multiset() == all.take(i as int).filter(keep).to_multiset(),
            forall|a: int, b: int|
                0 <= a < b < rows@.len() ==> row_rank(#[trigger] rows@[a], tgt) <= row_rank(
                    #[trigger] rows@[b],
                    tgt,
                ),
    {
        let ghost prev_take = all.take(i as int);
        assert(all.take(i + 1) =~= prev_take.push(all[i as int]));
        proof {
            prev_take.lemma_filter_push(all[i as int], keep);
            prev_take.filter(keep).to_multiset_ensures();
        }
        if i != self_idx {
            let dist = if self_idx < distances.len() && i < distances[self_idx].len() {
                let d = distances[self_idx][i];
                if d < i32::MAX {
                    Some(d)
                } else {
                    None
                }
            } else {
                None
            };
            let row = (i, dist);
            assert(row == all[i as int]);
            let rk = rank_of(row, target_idx);
            let mut p: usize = 0;
            while p < rows.len() && rank_of(rows[p], target_idx) <= rk
                invariant
                    p <= rows.len(),
                    rk == row_rank(row, tgt),
                    tgt == match target_idx {
                        Some(t) => Some(t as int),
                        None => None::<int>,
                    },
                    forall|q: int| 0 <= q < p ==> row_rank(#[trigger] rows@[q], tgt) <= rk,
                decreases rows.len() - p,
            {
                p = p + 1;
            }
            let ghost old_rows = rows@;
            rows.insert(p, row);
            proof {
                vstd::seq_lib::to_multiset_insert(old_rows, p as int, row);
                assert(rows@ == old_rows.insert(p as int, row));
                assert forall|a: int, b: int| 0 <= a < b < rows@.len() implies row_rank(
                    #[trigger] rows@[a],
                    tgt,
                ) <= row_rank(#[trigger] rows@[b], tgt) by {
                    if p < old_rows.len() {
                        assert(row_rank(old_rows[p as int], tgt) > rk);
                    }
                    if a < p && b < p {
                        assert(row_rank(old_rows[a], tgt) <= row_rank(old_rows[b], tgt));
                    } else if a < p && b == p {
                    } else if a < p && b > p {
                        assert(row_rank(old_rows[a], tgt) <= rk);
                        if b - 1 > p {
                            assert(row_rank(old_rows[p as int], tgt) <= row_rank(old_rows[b - 1], tgt));
                        }
                    } else if a == p {
                        if b - 1 > p {
                            assert(row_rank(old_rows[p as int], tgt) <= row_rank(old_rows[b - 1], tgt));
                        }
                    } else {
                        assert(row_rank(old_rows[a - 1], tgt) <= row_rank(old_rows[b - 1], tgt));
                    }
                }
            }
        }
    }
    assert(all.take(macs.len() as int) =~= all);
    rows
}

/// The layout as drawn: this node's index in the list, and the points shown
/// (index into the layout, position relative to this node).
pub struct MdsView {
    pub current: usize,
    pub points: Vec<(usize, (i32, i32))>,
}

/// The point for layout index `idx`, relative to `center`.
pub open spec fn relative_point(mds: Seq<(i32, i32)>, center: (i32, i32), idx: int) -> (
    usize,
    (i32, i32),
) {
    (idx as usize, (fx_sub_spec(mds[idx].0, center.0), fx_sub_spec(mds[idx].1, center.1)))
}

/// Adds layout index `idx` to the points, if it is a layout index and there
/// is room.
pub open spec fn push_point(
    pts: Seq<(usize, (i32, i32))>,
    mds: Seq<(i32, i32)>,
    center: (i32, i32),
    idx: int,
) -> Seq<(usize, (i32, i32))> {
    if pts.len() < MAX_SWARM_SIZE && 0 <= idx < mds.len() {
        pts.push(relative_point(mds, center, idx))
    } else {
        pts
    }
}

/// Points for every layout index but `current`, up to `k`.
pub open spec fn all_points(mds: Seq<(i32, i32)>, center: (i32, i32), current: int, k: int) -> Seq<
    (usize, (i32, i32)),
>
    decreases k,
{
    if k <= 0 {
        Seq::empty()
    } else {
        let prev = all_points(mds, center, current, k - 1);
        if k - 1 == current {
            prev
        } else {
            push_point(prev, mds, center, k - 1)
        }
    }
}

/// Points for the nodes of the first `k` entries of `path` (this node left
/// out, nodes not in the list skipped).
pub open spec fn path_points(
    mds: Seq<(i32, i32)>,
    center: (i32, i32),
    macs: Seq<u64>,
    id: u64,
    path: Seq<u64>,
    k: int,
) -> Seq<(usize, (i32, i32))>
    decreases k,
{
    if k <= 0 {
        Seq::empty()
    } else {
        let prev = path_points(mds, center, macs, id, path, k - 1);
        if path[k - 1] == id {
            prev
        } else {
            match first_pos(macs, path[k - 1]) {
                Some(idx) => push_point(prev, mds, center, idx),
                None => prev,
            }
        }
    }
}

/// The layout view, for a non-empty layout: centred on this node (or on the
/// first point when this node has no point), showing the nodes of `path`
/// when a route is given and every other node otherwise.
pub open spec fn mds_view_spec(
    macs: Seq<u64>,
    mds: Seq<(i32, i32)>,
    id: u64,
    path: Option<Seq<u64>>,
) -> (int, Seq<(usize, (i32, i32))>) {
    let current = self_index(macs, id);
    let center = if current < mds.len() {
        mds[current]
    } else {
        mds[0]
    };
    match path {
        Some(p) => (current, path_points(mds, center, macs, id, p, p.len() as int)),
        None => (current, all_points(mds, center, current, mds.len() as int)),
    }
}

/// Computes what the layout view shows; `None` while the layout is empty.
pub fn mds_view(macs: &Vec<u64>, mds: &Vec<(i32, i32)>, id: u64, path: Option<&Vec<u64>>) -> (r:
    Option<MdsView>)
    ensures
        mds@.len() == 0 ==> r is None,
        mds@.len() > 0 ==> (r matches Some(v) && (v.current as int, v.points@) == mds_view_spec(
            macs@,
            mds@,
            id,
            match path {
                Some(p) => Some(p@),
                None => None,
            },
        )),
{
    if mds.len() == 0 {
        return None;
    }
    let current = match find_first(macs, id) {
        Some(i) => i,
        None => 0,
    };
    let center = if current < mds.len() {
        mds[current]
    } else {
        mds[0]
    };
    let mut points: Vec<(usize, (i32, i32))> = Vec::new();
    match path {
        Some(p) => {
            for k in 0..p.len()
                invariant
                    mds@.len() > 0,
                    points@ == path_points(mds@, center, macs@, id, p@, k as int),
            {
                let mac = p[k];
                if mac != id {
                    match find_first(macs, mac) {
                        Some(idx) => {
                            if points.len() < MAX_SWARM_SIZE && idx < mds.len() {
                                points.push(
                                    (
                                        idx,
                                        (fx_sub(mds[idx].0, center.0), fx_sub(mds[idx].1, center.1)),
                                    ),
                                );
                            }
                        },
                        None => {},
                    }
                }
            }
        },
        None => {
            for i in 0..mds.len()
                invariant
                    points@ == all_points(mds@, center, current as int, i as int),
            {
                if i != current {
                    if points.len() < MAX_SWARM_SIZE {
                        points.push(
                            (i, (fx_sub(mds[i].0, center.0), fx_sub(mds[i].1, center.1))),
                        );
                    }
                }
            }
        },
    }
    Some(MdsView { current, points })
}

} // verus!
