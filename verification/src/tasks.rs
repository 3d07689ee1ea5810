//! The decisions of the firmware's tasks, one step at a time. The caller
//! runs the loops, the radio and the timers; these functions decide what
//! the node's state becomes.
use vstd::prelude::*;
use crate::assoc::{has_key, unique_keys};
use crate::mds::{
    make_symmetric_spec, mds_iterate_spec, initial_layout_spec, off_diagonal_present, rows,
    has_entry, MDS, MDS_ITERATIONS, MAX_SWARM_SIZE,
};
use crate::node_state::{
    insert_spec, matrix_cap, matrix_node_set, matrix_spec, sorted_set_of, Link, NodeState,
    UNKNOWN_DISTANCE,
};

verus! {

/// Some entry of the matrix is unknown.
pub open spec fn has_unknown(m: Seq<Seq<i32>>) -> bool {
    exists|i: int, j: int| 0 <= i < m.len() && 0 <= j < m[i].len() && #[trigger] m[i][j] == UNKNOWN_DISTANCE
}

/// Whether some distance of the matrix is still unknown.
pub fn matrix_incomplete(m: &Vec<Vec<i32>>) -> (r: bool)
    ensures
        r == has_unknown(rows(m@)),
{
    let mut i: usize = 0;
    while i < m.len()
        invariant
            i <= m.len(),
            forall|a: int, b: int|
                0 <= a < i && 0 <= b < m@[a]@.len() ==> #[trigger] m@[a]@[b] != UNKNOWN_DISTANCE,
        decreases m.len() - i,
    {
        let mut j: usize = 0;
        while j < m[i].len()
            invariant
                i < m.len(),
                j <= m@[i as int]@.len(),
                forall|b: int| 0 <= b < j ==> #[trigger] m@[i as int]@[b] != UNKNOWN_DISTANCE,
            decreases m@[i as int]@.len() - j,
        {
            if m[i][j] == UNKNOWN_DISTANCE {
                proof {
                    assert(rows(m@)[i as int][j as int] == UNKNOWN_DISTANCE);
                }
                return true;
            }
            j += 1;
        }
        i += 1;
    }
    proof {
        if has_unknown(rows(m@)) {
            let (a, b) = choose|a: int, b: int|
                0 <= a < rows(m@).len() && 0 <= b < rows(m@)[a].len() && #[trigger] rows(m@)[a][b]
                    == UNKNOWN_DISTANCE;
            assert(m@[a]@[b] != UNKNOWN_DISTANCE);
        }
    }
    false
}

/// Handles a packet from `src`: records the link this node measured to it,
/// then, if the packet carried the sender's own measurements, stores them.
pub fn process_packet(
    state: &mut NodeState,
    src: u64,
    link: Link,
    measurements: Option<Vec<(u64, Link)>>,
)
    requires
        old(state).neighbours.wf(),
        has_key(old(state).neighbours@, old(state).mac),
        measurements matches Some(m) ==> unique_keys(m@),
    ensures
        final(state).neighbours.wf(),
        final(state).mac == old(state).mac,
        final(state).mds@ == old(state).mds@,
        ({
            let own = old(state).neighbours@;
            let i = crate::assoc::key_index(own, old(state).mac);
            let after_self = own.update(
                i,
                (old(state).mac, crate::node_state::set_link_spec(own[i].1, src, link)),
            );
            final(state).neighbours@ == match measurements {
                Some(m) => insert_spec(after_self, src, m@),
                None => after_self,
            }
        }),
{
    let mac = state.mac;
    state.update_distance_from_self(mac, src, link);
    match measurements {
        Some(m) => state.update_measurements_from_neighbor(src, m),
        None => {},
    }
}

/// One pass of the layout task: when every distance between the tracked
/// nodes is known, runs MDS on the distance matrix, stores the new layout in
/// the node's state and returns it; otherwise changes nothing and returns
/// `None`.
pub fn calculate_state(state: &mut NodeState, mds: &mut MDS, random_words: &[u32]) -> (r: Option<
    Vec<(i32, i32)>,
>)
    requires
        old(state).neighbours.wf(),
        old(mds).layout().len() == 0 || old(mds).layout().len() != matrix_cap(old(state).neighbours@)
            ==> 2 * matrix_cap(old(state).neighbours@) <= random_words@.len(),
    ensures
        final(state).mac == old(state).mac,
        final(state).neighbours@ == old(state).neighbours@,
        exists|o: Seq<u64>|
            #![trigger matrix_spec(old(state).neighbours@, o)]
            sorted_set_of(o, matrix_node_set(old(state).neighbours@)) && ({
                let d = matrix_spec(old(state).neighbours@, o);
                if has_unknown(d) {
                    &&& r is None
                    &&& final(state).mds@ == old(state).mds@
                    &&& final(mds).layout() == old(mds).layout()
                } else {
                    &&& r matches Some(p) && p@ == final(mds).layout()
                    &&& final(state).mds@ == final(mds).layout()
                    &&& final(mds).layout() == mds_iterate_spec(
                        make_symmetric_spec(d),
                        if old(mds).layout().len() == 0 || old(mds).layout().len() != d.len() {
                            initial_layout_spec(d.len() as int, random_words@)
                        } else {
                            old(mds).layout()
                        },
                        MDS_ITERATIONS as nat,
                    )
                }
            }),
{
    let d = state.neighbour_matrix();
    let ghost dv = rows(d@);
    let ghost o = choose|o: Seq<u64>|
        sorted_set_of(o, matrix_node_set(state.neighbours@)) && #[trigger] matrix_spec(
            state.neighbours@,
            o,
        ) == d@.map_values(|row: Vec<i32>| row@);
    assert(dv == matrix_spec(state.neighbours@, o));
    if matrix_incomplete(&d) {
        return None;
    }
    proof {
        // A distance matrix is square, with at most MAX_SWARM_SIZE rows.
        assert(off_diagonal_present(dv)) by {
            assert forall|i: int, j: int|
                0 <= i < dv.len() && 0 <= j < dv.len() && i != j implies #[trigger] has_entry(
                dv,
                i,
                j,
            ) by {
                assert(d@[i]@.len() == d.len());
            }
        }
    }
    let layout = mds.compute(d, random_words);
    let mut out: Vec<(i32, i32)> = Vec::new();
    for i in 0..layout.len()
        invariant
            out.len() == i,
            i <= layout.len(),
            forall|k: int| 0 <= k < i ==> #[trigger] out@[k] == layout@[k],
    {
        out.push(layout[i]);
    }
    assert(out@ =~= layout@);
    let mut copy: Vec<(i32, i32)> = Vec::new();
    for i in 0..out.len()
        invariant
            copy.len() == i,
            i <= out.len(),
            forall|k: int| 0 <= k < i ==> #[trigger] copy@[k] == out@[k],
    {
        copy.push(out[i]);
    }
    assert(copy@ =~= out@);
    state.mds = copy;
    Some(out)
}

} // verus!
