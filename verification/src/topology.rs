//! Topology control: what each node announced about its neighbours, and the
//! announcements this node sends.
//!
//! An announcement (TC message) is the sender's MAC address (6 bytes), its
//! message sequence number (4 bytes, big-endian) and the MAC addresses of
//! the nodes it has heard of (6 bytes each).
use vstd::prelude::*;
use crate::assoc::{find_key, has_key, key_index, keys_of, lookup, unique_keys};
use crate::mac::{key_bytes, lemma_key_bytes_roundtrip, mac_key_spec};
use crate::mds::MAX_SWARM_SIZE;
use crate::node_state::{lemma_insert_unique, NodeState};

verus! {

/// What a node announced: its neighbours, the sequence number of the
/// announcement, and when it arrived (in ticks of the caller's clock).
pub struct TopologyEntry {
    pub neighbors: Vec<u64>,
    pub sequence: i32,
    pub timestamp: u64,
}

/// An announcement as plain values.
pub open spec fn entry_view(e: TopologyEntry) -> (Seq<u64>, i32, u64) {
    (e.neighbors@, e.sequence, e.timestamp)
}

/// The topology table and this node's announcement counter.
pub struct Topology {
    node_state: NodeState,
    sequence: i32,
    topology_table: Vec<(u64, TopologyEntry)>,
}

/// The four bytes of an `i32`, big-endian two's complement.
pub open spec fn be_bytes_i32(x: i32) -> Seq<u8> {
    let u = if x < 0 {
        x + 0x1_0000_0000
    } else {
        x as int
    };
    seq![
        ((u / 0x100_0000) % 256) as u8,
        ((u / 0x1_0000) % 256) as u8,
        ((u / 0x100) % 256) as u8,
        (u % 256) as u8,
    ]
}

/// The MAC addresses of `ks`, six bytes each, one after the other.
pub open spec fn concat_macs(ks: Seq<u64>) -> Seq<u8>
    decreases ks.len(),
{
    if ks.len() == 0 {
        Seq::empty()
    } else {
        concat_macs(ks.drop_last()) + key_bytes(ks.last() as int)
    }
}

/// The announcement of `mac` with sequence number `seq` listing `ks`.
pub open spec fn tc_message_spec(mac: u64, seq: i32, ks: Seq<u64>) -> Seq<u8> {
    key_bytes(mac as int) + be_bytes_i32(seq) + concat_macs(ks)
}

/// Four bytes read as a big-endian two's-complement `i32`.
pub open spec fn be_i32_value(b: Seq<u8>) -> int {
    let u = b[0] * 0x100_0000 + b[1] * 0x1_0000 + b[2] * 0x100 + b[3];
    if b[0] >= 128 {
        u - 0x1_0000_0000
    } else {
        u
    }
}

proof fn lemma_be_bytes_decode(x: i32)
    ensures
        be_bytes_i32(x).len() == 4,
        be_i32_value(be_bytes_i32(x)) == x,
{
    let u: int = if x < 0 {
        x + 0x1_0000_0000
    } else {
        x as int
    };
    assert(0 <= u < 0x1_0000_0000);
    let b = be_bytes_i32(x);
    let q1 = u / 0x100;
    let q2 = q1 / 0x100;
    let q3 = q2 / 0x100;
    assert(u / 0x1_0000 == q2) by {
        vstd::arithmetic::div_mod::lemma_div_denominator(u, 0x100, 0x100);
    }
    assert(u / 0x100_0000 == q3) by {
        vstd::arithmetic::div_mod::lemma_div_denominator(u, 0x100, 0x100);
        vstd::arithmetic::div_mod::lemma_div_denominator(q1, 0x100, 0x100);
        vstd::arithmetic::div_mod::lemma_div_denominator(u, 0x1_0000, 0x100);
    }
    assert(q3 < 256);
    assert(b[0] == q3);
    assert(b[1] == q2 % 256);
    assert(b[2] == q1 % 256);
    assert(b[3] == u % 256);
    assert(u == q3 * 0x100_0000 + (q2 % 256) * 0x1_0000 + (q1 % 256) * 0x100 + u % 256);
    assert(q3 >= 128 <==> u >= 0x8000_0000);
}

/// Six bytes per listed address.
proof fn lemma_concat_macs_len(ks: Seq<u64>)
    ensures
        concat_macs(ks).len() == 6 * ks.len(),
    decreases ks.len(),
{
    if ks.len() > 0 {
        lemma_concat_macs_len(ks.drop_last());
    }
}

/// Bytes `6 i .. 6 i + 6` of the listed addresses are the `i`-th key's bytes.
proof fn lemma_concat_macs_at(ks: Seq<u64>, i: int)
    requires
        0 <= i < ks.len(),
    ensures
        concat_macs(ks).len() == 6 * ks.len(),
        concat_macs(ks).subrange(6 * i, 6 * i + 6) == key_bytes(ks[i] as int),
    decreases ks.len(),
{
    let init = ks.drop_last();
    let c = concat_macs(init);
    let k = key_bytes(ks.last() as int);
    lemma_concat_macs_len(ks);
    lemma_concat_macs_len(init);
    assert(concat_macs(ks) == c + k);
    if i < ks.len() - 1 {
        lemma_concat_macs_at(init, i);
        assert((c + k).subrange(6 * i, 6 * i + 6) =~= c.subrange(6 * i, 6 * i + 6));
    } else {
        assert((c + k).subrange(6 * i, 6 * i + 6) =~= k);
    }
}

/// An announcement can be read back: the sender's address from its first
/// six bytes, the sequence number from the next four (big-endian two's
/// complement), and each listed address from the following groups of six.
pub proof fn lemma_tc_message_decodes(mac: u64, seq: i32, ks: Seq<u64>)
    ensures
        tc_message_spec(mac, seq, ks).len() == 10 + 6 * ks.len(),
        be_i32_value(tc_message_spec(mac, seq, ks).subrange(6, 10)) == seq,
        mac < 0x1_0000_0000_0000 ==> mac_key_spec(tc_message_spec(mac, seq, ks).subrange(0, 6))
            == mac,
        forall|i: int|
            0 <= i < ks.len() && ks[i] < 0x1_0000_0000_0000 ==> mac_key_spec(
                #[trigger] tc_message_spec(mac, seq, ks).subrange(10 + 6 * i, 16 + 6 * i),
            ) == ks[i],
{
    let m = tc_message_spec(mac, seq, ks);
    lemma_be_bytes_decode(seq);
    assert(key_bytes(mac as int).len() == 6);
    if ks.len() > 0 {
        lemma_concat_macs_at(ks, 0);
    } else {
        assert(concat_macs(ks) =~= Seq::<u8>::empty());
    }
    assert(m.subrange(6, 10) =~= be_bytes_i32(seq));
    assert(m.subrange(0, 6) =~= key_bytes(mac as int));
    if mac < 0x1_0000_0000_0000 {
        lemma_key_bytes_roundtrip(mac as int);
    }
    assert forall|i: int| 0 <= i < ks.len() && ks[i] < 0x1_0000_0000_0000 implies mac_key_spec(
        #[trigger] m.subrange(10 + 6 * i, 16 + 6 * i),
    ) == ks[i] by {
        lemma_concat_macs_at(ks, i);
        assert(m.subrange(10 + 6 * i, 16 + 6 * i) =~= concat_macs(ks).subrange(6 * i, 6 * i + 6));
        lemma_key_bytes_roundtrip(ks[i] as int);
    }
}

/// `seq + 1`, wrapping at `i32::MAX`.
pub open spec fn next_sequence(seq: i32) -> i32 {
    if seq == i32::MAX {
        i32::MIN
    } else {
        (seq + 1) as i32
    }
}

/// The table after an announcement `entry` from `mac`: unchanged when it
/// holds an announcement of `mac` with a sequence number at least as high,
/// otherwise with `mac`'s entry replaced (or added at the end).
pub open spec fn update_table_spec(
    t: Seq<(u64, (Seq<u64>, i32, u64))>,
    mac: u64,
    entry: (Seq<u64>, i32, u64),
) -> Seq<(u64, (Seq<u64>, i32, u64))> {
    match lookup(t, mac) {
        Some(e) => if entry.1 <= e.1 {
            t
        } else {
            t.update(key_index(t, mac), (mac, entry))
        },
        None => t.push((mac, entry)),
    }
}

/// The table keeps, for every sender, the announcement with the highest
/// sequence number received: after an update the sender's sequence number is
/// the larger of the old and the new one, and other senders are untouched.
pub proof fn lemma_update_keeps_newest(
    t: Seq<(u64, (Seq<u64>, i32, u64))>,
    mac: u64,
    entry: (Seq<u64>, i32, u64),
    other: u64,
)
    requires
        unique_keys(t),
        other != mac,
    ensures
        unique_keys(update_table_spec(t, mac, entry)),
        lookup(update_table_spec(t, mac, entry), mac) matches Some(e) && e.1 == match lookup(
            t,
            mac,
        ) {
            Some(old_e) => if entry.1 <= old_e.1 {
                old_e.1
            } else {
                entry.1
            },
            None => entry.1,
        },
        lookup(update_table_spec(t, mac, entry), other) == lookup(t, other),
{
    lemma_insert_unique(t, mac, entry);
    crate::node_state::lemma_insert_lookup(t, mac, entry, mac);
    crate::node_state::lemma_insert_lookup(t, mac, entry, other);
}

/// Appends the six bytes of key `k`.
fn push_mac(msg: &mut Vec<u8>, k: u64)
    ensures
        final(msg)@ == old(msg)@ + key_bytes(k as int),
{
    msg.push(((k / 0x100_0000_0000) % 256) as u8);
    msg.push(((k / 0x1_0000_0000) % 256) as u8);
    msg.push(((k / 0x100_0000) % 256) as u8);
    msg.push(((k / 0x1_0000) % 256) as u8);
    msg.push(((k / 0x100) % 256) as u8);
    msg.push((k % 256) as u8);
    assert(final(msg)@ =~= old(msg)@ + key_bytes(k as int));
}

impl Topology {
    /// The node's own state.
    pub closed spec fn state(&self) -> NodeState {
        self.node_state
    }

    /// The sequence number of the last announcement sent (0 before any).
    pub closed spec fn sequence_number(&self) -> i32 {
        self.sequence
    }

    /// The announcements received, by sender.
    pub closed spec fn table(&self) -> Seq<(u64, (Seq<u64>, i32, u64))> {
        self.topology_table@.map_values(|e: (u64, TopologyEntry)| (e.0, entry_view(e.1)))
    }

    /// No sender twice in the table.
    pub open spec fn wf(&self) -> bool {
        unique_keys(self.table())
    }

    /// A topology with no announcements received or sent.
    pub fn new(node_state: NodeState) -> (t: Topology)
        ensures
            t.state() == node_state,
            t.sequence_number() == 0,
            t.table() == Seq::<(u64, (Seq<u64>, i32, u64))>::empty(),
            t.wf(),
    {
        let t = Topology { node_state, sequence: 0, topology_table: Vec::new() };
        assert(t.table() =~= Seq::<(u64, (Seq<u64>, i32, u64))>::empty());
        t
    }

    /// This node's MAC key.
    pub fn own_mac(&self) -> (r: u64)
        ensures
            r == self.state().mac,
    {
        self.node_state.mac
    }

    /// This node's state.
    pub fn node_state(&self) -> (r: &NodeState)
        ensures
            *r == self.state(),
    {
        &self.node_state
    }

    /// The senders in the table, in table order.
    pub fn table_keys(&self) -> (r: Vec<u64>)
        ensures
            r@ == keys_of(self.table()),
    {
        let mut r: Vec<u64> = Vec::new();
        for i in 0..self.topology_table.len()
            invariant
                r.len() == i,
                i <= self.topology_table.len(),
                forall|k: int| 0 <= k < i ==> #[trigger] r@[k] == self.table()[k].0,
        {
            r.push(self.topology_table[i].0);
        }
        assert(r@ =~= keys_of(self.table()));
        r
    }

    /// Records the announcement of `mac` (its `neighbors`, with sequence
    /// number `sequence`, received at time `now`), unless the table already
    /// holds an announcement of `mac` that is as new or newer.
    pub fn update_topology(&mut self, mac: u64, neighbors: Vec<u64>, sequence: i32, now: u64)
        requires
            old(self).wf(),
            neighbors.len() <= MAX_SWARM_SIZE,
        ensures
            final(self).wf(),
            final(self).state() == old(self).state(),
            final(self).sequence_number() == old(self).sequence_number(),
            final(self).table() == update_table_spec(
                old(self).table(),
                mac,
                (neighbors@, sequence, now),
            ),
    {
        let ghost tv = self.table();
        let ghost nv = neighbors@;
        let found = find_key(&self.topology_table, mac);
        proof {
            let e = self.topology_table@;
            if has_key(tv, mac) {
                let i = choose|i: int| 0 <= i < tv.len() && #[trigger] tv[i].0 == mac;
                assert(e[i].0 == mac);
            }
            if has_key(e, mac) {
                let i = choose|i: int| 0 <= i < e.len() && #[trigger] e[i].0 == mac;
                assert(tv[i].0 == mac);
            }
        }
        match found {
            Some(i) => {
                proof {
                    crate::assoc::lemma_key_index(tv, i as int);
                }
                if sequence <= self.topology_table[i].1.sequence {
                    assert(self.table() == update_table_spec(tv, mac, (nv, sequence, now)));
                    return;
                }
                self.topology_table.set(
                    i,
                    (mac, TopologyEntry { neighbors, sequence, timestamp: now }),
                );
            },
            None => {
                self.topology_table.push(
                    (mac, TopologyEntry { neighbors, sequence, timestamp: now }),
                );
            },
        }
        proof {
            lemma_insert_unique(tv, mac, (nv, sequence, now));
            if has_key(tv, mac) {
                assert(self.table() =~= tv.update(key_index(tv, mac), (mac, (nv, sequence, now))));
            } else {
                assert(self.table() =~= tv.push((mac, (nv, sequence, now))));
            }
        }
    }

    /// Builds this node's next announcement: the sequence number goes up by
    /// one (wrapping), and the message carries the node's MAC address, the
    /// new sequence number and the MAC addresses of the nodes it has heard
    /// of, in table order.
    pub fn generate_tc_message(&mut self) -> (message: Vec<u8>)
        requires
            old(self).state().neighbours@.len() <= MAX_SWARM_SIZE,
        ensures
            final(self).sequence_number() == next_sequence(old(self).sequence_number()),
            final(self).state() == old(self).state(),
            final(self).table() == old(self).table(),
            message@ == tc_message_spec(
                old(self).state().mac,
                final(self).sequence_number(),
                keys_of(old(self).state().neighbours@),
            ),
    {
        self.sequence = self.sequence.wrapping_add(1);
        let mut message: Vec<u8> = Vec::new();
        push_mac(&mut message, self.node_state.mac);
        let s = self.sequence;
        let u: u32 = if s < 0 {
            (s as i64 + 0x1_0000_0000) as u32
        } else {
            s as u32
        };
        message.push((u / 0x100_0000) as u8);
        message.push(((u / 0x1_0000) % 256) as u8);
        message.push(((u / 0x100) % 256) as u8);
        message.push((u % 256) as u8);
        let ghost head = message@;
        assert(head =~= key_bytes(self.node_state.mac as int) + be_bytes_i32(s));
        let keys = self.node_state.neighbours.keys();
        for i in 0..keys.len()
            invariant
                message@ == head + concat_macs(keys@.take(i as int)),
        {
            assert(keys@.take(i + 1).drop_last() =~= keys@.take(i as int));
            push_mac(&mut message, keys[i]);
            assert(message@ =~= head + concat_macs(keys@.take(i + 1)));
        }
        assert(keys@.take(keys.len() as int) =~= keys@);
        message
    }
}

} // verus!
