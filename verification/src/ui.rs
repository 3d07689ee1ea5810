//! State of the monitoring UI: the latest layout, per-node performance, and
//! a status line, updated from the events the MQTT reader produces.
use vstd::prelude::*;
use crate::metrics::{NodePerfState, PerformanceMetrics, TelemetryMessage, MOVING_AVG_WINDOW};
use vstd::string::StrSliceExecFns;

verus! {

/// An event for the UI.
pub enum UiEvent {
    /// A new layout of the swarm.
    Positions(Vec<(i32, i32)>),
    /// Performance figures from node `node_id`.
    Perf { node_id: String, metrics: PerformanceMetrics },
    /// A status message.
    Error(String),
}

/// What the UI shows.
pub struct AppState {
    pub positions: Option<Vec<(i32, i32)>>,
    pub perf_nodes: Vec<(String, NodePerfState)>,
    pub status: String,
}

/// The node ids in an entry list.
pub open spec fn node_ids(s: Seq<(String, NodePerfState)>) -> Seq<Seq<char>> {
    s.map_values(|e: (String, NodePerfState)| e.0@)
}

impl AppState {
    /// Performance state per node, in arrival order of the nodes.
    pub open spec fn perf(&self) -> Seq<(String, NodePerfState)> {
        self.perf_nodes@
    }

    /// No node twice, and every node's windows within their bound.
    pub open spec fn wf(&self) -> bool {
        &&& node_ids(self.perf()).no_duplicates()
        &&& forall|i: int| 0 <= i < self.perf().len() ==> (#[trigger] self.perf()[i]).1.wf()
    }

    /// Nothing received yet.
    pub fn new() -> (s: AppState)
        ensures
            s.positions is None,
            s.perf().len() == 0,
            s.status@ == "Waiting for data..."@,
            s.wf(),
    {
        let s = AppState {
            positions: None,
            perf_nodes: Vec::new(),
            status: "Waiting for data...".to_owned(),
        };
        assert(node_ids(s.perf()) =~= Seq::<Seq<char>>::empty());
        s
    }

    /// Applies an event: a layout replaces the shown one; performance
    /// figures update the node's entry (created on first sight); a message
    /// replaces the status line.
    pub fn handle(&mut self, event: UiEvent)
        requires
            old(self).wf(),
        ensures
            final(self).wf(),
            match event {
                UiEvent::Positions(pos) => {
                    &&& final(self).positions == Some(pos)
                    &&& final(self).perf() == old(self).perf()
                    &&& final(self).status == old(self).status
                },
                UiEvent::Perf { node_id, metrics } => {
                    &&& final(self).positions == old(self).positions
                    &&& final(self).status == old(self).status
                    &&& if node_ids(old(self).perf()).contains(node_id@) {
                        let i = node_ids(old(self).perf()).index_of(node_id@);
                        let old_entry = old(self).perf()[i].1;
                        &&& final(self).perf().len() == old(self).perf().len()
                        &&& forall|j: int|
                            0 <= j < old(self).perf().len() && j != i ==> #[trigger] final(self).perf()[j] == old(self).perf()[j]
                        &&& final(self).perf()[i].0@ == node_id@
                        &&& final(self).perf()[i].1.latest == metrics
                        &&& final(self).perf()[i].1.broadcast_avg.window() == (if old_entry.broadcast_avg.window().len() >= MOVING_AVG_WINDOW {
                            old_entry.broadcast_avg.window().drop_first()
                        } else {
                            old_entry.broadcast_avg.window()
                        }).push(metrics.broadcast_hello_cycles)
                        &&& final(self).perf()[i].1.process_avg.window() == (if old_entry.process_avg.window().len() >= MOVING_AVG_WINDOW {
                            old_entry.process_avg.window().drop_first()
                        } else {
                            old_entry.process_avg.window()
                        }).push(metrics.process_packet_hello_cycles)
                        &&& final(self).perf()[i].1.calculate_avg.window() == (if old_entry.calculate_avg.window().len() >= MOVING_AVG_WINDOW {
                            old_entry.calculate_avg.window().drop_first()
                        } else {
                            old_entry.calculate_avg.window()
                        }).push(metrics.calc_state_mds_total_cycles)
                    } else {
                        let n = old(self).perf().len() as int;
                        &&& final(self).perf().len() == n + 1
                        &&& final(self).perf().take(n) == old(self).perf()
                        &&& final(self).perf()[n].0@ == node_id@
                        &&& final(self).perf()[n].1.latest == metrics
                        &&& final(self).perf()[n].1.broadcast_avg.window() == seq![
                            metrics.broadcast_hello_cycles,
                        ]
                        &&& final(self).perf()[n].1.process_avg.window() == seq![
                            metrics.process_packet_hello_cycles,
                        ]
                        &&& final(self).perf()[n].1.calculate_avg.window() == seq![
                            metrics.calc_state_mds_total_cycles,
                        ]
                    }
                },
                UiEvent::Error(msg) => {
                    &&& final(self).positions == old(self).positions
                    &&& final(self).perf() == old(self).perf()
                    &&& final(self).status == msg
                },
            },
    {
        match event {
            UiEvent::Positions(pos) => {
                self.positions = Some(pos);
            },
            UiEvent::Perf { node_id, metrics } => {
                let ghost ids = node_ids(self.perf_nodes@);
                let mut i: usize = 0;
                let mut found = false;
                while i < self.perf_nodes.len() && !found
                    invariant
                        ids == node_ids(self.perf_nodes@),
                        i <= self.perf_nodes.len(),
                        found ==> i < self.perf_nodes.len() && ids[i as int] == node_id@,
                        !found ==> forall|j: int| 0 <= j < i ==> #[trigger] ids[j] != node_id@,
                    decreases self.perf_nodes.len() - i + (if found { 0int } else { 1 }),
                {
                    if self.perf_nodes[i].0 == node_id {
                        found = true;
                    } else {
                        i += 1;
                    }
                }
                if found {
                    proof {
                        assert(ids[i as int] == node_id@);
                        assert(ids.contains(node_id@));
                        let k = ids.index_of(node_id@);
                        assert(ids[k] == node_id@);
                        if k != i {
                            assert(ids.no_duplicates());
                        }
                    }
                    let ghost old_perf = self.perf_nodes@;
                    let mut entry = self.perf_nodes.remove(i);
                    entry.1.update(metrics);
                    self.perf_nodes.insert(i, entry);
                    proof {
                        let np = self.perf_nodes@;
                        assert(np == old_perf.remove(i as int).insert(i as int, entry));
                        assert forall|j: int| 0 <= j < old_perf.len() && j != i implies #[trigger] np[j]
                            == old_perf[j] by {
                            if j < i {
                            } else {
                                assert(np[j] == old_perf.remove(i as int)[j - 1]);
                            }
                        }
                        assert(node_ids(np) =~= ids);
                    }
                } else {
                    proof {
                        assert(!ids.contains(node_id@));
                    }
                    let ghost old_perf = self.perf_nodes@;
                    let state = NodePerfState::new(metrics);
                    self.perf_nodes.push((node_id, state));
                    proof {
                        assert(self.perf_nodes@.take(old_perf.len() as int) =~= old_perf);
                        assert(node_ids(self.perf_nodes@) =~= ids.push(node_id@));
                    }
                }
            },
            UiEvent::Error(msg) => {
                self.status = msg;
            },
        }
    }
}

/// Index of the first `/` in `t`, if any.
pub open spec fn first_slash(t: Seq<char>) -> Option<int>
    decreases t.len(),
{
    if t.len() == 0 {
        None
    } else if t[0] == '/' {
        Some(0)
    } else {
        match first_slash(t.drop_first()) {
            Some(i) => Some(i + 1),
            None => None,
        }
    }
}

/// The second `/`-separated field of a topic (`telemetry/<node>` gives
/// `<node>`), or `?` when the topic has no `/`.
pub open spec fn topic_node_spec(t: Seq<char>) -> Seq<char> {
    match first_slash(t) {
        None => seq!['?'],
        Some(i) => {
            let rest = t.skip(i + 1);
            match first_slash(rest) {
                Some(j) => rest.take(j),
                None => rest,
            }
        },
    }
}

proof fn lemma_first_slash(t: Seq<char>, i: int)
    requires
        0 <= i <= t.len(),
        forall|k: int| 0 <= k < i ==> t[k] != '/',
    ensures
        i < t.len() && t[i] == '/' ==> first_slash(t) == Some(i),
        i == t.len() ==> first_slash(t) is None,
    decreases i,
{
    if i > 0 {
        lemma_first_slash(t.drop_first(), i - 1);
    }
}

/// Position of the first `/` in `s` at or after `from`, relative to `from`.
fn find_slash(s: &str, from: usize, n: usize) -> (r: Option<usize>)
    requires
        n == s@.len(),
        from <= n,
    ensures
        match r {
            Some(j) => first_slash(s@.skip(from as int)) == Some(j as int) && from + j < n,
            None => first_slash(s@.skip(from as int)) is None,
        },
{
    let ghost t = s@.skip(from as int);
    let mut i = from;
    while i < n
        invariant
            n == s@.len(),
            from <= i <= n,
            t == s@.skip(from as int),
            forall|k: int| 0 <= k < i - from ==> t[k] != '/',
        decreases n - i,
    {
        if s.get_char(i) == '/' {
            proof {
                lemma_first_slash(t, i - from);
            }
            return Some(i - from);
        }
        i += 1;
    }
    proof {
        lemma_first_slash(t, i - from);
    }
    None
}

/// The node a telemetry topic belongs to: the text between the first and
/// the second `/` (or the end), and `?` when there is no `/`.
pub fn topic_node(topic: &str) -> (r: String)
    ensures
        r@ == topic_node_spec(topic@),
{
    let n = topic.unicode_len();
    proof {
        assert(topic@.skip(0) =~= topic@);
    }
    match find_slash(topic, 0, n) {
        None => {
            proof {
                reveal_strlit("?");
            }
            "?".to_owned()
        },
        Some(i) => {
            let start = i + 1;
            let ghost rest = topic@.skip(start as int);
            match find_slash(topic, start, n) {
                Some(j) => {
                    let r = topic.substring_char(start, start + j).to_owned();
                    assert(r@ =~= rest.take(j as int));
                    r
                },
                None => {
                    let r = topic.substring_char(start, n).to_owned();
                    assert(r@ =~= rest);
                    r
                },
            }
        },
    }
}

/// What the UI makes of a message from node `node_id`: a layout only from
/// node `0`, performance figures from every node, log lines ignored.
pub open spec fn message_event_spec(node_id: String, msg: TelemetryMessage) -> Option<UiEvent> {
    match msg {
        TelemetryMessage::Mds(p) => if node_id@ == seq!['0'] {
            Some(UiEvent::Positions(p))
        } else {
            None
        },
        TelemetryMessage::Perf(m) => Some(UiEvent::Perf { node_id, metrics: m }),
        TelemetryMessage::Log { .. } => None,
    }
}

/// The UI event for a decoded message from node `node_id`, if any.
pub fn message_event(node_id: String, msg: TelemetryMessage) -> (r: Option<UiEvent>)
    ensures
        r == message_event_spec(node_id, msg),
{
    match msg {
        TelemetryMessage::Mds(p) => {
            proof {
                reveal_strlit("0");
            }
            let origin = "0".to_owned();
            assert(origin@ =~= seq!['0']);
            if node_id == origin {
                Some(UiEvent::Positions(p))
            } else {
                None
            }
        },
        TelemetryMessage::Perf(m) => Some(UiEvent::Perf { node_id, metrics: m }),
        TelemetryMessage::Log { .. } => None,
    }
}

} // verus!
