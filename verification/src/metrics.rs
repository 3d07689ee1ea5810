//! Performance figures the nodes report, and their running averages on the
//! monitoring side.
use vstd::prelude::*;
use std::collections::VecDeque;

verus! {

/// CPU clock the firmware runs at (ESP32-C3 at its maximum, 160 MHz): the
/// rate that turns raw cycle counts into time.
pub const CPU_CLOCK_HZ: u64 = 160_000_000;

/// Per-task timings, in raw CPU cycles.
#[derive(Clone, Copy)]
pub struct PerformanceMetrics {
    pub broadcast_hello_cycles: u32,
    pub broadcast_topo_cycles: u32,
    pub process_packet_hello_cycles: u32,
    pub process_packet_topo_cycles: u32,
    pub calc_state_mds_total_cycles: u32,
    pub calc_state_kabsch_cycles: u32,
    pub calc_state_mds_iter_cycles: u32,
    pub calc_state_routing_update_cycles: u32,
    pub calc_state_build_neighbors_cycles: u32,
    pub update_screen_mds_cycles: u32,
    pub update_screen_table_cycles: u32,
}

/// What a node publishes on its telemetry topic.
pub enum TelemetryMessage {
    /// A log line.
    Log { msg: String },
    /// The node's latest layout, one I16F16 `(x, y)` per node.
    Mds(Vec<(i32, i32)>),
    /// The node's latest timings.
    Perf(PerformanceMetrics),
}

/// Every timing is 0.
pub open spec fn all_zero(m: PerformanceMetrics) -> bool {
    &&& m.broadcast_hello_cycles == 0
    &&& m.broadcast_topo_cycles == 0
    &&& m.process_packet_hello_cycles == 0
    &&& m.process_packet_topo_cycles == 0
    &&& m.calc_state_mds_total_cycles == 0
    &&& m.calc_state_kabsch_cycles == 0
    &&& m.calc_state_mds_iter_cycles == 0
    &&& m.calc_state_routing_update_cycles == 0
    &&& m.calc_state_build_neighbors_cycles == 0
    &&& m.update_screen_mds_cycles == 0
    &&& m.update_screen_table_cycles == 0
}

impl PerformanceMetrics {
    /// All timings at 0.
    pub fn new() -> (m: PerformanceMetrics)
        ensures
            all_zero(m),
    {
        PerformanceMetrics {
            broadcast_hello_cycles: 0,
            broadcast_topo_cycles: 0,
            process_packet_hello_cycles: 0,
            process_packet_topo_cycles: 0,
            calc_state_mds_total_cycles: 0,
            calc_state_kabsch_cycles: 0,
            calc_state_mds_iter_cycles: 0,
            calc_state_routing_update_cycles: 0,
            calc_state_build_neighbors_cycles: 0,
            update_screen_mds_cycles: 0,
            update_screen_table_cycles: 0,
        }
    }
}

impl Default for PerformanceMetrics {
    /// All timings at 0, as `new`.
    fn default() -> (m: PerformanceMetrics)
        ensures
            all_zero(m),
    {
        PerformanceMetrics::new()
    }
}

/// Cycles elapsed from reading `start` to reading `now` on the 32-bit
/// cycle counter, which wraps (about every 26.8 s at 160 MHz).
pub fn cycles_since(start: u32, now: u32) -> (d: u32)
    ensures
        d == (if now >= start {
            now - start
        } else {
            now - start + 0x1_0000_0000
        }),
{
    now.wrapping_sub(start)
}

/// Over any span shorter than the counter's period the wrapping difference
/// is the exact number of cycles elapsed.
pub proof fn lemma_cycles_since_exact(start: u32, elapsed: int)
    requires
        0 <= elapsed < 0x1_0000_0000,
    ensures
        ({
            let now = ((start + elapsed) % 0x1_0000_0000) as u32;
            (if now >= start {
                now - start
            } else {
                now - start + 0x1_0000_0000
            }) == elapsed
        }),
{
}

/// The window after pushing `v`: the oldest value leaves when the window
/// is full.
pub open spec fn push_window(w: Seq<u32>, v: u32) -> Seq<u32> {
    (if w.len() >= MOVING_AVG_WINDOW {
        w.drop_first()
    } else {
        w
    }).push(v)
}

/// The window after pushing each of `vs` in turn.
pub open spec fn push_all(w: Seq<u32>, vs: Seq<u32>) -> Seq<u32>
    decreases vs.len(),
{
    if vs.len() == 0 {
        w
    } else {
        push_window(push_all(w, vs.drop_last()), vs.last())
    }
}

/// The last `MOVING_AVG_WINDOW` elements of `s` (all of them if fewer).
pub open spec fn last_window(s: Seq<u32>) -> Seq<u32> {
    if s.len() <= MOVING_AVG_WINDOW {
        s
    } else {
        s.skip(s.len() - MOVING_AVG_WINDOW)
    }
}

/// Starting from an empty window, the window holds the last
/// `MOVING_AVG_WINDOW` values pushed, oldest first.
pub proof fn lemma_window_holds_last(vs: Seq<u32>)
    ensures
        push_all(Seq::empty(), vs) == last_window(vs),
    decreases vs.len(),
{
    if vs.len() > 0 {
        lemma_window_holds_last(vs.drop_last());
        let prev = last_window(vs.drop_last());
        if vs.len() <= MOVING_AVG_WINDOW {
            assert(prev.push(vs.last()) =~= vs);
        } else if vs.len() == MOVING_AVG_WINDOW + 1 {
            assert(prev.drop_first().push(vs.last()) =~= vs.skip(vs.len() - MOVING_AVG_WINDOW));
        } else {
            assert(prev.drop_first().push(vs.last()) =~= vs.skip(vs.len() - MOVING_AVG_WINDOW));
        }
    }
}

/// Length of the moving-average window.
pub const MOVING_AVG_WINDOW: usize = 20;

/// The last `MOVING_AVG_WINDOW` values pushed, oldest first.
pub struct MovingAvg {
    buf: VecDeque<u32>,
}

impl MovingAvg {
    /// The values in the window, oldest first.
    pub closed spec fn window(&self) -> Seq<u32> {
        self.buf@
    }

    /// The window never holds more than `MOVING_AVG_WINDOW` values.
    pub open spec fn wf(&self) -> bool {
        self.window().len() <= MOVING_AVG_WINDOW
    }

    /// An empty window.
    pub fn new() -> (m: MovingAvg)
        ensures
            m.window() == Seq::<u32>::empty(),
            m.wf(),
    {
        MovingAvg { buf: VecDeque::new() }
    }

    /// Adds `value`, dropping the oldest value when the window is full.
    pub fn push(&mut self, value: u32)
        requires
            old(self).wf(),
        ensures
            final(self).wf(),
            final(self).window() == push_window(old(self).window(), value),
    {
        if self.buf.len() >= MOVING_AVG_WINDOW {
            self.buf.pop_front();
        }
        self.buf.push_back(value);
    }

    /// Number of values in the window.
    pub fn len(&self) -> (r: usize)
        ensures
            r == self.window().len(),
    {
        self.buf.len()
    }

    /// Sum of the values in the window, wrapping at `u32::MAX` (the sum the
    /// average is taken of).
    pub fn total(&self) -> (r: u32)
        ensures
            r == sum_u32(self.window()),
    {
        let mut s: u32 = 0;
        let n = self.buf.len();
        for i in 0..n
            invariant
                n == self.window().len(),
                s == sum_u32(self.window().take(i as int)),
        {
            assert(self.window().take(i + 1).drop_last() =~= self.window().take(i as int));
            s = s.wrapping_add(self.buf[i]);
        }
        assert(self.window().take(n as int) =~= self.window());
        s
    }
}

/// Wrapping sum of `s`.
pub open spec fn sum_u32(s: Seq<u32>) -> u32
    decreases s.len(),
{
    if s.len() == 0 {
        0
    } else {
        ((sum_u32(s.drop_last()) + s.last()) % 0x1_0000_0000) as u32
    }
}

/// A node's latest metrics and the moving averages of three of them.
pub struct NodePerfState {
    pub latest: PerformanceMetrics,
    pub broadcast_avg: MovingAvg,
    pub process_avg: MovingAvg,
    pub calculate_avg: MovingAvg,
}

impl NodePerfState {
    /// The windows are within their bound.
    pub open spec fn wf(&self) -> bool {
        self.broadcast_avg.wf() && self.process_avg.wf() && self.calculate_avg.wf()
    }

    /// State after the first sample `metrics`.
    pub fn new(metrics: PerformanceMetrics) -> (s: NodePerfState)
        ensures
            s.wf(),
            s.latest == metrics,
            s.broadcast_avg.window() == seq![metrics.broadcast_hello_cycles],
            s.process_avg.window() == seq![metrics.process_packet_hello_cycles],
            s.calculate_avg.window() == seq![metrics.calc_state_mds_total_cycles],
    {
        let mut state = NodePerfState {
            latest: metrics,
            broadcast_avg: MovingAvg::new(),
            process_avg: MovingAvg::new(),
            calculate_avg: MovingAvg::new(),
        };
        state.update(metrics);
        assert(state.broadcast_avg.window() =~= seq![metrics.broadcast_hello_cycles]);
        assert(state.process_avg.window() =~= seq![metrics.process_packet_hello_cycles]);
        assert(state.calculate_avg.window() =~= seq![metrics.calc_state_mds_total_cycles]);
        state
    }

    /// Records a new sample.
    pub fn update(&mut self, metrics: PerformanceMetrics)
        requires
            old(self).wf(),
        ensures
            final(self).wf(),
            final(self).latest == metrics,
            final(self).broadcast_avg.window() == push_window(old(self).broadcast_avg.window(), metrics.broadcast_hello_cycles),
            final(self).process_avg.window() == push_window(old(self).process_avg.window(), metrics.process_packet_hello_cycles),
            final(self).calculate_avg.window() == push_window(old(self).calculate_avg.window(), metrics.calc_state_mds_total_cycles),
    {
        self.latest = metrics;
        self.broadcast_avg.push(metrics.broadcast_hello_cycles);
        self.process_avg.push(metrics.process_packet_hello_cycles);
        self.calculate_avg.push(metrics.calc_state_mds_total_cycles);
    }
}

} // verus!
