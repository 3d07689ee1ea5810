//! Verified core of a mesh-localisation system: ESP32 nodes measure RSSI
//! to their neighbours, share the measurements, and each node recovers a 2-D
//! layout of the swarm (iterative multidimensional scaling in I16F16 fixed
//! point; a 2-D Kabsch alignment is provided to bring a new layout onto an
//! earlier one) and routes over the measured distances with Dijkstra.
use vstd::prelude::*;

pub mod fixed_point;
pub mod mds;
pub mod kabsch;
pub mod assoc;
pub mod dijkstra;
pub mod mac;
pub mod node_state;
pub mod topology;
pub mod routing;
pub mod packet;
pub mod telemetry;
pub mod metrics;
pub mod screen;
pub mod ui;
pub mod tasks;

verus! {

} // verus!
