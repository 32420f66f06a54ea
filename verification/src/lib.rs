//! Route planning over a jump network.
//!
//! From a chosen system the planner travels the longest simple path it can
//! find, returns by a shortest way, takes what it passed out of the graph
//! and starts again, until nothing is left around the start. Every system
//! met on the way is then the start of a detour, planned in the same way
//! through what has not been visited yet. The result is a round trip that
//! visits every system that can be reached from the start.

pub mod system;
pub mod pairs;
pub mod topology;
pub mod restriction;
pub mod journey;
pub mod store;
pub mod builder;
pub mod region;
pub mod search;
pub mod plan;
pub mod rounds;
pub mod planner;
pub mod guarantees;
pub mod diagram;
