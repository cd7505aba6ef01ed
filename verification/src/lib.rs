//! Verified solver for the valve-network pressure puzzle: a parsed network of
//! named valves with flow rates and tunnels, a breadth-first summary of the
//! shortest routes to every useful valve, and an exhaustive turn-bounded
//! search for the move sequence that releases the most pressure.

pub mod parse;
pub mod model;
pub mod network;
pub mod search;

pub use parse::{Name, NameMap, Valve, MAX_NAME};
pub use network::{Connections, Network, NetworkError, Path};
pub use search::{with_state, Actor, InProgressMove, Move, State, StateInner};
