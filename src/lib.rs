//! A peer of a tracker-mediated, chunked file-sharing swarm: the swarm state
//! store, the rarest-first piece selector, the line-based wire codec and the
//! decisions taken by each peer-wire task.
use vstd::prelude::*;

pub mod text;
pub mod meta;
pub mod tables;
pub mod store;
pub mod selector;
pub mod codec;
pub mod parser;
pub mod roundtrip;
pub mod answers;
pub mod wire;
