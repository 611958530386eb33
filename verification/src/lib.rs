//! Landsraad: the verified core of a Raft-style replicated store. The
//! consensus messages and their payload codec, a node's persistent state
//! and its storage, the consensus node as a deterministic state machine
//! with its model and laws, a replicated key-value state machine, the
//! on-disk layout of a node's state, and the simulated cluster with its
//! safety checker and its generator.

use vstd::prelude::*;

pub mod checker;
pub mod cluster;
pub mod codec;
pub mod kv;
pub mod laws;
pub mod layout;
pub mod message;
pub mod model;
pub mod node;
pub mod rng;
pub mod storage;

pub use checker::{Breach, Checker, Violation};
pub use cluster::{Cluster, Stats};
pub use codec::{decode_payload, encode_payload, CodecError};
pub use kv::{replay, Command, Store};
pub use message::{Entry, Index, Message, NodeId, Term};
pub use model::{Config, ProposeError, Role};
pub use node::{Node, Outgoing};
pub use rng::Rng;
pub use storage::{MemStorage, Persistent, Storage};

verus! {

} // verus!
