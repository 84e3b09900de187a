//! In-memory index of the working-copy state ("dirstate"): a tree of nodes
//! keyed by path component, with per-file entries, copy sources, counters
//! kept in step with the structure, a record-oriented on-disk codec, and a
//! generation-counted gate for handing read-only views to a host.
use vstd::prelude::*;

pub mod entry;
pub mod path;
pub mod codec;
pub mod node;
pub mod path_tree;
pub mod dirstate_map;
pub mod ref_sharing;
