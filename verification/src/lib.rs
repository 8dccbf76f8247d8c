//! Decision logic of a compiler cache.

pub mod age;
pub mod clock;
pub mod command;
pub mod context;
pub mod disk_eviction;
pub mod eviction;
pub mod eviction_laws;
pub mod fscache;
pub mod graph;
pub mod hash;
pub mod key_laws;
pub mod keys;
pub mod order;
pub mod path;
pub mod path_laws;
pub mod probe;
pub mod remap;
pub mod request;
pub mod request_apart;
pub mod request_cache;
pub mod request_cache_laws;
pub mod request_laws;
pub mod root_laws;
pub mod rustc;
pub mod table;
pub mod text;
pub mod wrap;
