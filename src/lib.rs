//! Per-timeline layered page storage: in-memory and on-disk layers, the
//! layer map, the read path that reconstructs page versions, freezing and
//! flushing, level-0 compaction, and garbage collection; and the decisions of
//! the proxy's password authentication through the cloud console.
pub mod value;
pub mod layer;
pub mod inmemory_layer;
pub mod layer_map;
pub mod timeline;
pub mod repository;
pub mod gc;
pub mod compaction;
pub mod maintenance;
pub mod legacy_console;
pub mod text;
pub mod filename;
