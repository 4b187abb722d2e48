//! The text core of a replicated document: an append-only pool of interned
//! text, the registry of containers that share it, the rope that holds the
//! rendered rich text, and the tracker that replays concurrent edits.

pub mod arena;
pub mod bitmap;
pub mod byte_pool;
pub mod chunk;
pub mod convergence;
pub mod effect_list;
pub mod flat;
pub mod fx_maps;
pub mod head_ids;
pub mod id;
pub mod log_store;
pub mod op;
pub mod richtext_state;
pub mod rope;
pub mod rope_query;
pub mod snapshot;
pub mod text;
pub mod text_container;
pub mod text_metrics;
pub mod text_rope;
pub mod tracker;
pub mod tracker_model;
pub mod value;
pub mod version;
pub mod str_arena;
pub mod string_pool;
pub mod style;
