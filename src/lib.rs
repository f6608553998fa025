//! A replicated in-memory key/value cache: sequence numbering, per-peer
//! delivery views, anti-entropy gap detection and a last-writer-wins store
//! with expiry.

pub mod cluster_view;
pub mod config;
pub mod distributed_cache;
pub mod error;
pub mod local_cache;
pub mod local_sequence;
pub mod node_view;
pub mod peer_token;
mod skipmap;
mod sort;
pub mod util;

pub use cluster_view::ClusterStateView;
pub use distributed_cache::DistributedCache;
pub use error::ApiErrorMapper;
pub use error::ClachelessError;
pub use error::ClachelessErrorKind;
pub use local_cache::CacheEntry;
pub use local_cache::CacheEntryAndKey;
pub use local_cache::LocalCache;
pub use local_sequence::LocalSequence;
pub use node_view::NodeView;
