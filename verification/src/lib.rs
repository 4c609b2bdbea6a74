//! An in-process semantic retrieval store: text passages with fixed-point
//! embeddings and a metadata tag, ranked against a query by exact cosine
//! similarity.
//!
//! Embeddings are vectors of signed fixed-point components, quantized from the
//! single-precision numbers an embedding provider returns. Every comparison
//! of two similarities is carried out in integer arithmetic, so ranking is
//! exact and the same on every machine. Talking to an embedding provider,
//! reading documents and writing files are the host's business: the store
//! takes the values it is given and hands back plain values.
pub mod document;
pub mod error;
pub mod filter;
pub mod node;
pub mod quantize;
pub mod ranking;
pub mod similarity;
pub mod store;

pub use document::{node_from_json, node_to_json, nodes_from_json, nodes_to_json, Json};
pub use error::StoreError;
pub use filter::Filter;
pub use node::Node;
pub use quantize::{first_vector, quantize};
pub use ranking::{get_top_k_embeddings, rank_scores, score_all};
pub use similarity::{similarity, squared_norm, Score, MAX_NORM_SQ};
pub use store::{filter_nodes, Snapshot, VectorStore, DEFAULT_TOP_K};
