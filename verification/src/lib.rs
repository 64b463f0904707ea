//! A content-addressable reconstruction engine: a store that maps
//! cryptographic digests to nodes (raw data, or the concatenation of two
//! other digests' content) and reconstructs the bytes behind any digest
//! while verifying every step of the reconstruction against the digest
//! function.

mod digest;
mod laws;
mod loader;
mod node;
mod resolve;
mod store;

pub use digest::sha256;
pub use digest::sha256_of;
pub use digest::SHA256_MAX_INPUT;
pub use laws::append_node;
pub use laws::balanced_four;
pub use laws::chained_four;
pub use laws::digests_apart;
pub use laws::leaf_node;
pub use laws::lemma_not_found;
pub use laws::lemma_order_sensitivity;
pub use laws::lemma_resolve_append_from;
pub use laws::lemma_resolve_raw_from;
pub use laws::lemma_round_trip;
pub use laws::lemma_shape_independence;
pub use laws::lemma_tamper_detection;
pub use laws::pair_store;
pub use loader::child_list;
pub use loader::child_of;
pub use loader::crawl;
pub use loader::edges_view;
pub use loader::has_row;
pub use loader::hydrate;
pub use loader::is_pruned_path;
pub use loader::leaf_digests;
pub use loader::leaves_view;
pub use loader::lemma_loader_pruning;
pub use loader::load;
pub use loader::load_plan;
pub use loader::loaded_map;
pub use loader::reaches;
pub use loader::rows_at;
pub use loader::staged_edges;
pub use loader::staged_leaves;
pub use loader::unseen_count;
pub use loader::with_digests;
pub use loader::worklist_view;
pub use loader::LoadPlan;
pub use node::raw;
pub use node::AppendEdge;
pub use node::EdgeView;
pub use node::Error;
pub use node::ErrorView;
pub use node::Leaf;
pub use node::LeafView;
pub use node::Node;
pub use node::NodeView;
pub use resolve::checked_content;
pub use resolve::digest_set;
pub use resolve::lemma_resolution_measure;
pub use resolve::resolve;
pub use resolve::resolve_from;
pub use resolve::result_view;
pub use store::distinct_digests;
pub use store::map_of;
pub use store::Digistructor;
