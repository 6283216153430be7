//! The integer core of a small on-device document index.
//!
//! A text is embedded as a vector of word counts by hashing (`embed`), the
//! store keeps documents with their embeddings and ranks them for a query
//! (`store`, `rank`), and a store is rebuilt from a saved snapshot
//! (`snapshot`). The services in `service` put the checks of the outside
//! interface in front of the store. `assistant`, `echo` and `cli` hold the
//! rules of the programs around the index.
//!
//! Nothing here computes in floating point, reads a file or waits. A score
//! reaches the library as a key, an integer that grows with the score; the
//! caller turns embeddings into unit vectors, takes their dot product and
//! hands the key over.

pub mod assistant;
pub mod cli;
pub mod echo;
pub mod embed;
pub mod hash;
pub mod rank;
pub mod service;
pub mod snapshot;
pub mod store;
pub mod text;

pub use service::{CoreService, EmbeddingsService, IndexerService};
pub use store::{Document, Hit, VectorIndex};
