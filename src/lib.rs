//! An in-memory cache of a labeled property graph, with the dictionary
//! loader that describes its node and edge types, and a denormalizer that
//! folds a declarative type tree over the graph into nested documents.

pub mod assoc;
pub mod builders;
pub mod datamodel;
pub mod doc;
pub mod edge;
pub mod errors;
pub mod graph;
pub mod node;
pub mod resolver;
pub mod text;
