//! Infers a structural schema from sample documents and renders it as type declarations.

pub mod schema;
