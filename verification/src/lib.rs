//! A pluggable text-transformation pipeline: interchangeable normalizer and
//! decoder strategies, composed in sequence, held behind an
//! ownership-flexible container, and persistable to a self-describing byte
//! form — except for the foreign-bridge variant, which delegates to an
//! externally supplied callback and refuses to serialize.

pub mod config;
pub mod container;
pub mod errors;
pub mod foreign;
pub mod persist;
pub mod rules;
pub mod strategy;
pub mod text;
