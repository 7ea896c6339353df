//! Extraction of per-block state-diff datasets into column tables.
//!
//! The library holds the logic of the pipeline: resolving which columns a
//! dataset materialises, reconciling state diffs into from/to pairs, growing
//! row-aligned column accumulators, assembling and sorting tables, and the
//! decisions of the fetch and collect stages.
pub mod schema;
pub mod table;
pub mod diffs;
pub mod order;
pub mod collect;
pub mod fetch;
pub mod datasets;
