//! Association-rule mining over two populations of categorical records.
//!
//! Records are expanded into generalized patterns (some fields replaced by a
//! wildcard), the patterns are counted per population, either exactly or with
//! the bounded-memory Space-Saving summary, and the two frequency tables are
//! compared by support and risk ratio.

pub mod error;
pub mod order;
pub mod pattern;
pub mod space_saving;
pub mod table;
pub mod exact;
pub mod stats;
pub mod analysis;
pub mod vocabulary;
pub mod replay;
