//! Bit-packed classification tables.
//!
//! A `FlagSpace` assigns each named boolean flag of a table an exclusive bit
//! position; a `Table` maps a small integer index to the packed set of flags
//! present at that index; accessors (`Flag`, `Any`, `All`, `NoFlagsSet`,
//! `EmptyFlag`) are predicates over a packed value; `merge` combines several
//! tables into one wider table while preserving each source flag's
//! membership at every index.

pub mod access;
pub mod bits;
pub mod domain;
pub mod laws;
pub mod merge;
pub mod space;
pub mod table;

pub use access::{Access, All, Any, EmptyFlag, NoFlagsSet};
pub use domain::ValueDomain;
pub use merge::{merge, MergeSource};
pub use space::{BuildError, Flag, FlagSpace};
pub use table::Table;
