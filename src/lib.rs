//! Text storage behind a swappable backend, and resolution of path patterns
//! whose last component may carry `*` and `?` wildcards.

pub mod error;
pub mod wildcard;
pub mod listing;
pub mod memory;
pub mod path;
