//! Plan-level logic of a query engine: keys of the meta-service, how the
//! partitions of a scan are shuffled over executors, and how column statistics
//! are turned into value domains for pruning.
pub mod kvapi;
pub mod tenant;
pub mod stage_ident;
pub mod str_map;
pub mod partition;
pub mod range_filter;
