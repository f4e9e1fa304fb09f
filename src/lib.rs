//! Compaction of IPv4 CIDR blocks: normalisation, removal of covered blocks,
//! lossless and tolerance-bounded merging of neighbours, driven to a fixed point.
//!
//! Every function states what it computes in `requires` / `ensures` over the spec
//! functions of its module; `laws` proves what holds of every compaction.

pub mod cidr;
pub mod compact;
pub mod laws;
pub mod merge;
pub mod monotone;
pub mod normalize;
pub mod parse;
pub mod report;
pub mod text;

pub use cidr::{network_address_count, network_covers, network_overlap, Cidr};
pub use compact::merge_ipv4_nets;
pub use merge::{find_covering_supernet, try_merge_exact, try_merge_with_tolerance};
pub use normalize::{remove_covered_nets, sort_and_dedup};
pub use parse::{parse_cidr, parse_ipv4_nets, parse_tolerance};
pub use report::{normalize_for_check, total_addresses};
