//! Variable-length subnet mask (VLSM) planning for IPv4.
//!
//! A base network is split into contiguous power-of-two blocks, one per
//! requested subnet, largest request first. Every block leaves room for the
//! hosts asked for plus the network and broadcast addresses.
pub mod address;
pub mod allocator;
pub mod error;
pub mod parse;
pub mod sizing;

pub use address::{
    convert_binary_to_cidr, convert_cidr_to_binary, convert_cidr_to_string, convert_prefix_to_mask,
    get_network_id,
};
pub use allocator::{allocate, sort, vlsm, Subnet, VLSM};
pub use error::VlsmError;
pub use parse::network_parser;
pub use sizing::get_allocated_size_and_prefix;
