pub mod address;
pub mod connection_counts;
pub mod types;
