pub mod bktree;
pub mod cluster;
pub mod metric;
pub mod monitor;
pub mod unionfind;
