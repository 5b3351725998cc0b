//! The decisions behind `gitalong status`, `claim` and `update`.
pub mod status;
pub mod update;
pub mod claim;
pub mod permissions;

pub use status::{csv_or_dash, format_status, status_record, FileStatus, StatusRecord, StoreIndex};
