//! The remote side: the account, its addresses, and what its responses describe.
pub mod core_api;
pub mod course;
pub mod link;
pub mod module;
pub mod query;
