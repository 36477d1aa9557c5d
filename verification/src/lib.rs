//! Core of a card-rating service: admission gating for rating submissions,
//! catalog validation, optimistic increment with a single backfill retry,
//! and the SQL text builders the storage layer consumes.

pub mod collections;
pub mod db;
pub mod init_db;
pub mod gate;
pub mod server;
pub mod util;
pub mod sqltext;
