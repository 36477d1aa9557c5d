pub mod init_db;
pub mod store;
