pub mod authentication;
pub mod binary;
pub mod client;
pub mod codec;
pub mod internal_queue_file_manager;
pub mod models;
pub mod queue;
pub mod queue_server;
