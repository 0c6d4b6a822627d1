pub mod application;
pub mod chunk;
pub mod chunk_node;
pub mod client;
pub mod coverage;
pub mod data_holder;
pub mod digest;
pub mod entropy;
pub mod hex;
pub mod http_messages;
pub mod interval_list;
pub mod manager;
pub mod manager_wrapper;
pub mod managers;
pub mod serialize;
pub mod server_simulator;
pub mod text;
