//! A small in-memory key/value store with strings, lists and sets, its
//! command grammar, publish/subscribe channels and server configuration.
pub mod assoc;
pub mod text;
pub mod databasehelper;
pub mod hash_shard;
pub mod clock;
pub mod ttl;
pub mod matcher;
pub mod strvec;
pub mod sorting;
pub mod sortflags;
pub mod database;
pub mod request;
pub mod dispatch;
pub mod channels;
pub mod pubsub;
pub mod conftable;
pub mod server_conf;
pub mod config_parser;
pub mod commands;
pub mod storagevalue;
pub mod database_errors;
pub mod logger;
pub mod session;
pub mod http;
pub mod laws;
