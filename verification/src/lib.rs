//! The decisions of a sandbox server, verified: request parsing, authorization,
//! routing, path resolution, sandbox and process bookkeeping, and the plans that the
//! privileged side of the server carries out.

pub mod auth;
pub mod config;
pub mod connection;
pub mod exec;
pub mod files;
pub mod fsutil;
pub mod http;
pub mod isolation;
pub mod json;
pub mod landlock;
pub mod lifecycle;
pub mod number;
pub mod order;
pub mod processes;
pub mod procfs;
pub mod proxy;
pub mod response;
pub mod routes;
pub mod sandboxes;
pub mod server;
pub mod strmap;
pub mod text;
pub mod uids;
pub mod watchdog;
