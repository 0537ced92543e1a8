//! A small static-file and CGI web server: configuration handling, request
//! parsing, response building and the routing tables behind them.

pub mod args;
pub mod config;
pub mod connection;
pub mod files;
pub mod hosts;
pub mod interface;
pub mod ip;
pub mod options;
pub mod table;
pub mod text;
pub mod utils;
