//! The server's configuration file, as the application reads it: where the
//! site lives, where uploads go, the listening instances, aliases and CGI
//! interpreters.

pub mod parser;

use vstd::prelude::*;

verus! {

/// The whole configuration.
pub struct Config {
    pub path: String,
    pub uploads: String,
    pub servers: ServerConfig,
    pub cgi: CommonGatewayInterface,
}

/// The `servers` table: the index file, the page for unknown paths, the
/// instances, and optional aliases. An alias whose value is not text holds
/// `None`.
pub struct ServerConfig {
    pub index: String,
    pub not_found: String,
    pub instance: Vec<Server>,
    pub aliases: Option<Vec<(String, Option<String>)>>,
}

/// The `cgi` table: file extensions bound to interpreters. A binding whose
/// value is not text holds `None`.
pub struct CommonGatewayInterface {
    pub bindings: Option<Vec<(String, Option<String>)>>,
}

/// One listening instance: an address, its ports and the host names that it
/// answers to.
pub struct Server {
    pub address: String,
    pub ports: Vec<u32>,
    pub hosts: Option<Vec<String>>,
}

} // verus!
