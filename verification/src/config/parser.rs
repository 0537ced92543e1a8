//! The earlier, smaller layout of the configuration file: a site path, an
//! entry point, aliases and instances.

use vstd::prelude::*;

verus! {

pub struct Config {
    pub path: String,
    pub servers: ServerConfig,
}

pub struct ServerConfig {
    pub entry_point: String,
    pub aliases: Option<Vec<(String, String)>>,
    pub instance: Vec<Server>,
}

pub struct Server {
    pub address: String,
    pub ports: Vec<u32>,
}

} // verus!
