//! Configuration values and the command-line surface, as bare data.
//! Reading the environment and parsing arguments happen in the transport
//! layer, which fills these types in and hands them over.

use vstd::prelude::*;

verus! {

/// Application configuration.
pub struct Config {
    /// Port on which the server listens.
    pub server_port: u16,
    /// Routes storage file.
    pub storage_file: String,
    /// Log level (debug, info, warn, error).
    pub log_level: String,
}

impl Config {
    /// The configuration used when the environment sets nothing.
    pub fn defaults() -> (r: Self)
        ensures
            r.server_port == 3000,
            r.storage_file@ == "routes.json"@,
            r.log_level@ == "info"@,
    {
        Config {
            server_port: 3000,
            storage_file: "routes.json".to_owned(),
            log_level: "info".to_owned(),
        }
    }
}

/// The sub-commands of the command line.
pub enum Commands {
    /// Start the mock server.
    Serve { port: Option<u16> },
    /// Add a mock endpoint on a running server.
    Add { method: String, path: String, status: u16, delay_ms: u64, response: String, server: String },
    /// List the endpoints registered on a running server.
    List { server: String },
}

/// The parsed command line.
pub struct Cli {
    pub command: Commands,
}

} // verus!
