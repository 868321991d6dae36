use vstd::prelude::*;

verus! {

/// Settings of the service process.
#[derive(Debug, Default, Clone)]
pub struct Config {
    pub environment: String,
    pub database_url: String,
    pub database_max_connections: u32,
    pub database_min_connections: u32,
    pub service_host: String,
    pub service_port: String,
    pub auth_jwks_url: String,
}

} // verus!
