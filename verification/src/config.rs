//! Settings read from the environment by the programs around the library.
use vstd::prelude::*;

verus! {

/// Where the database is and how many connections to keep to it.
#[derive(Debug, Clone)]
pub struct Database {
    pub db_connection_url: String,
    pub db_connection_pool_size: usize,
}

/// Where the upstream game data service answers.
#[derive(Debug, Clone)]
pub struct GrpcClient {
    pub game_data_server_grpc_endpoint_url: String,
}

/// The environment that error reports are filed under.
#[derive(Debug, Clone)]
pub struct Sentry {
    pub environment_name: String,
}

} // verus!
