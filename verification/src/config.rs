//! Process configuration as plain data.
//!
//! The runtime reads these values at bootstrap from whatever source it
//! uses and hands them in; the library only fixes their shape.

use vstd::prelude::*;

verus! {

/// Where the shared state store is reached, and with what credentials.
pub struct Redis {
    pub host: String,
    pub port: u16,
    pub username: Option<String>,
    pub password: Option<String>,
}

/// Where the search index is reached.
pub struct MeiliSearch {
    pub address: String,
    pub api_key: String,
}

/// How outbound mail is sent.
pub struct Email {
    pub username: String,
    pub password: String,
    pub relay: String,
    pub port: u16,
}

/// Everything a process needs to come up.
pub struct Config {
    pub name: String,
    pub host: String,
    pub port: u16,
    pub redis: Redis,
    pub meilisearch: MeiliSearch,
    pub email: Email,
}

} // verus!
