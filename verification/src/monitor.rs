//! The record kept by the polling monitor.
use vstd::prelude::*;
use std::time::Instant;

verus! {

/// What the polling monitor knows of the game server.
#[derive(Debug)]
pub struct ServerState {
    pub is_running: bool,
    pub current_map: Option<String>,
    pub last_status: Option<String>,
    pub last_updated: Option<Instant>,
}

impl ServerState {
    /// A state in which the server is not known to run and nothing else is
    /// known.
    pub fn new() -> (s: Self)
        ensures
            !s.is_running,
            s.current_map is None,
            s.last_status is None,
            s.last_updated is None,
    {
        ServerState { is_running: false, current_map: None, last_status: None, last_updated: None }
    }
}

} // verus!
