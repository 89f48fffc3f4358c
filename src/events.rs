//! Settings of the input and tick event source that drives a game.
use vstd::prelude::*;

verus! {

/// How often a tick event arrives, in milliseconds.
#[derive(Debug, Clone, Copy)]
pub struct Config {
    pub tick_rate_millis: u64,
}

impl Config {
    /// A tick every quarter second.
    pub fn new() -> (r: Self)
        ensures
            r.tick_rate_millis == 250,
    {
        Config { tick_rate_millis: 250 }
    }
}

} // verus!
