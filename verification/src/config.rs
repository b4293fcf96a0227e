//! The settings that a drive is opened with.
use vstd::prelude::*;

verus! {

/// The config, which should be stored in /etc/discorhdd/config.toml
#[derive(Debug, Clone)]
pub struct Config {
    /// A discord bot token
    pub token: String,
    /// A guild channel which the bot can read and write to
    pub channel: u64,
}

impl Default for Config {
    /// An empty token and channel 0.
    fn default() -> (c: Self)
        ensures
            c.token@ == Seq::<char>::empty(),
            c.channel == 0,
    {
        Config { token: String::new(), channel: 0 }
    }
}

} // verus!
