use vstd::prelude::*;

verus! {

/// The port incoming peers are accepted on, and announced, by default.
pub const DEFAULT_LISTENING_PORT: u16 = 6881;

/// Settings read from the configuration file. It has none yet.
#[derive(Clone, Copy, Debug, Default)]
pub struct FileConfig {}

/// Settings from the command line, with the configuration file merged in.
#[derive(Clone, Debug)]
pub struct CliArgsConfig {
    pub file: FileConfig,
    /// The `.torrent` file to download.
    pub torrent_file: String,
    /// Where to read settings from instead of the default location.
    pub config_file: Option<String>,
    pub listening_port: u16,
}

impl CliArgsConfig {
    /// Takes in what the configuration file says. The command line wins
    /// wherever both speak; the file has no settings of its own yet, so
    /// nothing changes.
    pub fn merge(&mut self, other: FileConfig)
        ensures
            *final(self) == *old(self),
    {
        let _ = other;
    }
}

} // verus!
