//! The locations an invocation works with, resolved once at startup by
//! the caller (the location resolver owns the home-directory lookup and
//! the configuration file) and passed by reference into every engine
//! call: no hidden process-wide state.

use vstd::prelude::*;

verus! {

/// The configured trash location, as the configuration file persists it.
pub struct Config {
    pub path_to_trash: Vec<u8>,
}

impl Config {
    /// A configuration pointing at the given trash directory path.
    pub fn new(path_to_trash: Vec<u8>) -> (c: Self)
        ensures
            c.path_to_trash@ == path_to_trash@,
    {
        Config { path_to_trash }
    }
}

/// The resolved context for one invocation: where the configuration
/// file, the trash directory and the restore record file live.
pub struct Utils {
    pub config_file: Vec<u8>,
    pub trash_dir: Vec<u8>,
    pub restore_config_file: Vec<u8>,
}

impl Utils {
    /// A context holding the three resolved locations.
    pub fn new(config_file: Vec<u8>, trash_dir: Vec<u8>, restore_config_file: Vec<u8>) -> (u: Self)
        ensures
            u.config_file@ == config_file@,
            u.trash_dir@ == trash_dir@,
            u.restore_config_file@ == restore_config_file@,
    {
        Utils { config_file, trash_dir, restore_config_file }
    }
}

} // verus!
