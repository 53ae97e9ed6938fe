//! `byssusd`, the daemon.
use vstd::prelude::*;
use vstd::string::*;

use crate::app::ConfigSource;
use crate::daemon::Options;
use crate::logging::LogLevel;

verus! {

/// Arguments of the daemon.
#[derive(Debug)]
pub struct Cli {
    /// Main configuration file.
    pub config: Option<String>,
    /// Drop-in configuration directory.
    pub config_dir: Option<String>,
    /// Log level.
    pub log_level: LogLevel,
    /// Service user to switch to when started as root (overrides daemon.user).
    pub user: Option<String>,
    /// Permit running as UID 0 without a service user (development and tests).
    pub allow_root: bool,
    /// Permit target roots on slave mounts (normally a sign that the daemon
    /// runs in a non-host mount namespace).
    pub allow_slave_namespace: bool,
}

impl Cli {
    /// The options that these arguments select.
    pub fn into_options(self) -> (r: Options)
        ensures
            r == (Options {
                config: ConfigSource { file: self.config, dir: self.config_dir },
                user: self.user,
                allow_root: self.allow_root,
                allow_slave_namespace: self.allow_slave_namespace,
            }),
    {
        Options {
            config: ConfigSource { file: self.config, dir: self.config_dir },
            user: self.user,
            allow_root: self.allow_root,
            allow_slave_namespace: self.allow_slave_namespace,
        }
    }
}

} // verus!
