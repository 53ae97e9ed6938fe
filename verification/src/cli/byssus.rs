//! `byssus`, the command-line tool.
use vstd::prelude::*;
use vstd::string::*;

use crate::app::ConfigSource;
use crate::config::optional_text;
use crate::logging::{LogLevel, Severity};

verus! {

/// Arguments of the tool.
#[derive(Debug)]
pub struct Cli {
    /// Where configuration is.
    pub config: ConfigArgs,
    /// Log level for diagnostics.
    pub log_level: Option<LogLevel>,
    /// What to do.
    pub command: Command,
}

/// Where configuration is.
#[derive(Debug)]
pub struct ConfigArgs {
    /// Main configuration file.
    pub config: Option<String>,
    /// Drop-in configuration directory.
    pub config_dir: Option<String>,
}

/// Output format.
#[derive(Debug, Clone, Copy, PartialEq, Eq, Structural)]
pub enum Format {
    /// Text.
    Text,
    /// JSON.
    Json,
}

/// What to do.
#[derive(Debug)]
#[allow(inconsistent_fields)]
pub enum Command {
    /// Show every desired or recorded member and its mount state.
    Status {
        /// Output format.
        format: Format,
    },
    /// Validate configuration, kernel, permissions and propagation, and show
    /// what a reconcile would do, without mounting anything.
    DryRun {
        /// Output format.
        format: Format,
    },
    /// Perform one reconciliation pass and exit.
    Reconcile {
        /// Privileges.
        privileges: PrivilegeArgs,
    },
    /// Check whether the configuration would be accepted by a reload,
    /// optionally with drop-in fragments added, replaced or removed.
    Check {
        /// Candidate drop-in fragments.
        add: Vec<String>,
        /// File names of installed drop-in fragments to leave out.
        remove: Vec<String>,
        /// Treat target roots on slave mounts as acceptable.
        allow_slave_namespace: bool,
        /// Output format.
        format: Format,
    },
    /// Print the version.
    Version,
}

/// Privileges of a mounting command.
#[derive(Debug)]
pub struct PrivilegeArgs {
    /// Service user to switch to when started as root (overrides daemon.user).
    pub user: Option<String>,
    /// Permit running as UID 0 without a service user (development and tests).
    pub allow_root: bool,
    /// Permit target roots on slave mounts.
    pub allow_slave_namespace: bool,
}

fn own(s: &Option<String>) -> (r: Option<String>)
    ensures
        optional_text(r) == optional_text(*s),
{
    match s {
        Some(s) => Some(s.clone()),
        None => None,
    }
}

impl ConfigArgs {
    /// The configuration locations these arguments select.
    pub fn source(&self) -> (r: ConfigSource)
        ensures
            optional_text(r.file) == optional_text(self.config),
            optional_text(r.dir) == optional_text(self.config_dir),
    {
        ConfigSource { file: own(&self.config), dir: own(&self.config_dir) }
    }
}

impl Cli {
    /// The log level: what was asked for, or else one that suits the command.
    pub fn level(&self) -> (r: LogLevel)
        ensures
            r == (match self.log_level {
                Some(level) => level,
                None => LogLevel(
                    if self.command is Reconcile {
                        Severity::Info
                    } else {
                        Severity::Warn
                    },
                ),
            }),
    {
        match self.log_level {
            Some(level) => level,
            None => match &self.command {
                Command::Reconcile { .. } => LogLevel(Severity::Info),
                _ => LogLevel(Severity::Warn),
            },
        }
    }
}

} // verus!
