//! The command surface of the client: verbs, options and log level.
use vstd::prelude::*;

verus! {

/// How much is logged.
#[derive(Debug, Clone, Copy, PartialEq, Eq, Structural)]
pub enum LogLevel {
    Warn,
    Info,
    Debug,
    Trace,
}

/// Options of `status`.
#[derive(Debug, Clone, Copy, PartialEq, Eq, Structural)]
pub struct StatusOpts {
    /// Print `Updates available: ...` when there are any, nothing otherwise.
    pub print_if_available: bool,
    /// Print JSON.
    pub json: bool,
}

/// Options of `generate-update-metadata`.
#[derive(Debug)]
pub struct GenerateOpts {
    /// Root of the tree to generate metadata for.
    pub sysroot: String,
}

/// Options of `install`.
#[derive(Debug)]
pub struct InstallOpts {
    /// Root to take the payloads from.
    pub src_root: String,
    /// Root to install into.
    pub dest_root: String,
    /// Whole disk to install the BIOS component on.
    pub device: Option<String>,
    /// Rewrite the firmware boot entries.
    pub update_firmware: bool,
    /// Write static GRUB configuration.
    pub with_static_configs: bool,
    /// Also write the boot filesystem UUID for GRUB.
    pub write_uuid: bool,
    /// Install only these components.
    pub components: Option<Vec<String>>,
    /// Pick components by how the system booted.
    pub auto: bool,
}

/// Hidden back-end verbs.
#[derive(Debug)]
pub enum CtlBackend {
    Generate(GenerateOpts),
    Install(InstallOpts),
}

/// Client verbs.
#[derive(Debug)]
pub enum CtlVerb {
    Backend(CtlBackend),
    Status(StatusOpts),
    Update,
    AdoptAndUpdate,
    Validate,
}

/// A parsed client command line.
#[derive(Debug)]
pub struct CtlCommand {
    /// Number of `-v` flags.
    pub verbosity: u8,
    pub cmd: CtlVerb,
}

/// The operation a command asks for.
#[derive(Debug)]
pub enum CtlAction {
    Status(StatusOpts),
    Update,
    AdoptAndUpdate,
    Validate,
    GenerateUpdateMetadata(GenerateOpts),
    Install(InstallOpts),
}

pub open spec fn loglevel_spec(verbosity: u8) -> LogLevel {
    if verbosity == 0 {
        LogLevel::Warn
    } else if verbosity == 1 {
        LogLevel::Info
    } else if verbosity == 2 {
        LogLevel::Debug
    } else {
        LogLevel::Trace
    }
}

impl CtlCommand {
    /// `Warn` by default, one level more per `-v`, `Trace` from three on.
    pub fn loglevel(&self) -> (r: LogLevel)
        ensures
            r == loglevel_spec(self.verbosity),
    {
        match self.verbosity {
            0 => LogLevel::Warn,
            1 => LogLevel::Info,
            2 => LogLevel::Debug,
            _ => LogLevel::Trace,
        }
    }

    /// The operation this command runs.
    pub fn run(self) -> (r: CtlAction)
        ensures
            match self.cmd {
                CtlVerb::Status(o) => r == CtlAction::Status(o),
                CtlVerb::Update => r == CtlAction::Update,
                CtlVerb::AdoptAndUpdate => r == CtlAction::AdoptAndUpdate,
                CtlVerb::Validate => r == CtlAction::Validate,
                CtlVerb::Backend(CtlBackend::Generate(o)) => r == CtlAction::GenerateUpdateMetadata(o),
                CtlVerb::Backend(CtlBackend::Install(o)) => r == CtlAction::Install(o),
            },
    {
        match self.cmd {
            CtlVerb::Status(o) => CtlAction::Status(o),
            CtlVerb::Update => CtlAction::Update,
            CtlVerb::AdoptAndUpdate => CtlAction::AdoptAndUpdate,
            CtlVerb::Validate => CtlAction::Validate,
            CtlVerb::Backend(CtlBackend::Generate(o)) => CtlAction::GenerateUpdateMetadata(o),
            CtlVerb::Backend(CtlBackend::Install(o)) => CtlAction::Install(o),
        }
    }
}

} // verus!
