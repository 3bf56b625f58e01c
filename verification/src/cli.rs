//! The command line, as the program reads it, and the UI it asks for.
use vstd::prelude::*;

verus! {

/// The UI asked for with the (older) global option.
#[derive(Clone, Copy, Debug, PartialEq, Eq, Structural)]
pub enum UiType {
    Stdout,
    External,
}

/// The UI a daemon drives.
#[derive(Clone, Copy, Debug, PartialEq, Eq, Structural)]
pub enum UiConfig {
    Stdout,
    External { window_size_provided: bool },
}

/// What to run.
pub enum Commands {
    /// A daemon on the standard streams.
    Stdio { ui: Option<UiConfig> },
    /// A daemon on a unix domain socket.
    Unix { path: String, ui: Option<UiConfig> },
    /// A test bench, which has no UI.
    Testbed,
}

/// The command line.
pub struct Cli {
    pub command: Commands,
    pub ui: Option<UiType>,
}

impl Commands {
    /// The UI a daemon command asks for (the terminal by default).
    pub fn ui(&self) -> (r: UiConfig)
        requires
            !(self is Testbed),
        ensures
            match self {
                Commands::Stdio { ui } => r == ui.unwrap_or(UiConfig::Stdout),
                Commands::Unix { ui, .. } => r == ui.unwrap_or(UiConfig::Stdout),
                Commands::Testbed => false,
            },
    {
        match self {
            Commands::Stdio { ui } => match ui {
                Some(config) => *config,
                None => UiConfig::Stdout,
            },
            Commands::Unix { ui, .. } => match ui {
                Some(config) => *config,
                None => UiConfig::Stdout,
            },
            Commands::Testbed => {
                proof {
                    assert(false);
                }
                UiConfig::Stdout
            },
        }
    }
}

impl Cli {
    /// The UI asked for: the global option when given (an external UI then
    /// does not provide the window size), else that of the command.
    pub fn ui(&self) -> (r: UiConfig)
        requires
            self.ui is None ==> !(self.command is Testbed),
        ensures
            match self.ui {
                Some(UiType::Stdout) => r == UiConfig::Stdout,
                Some(UiType::External) => r == (UiConfig::External { window_size_provided: false }),
                None => match self.command {
                    Commands::Stdio { ui } => r == ui.unwrap_or(UiConfig::Stdout),
                    Commands::Unix { ui, .. } => r == ui.unwrap_or(UiConfig::Stdout),
                    Commands::Testbed => false,
                },
            },
    {
        match self.ui {
            Some(UiType::Stdout) => UiConfig::Stdout,
            Some(UiType::External) => UiConfig::External { window_size_provided: false },
            None => self.command.ui(),
        }
    }
}

} // verus!
