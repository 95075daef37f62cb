//! The configuration record of the tool: where its parts live and how it
//! words its log lines. A record is made once, at startup, and only read
//! afterwards.

use vstd::prelude::*;

verus! {

/// The locations that the tool works with.
#[derive(Debug)]
pub struct ConfigGlobal {
    /// The absolute location of the tool itself.
    self_path: String,
    /// The location of bash.
    bash_path: String,
    /// The location of the configuration directory.
    config_dir: String,
    /// The location of the state directory.
    state_dir: String,
}

/// What a `ConfigGlobal` holds, as plain values.
pub struct ConfigGlobalView {
    pub self_path: Seq<char>,
    pub bash_path: Seq<char>,
    pub config_dir: Seq<char>,
    pub state_dir: Seq<char>,
}

impl View for ConfigGlobal {
    type V = ConfigGlobalView;

    closed spec fn view(&self) -> ConfigGlobalView {
        ConfigGlobalView {
            self_path: self.self_path@,
            bash_path: self.bash_path@,
            config_dir: self.config_dir@,
            state_dir: self.state_dir@,
        }
    }
}

impl ConfigGlobalView {
    /// The same locations, with bash at `fallback` where none is given here
    /// and a fallback exists.
    pub open spec fn with_bash_fallback(self, fallback: Option<Seq<char>>) -> ConfigGlobalView {
        match fallback {
            Some(path) if self.bash_path.len() == 0 => ConfigGlobalView { bash_path: path, ..self },
            _ => self,
        }
    }
}

impl ConfigGlobal {
    /// A record of the four locations.
    pub fn new(self_path: String, bash_path: String, config_dir: String, state_dir: String) -> (global:
        ConfigGlobal)
        ensures
            global@ == (ConfigGlobalView {
                self_path: self_path@,
                bash_path: bash_path@,
                config_dir: config_dir@,
                state_dir: state_dir@,
            }),
    {
        ConfigGlobal { self_path, bash_path, config_dir, state_dir }
    }

    /// The absolute location of the tool itself.
    pub fn self_path(&self) -> (path: &str)
        ensures
            path@ == self@.self_path,
    {
        self.self_path.as_str()
    }

    /// The location of bash.
    pub fn bash_path(&self) -> (path: &str)
        ensures
            path@ == self@.bash_path,
    {
        self.bash_path.as_str()
    }

    /// The location of the configuration directory.
    pub fn config_dir(&self) -> (path: &str)
        ensures
            path@ == self@.config_dir,
    {
        self.config_dir.as_str()
    }

    /// The location of the state directory.
    pub fn state_dir(&self) -> (path: &str)
        ensures
            path@ == self@.state_dir,
    {
        self.state_dir.as_str()
    }

    /// The same locations, with bash at `fallback` where this record leaves
    /// its location empty. Without a fallback nothing changes.
    pub fn with_bash_fallback(self, fallback: Option<&str>) -> (global: ConfigGlobal)
        ensures
            global@ == self@.with_bash_fallback(
                match fallback {
                    Some(path) => Some(path@),
                    None => None,
                },
            ),
    {
        match fallback {
            Some(path) if self.bash_path.as_str().is_empty() => {
                ConfigGlobal {
                    self_path: self.self_path,
                    bash_path: path.to_owned(),
                    config_dir: self.config_dir,
                    state_dir: self.state_dir,
                }
            },
            _ => self,
        }
    }
}

/// How the tool words its log lines.
#[derive(Debug)]
pub struct ConfigLogging {
    /// The format of an error line.
    error_format: String,
    /// The format of an information line.
    info_format: String,
}

/// What a `ConfigLogging` holds, as plain values.
pub struct ConfigLoggingView {
    pub error_format: Seq<char>,
    pub info_format: Seq<char>,
}

impl View for ConfigLogging {
    type V = ConfigLoggingView;

    closed spec fn view(&self) -> ConfigLoggingView {
        ConfigLoggingView { error_format: self.error_format@, info_format: self.info_format@ }
    }
}

impl ConfigLogging {
    /// A record of the two formats.
    pub fn new(error_format: String, info_format: String) -> (logging: ConfigLogging)
        ensures
            logging@ == (ConfigLoggingView {
                error_format: error_format@,
                info_format: info_format@,
            }),
    {
        ConfigLogging { error_format, info_format }
    }

    /// The format of an error line.
    pub fn error_format(&self) -> (format: &str)
        ensures
            format@ == self@.error_format,
    {
        self.error_format.as_str()
    }

    /// The format of an information line.
    pub fn info_format(&self) -> (format: &str)
        ensures
            format@ == self@.info_format,
    {
        self.info_format.as_str()
    }
}

/// The whole configuration.
#[derive(Debug)]
pub struct Config {
    global: ConfigGlobal,
    logging: ConfigLogging,
}

/// What a `Config` holds, as plain values.
pub struct ConfigView {
    pub global: ConfigGlobalView,
    pub logging: ConfigLoggingView,
}

impl View for Config {
    type V = ConfigView;

    closed spec fn view(&self) -> ConfigView {
        ConfigView { global: self.global@, logging: self.logging@ }
    }
}

impl Config {
    /// A configuration of the two sections.
    pub fn new(global: ConfigGlobal, logging: ConfigLogging) -> (config: Config)
        ensures
            config@ == (ConfigView { global: global@, logging: logging@ }),
    {
        Config { global, logging }
    }

    /// The locations.
    pub fn global(&self) -> (global: &ConfigGlobal)
        ensures
            global@ == self@.global,
    {
        &self.global
    }

    /// The log formats.
    pub fn logging(&self) -> (logging: &ConfigLogging)
        ensures
            logging@ == self@.logging,
    {
        &self.logging
    }

    /// The same configuration, with bash at `fallback` where the record
    /// leaves its location empty. Without a fallback nothing changes.
    pub fn with_bash_fallback(self, fallback: Option<&str>) -> (config: Config)
        ensures
            config@ == (ConfigView {
                global: self@.global.with_bash_fallback(
                    match fallback {
                        Some(path) => Some(path@),
                        None => None,
                    },
                ),
                logging: self@.logging,
            }),
    {
        Config { global: self.global.with_bash_fallback(fallback), logging: self.logging }
    }
}

} // verus!
