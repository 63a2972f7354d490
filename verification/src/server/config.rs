//! The server's configuration and what can go wrong with it.

use vstd::prelude::*;

verus! {

/// The server's configuration.
#[derive(Debug)]
pub struct Config {
    /// The file that the server logs to.
    pub logfile: String,
}

impl Clone for Config {
    fn clone(&self) -> (r: Config)
        ensures
            r.logfile@ == self.logfile@,
    {
        Config { logfile: self.logfile.clone() }
    }
}

impl Default for Config {
    fn default() -> (c: Config)
        ensures
            c.logfile@ == "/var/log/somasrv.log"@,
    {
        Config { logfile: String::from_str("/var/log/somasrv.log") }
    }
}

impl Config {
    /// The file that the configuration is read from: the one given, or
    /// `/etc/soma.toml` where none is.
    pub fn path_or_default(given: &Option<String>) -> (path: String)
        ensures
            path@ == match *given {
                Some(p) => p@,
                None => "/etc/soma.toml"@,
            },
    {
        match given {
            Some(p) => p.clone(),
            None => String::from_str("/etc/soma.toml"),
        }
    }

    /// Checks the configuration. Every configuration that can be built is
    /// valid.
    pub fn validate(&self) -> (r: Result<(), ConfigError>)
        ensures
            r is Ok,
    {
        Ok(())
    }
}

/// Why a configuration could not be had. Paths and the causes reported by
/// the system are held as text.
#[derive(Debug)]
pub enum ConfigError {
    FileNotFound(String),
    ReadError(String, String),
    ParseError(String, String),
    WriteError(String, String),
    InvalidLogLevel(String),
    WebrootNotDirectory(String),
    LogDirectoryNotDirectory(String),
    AlreadyInitialized,
}

impl ConfigError {
    /// The error in the words shown to the user.
    pub open spec fn message_text(&self) -> Seq<char> {
        match self {
            ConfigError::FileNotFound(path) => "Configuration file not found: "@ + path@,
            ConfigError::ReadError(path, cause) => "Error reading configuration file "@ + path@
                + ": "@ + cause@,
            ConfigError::ParseError(path, cause) => "Error parsing configuration file "@ + path@
                + ": "@ + cause@,
            ConfigError::WriteError(path, cause) => "Error writing configuration file "@ + path@
                + ": "@ + cause@,
            ConfigError::InvalidLogLevel(level) => "Invalid log level: "@ + level@,
            ConfigError::WebrootNotDirectory(path) => "Webroot path is not a directory: "@
                + path@,
            ConfigError::LogDirectoryNotDirectory(path) =>
                "Log directory path is not a directory: "@ + path@,
            ConfigError::AlreadyInitialized => "SomaSrv is already initialized"@,
        }
    }

    /// A heading, a path, a colon and a cause, in one line.
    fn with_cause(heading: &str, path: &String, cause: &String) -> (m: String)
        ensures
            m@ == heading@ + path@ + ": "@ + cause@,
    {
        let mut m = String::from_str(heading);
        m.append(path.as_str());
        m.append(": ");
        m.append(cause.as_str());
        m
    }

    /// A heading and what it is about, in one line.
    fn with_subject(heading: &str, subject: &String) -> (m: String)
        ensures
            m@ == heading@ + subject@,
    {
        let mut m = String::from_str(heading);
        m.append(subject.as_str());
        m
    }

    /// The error in the words shown to the user.
    pub fn message(&self) -> (m: String)
        ensures
            m@ == self.message_text(),
    {
        match self {
            ConfigError::FileNotFound(path) => Self::with_subject(
                "Configuration file not found: ",
                path,
            ),
            ConfigError::ReadError(path, cause) => Self::with_cause(
                "Error reading configuration file ",
                path,
                cause,
            ),
            ConfigError::ParseError(path, cause) => Self::with_cause(
                "Error parsing configuration file ",
                path,
                cause,
            ),
            ConfigError::WriteError(path, cause) => Self::with_cause(
                "Error writing configuration file ",
                path,
                cause,
            ),
            ConfigError::InvalidLogLevel(level) => Self::with_subject("Invalid log level: ", level),
            ConfigError::WebrootNotDirectory(path) => Self::with_subject(
                "Webroot path is not a directory: ",
                path,
            ),
            ConfigError::LogDirectoryNotDirectory(path) => Self::with_subject(
                "Log directory path is not a directory: ",
                path,
            ),
            ConfigError::AlreadyInitialized => String::from_str("SomaSrv is already initialized"),
        }
    }
}

} // verus!
