//! The application's settings: what the `html_snippet` setting, as read from
//! the settings file and the environment, makes of the configuration.

use config::ConfigError;

use vstd::prelude::*;

verus! {

/// The `config` crate's error.
#[verifier::external_type_specification]
#[verifier::external_body]
pub struct ExConfigError(ConfigError);

/// The application's settings.
pub struct AppConfig {
    /// Raw HTML injected into every page (e.g. analytics script).
    /// Defaults to empty string if not set.
    ///
    /// This value must be operator-controlled and must never be derived
    /// from user input, as it is rendered unescaped into every page.
    pub html_snippet: String,
}

/// Why the settings could not be read.
pub enum ConfigLoadError {
    /// The settings sources could not be read, or a value had the wrong type.
    Config(ConfigError),
}

/// What reading the `html_snippet` setting gave.
pub enum SettingLookup {
    /// The setting is set to this text.
    Found(String),
    /// The setting is not set anywhere.
    Missing,
    /// The settings could not be read.
    Failed(ConfigError),
}

impl AppConfig {
    /// The configuration that a reading of the `html_snippet` setting gives:
    /// its value when it is set, the empty string when it is not, an error
    /// when it could not be read.
    pub fn load(lookup: SettingLookup) -> (res: Result<AppConfig, ConfigLoadError>)
        ensures
            match lookup {
                SettingLookup::Found(s) => res matches Ok(c) && c.html_snippet@ == s@,
                SettingLookup::Missing => res matches Ok(c) && c.html_snippet@.len() == 0,
                SettingLookup::Failed(e) => res matches Err(ConfigLoadError::Config(r)) && r == e,
            },
    {
        match lookup {
            SettingLookup::Found(s) => Ok(AppConfig { html_snippet: s }),
            SettingLookup::Missing => Ok(AppConfig { html_snippet: String::new() }),
            SettingLookup::Failed(e) => Err(ConfigLoadError::Config(e)),
        }
    }
}

} // verus!
