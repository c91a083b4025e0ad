//! The errors of reading the configuration file.
use vstd::prelude::*;
use crate::text::push_str;

verus! {

/// Why the configuration could not be used.
#[derive(Clone, Debug, PartialEq, Eq)]
pub enum ConfigError {
    Parse(String),
    MissingRecipe(String),
    InvalidRecipeStep(String),
    Io(String),
}

/// The text a `ConfigError` reads as.
pub open spec fn config_error_text(e: ConfigError) -> Seq<char> {
    match e {
        ConfigError::Parse(m) => "config parse failed: "@ + m@,
        ConfigError::MissingRecipe(m) => "missing recipe: "@ + m@,
        ConfigError::InvalidRecipeStep(m) => "invalid recipe step: "@ + m@,
        ConfigError::Io(m) => "io error: "@ + m@,
    }
}

impl ConfigError {
    /// The text the error reads as.
    pub fn message(&self) -> (r: String)
        ensures
            r@ == config_error_text(*self),
    {
        let mut r = String::new();
        match self {
            ConfigError::Parse(m) => {
                push_str(&mut r, "config parse failed: ");
                push_str(&mut r, m.as_str());
            },
            ConfigError::MissingRecipe(m) => {
                push_str(&mut r, "missing recipe: ");
                push_str(&mut r, m.as_str());
            },
            ConfigError::InvalidRecipeStep(m) => {
                push_str(&mut r, "invalid recipe step: ");
                push_str(&mut r, m.as_str());
            },
            ConfigError::Io(m) => {
                push_str(&mut r, "io error: ");
                push_str(&mut r, m.as_str());
            },
        }
        assert(r@ =~= config_error_text(*self));
        r
    }
}

} // verus!
