use vstd::prelude::*;

use crate::text::push_all;

verus! {

/// The failures this program reports; each carries the path it concerns.
#[derive(Debug)]
pub enum AppError {
    /// No directory for the configuration file could be determined.
    InvalidConfigPath,
    /// The terminal failed; the text is what the terminal layer reported.
    Terminal(String),
    /// A file could not be read or written.
    Io { path: String, message: String },
    /// A file is not valid TOML, or its settings do not fit the schema.
    Toml { path: String, message: String },
    /// A quiz file is valid TOML but breaks a rule of the quiz format.
    Validation { path: String, message: String },
}

impl AppError {
    /// The text this error shows to the user.
    pub open spec fn spec_text(self) -> Seq<char> {
        match self {
            AppError::InvalidConfigPath => "cannot determine the config directory"@,
            AppError::Terminal(message) => "terminal: "@ + message@,
            AppError::Io { path, message } => path@ + ": "@ + message@,
            AppError::Toml { path, message } => path@ + ": "@ + message@,
            AppError::Validation { path, message } => path@ + ": "@ + message@,
        }
    }

    /// Whether this is a validation failure about `path` with text `message`.
    pub open spec fn is_validation(self, path: Seq<char>, message: Seq<char>) -> bool {
        &&& self matches AppError::Validation { path: p, message: m }
        &&& p@ == path
        &&& m@ == message
    }

    /// Whether this is a TOML or schema failure about `path` with text `message`.
    pub open spec fn is_toml(self, path: Seq<char>, message: Seq<char>) -> bool {
        &&& self matches AppError::Toml { path: p, message: m }
        &&& p@ == path
        &&& m@ == message
    }

    /// A failure to read or write `path`.
    pub fn io(path: &str, message: &str) -> (e: AppError)
        ensures
            e matches AppError::Io { path: p, message: m } && p@ == path@ && m@ == message@,
    {
        AppError::Io { path: path.to_owned(), message: message.to_owned() }
    }

    /// A TOML or schema failure in `path`.
    pub fn toml(path: &str, message: &str) -> (e: AppError)
        ensures
            e.is_toml(path@, message@),
    {
        AppError::Toml { path: path.to_owned(), message: message.to_owned() }
    }

    /// A quiz-format failure in `path`.
    pub fn validation(path: &str, message: String) -> (e: AppError)
        ensures
            e.is_validation(path@, message@),
    {
        AppError::Validation { path: path.to_owned(), message }
    }

    /// A terminal failure.
    pub fn terminal(message: &str) -> (e: AppError)
        ensures
            e matches AppError::Terminal(m) && m@ == message@,
    {
        AppError::Terminal(message.to_owned())
    }

    /// The text this error shows to the user.
    pub fn to_string(&self) -> (s: String)
        ensures
            s@ == self.spec_text(),
    {
        let mut s = String::new();
        match self {
            AppError::InvalidConfigPath => push_all(&mut s, "cannot determine the config directory"),
            AppError::Terminal(message) => {
                push_all(&mut s, "terminal: ");
                push_all(&mut s, message.as_str());
            },
            AppError::Io { path, message } | AppError::Toml { path, message }
            | AppError::Validation { path, message } => {
                push_all(&mut s, path.as_str());
                push_all(&mut s, ": ");
                push_all(&mut s, message.as_str());
            },
        }
        s
    }
}

} // verus!
