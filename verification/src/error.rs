//! The error type shared by every operation of the library.

use vstd::prelude::*;
use vstd::string::*;

verus! {

/// A failure of an operation. Every failure is terminal for the operation
/// that raised it: nothing is retried.
#[derive(Debug, Clone, PartialEq, Eq)]
pub enum JanusError {
    /// A failure reported by the version-control backend that fits no more
    /// specific variant.
    GitError(String),
    /// A file-system failure.
    IoError(String),
    /// A failure of the per-user configuration.
    ConfigError(String),
    /// An authentication failure.
    AuthError(String),
    /// A network failure.
    NetworkError(String),
    /// Data could not be parsed or serialised.
    ParseError(String),
    /// An input did not pass validation.
    ValidationError(String),
    /// An unexpected failure.
    UnknownError(String),
    /// The path holds no repository, or does not exist. Carries the path.
    NotARepository(String),
    /// No branch of that name, or HEAD points at no commit. Carries the name.
    ReferenceNotFound(String),
    /// A branch of that name exists already. Carries the name.
    ReferenceAlreadyExists(String),
    /// The branch is the one HEAD is attached to. Carries the name.
    CannotDeleteCheckedOutBranch(String),
    /// A path or an object could not be resolved. Carries what was looked up.
    ObjectNotFound(String),
    /// The index holds exactly what the HEAD commit holds.
    NothingToCommit,
}

impl JanusError {
    /// The fixed text that introduces the message of each kind of failure.
    pub open spec fn spec_prefix(self) -> Seq<char> {
        match self {
            JanusError::GitError(_) => "Git error: "@,
            JanusError::IoError(_) => "IO error: "@,
            JanusError::ConfigError(_) => "Configuration error: "@,
            JanusError::AuthError(_) => "Authentication error: "@,
            JanusError::NetworkError(_) => "Network error: "@,
            JanusError::ParseError(_) => "Parse error: "@,
            JanusError::ValidationError(_) => "Validation error: "@,
            JanusError::UnknownError(_) => "Unknown error: "@,
            JanusError::NotARepository(_) => "Not a repository: "@,
            JanusError::ReferenceNotFound(_) => "Reference not found: "@,
            JanusError::ReferenceAlreadyExists(_) => "Reference already exists: "@,
            JanusError::CannotDeleteCheckedOutBranch(_) => "Cannot delete checked out branch: "@,
            JanusError::ObjectNotFound(_) => "Object not found: "@,
            JanusError::NothingToCommit => "Nothing to commit"@,
        }
    }

    /// The detail that the failure carries; empty for `NothingToCommit`.
    pub open spec fn spec_detail(self) -> Seq<char> {
        match self {
            JanusError::GitError(m) => m@,
            JanusError::IoError(m) => m@,
            JanusError::ConfigError(m) => m@,
            JanusError::AuthError(m) => m@,
            JanusError::NetworkError(m) => m@,
            JanusError::ParseError(m) => m@,
            JanusError::ValidationError(m) => m@,
            JanusError::UnknownError(m) => m@,
            JanusError::NotARepository(m) => m@,
            JanusError::ReferenceNotFound(m) => m@,
            JanusError::ReferenceAlreadyExists(m) => m@,
            JanusError::CannotDeleteCheckedOutBranch(m) => m@,
            JanusError::ObjectNotFound(m) => m@,
            JanusError::NothingToCommit => Seq::empty(),
        }
    }

    /// The text shown for the failure: the kind's prefix, then the detail.
    pub open spec fn spec_message(self) -> Seq<char> {
        self.spec_prefix() + self.spec_detail()
    }

    /// The text shown for the failure.
    pub fn message(&self) -> (text: String)
        ensures
            text@ == self.spec_message(),
    {
        match self {
            JanusError::GitError(m) => prefixed("Git error: ", m),
            JanusError::IoError(m) => prefixed("IO error: ", m),
            JanusError::ConfigError(m) => prefixed("Configuration error: ", m),
            JanusError::AuthError(m) => prefixed("Authentication error: ", m),
            JanusError::NetworkError(m) => prefixed("Network error: ", m),
            JanusError::ParseError(m) => prefixed("Parse error: ", m),
            JanusError::ValidationError(m) => prefixed("Validation error: ", m),
            JanusError::UnknownError(m) => prefixed("Unknown error: ", m),
            JanusError::NotARepository(m) => prefixed("Not a repository: ", m),
            JanusError::ReferenceNotFound(m) => prefixed("Reference not found: ", m),
            JanusError::ReferenceAlreadyExists(m) => prefixed("Reference already exists: ", m),
            JanusError::CannotDeleteCheckedOutBranch(m) => prefixed(
                "Cannot delete checked out branch: ",
                m,
            ),
            JanusError::ObjectNotFound(m) => prefixed("Object not found: ", m),
            JanusError::NothingToCommit => {
                let text = String::from_str("Nothing to commit");
                assert(text@ == text@ + Seq::<char>::empty());
                text
            },
        }
    }
}

/// `prefix` followed by `detail`, as a new string.
pub fn prefixed(prefix: &str, detail: &String) -> (text: String)
    ensures
        text@ == prefix@ + detail@,
{
    let mut text = String::from_str(prefix);
    text.append(detail.as_str());
    text
}

/// Turns an absent value into a failure with a message.
pub trait IntoResult<T> {
    /// The value, or a `ValidationError` that carries `error_message` where
    /// there is none.
    fn into_result(self, error_message: &str) -> Result<T, JanusError>;
}

impl<T> IntoResult<T> for Option<T> {
    fn into_result(self, error_message: &str) -> (res: Result<T, JanusError>)
        ensures
            match self {
                Some(value) => res == Ok::<T, JanusError>(value),
                None => res matches Err(JanusError::ValidationError(m)) && m@ == error_message@,
            },
    {
        match self {
            Some(value) => Ok(value),
            None => Err(JanusError::ValidationError(String::from_str(error_message))),
        }
    }
}

/// `git2::Error`, the failure of a call into the backend. Nothing is known
/// of what a value holds.
#[verifier::external_type_specification]
#[verifier::external_body]
pub struct ExGitError(git2::Error);

/// `std::io::Error`, the failure of an operation on a file. Nothing is
/// known of what a value holds.
#[verifier::external_type_specification]
#[verifier::external_body]
pub struct ExIoError(std::io::Error);

/// `serde_json::Error`, the failure to parse or to write JSON. Nothing is
/// known of what a value holds.
#[verifier::external_type_specification]
#[verifier::external_body]
pub struct ExJsonError(serde_json::Error);

/// `ToString::to_string` on a `git2::Error`, which gives its `Display` form:
/// the message, followed by the class and the code where they say more than
/// the message. Nothing is claimed of the text.
#[verifier::external_body]
fn git_error_text(error: &git2::Error) -> (text: String) {
    error.to_string()
}

/// `ToString::to_string` on a `std::io::Error`, which gives its `Display`
/// form. Nothing is claimed of the text.
#[verifier::external_body]
fn io_error_text(error: &std::io::Error) -> (text: String) {
    error.to_string()
}

/// `ToString::to_string` on a `serde_json::Error`, which gives its `Display`
/// form: the message with the line and the column at which parsing failed.
/// Nothing is claimed of the text.
#[verifier::external_body]
fn json_error_text(error: &serde_json::Error) -> (text: String) {
    error.to_string()
}

impl From<git2::Error> for JanusError {
    /// A failure of the backend, as a `GitError` with the backend's text.
    fn from(error: git2::Error) -> (res: JanusError)
        ensures
            res is GitError,
    {
        JanusError::GitError(git_error_text(&error))
    }
}

impl vstd::std_specs::convert::FromSpecImpl<git2::Error> for JanusError {
    open spec fn obeys_from_spec() -> bool {
        false
    }

    open spec fn from_spec(error: git2::Error) -> JanusError {
        arbitrary()
    }
}

impl From<std::io::Error> for JanusError {
    /// A failure of the file system, as an `IoError` with the system's text.
    fn from(error: std::io::Error) -> (res: JanusError)
        ensures
            res is IoError,
    {
        JanusError::IoError(io_error_text(&error))
    }
}

impl vstd::std_specs::convert::FromSpecImpl<std::io::Error> for JanusError {
    open spec fn obeys_from_spec() -> bool {
        false
    }

    open spec fn from_spec(error: std::io::Error) -> JanusError {
        arbitrary()
    }
}

impl From<serde_json::Error> for JanusError {
    /// A failure to parse or to serialise, as a `ParseError` with the
    /// parser's text.
    fn from(error: serde_json::Error) -> (res: JanusError)
        ensures
            res is ParseError,
    {
        JanusError::ParseError(json_error_text(&error))
    }
}

impl vstd::std_specs::convert::FromSpecImpl<serde_json::Error> for JanusError {
    open spec fn obeys_from_spec() -> bool {
        false
    }

    open spec fn from_spec(error: serde_json::Error) -> JanusError {
        arbitrary()
    }
}

} // verus!
