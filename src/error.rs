//! The failures that the rewrite reports, within the kinds of failure that the
//! surrounding harness handles.
use vstd::prelude::*;

verus! {

/// An I/O failure, as std reports it.
#[verifier::external_type_specification]
#[verifier::external_body]
pub struct ExIoError(std::io::Error);

/// A failure of the TOML decoder.
#[verifier::external_type_specification]
#[verifier::external_body]
pub struct ExTomlDeError(toml::de::Error);

/// A failure of the TOML encoder.
#[verifier::external_type_specification]
#[verifier::external_body]
pub struct ExTomlSerError(toml::ser::Error);

/// Every failure that a caller of the harness may meet. The rewrite itself
/// raises only the four `Manifest*` kinds; each keeps the underlying cause.
#[derive(Debug)]
pub enum ErrorKind {
    /// The manifest at `path` could not be read.
    ManifestRead { path: String, cause: std::io::Error },
    /// The manifest at `path` is no valid TOML document.
    ManifestParse { path: String, cause: toml::de::Error },
    /// The rewritten manifest cannot be written as TOML.
    ManifestEncode { cause: toml::ser::Error },
    /// The rewritten manifest could not be written to `path`.
    ManifestWrite { path: String, cause: std::io::Error },
    /// Not found.
    Error404,
    /// A process was killed after running out of its time.
    Timeout { what: String, when: u64 },
    Download,
    /// An S3 URI could not be parsed.
    BadS3Uri,
    /// The server is not available at the moment.
    ServerUnavailable,
    EmptyToolchainName,
    InvalidToolchainSourceName(String),
    InvalidToolchainFlag(String),
    ExperimentNotFound(String),
    ExperimentAlreadyExists(String),
    DuplicateToolchains,
    /// Only queued experiments can be edited.
    CanEditOnlyQueuedExperiments,
    EmptyAssignee,
    InvalidAssigneeKind(String),
    UnexpectedAssigneePayload,
    /// Any other failure, described in words.
    Msg(String),
}

} // verus!
