use vstd::prelude::*;

verus! {

/// `ureq::Error`: a transport-level failure or a response with a non-success
/// status. Opaque here; workers and the prober produce it, the job carries it
/// to the caller unchanged.
#[verifier::external_type_specification]
#[verifier::external_body]
pub struct ExUreqError(ureq::Error);

/// `std::io::Error`: the underlying cause of a failed file or buffer
/// operation. Opaque here; only the unverified I/O shell produces it.
#[verifier::external_type_specification]
#[verifier::external_body]
pub struct ExIoError(std::io::Error);

/// `url::ParseError`: what `url::Url::parse` reports for a malformed URL.
#[verifier::external_type_specification]
#[verifier::external_body]
pub struct ExUrlParseError(url::ParseError);

/// All the possible errors returned by the library. No error is retried or
/// locally recovered: the first one observed terminates the job and reaches
/// the caller unchanged in kind.
#[derive(Debug)]
pub enum TrainError {
    /// The resolved URL could not be parsed.
    UrlParseError(url::ParseError),
    /// No destination was supplied and none could be derived from the URL.
    FilenameParseError,
    /// Creating the output file failed.
    FileCreateError(std::io::Error),
    /// Seeking the output file failed.
    FileSeekError(std::io::Error),
    /// Writing to the output file failed.
    FileWriteError(std::io::Error),
    /// Copying a response body into a chunk buffer failed.
    BufferWriteError(std::io::Error),
    /// Syncing the output file with the filesystem failed.
    FileSyncError(std::io::Error),
    /// Executing a request failed, or the response had a non-success status.
    RequestError(ureq::Error),
}

} // verus!
