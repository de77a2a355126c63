//! The errors of the library.
//!
//! Every failure is a kind, by which callers decide what to do, and a message
//! for people. Contracts speak of a failure through its view, [`Failure`].

use vstd::prelude::*;

verus! {

/// What went wrong, in the terms of the operating system's own errors.
#[derive(Clone, Copy, Debug, PartialEq, Eq, Structural)]
pub enum ErrorKind {
    InvalidData,
    InvalidInput,
    PermissionDenied,
    UnexpectedEof,
    Unsupported,
    WriteZero,
    /// Every kind that no rule of this library tells apart.
    Other,
}

/// A failure of the library, or one that the system reported to it.
#[derive(Debug)]
pub struct VmdkError {
    pub kind: ErrorKind,
    pub message: String,
}

/// The view of a [`VmdkError`].
pub struct Failure {
    pub kind: ErrorKind,
    pub message: Seq<char>,
}

impl View for VmdkError {
    type V = Failure;

    open spec fn view(&self) -> Failure {
        Failure { kind: self.kind, message: self.message@ }
    }
}

/// A result with its error replaced by the error's view.
pub open spec fn seen<T>(result: Result<T, VmdkError>) -> Result<T, Failure> {
    match result {
        Ok(value) => Ok(value),
        Err(error) => Err(error@),
    }
}

impl VmdkError {
    pub fn new(kind: ErrorKind, message: &str) -> (error: VmdkError)
        ensures
            error@ == (Failure { kind, message: message@ }),
    {
        VmdkError { kind, message: message.to_owned() }
    }
}

pub open spec fn invalid_data_failure(message: Seq<char>) -> Failure {
    Failure { kind: ErrorKind::InvalidData, message }
}

/// The failure of data that breaks the format.
pub fn invalid_data(msg: &str) -> (error: VmdkError)
    ensures
        error@ == invalid_data_failure(msg@),
{
    VmdkError::new(ErrorKind::InvalidData, msg)
}

/// What an operation on a disk failed of.
#[derive(Clone, Copy, Debug, PartialEq, Eq, Structural)]
pub enum BlockErrorKind {
    /// Input or output failed.
    Io,
    /// The image breaks its format.
    InvalidFormat,
    /// The image, or the request, asks for what is not supported.
    UnsupportedFeature,
}

/// The operation on a disk that failed.
#[derive(Clone, Copy, Debug, PartialEq, Eq, Structural)]
pub enum ErrorOp {
    Open,
    Resize,
}

/// The failure behind a [`BlockError`].
#[derive(Debug)]
pub enum ErrorSource {
    Io(VmdkError),
    Resize(VmdkError),
}

/// The failure of an operation on a disk.
#[derive(Debug)]
pub struct BlockError {
    pub kind: BlockErrorKind,
    pub op: Option<ErrorOp>,
    pub source: ErrorSource,
}

/// The view of an [`ErrorSource`].
pub enum FailureSource {
    Io(Failure),
    Resize(Failure),
}

/// The view of a [`BlockError`].
pub struct BlockFailure {
    pub kind: BlockErrorKind,
    pub op: Option<ErrorOp>,
    pub source: FailureSource,
}

impl View for ErrorSource {
    type V = FailureSource;

    open spec fn view(&self) -> FailureSource {
        match *self {
            ErrorSource::Io(error) => FailureSource::Io(error@),
            ErrorSource::Resize(error) => FailureSource::Resize(error@),
        }
    }
}

impl View for BlockError {
    type V = BlockFailure;

    open spec fn view(&self) -> BlockFailure {
        BlockFailure { kind: self.kind, op: self.op, source: self.source@ }
    }
}

impl BlockError {
    pub fn new(kind: BlockErrorKind, source: ErrorSource) -> (error: BlockError)
        ensures
            error@ == (BlockFailure { kind, op: None, source: source@ }),
    {
        BlockError { kind, op: None, source }
    }

    /// Names the operation that failed.
    pub fn with_op(self, op: ErrorOp) -> (error: BlockError)
        ensures
            error@ == (BlockFailure { op: Some(op), ..self@ }),
    {
        BlockError { kind: self.kind, op: Some(op), source: self.source }
    }
}

/// What an operation on a disk failed of, where it failed on `kind` while the
/// disk was opened.
pub open spec fn open_error_kind(kind: ErrorKind) -> BlockErrorKind {
    match kind {
        ErrorKind::InvalidData => BlockErrorKind::InvalidFormat,
        ErrorKind::Unsupported => BlockErrorKind::UnsupportedFeature,
        _ => BlockErrorKind::Io,
    }
}

/// Tells apart the failures that can end the opening of a disk.
pub fn classify_open_error(err: VmdkError) -> (error: BlockError)
    ensures
        error@ == (BlockFailure {
            kind: open_error_kind(err.kind),
            op: None,
            source: FailureSource::Io(err@),
        }),
        error.kind == BlockErrorKind::InvalidFormat <==> err.kind == ErrorKind::InvalidData,
        error.kind == BlockErrorKind::UnsupportedFeature <==> err.kind == ErrorKind::Unsupported,
{
    let kind = match err.kind {
        ErrorKind::InvalidData => BlockErrorKind::InvalidFormat,
        ErrorKind::Unsupported => BlockErrorKind::UnsupportedFeature,
        _ => BlockErrorKind::Io,
    };
    BlockError::new(kind, ErrorSource::Io(err))
}

/// The failure to open a disk that `failure` causes.
pub open spec fn open_failure(failure: Failure) -> BlockFailure {
    BlockFailure {
        kind: open_error_kind(failure.kind),
        op: Some(ErrorOp::Open),
        source: FailureSource::Io(failure),
    }
}

/// An open failure is one of the format where the data is invalid, one of a feature where
/// something is unsupported, and one of input or output otherwise. It keeps its cause.
pub proof fn law_open_failure(failure: Failure)
    ensures
        open_failure(failure).op == Some(ErrorOp::Open),
        open_failure(failure).source == FailureSource::Io(failure),
        open_failure(failure).kind == (if failure.kind == ErrorKind::InvalidData {
            BlockErrorKind::InvalidFormat
        } else if failure.kind == ErrorKind::Unsupported {
            BlockErrorKind::UnsupportedFeature
        } else {
            BlockErrorKind::Io
        }),
{
}

/// The failure of a request to a queue.
#[derive(Debug)]
pub enum AsyncIoError {
    ReadVectored(VmdkError),
    WriteVectored(VmdkError),
    Fsync(VmdkError),
    PunchHole(VmdkError),
    WriteZeroes(VmdkError),
}

/// The view of an [`AsyncIoError`].
pub enum AsyncIoFailure {
    ReadVectored(Failure),
    WriteVectored(Failure),
    Fsync(Failure),
    PunchHole(Failure),
    WriteZeroes(Failure),
}

impl View for AsyncIoError {
    type V = AsyncIoFailure;

    open spec fn view(&self) -> AsyncIoFailure {
        match *self {
            AsyncIoError::ReadVectored(error) => AsyncIoFailure::ReadVectored(error@),
            AsyncIoError::WriteVectored(error) => AsyncIoFailure::WriteVectored(error@),
            AsyncIoError::Fsync(error) => AsyncIoFailure::Fsync(error@),
            AsyncIoError::PunchHole(error) => AsyncIoFailure::PunchHole(error@),
            AsyncIoError::WriteZeroes(error) => AsyncIoFailure::WriteZeroes(error@),
        }
    }
}

} // verus!
