use vstd::prelude::*;

verus! {

/// The five labelled fields of a raw bar.
#[derive(Clone, Copy, Debug, PartialEq, Eq, Structural)]
pub enum Field {
    Open,
    High,
    Low,
    Close,
    Volume,
}

/// Why a run stopped. Every error is terminal: the first one is reported.
#[derive(Clone, Debug, PartialEq, Eq)]
pub enum PipelineError {
    /// A numeric field is not a decimal numeral.
    MalformedNumber { date: String, field: Field, text: String },
    /// The response body is not JSON.
    InvalidResponseFormat,
    /// The body is JSON but does not hold a time series of the expected shape.
    UnexpectedResponseShape { body: String },
    /// The transport failed. The library never raises this itself: the caller
    /// that performs the request does.
    FetchFailed { cause: String },
    /// The archive bytes are truncated, malformed or hold a non-finite number.
    /// `offset` is where reading stopped: 0 for the header, else the start of
    /// the first record that cannot be read, or of the bytes left over.
    CorruptArchive { offset: usize },
}

/// What a `PipelineError` stands for.
pub enum ErrorModel {
    MalformedNumber { date: Seq<char>, field: Field, text: Seq<char> },
    InvalidResponseFormat,
    UnexpectedResponseShape { body: Seq<char> },
    FetchFailed { cause: Seq<char> },
    CorruptArchive { offset: int },
}

impl View for PipelineError {
    type V = ErrorModel;

    open spec fn view(&self) -> ErrorModel {
        match self {
            PipelineError::MalformedNumber { date, field, text } => ErrorModel::MalformedNumber {
                date: date@,
                field: *field,
                text: text@,
            },
            PipelineError::InvalidResponseFormat => ErrorModel::InvalidResponseFormat,
            PipelineError::UnexpectedResponseShape { body } => ErrorModel::UnexpectedResponseShape {
                body: body@,
            },
            PipelineError::FetchFailed { cause } => ErrorModel::FetchFailed { cause: cause@ },
            PipelineError::CorruptArchive { offset } => ErrorModel::CorruptArchive {
                offset: *offset as int,
            },
        }
    }
}

} // verus!
