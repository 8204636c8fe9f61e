use vstd::prelude::*;

verus! {

/// The lifecycle state of a persisted request.
#[derive(Clone, Copy, Debug, PartialEq, Eq, Structural)]
pub enum RequestState {
    /// Captured by ingest, not yet handed to the queue.
    Received,
    /// Persisted and ready to be processed.
    Created,
    /// Waiting to be sent to its origin.
    Enqueued,
    /// Being sent to its origin.
    Active,
    /// Delivered with a success status.
    Completed,
    /// The origin answered with an error status; retried later.
    Failed,
    /// No answer was observed; retried later.
    Panic,
    /// The origin did not answer in time; retried later.
    Timeout,
    /// No origin matched the request.
    Skipped,
}

impl RequestState {
    /// States from which the retry queue may pick a request up.
    pub open spec fn spec_is_retry_eligible(self) -> bool {
        self == RequestState::Created || self == RequestState::Failed
            || self == RequestState::Panic || self == RequestState::Timeout
    }

    /// States in which a request rests for good.
    pub open spec fn spec_is_terminal(self) -> bool {
        self == RequestState::Completed || self == RequestState::Skipped
    }

    /// The integer code under which a state is stored.
    pub open spec fn spec_code(self) -> i8 {
        match self {
            RequestState::Received => 0,
            RequestState::Created => 1,
            RequestState::Enqueued => 2,
            RequestState::Active => 3,
            RequestState::Completed => 4,
            RequestState::Failed => 5,
            RequestState::Panic => 6,
            RequestState::Timeout => 7,
            RequestState::Skipped => 8,
        }
    }

    #[verifier::when_used_as_spec(spec_is_retry_eligible)]
    pub fn is_retry_eligible(self) -> (r: bool)
        ensures
            r == self.spec_is_retry_eligible(),
    {
        match self {
            RequestState::Created | RequestState::Failed | RequestState::Panic
            | RequestState::Timeout => true,
            _ => false,
        }
    }

    #[verifier::when_used_as_spec(spec_is_terminal)]
    pub fn is_terminal(self) -> (r: bool)
        ensures
            r == self.spec_is_terminal(),
    {
        match self {
            RequestState::Completed | RequestState::Skipped => true,
            _ => false,
        }
    }

    #[verifier::when_used_as_spec(spec_code)]
    pub fn code(self) -> (r: i8)
        ensures
            r == self.spec_code(),
    {
        match self {
            RequestState::Received => 0,
            RequestState::Created => 1,
            RequestState::Enqueued => 2,
            RequestState::Active => 3,
            RequestState::Completed => 4,
            RequestState::Failed => 5,
            RequestState::Panic => 6,
            RequestState::Timeout => 7,
            RequestState::Skipped => 8,
        }
    }

    /// The state stored under `code`, if any.
    pub fn from_code(code: i8) -> (r: Option<RequestState>)
        ensures
            r matches Some(s) ==> s.spec_code() == code,
            r is None <==> !(0 <= code <= 8),
    {
        match code {
            0 => Some(RequestState::Received),
            1 => Some(RequestState::Created),
            2 => Some(RequestState::Enqueued),
            3 => Some(RequestState::Active),
            4 => Some(RequestState::Completed),
            5 => Some(RequestState::Failed),
            6 => Some(RequestState::Panic),
            7 => Some(RequestState::Timeout),
            8 => Some(RequestState::Skipped),
            _ => None,
        }
    }
}

} // verus!
