use vstd::prelude::*;

verus! {

/// Errors that can occur during batch processing
#[derive(Debug, Clone)]
pub enum BatchError<E> {
    /// The batch processing failed with a custom error
    ProcessingFailed(E),
    /// The response channel was closed unexpectedly
    ChannelClosed,
    /// The request was not found in the batch results
    RequestNotFound,
    /// A generic error occurred
    Other(String),
}

impl<E> BatchError<E> {
    /// The error a requester receives when its batch failed with `error`.
    pub fn processing_failed(error: E) -> (e: Self)
        ensures
            e == BatchError::ProcessingFailed(error),
    {
        BatchError::ProcessingFailed(error)
    }

    /// A generic error carrying `message`, converted to a `String` as its
    /// `Into` conversion does.
    pub fn other<M: Into<String>>(message: M) -> (e: Self)
        ensures
            exists|m: String| e == BatchError::<E>::Other(m) && call_ensures(M::into, (message,), m),
    {
        BatchError::Other(message.into())
    }
}

} // verus!
