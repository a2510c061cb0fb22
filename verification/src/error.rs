//! What can go wrong in a request.

use vstd::prelude::*;

verus! {

/// Why a request was not carried out.
#[derive(Clone, Copy, Debug, PartialEq, Eq, Structural)]
pub enum Error {
    /// A causality token that is not the encoding of any causal context.
    InvalidCausalityToken,
    /// A value that is not base64 text.
    InvalidBase64Value,
    /// A single-item read that also names a prefix, an end, a limit or the
    /// reverse direction.
    SingleItemReadParameters,
    /// A single-item delete that also names a prefix or an end.
    SingleItemDeleteParameters,
    /// A single-item query without the sort key to look up.
    SingleItemWithoutStart,
    /// A seen marker that is not the encoding of any marker.
    InvalidSeenMarker,
    /// The table has handed out its last write counter.
    CounterExhausted,
    /// A token or a value too long to be written as text on this machine.
    TooLarge,
}

impl Error {
    /// Whether the request itself is at fault, as opposed to the table.
    pub open spec fn spec_is_bad_request(self) -> bool {
        !(self is CounterExhausted || self is TooLarge)
    }

    /// Whether the request itself is at fault, as opposed to the table.
    #[verifier::when_used_as_spec(spec_is_bad_request)]
    pub fn is_bad_request(self) -> (r: bool)
        ensures
            r == self.spec_is_bad_request(),
    {
        match self {
            Error::CounterExhausted | Error::TooLarge => false,
            _ => true,
        }
    }

    /// The sentence that tells a client what was wrong.
    pub open spec fn spec_message(self) -> Seq<char> {
        match self {
            Error::InvalidCausalityToken => "Invalid causality token"@,
            Error::InvalidBase64Value => "Invalid base64 value"@,
            Error::SingleItemReadParameters => "Batch query parameters 'prefix', 'end', 'limit' and 'reverse' must not be set when singleItem is true."@,
            Error::SingleItemDeleteParameters => "Batch query parameters 'prefix' and 'end' must not be set when singleItem is true."@,
            Error::SingleItemWithoutStart => "start should be specified if single_item is set"@,
            Error::InvalidSeenMarker => "Invalid seen marker"@,
            Error::CounterExhausted => "Write counter exhausted"@,
            Error::TooLarge => "Item too large to encode"@,
        }
    }

    /// The sentence that tells a client what was wrong.
    pub fn message(self) -> (r: &'static str)
        ensures
            r@ == self.spec_message(),
    {
        match self {
            Error::InvalidCausalityToken => "Invalid causality token",
            Error::InvalidBase64Value => "Invalid base64 value",
            Error::SingleItemReadParameters => "Batch query parameters 'prefix', 'end', 'limit' and 'reverse' must not be set when singleItem is true.",
            Error::SingleItemDeleteParameters => "Batch query parameters 'prefix' and 'end' must not be set when singleItem is true.",
            Error::SingleItemWithoutStart => "start should be specified if single_item is set",
            Error::InvalidSeenMarker => "Invalid seen marker",
            Error::CounterExhausted => "Write counter exhausted",
            Error::TooLarge => "Item too large to encode",
        }
    }
}

} // verus!
