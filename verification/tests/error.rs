use k2v::error::Error;

#[test]
fn messages_name_what_was_wrong() {
    assert_eq!(Error::InvalidCausalityToken.message(), "Invalid causality token");
    assert_eq!(Error::InvalidBase64Value.message(), "Invalid base64 value");
    assert_eq!(
        Error::SingleItemReadParameters.message(),
        "Batch query parameters 'prefix', 'end', 'limit' and 'reverse' must not be set when singleItem is true."
    );
    assert_eq!(
        Error::SingleItemDeleteParameters.message(),
        "Batch query parameters 'prefix' and 'end' must not be set when singleItem is true."
    );
    assert_eq!(
        Error::SingleItemWithoutStart.message(),
        "start should be specified if single_item is set"
    );
}

#[test]
fn faults_of_the_request_are_bad_requests() {
    assert!(Error::InvalidCausalityToken.is_bad_request());
    assert!(Error::InvalidBase64Value.is_bad_request());
    assert!(Error::SingleItemReadParameters.is_bad_request());
    assert!(Error::SingleItemDeleteParameters.is_bad_request());
    assert!(Error::SingleItemWithoutStart.is_bad_request());
    assert!(Error::InvalidSeenMarker.is_bad_request());
    assert!(!Error::CounterExhausted.is_bad_request());
    assert!(!Error::TooLarge.is_bad_request());
}
