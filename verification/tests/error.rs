use mnemos::error::Error;

#[test]
fn constructors_and_display() {
    let cases: Vec<(Error, &str)> = vec![
        (Error::storage("disk full"), "Storage error: disk full"),
        (
            Error::embedding("bad provider"),
            "Embedding error: bad provider",
        ),
        (Error::learning("nan"), "Learning error: nan"),
        (Error::not_found("abc"), "Entry not found: abc"),
        (
            Error::config("missing key"),
            "Invalid configuration: missing key",
        ),
        (Error::ingest("bad markdown"), "Ingest error: bad markdown"),
        (
            Error::DimensionMismatch {
                expected: 384,
                actual: 128,
            },
            "Invalid embedding dimension: expected 384, got 128",
        ),
        (
            Error::IndexCorruption("checksum".into()),
            "Index corruption: checksum",
        ),
        (
            Error::ConcurrencyConflict("lock".into()),
            "Concurrent access conflict: lock",
        ),
    ];
    for (err, expected) in cases {
        assert_eq!(err.to_string(), expected);
    }
}

#[test]
fn outside_error_messages_are_prefixed() {
    assert_eq!(Error::Io("x".into()).to_string(), "IO error: x");
    assert_eq!(Error::Json("bad".into()).to_string(), "JSON error: bad");
    assert_eq!(
        Error::Serialization("eof".into()).to_string(),
        "Serialization error: eof"
    );
    assert_eq!(
        Error::DimensionMismatch { expected: 0, actual: 10 }.to_string(),
        "Invalid embedding dimension: expected 0, got 10"
    );
}
