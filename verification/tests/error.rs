use pocket_core::error::{io_message, PocketError};

#[test]
fn errors_carry_their_labels() {
    assert_eq!(
        PocketError::ConfigError("a".to_string()).message(),
        "Configuration Error: a"
    );
    assert_eq!(
        PocketError::EngineError("b".to_string()).message(),
        "Engine Inference Error: b"
    );
    assert_eq!(
        PocketError::MemoryInsufficient("c".to_string()).message(),
        "Insufficient System RAM: c"
    );
}

#[test]
fn io_errors_keep_their_words() {
    let error = std::io::Error::new(std::io::ErrorKind::Other, "disk on fire");
    let wrapped = PocketError::from(error);
    assert!(matches!(wrapped, PocketError::IoError(_)));
    assert_eq!(wrapped.message(), "I/O Error: disk on fire");
    assert_eq!(io_message("disk full"), "I/O Error: disk full");
}
