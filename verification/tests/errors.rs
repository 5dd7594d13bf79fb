use braid::error::{BraidError, Result};

#[test]
fn braid_error_io_display() {
    let err = BraidError::Io(std::io::Error::new(std::io::ErrorKind::Other, "disk full"));
    let msg = err.to_string();
    assert!(msg.contains("I/O error"));
    assert!(msg.contains("disk full"));
}

#[test]
fn braid_error_protocol_display() {
    let err = BraidError::Protocol("bad header");
    assert_eq!(err.to_string(), "protocol error: bad header");
}

#[test]
fn braid_error_crc_mismatch_display() {
    let err = BraidError::CrcMismatch { sequence_number: 42 };
    assert!(err.to_string().contains("CRC mismatch"));
    assert!(err.to_string().contains("42"));
    assert_eq!(err.to_string(), "CRC mismatch at commit gate: sequence_number=42");
}

#[test]
fn braid_error_negotiation_failed_display() {
    let err = BraidError::NegotiationFailed("timeout");
    assert_eq!(err.to_string(), "negotiation failed: timeout");
}

#[test]
fn braid_error_all_channels_failed_display() {
    let err = BraidError::AllChannelsFailed;
    assert_eq!(err.to_string(), "all UDP channels failed");
}

#[test]
fn braid_error_timeout_display() {
    let err = BraidError::Timeout;
    assert_eq!(err.to_string(), "operation timed out");
}

#[test]
fn braid_error_shutdown_display() {
    let err = BraidError::Shutdown;
    assert_eq!(err.to_string(), "graceful shutdown");
}

#[test]
fn braid_error_io_source() {
    let io_err = std::io::Error::new(std::io::ErrorKind::NotFound, "file missing");
    let err = BraidError::Io(io_err);
    assert!(err.source().is_some());
}

#[test]
fn braid_error_non_io_source_is_none() {
    let err = BraidError::Protocol("bad");
    assert!(err.source().is_none());

    let err = BraidError::CrcMismatch { sequence_number: 0 };
    assert!(err.source().is_none());

    let err = BraidError::FileHashMismatch { expected: 0xDEADBEEF, computed: 0xCAFEBABE };
    assert!(err.source().is_none());

    let err = BraidError::Shutdown;
    assert!(err.source().is_none());
}

#[test]
fn braid_error_file_hash_mismatch_display() {
    let err = BraidError::FileHashMismatch { expected: 0xDEADBEEF, computed: 0xCAFEBABE };
    assert_eq!(err.to_string(), "file CRC32C mismatch: expected 0xDEADBEEF, got 0xCAFEBABE");
}

#[test]
fn braid_error_from_io() {
    let io_err = std::io::Error::new(std::io::ErrorKind::ConnectionRefused, "refused");
    let err: BraidError = io_err.into();
    assert!(matches!(err, BraidError::Io(_)));
}

#[test]
fn result_alias_works() {
    let ok: Result<i32> = Ok(42);
    assert_eq!(ok.unwrap(), 42);

    let err: Result<i32> = Err(BraidError::Shutdown);
    assert!(err.is_err());
}

#[test]
fn braid_error_is_send() {
    fn assert_send<T: Send>() {}
    assert_send::<BraidError>();
}

#[test]
fn braid_error_is_sync() {
    fn assert_sync<T: Sync>() {}
    assert_sync::<BraidError>();
}
