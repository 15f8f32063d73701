//! Error texts and the address check.

use kvs::error::KvsError;
use kvs::is_invalid_address;

#[test]
fn error_messages() {
    assert_eq!(KvsError::Unknown.message(), "unknown error");
    assert_eq!(KvsError::KeyNotFound.message(), "Key not found");
    assert_eq!(
        KvsError::InvalidIPAddressFormat.message(),
        "Invalid IP address format, accept IP:PORT"
    );
    assert_eq!(
        KvsError::InvalidArgumentNumber.message(),
        "Invalid argument number"
    );
    assert_eq!(
        KvsError::WrongEngine {
            expect: "sled".to_string(),
            actual: "kvs".to_string()
        }
        .message(),
        "Wrong engine, expect sled, actual kvs"
    );
    assert_eq!(KvsError::Protocol.message(), "Protocol error");
    assert_eq!(KvsError::Corruption.message(), "Log corruption");
}

#[test]
fn address_needs_a_port_separator() {
    assert!(is_invalid_address("localhost"));
    assert!(!is_invalid_address("127.0.0.1:4000"));
    assert!(!is_invalid_address(":4000"));
}
