use components::encryption::errors::{
    cloud_convert_error, CloudConvertError, CloudError, Error, ErrorCode, RetryCodedError,
};
use std::io::{Error as IoError, ErrorKind};

fn cloud(code: ErrorCode, retryable: bool, text: &str) -> CloudError {
    CloudError { code, retryable, text: text.to_string() }
}

fn proto_error() -> protobuf::ProtobufError {
    protobuf::ProtobufError::WireError(protobuf::error::WireError::UnexpectedEof)
}

fn all_plain() -> Vec<(Error, ErrorCode, bool, &'static str)> {
    vec![
        (Error::Other("boom".to_string()), ErrorCode::Unknown, true, "Other error boom"),
        (
            Error::TailRecordParseIncomplete,
            ErrorCode::ParseIncomplete,
            true,
            "Recoverable tail record corruption while parsing file dictionary",
        ),
        (Error::Rocks("r".to_string()), ErrorCode::Rocks, true, "RocksDB error r"),
        (Error::Io(IoError::new(ErrorKind::NotFound, "no such file")), ErrorCode::Io, true, "IO error no such file"),
        (
            Error::Crypter(openssl::error::ErrorStack::get()),
            ErrorCode::Crypter,
            true,
            "OpenSSL error OpenSSL error",
        ),
        (Error::Proto(proto_error()), ErrorCode::Proto, true, "Protobuf error unexpected EOF"),
        (Error::UnknownEncryption, ErrorCode::UnknownEncryption, true, "Unknown encryption error"),
        (
            Error::WrongMasterKey("mismatch".to_string()),
            ErrorCode::WrongMasterKey,
            false,
            "Wrong master key error mismatch",
        ),
        (
            Error::BothMasterKeyFail("a".to_string(), "b".to_string()),
            ErrorCode::BothMasterKeyFail,
            false,
            "Both master key failed, current key a, previous key b.",
        ),
    ]
}

#[test]
fn every_variant_has_its_code() {
    for (err, code, _, _) in all_plain() {
        assert_eq!(err.error_code(), code);
        // What a service would answer plays no part.
        assert_eq!(err.error_code_with(ErrorCode::Other("KV:Cloud:Timeout".to_string())), code);
    }
}

#[test]
fn only_a_wrong_master_key_is_not_worth_a_retry() {
    for (err, _, retryable, _) in all_plain() {
        assert_eq!(err.is_retryable(), retryable);
        assert_eq!(err.is_retryable_with(!retryable), retryable);
    }
}

#[test]
fn every_variant_says_what_happened() {
    for (err, _, _, text) in all_plain() {
        assert_eq!(err.message(), text);
    }
}

#[test]
fn the_cause_is_named_after_the_kind_of_failure() {
    assert_eq!(Error::Io(IoError::new(ErrorKind::Other, "x")).message_with("disk full"), "IO error disk full");
    assert_eq!(Error::Crypter(openssl::error::ErrorStack::get()).message_with("bad key"), "OpenSSL error bad key");
    assert_eq!(Error::Proto(proto_error()).message_with("short"), "Protobuf error short");
    assert_eq!(Error::Rocks("r".to_string()).message_with("ignored"), "RocksDB error r");
    assert_eq!(Error::UnknownEncryption.message_with("ignored"), "Unknown encryption error");
}

#[test]
fn failures_of_other_layers_convert() {
    let err = Error::from("corruption".to_string());
    assert_eq!(err.error_code(), ErrorCode::Rocks);
    assert_eq!(err.message(), "RocksDB error corruption");

    let err = Error::from(IoError::new(ErrorKind::PermissionDenied, "denied"));
    assert_eq!(err.error_code(), ErrorCode::Io);
    assert_eq!(err.message(), "IO error denied");

    let err = Error::from(openssl::error::ErrorStack::get());
    assert_eq!(err.error_code(), ErrorCode::Crypter);

    let err = Error::from(proto_error());
    assert_eq!(err.error_code(), ErrorCode::Proto);
    assert_eq!(err.message(), "Protobuf error unexpected EOF");
}

#[test]
fn an_io_failure_passes_to_an_io_caller_as_it_is() {
    let err = Error::Io(IoError::new(ErrorKind::NotFound, "no such file"));
    let io: IoError = err.into();
    assert_eq!(io.kind(), ErrorKind::NotFound);
    assert_eq!(io.to_string(), "no such file");
}

#[test]
fn any_other_error_reaches_an_io_caller_wrapped() {
    let io = IoError::from(Error::WrongMasterKey("mismatch".to_string()));
    assert_eq!(io.kind(), ErrorKind::Other);
    assert_eq!(io.to_string(), "Wrong master key error mismatch");
    let io = Error::Rocks("x".to_string()).into_io_error();
    assert_eq!(io.kind(), ErrorKind::Other);
    assert_eq!(io.to_string(), "RocksDB error x");
    let io = IoError::from(Error::UnknownEncryption);
    assert_eq!(io.kind(), ErrorKind::Other);
    assert_eq!(io.to_string(), "Unknown encryption error");
    let io = Error::Proto(proto_error()).into_io_error();
    assert_eq!(io.kind(), ErrorKind::Other);
    assert_eq!(io.to_string(), "Protobuf error unexpected EOF");
}

#[test]
fn a_service_failure_answers_for_itself() {
    let timeout = cloud(ErrorCode::Other("KV:Cloud:Timeout".to_string()), true, "timed out");
    let err = Error::from(CloudConvertError(timeout, "get data key".to_string()));
    assert_eq!(err.error_code(), ErrorCode::Other("KV:Cloud:Timeout".to_string()));
    assert!(err.is_retryable());
    assert_eq!(err.message(), "Cloud KMS error timed out get data key");
    assert_eq!(err.error_code_with(ErrorCode::Io), ErrorCode::Io);
    assert!(!err.is_retryable_with(false));
    assert_eq!(err.message_with("x"), "Cloud KMS error x");

    let denied = cloud(ErrorCode::WrongMasterKey, false, "access denied");
    let err = Error::from(CloudConvertError(denied, "decrypt".to_string()));
    assert_eq!(err.error_code(), ErrorCode::WrongMasterKey);
    assert!(!err.is_retryable());
}

#[test]
fn cloud_convert_error_attaches_the_note() {
    let convert = cloud_convert_error("while decrypting".to_string());
    let err = convert(cloud(ErrorCode::Io, true, "connection reset"));
    assert_eq!(err.1, "while decrypting");
    assert_eq!(err.0.text, "connection reset");
    assert_eq!(err.message(), "connection reset while decrypting");
    assert_eq!(err.error_code(), ErrorCode::Io);
    assert!(err.is_retryable());
}

/// A failure of some other service, reported through the same trait.
struct Throttled;

impl RetryCodedError for Throttled {
    fn stated_code(&self) -> ErrorCode {
        self.error_code()
    }

    fn stated_retryable(&self) -> bool {
        self.is_retryable()
    }

    fn stated_text(&self) -> String {
        self.message()
    }

    fn error_code(&self) -> ErrorCode {
        ErrorCode::Other("KV:Cloud:Throttled".to_string())
    }

    fn is_retryable(&self) -> bool {
        true
    }

    fn message(&self) -> String {
        "slow down".to_string()
    }
}

#[test]
fn any_service_can_report_through_the_trait() {
    let err = Error::RetryCodedError(Box::new(Throttled));
    assert_eq!(err.error_code(), ErrorCode::Other("KV:Cloud:Throttled".to_string()));
    assert!(err.is_retryable());
    assert_eq!(err.message(), "Cloud KMS error slow down");
    assert_eq!(IoError::from(err).to_string(), "Cloud KMS error slow down");
}

#[test]
fn codes_can_be_copied() {
    let code = ErrorCode::Other("KV:Cloud:Timeout".to_string());
    assert_eq!(code.duplicate(), code);
    assert_eq!(ErrorCode::Crypter.duplicate(), ErrorCode::Crypter);
}
