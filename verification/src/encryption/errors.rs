//! Errors of the encryption layer: what each kind of failure is called, what
//! it says, and whether the operation that met it is worth trying again.

use vstd::prelude::*;

verus! {

/// The code under which an error is reported.
#[derive(Debug, PartialEq, Eq)]
pub enum ErrorCode {
    /// The tail of a file dictionary could not be parsed.
    ParseIncomplete,
    /// The storage engine failed.
    Rocks,
    /// An I/O operation failed.
    Io,
    /// OpenSSL failed.
    Crypter,
    /// A protocol buffer could not be read or written.
    Proto,
    /// The encryption method is not known.
    UnknownEncryption,
    /// The master key does not fit.
    WrongMasterKey,
    /// Neither master key fits.
    BothMasterKeyFail,
    /// The code of an error that has no code of its own.
    Unknown,
    /// A code from outside the encryption layer, by its name.
    Other(String),
}

impl ErrorCode {
    /// A copy of the code.
    pub fn duplicate(&self) -> (c: ErrorCode)
        ensures
            c == *self,
    {
        match self {
            ErrorCode::ParseIncomplete => ErrorCode::ParseIncomplete,
            ErrorCode::Rocks => ErrorCode::Rocks,
            ErrorCode::Io => ErrorCode::Io,
            ErrorCode::Crypter => ErrorCode::Crypter,
            ErrorCode::Proto => ErrorCode::Proto,
            ErrorCode::UnknownEncryption => ErrorCode::UnknownEncryption,
            ErrorCode::WrongMasterKey => ErrorCode::WrongMasterKey,
            ErrorCode::BothMasterKeyFail => ErrorCode::BothMasterKeyFail,
            ErrorCode::Unknown => ErrorCode::Unknown,
            ErrorCode::Other(name) => ErrorCode::Other(name.clone()),
        }
    }
}

/// An error that knows its own code, its own text, and whether it is worth
/// a retry. Key-management services report their failures through it.
pub trait RetryCodedError: Send + Sync {
    /// The code that the error stands for.
    spec fn stated_code(&self) -> ErrorCode;

    /// Whether the error stands for a failure that a retry may mend.
    spec fn stated_retryable(&self) -> bool;

    /// The text that the error stands for.
    spec fn stated_text(&self) -> String;

    /// The error's code.
    fn error_code(&self) -> (c: ErrorCode)
        ensures
            c == self.stated_code(),
    ;

    /// Whether a retry may succeed.
    fn is_retryable(&self) -> (r: bool)
        ensures
            r == self.stated_retryable(),
    ;

    /// What the error says.
    fn message(&self) -> (s: String)
        ensures
            s@ == self.stated_text()@,
    ;
}

/// `openssl::error::ErrorStack`, the failures that OpenSSL reports. Nothing
/// is known of what a value holds.
#[verifier::external_type_specification]
#[verifier::external_body]
pub struct ExErrorStack(openssl::error::ErrorStack);

/// `protobuf::ProtobufError`, the failures of reading and writing protocol
/// buffers. Nothing is known of what a value holds.
#[verifier::external_type_specification]
#[verifier::external_body]
pub struct ExProtobufError(protobuf::ProtobufError);

/// `std::io::Error`. Nothing is known of what a value holds.
#[verifier::external_type_specification]
#[verifier::external_body]
pub struct ExIoError(std::io::Error);

/// The I/O error that `std::io::Error::other` makes from a text: one of the
/// kind `Other` that says `text`.
pub uninterp spec fn io_error_of_text(text: Seq<char>) -> std::io::Error;

/// `std::io::Error::other`: an I/O error made from a text. The error that
/// comes back depends on the text alone.
#[verifier::external_body]
fn io_error_other(text: String) -> (e: std::io::Error)
    ensures
        e == io_error_of_text(text@),
{
    std::io::Error::other(text)
}

/// The error type of the encryption layer.
pub enum Error {
    /// Any other failure, by what it said.
    Other(String),
    /// The last record of a file dictionary is too short or fails its
    /// checksum: the tail can be dropped and the rest recovered.
    TailRecordParseIncomplete,
    /// A failure of a key-management service.
    RetryCodedError(Box<dyn RetryCodedError>),
    /// A failure of the storage engine, by what it said.
    Rocks(String),
    /// A failure of an I/O operation.
    Io(std::io::Error),
    /// A failure that OpenSSL reported.
    Crypter(openssl::error::ErrorStack),
    /// A failure to read or write a protocol buffer.
    Proto(protobuf::ProtobufError),
    /// The encryption method is not known.
    UnknownEncryption,
    /// The master key does not fit; holds what the failure said.
    WrongMasterKey(String),
    /// Neither the current master key nor the previous one works; holds
    /// what the two failures said.
    BothMasterKeyFail(String, String),
}

impl Error {
    /// The code of a failure of the encryption layer itself. A service
    /// failure brings its own code and has none here.
    pub open spec fn own_code(&self) -> Option<ErrorCode> {
        match self {
            Error::RetryCodedError(_) => None,
            Error::TailRecordParseIncomplete => Some(ErrorCode::ParseIncomplete),
            Error::Rocks(_) => Some(ErrorCode::Rocks),
            Error::Io(_) => Some(ErrorCode::Io),
            Error::Crypter(_) => Some(ErrorCode::Crypter),
            Error::Proto(_) => Some(ErrorCode::Proto),
            Error::UnknownEncryption => Some(ErrorCode::UnknownEncryption),
            Error::WrongMasterKey(_) => Some(ErrorCode::WrongMasterKey),
            Error::BothMasterKeyFail(_, _) => Some(ErrorCode::BothMasterKeyFail),
            Error::Other(_) => Some(ErrorCode::Unknown),
        }
    }

    /// Whether a retry may succeed after a failure of the encryption layer
    /// itself: a wrong master key never gets better, everything else may. A
    /// service failure decides for itself.
    pub open spec fn own_retryable(&self) -> Option<bool> {
        match self {
            Error::RetryCodedError(_) => None,
            Error::WrongMasterKey(_) => Some(false),
            Error::BothMasterKeyFail(_, _) => Some(false),
            _ => Some(true),
        }
    }

    /// The code under which the error is reported, where `service` is the
    /// code that a service failure gives for itself.
    pub open spec fn code(&self, service: ErrorCode) -> ErrorCode {
        match self.own_code() {
            Some(code) => code,
            None => service,
        }
    }

    /// Whether a retry may succeed, where `service` is what a service
    /// failure answers for itself.
    pub open spec fn retryable(&self, service: bool) -> bool {
        match self.own_retryable() {
            Some(r) => r,
            None => service,
        }
    }

    /// What the error says, where `cause` is what the failure that the
    /// error holds says for itself; a variant that holds a text, or
    /// nothing, does not look at `cause`.
    pub open spec fn text(&self, cause: Seq<char>) -> Seq<char> {
        match self {
            Error::Other(e) => "Other error "@ + e@,
            Error::TailRecordParseIncomplete =>
                "Recoverable tail record corruption while parsing file dictionary"@,
            Error::RetryCodedError(_) => "Cloud KMS error "@ + cause,
            Error::Rocks(e) => "RocksDB error "@ + e@,
            Error::Io(_) => "IO error "@ + cause,
            Error::Crypter(_) => "OpenSSL error "@ + cause,
            Error::Proto(_) => "Protobuf error "@ + cause,
            Error::UnknownEncryption => "Unknown encryption error"@,
            Error::WrongMasterKey(e) => "Wrong master key error "@ + e@,
            Error::BothMasterKeyFail(current, previous) =>
                "Both master key failed, current key "@ + current@ + ", previous key "@
                    + previous@ + "."@,
        }
    }

    /// The code that the failure of a service stands for; for any other
    /// error, the code of an error that has none.
    pub open spec fn service_code(&self) -> ErrorCode {
        match self {
            Error::RetryCodedError(err) => err.stated_code(),
            _ => ErrorCode::Unknown,
        }
    }

    /// What the failure of a service answers on a retry; for any other
    /// error, yes.
    pub open spec fn service_retryable(&self) -> bool {
        match self {
            Error::RetryCodedError(err) => err.stated_retryable(),
            _ => true,
        }
    }

    /// Whether `s` is what the error says. A service failure says what it
    /// stands for; an I/O, OpenSSL or protocol-buffer failure says what its
    /// `Display` writes; both after the name of the kind of failure.
    pub open spec fn says(&self, s: Seq<char>) -> bool {
        match self {
            Error::RetryCodedError(err) => s == self.text(err.stated_text()@),
            Error::Io(e) => exists|cause: String|
                vstd::string::to_string_from_display_ensures(e, cause) && s == self.text(cause@),
            Error::Crypter(e) => exists|cause: String|
                vstd::string::to_string_from_display_ensures(e, cause) && s == self.text(cause@),
            Error::Proto(e) => exists|cause: String|
                vstd::string::to_string_from_display_ensures(e, cause) && s == self.text(cause@),
            _ => s == self.text(Seq::empty()),
        }
    }

    /// Whether `e` is the error as an I/O error: an I/O failure itself, and
    /// for any other error the I/O error made from what it says.
    pub open spec fn becomes(self, e: std::io::Error) -> bool {
        match self {
            Error::Io(inner) => e == inner,
            other => exists|s: Seq<char>| #[trigger] other.says(s) && e == io_error_of_text(s),
        }
    }

    /// The code under which the error is reported, given the code that a
    /// service failure gave for itself: that code for a service failure, the
    /// code of the variant otherwise.
    pub fn error_code_with(&self, service: ErrorCode) -> (c: ErrorCode)
        ensures
            c == self.code(service),
    {
        match self {
            Error::RetryCodedError(_) => service,
            Error::TailRecordParseIncomplete => ErrorCode::ParseIncomplete,
            Error::Rocks(_) => ErrorCode::Rocks,
            Error::Io(_) => ErrorCode::Io,
            Error::Crypter(_) => ErrorCode::Crypter,
            Error::Proto(_) => ErrorCode::Proto,
            Error::UnknownEncryption => ErrorCode::UnknownEncryption,
            Error::WrongMasterKey(_) => ErrorCode::WrongMasterKey,
            Error::BothMasterKeyFail(_, _) => ErrorCode::BothMasterKeyFail,
            Error::Other(_) => ErrorCode::Unknown,
        }
    }

    /// Whether a retry may succeed, given what a service failure answered
    /// for itself: that answer for a service failure; never after a wrong
    /// master key; always otherwise.
    pub fn is_retryable_with(&self, service: bool) -> (r: bool)
        ensures
            r == self.retryable(service),
    {
        match self {
            Error::RetryCodedError(_) => service,
            Error::TailRecordParseIncomplete => true,
            Error::Rocks(_) => true,
            Error::Io(_) => true,
            Error::Crypter(_) => true,
            Error::Proto(_) => true,
            Error::UnknownEncryption => true,
            Error::WrongMasterKey(_) => false,
            Error::BothMasterKeyFail(_, _) => false,
            Error::Other(_) => true,
        }
    }

    /// What the error says, given what the failure that it holds said for itself.
    pub fn message_with(&self, cause: &str) -> (s: String)
        ensures
            s@ == self.text(cause@),
    {
        match self {
            Error::Other(e) => String::from_str("Other error ").concat(e.as_str()),
            Error::TailRecordParseIncomplete => String::from_str(
                "Recoverable tail record corruption while parsing file dictionary",
            ),
            Error::RetryCodedError(_) => String::from_str("Cloud KMS error ").concat(cause),
            Error::Rocks(e) => String::from_str("RocksDB error ").concat(e.as_str()),
            Error::Io(_) => String::from_str("IO error ").concat(cause),
            Error::Crypter(_) => String::from_str("OpenSSL error ").concat(cause),
            Error::Proto(_) => String::from_str("Protobuf error ").concat(cause),
            Error::UnknownEncryption => String::from_str("Unknown encryption error"),
            Error::WrongMasterKey(e) => String::from_str("Wrong master key error ").concat(
                e.as_str(),
            ),
            Error::BothMasterKeyFail(current, previous) => String::from_str(
                "Both master key failed, current key ",
            ).concat(current.as_str()).concat(", previous key ").concat(previous.as_str()).concat(
                ".",
            ),
        }
    }

    /// The code under which the error is reported. A service failure is
    /// asked for its own code.
    pub fn error_code(&self) -> (c: ErrorCode)
        ensures
            c == self.code(self.service_code()),
    {
        match self {
            Error::RetryCodedError(err) => {
                let service = err.error_code();
                self.error_code_with(service)
            },
            _ => self.error_code_with(ErrorCode::Unknown),
        }
    }

    /// Whether a retry may succeed. A service failure is asked for itself.
    pub fn is_retryable(&self) -> (r: bool)
        ensures
            r == self.retryable(self.service_retryable()),
    {
        match self {
            Error::RetryCodedError(err) => {
                let service = err.is_retryable();
                self.is_retryable_with(service)
            },
            _ => self.is_retryable_with(true),
        }
    }

    /// What the error says. The failure that the error holds is asked what
    /// it says: a service failure through `message`, an I/O, OpenSSL or
    /// protocol-buffer failure through its `Display`. The `Display` of an
    /// OpenSSL failure reads the names of library and reason from OpenSSL's
    /// own tables and takes them to be UTF-8.
    pub fn message(&self) -> (s: String)
        ensures
            self.says(s@),
    {
        match self {
            Error::RetryCodedError(err) => {
                let cause = err.message();
                let s = self.message_with(cause.as_str());
                assert(s@ == self.text(cause@));
                s
            },
            Error::Io(e) => {
                let cause = e.to_string();
                let s = self.message_with(cause.as_str());
                assert(vstd::string::to_string_from_display_ensures(e, cause) && s@ == self.text(
                    cause@,
                ));
                s
            },
            Error::Crypter(e) => {
                let cause = e.to_string();
                let s = self.message_with(cause.as_str());
                assert(vstd::string::to_string_from_display_ensures(e, cause) && s@ == self.text(
                    cause@,
                ));
                s
            },
            Error::Proto(e) => {
                let cause = e.to_string();
                let s = self.message_with(cause.as_str());
                assert(vstd::string::to_string_from_display_ensures(e, cause) && s@ == self.text(
                    cause@,
                ));
                s
            },
            _ => {
                let s = self.message_with("");
                assert(s@ == self.text(""@));
                s
            },
        }
    }

    /// The error as an I/O error: an I/O failure as it is, any other error
    /// as a new I/O error made from what `message` says.
    pub fn into_io_error(self) -> (e: std::io::Error)
        ensures
            self.becomes(e),
    {
        match self {
            Error::Io(e) => e,
            other => {
                let said = other.message();
                assert(other.says(said@));
                io_error_other(said)
            },
        }
    }
}

impl From<Error> for std::io::Error {
    fn from(err: Error) -> (e: std::io::Error)
        ensures
            err.becomes(e),
    {
        err.into_io_error()
    }
}

impl vstd::std_specs::convert::FromSpecImpl<Error> for std::io::Error {
    /// What an error says may depend on the `Display` of what it holds, so
    /// the conversion is stated as a relation, `Error::becomes`, and not here.
    open spec fn obeys_from_spec() -> bool {
        false
    }

    open spec fn from_spec(err: Error) -> std::io::Error {
        match err {
            Error::Io(e) => e,
            _ => arbitrary(),
        }
    }
}

impl From<String> for Error {
    /// A storage-engine failure, from what it said.
    fn from(inr: String) -> (e: Error) {
        Error::Rocks(inr)
    }
}

impl vstd::std_specs::convert::FromSpecImpl<String> for Error {
    open spec fn obeys_from_spec() -> bool {
        true
    }

    open spec fn from_spec(inr: String) -> Error {
        Error::Rocks(inr)
    }
}

impl From<std::io::Error> for Error {
    fn from(inr: std::io::Error) -> (e: Error) {
        Error::Io(inr)
    }
}

impl vstd::std_specs::convert::FromSpecImpl<std::io::Error> for Error {
    open spec fn obeys_from_spec() -> bool {
        true
    }

    open spec fn from_spec(inr: std::io::Error) -> Error {
        Error::Io(inr)
    }
}

impl From<openssl::error::ErrorStack> for Error {
    fn from(inr: openssl::error::ErrorStack) -> (e: Error) {
        Error::Crypter(inr)
    }
}

impl vstd::std_specs::convert::FromSpecImpl<openssl::error::ErrorStack> for Error {
    open spec fn obeys_from_spec() -> bool {
        true
    }

    open spec fn from_spec(inr: openssl::error::ErrorStack) -> Error {
        Error::Crypter(inr)
    }
}

impl From<protobuf::ProtobufError> for Error {
    fn from(inr: protobuf::ProtobufError) -> (e: Error) {
        Error::Proto(inr)
    }
}

impl vstd::std_specs::convert::FromSpecImpl<protobuf::ProtobufError> for Error {
    open spec fn obeys_from_spec() -> bool {
        true
    }

    open spec fn from_spec(inr: protobuf::ProtobufError) -> Error {
        Error::Proto(inr)
    }
}

/// A failure of a cloud service as the encryption layer sees it: its code,
/// whether a retry may succeed, and what it said.
#[derive(Debug)]
pub struct CloudError {
    pub code: ErrorCode,
    pub retryable: bool,
    pub text: String,
}

/// A cloud failure together with a note on what was being done, reported as
/// a service failure of the encryption layer.
#[derive(Debug)]
pub struct CloudConvertError(pub CloudError, pub String);

impl CloudConvertError {
    /// What the cloud failure said, a space, and the note.
    pub open spec fn text(&self) -> Seq<char> {
        self.0.text@ + " "@ + self.1@
    }
}

impl RetryCodedError for CloudConvertError {
    open spec fn stated_code(&self) -> ErrorCode {
        self.0.code
    }

    open spec fn stated_retryable(&self) -> bool {
        self.0.retryable
    }

    /// A string that holds `text`.
    open spec fn stated_text(&self) -> String {
        choose|s: String| s@ == self.text()
    }

    /// The code of the cloud failure.
    fn error_code(&self) -> (c: ErrorCode) {
        self.0.code.duplicate()
    }

    /// What the cloud failure answers.
    fn is_retryable(&self) -> (r: bool) {
        self.0.retryable
    }

    /// What the cloud failure said, a space, and the note.
    fn message(&self) -> (s: String)
        ensures
            s@ == self.text(),
    {
        let s = self.0.text.clone().concat(" ").concat(self.1.as_str());
        assert(s@ == self.text());
        s
    }
}

impl From<CloudConvertError> for Error {
    fn from(err: CloudConvertError) -> (e: Error) {
        Error::RetryCodedError(Box::new(err))
    }
}

impl vstd::std_specs::convert::FromSpecImpl<CloudConvertError> for Error {
    open spec fn obeys_from_spec() -> bool {
        true
    }

    open spec fn from_spec(err: CloudConvertError) -> Error {
        Error::RetryCodedError(Box::new(err))
    }
}

/// The conversion that attaches the note `msg` to a cloud failure.
pub fn cloud_convert_error(msg: String) -> (convert: impl FnOnce(CloudError) -> CloudConvertError)
    ensures
        forall|err: CloudError| call_requires(convert, (err,)),
        forall|err: CloudError, e: CloudConvertError|
            call_ensures(convert, (err,), e) ==> e == CloudConvertError(err, msg),
{
    let convert = move |err: CloudError| -> (e: CloudConvertError)
        ensures
            e == CloudConvertError(err, msg),
        {
            let e = CloudConvertError(err, msg);
            e
        };
    convert
}

} // verus!
