//! The command line of the DRACOON commander, and its errors.
use dco3::auth::models::{DracoonAuthErrorResponse, DracoonErrorResponse};
use dco3::nodes::models::S3ErrorResponse;
use vstd::prelude::*;

verus! {

/// The body of an HTTP error of the DRACOON API, as the API client hands it out.
#[verifier::external_type_specification]
#[verifier::external_body]
pub struct ExDracoonErrorResponse(dco3::auth::models::DracoonErrorResponse);

/// The body of an authentication error, as the API client hands it out.
#[verifier::external_type_specification]
#[verifier::external_body]
pub struct ExDracoonAuthErrorResponse(dco3::auth::models::DracoonAuthErrorResponse);

/// An error of the S3 storage, as the API client hands it out.
#[verifier::external_type_specification]
#[verifier::external_body]
pub struct ExS3ErrorResponse(dco3::nodes::models::S3ErrorResponse);

/// User name and password for the password flow.
pub struct PasswordAuth(pub String, pub String);

/// What the commander fails with.
#[derive(Debug, PartialEq)]
pub enum DcCmdError {
    ConnectionFailed,
    Unknown,
    InvalidUrl(String),
    InvalidPath(String),
    InvalidPathOrNoPermission(String),
    CredentialStorageFailed,
    CredentialDeletionFailed,
    InvalidAccount,
    DracoonError(DracoonErrorResponse),
    DracoonS3Error(Box<S3ErrorResponse>),
    DracoonAuthError(DracoonAuthErrorResponse),
    IoError,
    InvalidArgument(String),
    LogFileCreationFailed,
    InsufficentPermissions(String),
    ImportedRoomHasNoAdmin(String),
    IllegalRoomName(String),
    ConflictingRoomPermissions(String),
    UserDoesNotExist(String),
    GroupNotFound(String),
    NoTemplateTokensFound(String),
    InvalidTemplateTokens(String),
    TemplateTokenConflict(String),
    CsvReadHeaders(String),
    CsvReadRecord(String),
    SerdeSerializeToString(String),
    JsonParseTemplate(String),
}

/// An error with its text as a sequence of characters.
pub enum ErrorView {
    ConnectionFailed,
    Unknown,
    InvalidUrl(Seq<char>),
    InvalidPath(Seq<char>),
    InvalidPathOrNoPermission(Seq<char>),
    CredentialStorageFailed,
    CredentialDeletionFailed,
    InvalidAccount,
    DracoonError(DracoonErrorResponse),
    DracoonS3Error(Box<S3ErrorResponse>),
    DracoonAuthError(DracoonAuthErrorResponse),
    IoError,
    InvalidArgument(Seq<char>),
    LogFileCreationFailed,
    InsufficentPermissions(Seq<char>),
    ImportedRoomHasNoAdmin(Seq<char>),
    IllegalRoomName(Seq<char>),
    ConflictingRoomPermissions(Seq<char>),
    UserDoesNotExist(Seq<char>),
    GroupNotFound(Seq<char>),
    NoTemplateTokensFound(Seq<char>),
    InvalidTemplateTokens(Seq<char>),
    TemplateTokenConflict(Seq<char>),
    CsvReadHeaders(Seq<char>),
    CsvReadRecord(Seq<char>),
    SerdeSerializeToString(Seq<char>),
    JsonParseTemplate(Seq<char>),
}

impl View for DcCmdError {
    type V = ErrorView;

    open spec fn view(&self) -> ErrorView {
        match *self {
            DcCmdError::ConnectionFailed => ErrorView::ConnectionFailed,
            DcCmdError::Unknown => ErrorView::Unknown,
            DcCmdError::InvalidUrl(s) => ErrorView::InvalidUrl(s@),
            DcCmdError::InvalidPath(s) => ErrorView::InvalidPath(s@),
            DcCmdError::InvalidPathOrNoPermission(s) => ErrorView::InvalidPathOrNoPermission(s@),
            DcCmdError::CredentialStorageFailed => ErrorView::CredentialStorageFailed,
            DcCmdError::CredentialDeletionFailed => ErrorView::CredentialDeletionFailed,
            DcCmdError::InvalidAccount => ErrorView::InvalidAccount,
            DcCmdError::DracoonError(e) => ErrorView::DracoonError(e),
            DcCmdError::DracoonS3Error(e) => ErrorView::DracoonS3Error(e),
            DcCmdError::DracoonAuthError(e) => ErrorView::DracoonAuthError(e),
            DcCmdError::IoError => ErrorView::IoError,
            DcCmdError::InvalidArgument(s) => ErrorView::InvalidArgument(s@),
            DcCmdError::LogFileCreationFailed => ErrorView::LogFileCreationFailed,
            DcCmdError::InsufficentPermissions(s) => ErrorView::InsufficentPermissions(s@),
            DcCmdError::ImportedRoomHasNoAdmin(s) => ErrorView::ImportedRoomHasNoAdmin(s@),
            DcCmdError::IllegalRoomName(s) => ErrorView::IllegalRoomName(s@),
            DcCmdError::ConflictingRoomPermissions(s) => ErrorView::ConflictingRoomPermissions(s@),
            DcCmdError::UserDoesNotExist(s) => ErrorView::UserDoesNotExist(s@),
            DcCmdError::GroupNotFound(s) => ErrorView::GroupNotFound(s@),
            DcCmdError::NoTemplateTokensFound(s) => ErrorView::NoTemplateTokensFound(s@),
            DcCmdError::InvalidTemplateTokens(s) => ErrorView::InvalidTemplateTokens(s@),
            DcCmdError::TemplateTokenConflict(s) => ErrorView::TemplateTokenConflict(s@),
            DcCmdError::CsvReadHeaders(s) => ErrorView::CsvReadHeaders(s@),
            DcCmdError::CsvReadRecord(s) => ErrorView::CsvReadRecord(s@),
            DcCmdError::SerdeSerializeToString(s) => ErrorView::SerdeSerializeToString(s@),
            DcCmdError::JsonParseTemplate(s) => ErrorView::JsonParseTemplate(s@),
        }
    }
}

/// An outcome with its error as an [`ErrorView`].
pub open spec fn outcome<T>(result: Result<T, DcCmdError>) -> Result<T, ErrorView> {
    match result {
        Ok(value) => Ok(value),
        Err(error) => Err(error@),
    }
}

impl DcCmdError {
    /// The fixed sentence that an error is shown with.
    pub open spec fn sentence(self) -> Seq<char> {
        match self {
            DcCmdError::ConnectionFailed => "Connection to DRACOON failed"@,
            DcCmdError::Unknown => "Unknown error"@,
            DcCmdError::InvalidUrl(_) => "Invalid DRACOON url format"@,
            DcCmdError::InvalidPath(_) => "Invalid DRACOON path"@,
            DcCmdError::InvalidPathOrNoPermission(_) => "Invalid DRACOON path or no permission"@,
            DcCmdError::CredentialStorageFailed => "Saving DRACOON credentials failed"@,
            DcCmdError::CredentialDeletionFailed => "Deleting DRACOON credentials failed"@,
            DcCmdError::InvalidAccount => "DRACOON account not found"@,
            DcCmdError::DracoonError(_) => "DRACOON HTTP API error"@,
            DcCmdError::DracoonS3Error(_) => "DRACOON HTTP S3 error"@,
            DcCmdError::DracoonAuthError(_) => "DRACOON HTTP authentication error"@,
            DcCmdError::IoError => "IO error"@,
            DcCmdError::InvalidArgument(_) => "Invalid argument"@,
            DcCmdError::LogFileCreationFailed => "Log file creation failed"@,
            DcCmdError::InsufficentPermissions(_) => "Insufficent permission to perform action"@,
            DcCmdError::ImportedRoomHasNoAdmin(_) => "Room does not have an admin"@,
            DcCmdError::IllegalRoomName(_) => "Room name contains illegal character"@,
            DcCmdError::ConflictingRoomPermissions(_) => "Room has conflicting permissions"@,
            DcCmdError::UserDoesNotExist(_) => "User does not exist"@,
            DcCmdError::GroupNotFound(_) => "Group does not exist"@,
            DcCmdError::NoTemplateTokensFound(_) => "No template tokens found"@,
            DcCmdError::InvalidTemplateTokens(_) => "Invalid template tokens"@,
            DcCmdError::TemplateTokenConflict(_) => "Template tokens and CSV columns do not match"@,
            DcCmdError::CsvReadHeaders(_) => "Reading CSV headers failed"@,
            DcCmdError::CsvReadRecord(_) => "Reading CSV record failed"@,
            DcCmdError::SerdeSerializeToString(_) => "Serialization failed"@,
            DcCmdError::JsonParseTemplate(_) => "Parsing filled JSON template failed"@,
        }
    }

    /// The fixed sentence that an error is shown with.
    pub fn description(&self) -> (text: &'static str)
        ensures
            text@ == self.sentence(),
    {
        match self {
            DcCmdError::ConnectionFailed => "Connection to DRACOON failed",
            DcCmdError::Unknown => "Unknown error",
            DcCmdError::InvalidUrl(_) => "Invalid DRACOON url format",
            DcCmdError::InvalidPath(_) => "Invalid DRACOON path",
            DcCmdError::InvalidPathOrNoPermission(_) => "Invalid DRACOON path or no permission",
            DcCmdError::CredentialStorageFailed => "Saving DRACOON credentials failed",
            DcCmdError::CredentialDeletionFailed => "Deleting DRACOON credentials failed",
            DcCmdError::InvalidAccount => "DRACOON account not found",
            DcCmdError::DracoonError(_) => "DRACOON HTTP API error",
            DcCmdError::DracoonS3Error(_) => "DRACOON HTTP S3 error",
            DcCmdError::DracoonAuthError(_) => "DRACOON HTTP authentication error",
            DcCmdError::IoError => "IO error",
            DcCmdError::InvalidArgument(_) => "Invalid argument",
            DcCmdError::LogFileCreationFailed => "Log file creation failed",
            DcCmdError::InsufficentPermissions(_) => "Insufficent permission to perform action",
            DcCmdError::ImportedRoomHasNoAdmin(_) => "Room does not have an admin",
            DcCmdError::IllegalRoomName(_) => "Room name contains illegal character",
            DcCmdError::ConflictingRoomPermissions(_) => "Room has conflicting permissions",
            DcCmdError::UserDoesNotExist(_) => "User does not exist",
            DcCmdError::GroupNotFound(_) => "Group does not exist",
            DcCmdError::NoTemplateTokensFound(_) => "No template tokens found",
            DcCmdError::InvalidTemplateTokens(_) => "Invalid template tokens",
            DcCmdError::TemplateTokenConflict(_) => "Template tokens and CSV columns do not match",
            DcCmdError::CsvReadHeaders(_) => "Reading CSV headers failed",
            DcCmdError::CsvReadRecord(_) => "Reading CSV record failed",
            DcCmdError::SerdeSerializeToString(_) => "Serialization failed",
            DcCmdError::JsonParseTemplate(_) => "Parsing filled JSON template failed",
        }
    }
}

/// The view of an error shows which error it is, and its text.
pub proof fn law_error_view_shows_all(error: DcCmdError)
    ensures
        error is ConnectionFailed <==> error@ is ConnectionFailed,
        error is Unknown <==> error@ is Unknown,
        error is CredentialStorageFailed <==> error@ is CredentialStorageFailed,
        error is CredentialDeletionFailed <==> error@ is CredentialDeletionFailed,
        error is InvalidAccount <==> error@ is InvalidAccount,
        error is IoError <==> error@ is IoError,
        error is LogFileCreationFailed <==> error@ is LogFileCreationFailed,
        error matches DcCmdError::InvalidUrl(s) ==> error@ == ErrorView::InvalidUrl(s@),
        error matches DcCmdError::InvalidPath(s) ==> error@ == ErrorView::InvalidPath(s@),
        error matches DcCmdError::InvalidPathOrNoPermission(s) ==> error@
            == ErrorView::InvalidPathOrNoPermission(s@),
        error matches DcCmdError::DracoonError(e) ==> error@ == ErrorView::DracoonError(e),
        error matches DcCmdError::DracoonS3Error(e) ==> error@ == ErrorView::DracoonS3Error(e),
        error matches DcCmdError::DracoonAuthError(e) ==> error@ == ErrorView::DracoonAuthError(e),
        error matches DcCmdError::InvalidArgument(s) ==> error@ == ErrorView::InvalidArgument(s@),
        error matches DcCmdError::InsufficentPermissions(s) ==> error@
            == ErrorView::InsufficentPermissions(s@),
        error matches DcCmdError::ImportedRoomHasNoAdmin(s) ==> error@
            == ErrorView::ImportedRoomHasNoAdmin(s@),
        error matches DcCmdError::IllegalRoomName(s) ==> error@ == ErrorView::IllegalRoomName(s@),
        error matches DcCmdError::ConflictingRoomPermissions(s) ==> error@
            == ErrorView::ConflictingRoomPermissions(s@),
        error matches DcCmdError::UserDoesNotExist(s) ==> error@ == ErrorView::UserDoesNotExist(s@),
        error matches DcCmdError::GroupNotFound(s) ==> error@ == ErrorView::GroupNotFound(s@),
        error matches DcCmdError::NoTemplateTokensFound(s) ==> error@
            == ErrorView::NoTemplateTokensFound(s@),
        error matches DcCmdError::InvalidTemplateTokens(s) ==> error@
            == ErrorView::InvalidTemplateTokens(s@),
        error matches DcCmdError::TemplateTokenConflict(s) ==> error@
            == ErrorView::TemplateTokenConflict(s@),
        error matches DcCmdError::CsvReadHeaders(s) ==> error@ == ErrorView::CsvReadHeaders(s@),
        error matches DcCmdError::CsvReadRecord(s) ==> error@ == ErrorView::CsvReadRecord(s@),
        error matches DcCmdError::SerdeSerializeToString(s) ==> error@
            == ErrorView::SerdeSerializeToString(s@),
        error matches DcCmdError::JsonParseTemplate(s) ==> error@ == ErrorView::JsonParseTemplate(
            s@,
        ),
        outcome(Err::<(), DcCmdError>(error)) == Err::<(), ErrorView>(error@),
        outcome(Ok::<(), DcCmdError>(())) == Ok::<(), ErrorView>(()),
        outcome(Err::<u64, DcCmdError>(error)) == Err::<u64, ErrorView>(error@),
        forall|value: u64|
            #[trigger] outcome(Ok::<u64, DcCmdError>(value)) == Ok::<u64, ErrorView>(value),
{
}

/// Each kind of error is shown with a sentence of its own, whatever its text and
/// whatever the API said.
pub proof fn law_sentences(
    text: String,
    http: DracoonErrorResponse,
    s3: Box<S3ErrorResponse>,
    auth: DracoonAuthErrorResponse,
)
    ensures
        DcCmdError::DracoonError(http).sentence() == "DRACOON HTTP API error"@,
        DcCmdError::DracoonS3Error(s3).sentence() == "DRACOON HTTP S3 error"@,
        DcCmdError::DracoonAuthError(auth).sentence() == "DRACOON HTTP authentication error"@,
        DcCmdError::ConnectionFailed.sentence() == "Connection to DRACOON failed"@,
        DcCmdError::Unknown.sentence() == "Unknown error"@,
        DcCmdError::InvalidUrl(text).sentence() == "Invalid DRACOON url format"@,
        DcCmdError::InvalidPath(text).sentence() == "Invalid DRACOON path"@,
        DcCmdError::InvalidPathOrNoPermission(text).sentence()
            == "Invalid DRACOON path or no permission"@,
        DcCmdError::CredentialStorageFailed.sentence() == "Saving DRACOON credentials failed"@,
        DcCmdError::CredentialDeletionFailed.sentence() == "Deleting DRACOON credentials failed"@,
        DcCmdError::InvalidAccount.sentence() == "DRACOON account not found"@,
        DcCmdError::IoError.sentence() == "IO error"@,
        DcCmdError::InvalidArgument(text).sentence() == "Invalid argument"@,
        DcCmdError::LogFileCreationFailed.sentence() == "Log file creation failed"@,
        DcCmdError::InsufficentPermissions(text).sentence()
            == "Insufficent permission to perform action"@,
        DcCmdError::ImportedRoomHasNoAdmin(text).sentence() == "Room does not have an admin"@,
        DcCmdError::IllegalRoomName(text).sentence() == "Room name contains illegal character"@,
        DcCmdError::ConflictingRoomPermissions(text).sentence()
            == "Room has conflicting permissions"@,
        DcCmdError::UserDoesNotExist(text).sentence() == "User does not exist"@,
        DcCmdError::GroupNotFound(text).sentence() == "Group does not exist"@,
        DcCmdError::NoTemplateTokensFound(text).sentence() == "No template tokens found"@,
        DcCmdError::InvalidTemplateTokens(text).sentence() == "Invalid template tokens"@,
        DcCmdError::TemplateTokenConflict(text).sentence()
            == "Template tokens and CSV columns do not match"@,
        DcCmdError::CsvReadHeaders(text).sentence() == "Reading CSV headers failed"@,
        DcCmdError::CsvReadRecord(text).sentence() == "Reading CSV record failed"@,
        DcCmdError::SerdeSerializeToString(text).sentence() == "Serialization failed"@,
        DcCmdError::JsonParseTemplate(text).sentence() == "Parsing filled JSON template failed"@,
{
}

/// What the API client fails with.
pub enum ClientError {
    MissingClientId,
    MissingClientSecret,
    MissingBaseUrl,
    InvalidUrl(String),
    InvalidPath(String),
    ConnectionFailed(String),
    Unknown,
    Internal,
    Http(DracoonErrorResponse),
    S3Error(Box<S3ErrorResponse>),
    Auth(DracoonAuthErrorResponse),
    IoError,
    CryptoError,
    MissingEncryptionSecret,
    MissingArgument,
}

impl From<ClientError> for DcCmdError {
    fn from(value: ClientError) -> (error: DcCmdError) {
        match value {
            ClientError::ConnectionFailed(_) => DcCmdError::ConnectionFailed,
            ClientError::Http(err) => DcCmdError::DracoonError(err),
            ClientError::Auth(err) => DcCmdError::DracoonAuthError(err),
            ClientError::InvalidUrl(url) => DcCmdError::InvalidUrl(url),
            ClientError::IoError => DcCmdError::IoError,
            ClientError::S3Error(err) => DcCmdError::DracoonS3Error(err),
            _ => DcCmdError::Unknown,
        }
    }
}

impl vstd::std_specs::convert::FromSpecImpl<ClientError> for DcCmdError {
    open spec fn obeys_from_spec() -> bool {
        true
    }

    open spec fn from_spec(value: ClientError) -> DcCmdError {
        match value {
            ClientError::ConnectionFailed(_) => DcCmdError::ConnectionFailed,
            ClientError::Http(err) => DcCmdError::DracoonError(err),
            ClientError::Auth(err) => DcCmdError::DracoonAuthError(err),
            ClientError::InvalidUrl(url) => DcCmdError::InvalidUrl(url),
            ClientError::IoError => DcCmdError::IoError,
            ClientError::S3Error(err) => DcCmdError::DracoonS3Error(err),
            _ => DcCmdError::Unknown,
        }
    }
}

/// Errors of the API client keep what the API said. Those that the commander
/// knows stay what they are; all others become unknown errors.
pub proof fn law_client_errors(error: ClientError)
    ensures
        ({
            let mapped =
                <DcCmdError as vstd::std_specs::convert::FromSpec<ClientError>>::from_spec(error);
            &&& error is ConnectionFailed ==> mapped is ConnectionFailed
            &&& error matches ClientError::Http(e) ==> mapped == DcCmdError::DracoonError(e)
            &&& error matches ClientError::Auth(e) ==> mapped == DcCmdError::DracoonAuthError(e)
            &&& error matches ClientError::S3Error(e) ==> mapped == DcCmdError::DracoonS3Error(e)
            &&& error matches ClientError::InvalidUrl(url) ==> mapped == DcCmdError::InvalidUrl(url)
            &&& error is IoError ==> mapped is IoError
            &&& mapped is Unknown <==> !(error is ConnectionFailed || error is Http || error is Auth
                || error is S3Error || error is InvalidUrl || error is IoError)
        }),
{
}

/// The DRACOON commander's command line.
pub struct DcCmd {
    pub cmd: DcCmdCommand,
    pub debug: bool,
    pub log_file_out: bool,
    pub log_file_path: Option<String>,
    /// Optional user name.
    pub username: Option<String>,
    /// Optional password.
    pub password: Option<String>,
    /// Optional encryption password.
    pub encryption_password: Option<String>,
}

/// The commands of the commander.
pub enum DcCmdCommand {
    /// Upload a file or folder to DRACOON.
    Upload {
        source: String,
        target: String,
        overwrite: bool,
        classification: Option<u8>,
        velocity: Option<u8>,
        recursive: bool,
        skip_root: bool,
        share: bool,
    },
    /// Download a file or container from DRACOON to target.
    Download { source: String, target: String, velocity: Option<u8>, recursive: bool },
    /// List nodes in DRACOON.
    Ls {
        source: String,
        long: bool,
        human_readable: bool,
        offset: Option<u32>,
        limit: Option<u32>,
        managed: bool,
        all: bool,
    },
    /// Create a folder in DRACOON.
    Mkdir { source: String, classification: Option<u8>, notes: Option<String> },
    /// Create a room in DRACOON (inherits permissions from parent).
    Mkroom { source: String, classification: Option<u8>, path: Option<String> },
    /// Delete a node in DRACOON.
    Rm { source: String, recursive: bool },
    /// Manage users in DRACOON.
    Users { cmd: UserCommand, target: String },
    /// Print the current version.
    Version,
}

/// The commands on users.
pub enum UserCommand {
    /// List users in DRACOON.
    Ls {
        search: Option<String>,
        offset: Option<u32>,
        limit: Option<u32>,
        all: bool,
        csv: bool,
    },
    /// Create a user in DRACOON.
    Create {
        first_name: String,
        last_name: String,
        email: String,
        login: Option<String>,
        oidc_id: Option<u32>,
        mfa_enforced: bool,
    },
    /// Delete a user in DRACOON.
    Rm { user_name: Option<String>, user_id: Option<u64> },
    /// Import users from a CSV file into DRACOON.
    Import { source: String, oidc_id: Option<u32> },
    /// Print user information in DRACOON.
    Info { user_name: Option<String>, user_id: Option<u64> },
}

/// How lists are printed.
#[derive(Clone, Copy)]
pub enum PrintFormat {
    Pretty,
    Csv,
}

}
