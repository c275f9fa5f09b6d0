//! The errors that requests are answered with.

use vstd::prelude::*;

verus! {

/// A code that members act on without reading the message.
#[derive(Clone, Copy, PartialEq, Eq, Structural, Debug)]
pub enum ErrorCode {
    BadCredentials,
    ClientDisabled,
    PrefixConflict,
    AddressInUse,
    AddressSpaceExhausted,
    BadRequest,
    RateLimited,
    AdminAuthRequired,
    AdminDisabled,
    RelayUnreachable,
    NotFound,
    Internal,
}

impl ErrorCode {
    /// The code as it is sent.
    pub open spec fn text(self) -> Seq<char> {
        match self {
            ErrorCode::BadCredentials => "bad_credentials"@,
            ErrorCode::ClientDisabled => "client_disabled"@,
            ErrorCode::PrefixConflict => "prefix_conflict"@,
            ErrorCode::AddressInUse => "address_in_use"@,
            ErrorCode::AddressSpaceExhausted => "address_space_exhausted"@,
            ErrorCode::BadRequest => "bad_request"@,
            ErrorCode::RateLimited => "rate_limited"@,
            ErrorCode::AdminAuthRequired => "admin_auth_required"@,
            ErrorCode::AdminDisabled => "admin_disabled"@,
            ErrorCode::RelayUnreachable => "relay_unreachable"@,
            ErrorCode::NotFound => "not_found"@,
            ErrorCode::Internal => "internal"@,
        }
    }

    /// The code as it is sent.
    pub fn as_str(&self) -> (r: &'static str)
        ensures
            r@ == self.text(),
    {
        match self {
            ErrorCode::BadCredentials => "bad_credentials",
            ErrorCode::ClientDisabled => "client_disabled",
            ErrorCode::PrefixConflict => "prefix_conflict",
            ErrorCode::AddressInUse => "address_in_use",
            ErrorCode::AddressSpaceExhausted => "address_space_exhausted",
            ErrorCode::BadRequest => "bad_request",
            ErrorCode::RateLimited => "rate_limited",
            ErrorCode::AdminAuthRequired => "admin_auth_required",
            ErrorCode::AdminDisabled => "admin_disabled",
            ErrorCode::RelayUnreachable => "relay_unreachable",
            ErrorCode::NotFound => "not_found",
            ErrorCode::Internal => "internal",
        }
    }
}

/// An error as a request is answered with it: the HTTP status, the code and
/// a message for people.
#[derive(Debug)]
pub struct ApiError {
    pub status: u16,
    pub code: ErrorCode,
    pub message: String,
}

/// The content of an [`ApiError`].
#[verifier::ext_equal]
pub struct ErrorView {
    pub status: u16,
    pub code: ErrorCode,
    pub message: Seq<char>,
}

impl View for ApiError {
    type V = ErrorView;

    open spec fn view(&self) -> ErrorView {
        ErrorView { status: self.status, code: self.code, message: self.message@ }
    }
}

/// The status that goes with a code.
pub open spec fn status_of_code(code: ErrorCode) -> u16 {
    match code {
        ErrorCode::BadCredentials => 401,
        ErrorCode::ClientDisabled => 403,
        ErrorCode::PrefixConflict => 409,
        ErrorCode::AddressInUse => 409,
        ErrorCode::AddressSpaceExhausted => 409,
        ErrorCode::BadRequest => 400,
        ErrorCode::RateLimited => 429,
        ErrorCode::AdminAuthRequired => 401,
        ErrorCode::AdminDisabled => 503,
        ErrorCode::RelayUnreachable => 409,
        ErrorCode::NotFound => 404,
        ErrorCode::Internal => 500,
    }
}

/// The error with this code and message.
pub open spec fn error_view(code: ErrorCode, message: Seq<char>) -> ErrorView {
    ErrorView { status: status_of_code(code), code, message }
}

/// The error with this code and message.
fn make(code: ErrorCode, message: String) -> (r: ApiError)
    ensures
        r@ == error_view(code, message@),
{
    let status: u16 = match code {
        ErrorCode::BadCredentials => 401,
        ErrorCode::ClientDisabled => 403,
        ErrorCode::PrefixConflict => 409,
        ErrorCode::AddressInUse => 409,
        ErrorCode::AddressSpaceExhausted => 409,
        ErrorCode::BadRequest => 400,
        ErrorCode::RateLimited => 429,
        ErrorCode::AdminAuthRequired => 401,
        ErrorCode::AdminDisabled => 503,
        ErrorCode::RelayUnreachable => 409,
        ErrorCode::NotFound => 404,
        ErrorCode::Internal => 500,
    };
    ApiError { status, code, message }
}

impl ApiError {
    /// An error with a status of its own.
    pub fn new(status: u16, code: ErrorCode, message: String) -> (r: ApiError)
        ensures
            r@ == (ErrorView { status, code, message: message@ }),
    {
        ApiError { status, code, message }
    }

    pub fn bad_credentials() -> (r: ApiError)
        ensures
            r@ == error_view(ErrorCode::BadCredentials, "unknown node id or wrong secret"@),
    {
        make(ErrorCode::BadCredentials, "unknown node id or wrong secret".to_owned())
    }

    pub fn client_disabled() -> (r: ApiError)
        ensures
            r@ == error_view(ErrorCode::ClientDisabled, "member is administratively disabled"@),
    {
        make(ErrorCode::ClientDisabled, "member is administratively disabled".to_owned())
    }

    pub fn prefix_conflict(message: String) -> (r: ApiError)
        ensures
            r@ == error_view(ErrorCode::PrefixConflict, message@),
    {
        make(ErrorCode::PrefixConflict, message)
    }

    pub fn address_in_use(message: String) -> (r: ApiError)
        ensures
            r@ == error_view(ErrorCode::AddressInUse, message@),
    {
        make(ErrorCode::AddressInUse, message)
    }

    pub fn address_space_exhausted(message: String) -> (r: ApiError)
        ensures
            r@ == error_view(ErrorCode::AddressSpaceExhausted, message@),
    {
        make(ErrorCode::AddressSpaceExhausted, message)
    }

    pub fn bad_request(message: String) -> (r: ApiError)
        ensures
            r@ == error_view(ErrorCode::BadRequest, message@),
    {
        make(ErrorCode::BadRequest, message)
    }

    pub fn rate_limited() -> (r: ApiError)
        ensures
            r@ == error_view(ErrorCode::RateLimited, "slow down"@),
    {
        make(ErrorCode::RateLimited, "slow down".to_owned())
    }

    pub fn unauthorized_admin() -> (r: ApiError)
        ensures
            r@ == error_view(ErrorCode::AdminAuthRequired, "missing or bad admin token"@),
    {
        make(ErrorCode::AdminAuthRequired, "missing or bad admin token".to_owned())
    }

    /// Nothing answered at the address that a relay advertises, and the
    /// network requires relays to be dialable.
    pub fn relay_unreachable(addr: &str) -> (r: ApiError)
        ensures
            r@ == error_view(
                ErrorCode::RelayUnreachable,
                "nothing answered at the advertised relay_addr "@ + addr@,
            ),
    {
        let mut m = "nothing answered at the advertised relay_addr ".to_owned();
        m.append(addr);
        make(ErrorCode::RelayUnreachable, m)
    }

    pub fn not_found(message: String) -> (r: ApiError)
        ensures
            r@ == error_view(ErrorCode::NotFound, message@),
    {
        make(ErrorCode::NotFound, message)
    }

    pub fn internal(message: String) -> (r: ApiError)
        ensures
            r@ == error_view(ErrorCode::Internal, message@),
    {
        make(ErrorCode::Internal, message)
    }
}

/// Which status a refusal is sent under: 401 where who asks is not known, 403
/// for a disabled member, 404 for what is not there, 409 for what is taken,
/// 429 for too many, 503 where administration is off, and otherwise 400 for
/// the request and 500 for the coordinator.
pub proof fn law_a_refusal_has_its_status(code: ErrorCode)
    ensures
        status_of_code(code) == 401 <==> code == ErrorCode::BadCredentials || code
            == ErrorCode::AdminAuthRequired,
        status_of_code(code) == 403 <==> code == ErrorCode::ClientDisabled,
        status_of_code(code) == 404 <==> code == ErrorCode::NotFound,
        status_of_code(code) == 409 <==> code == ErrorCode::PrefixConflict || code
            == ErrorCode::AddressInUse || code == ErrorCode::AddressSpaceExhausted || code
            == ErrorCode::RelayUnreachable,
        status_of_code(code) == 429 <==> code == ErrorCode::RateLimited,
        status_of_code(code) == 503 <==> code == ErrorCode::AdminDisabled,
        status_of_code(code) == 400 <==> code == ErrorCode::BadRequest,
        status_of_code(code) == 500 <==> code == ErrorCode::Internal,
{
}

} // verus!
