//! Requests that are turned down.

use crate::schema::{complaint, Complaint, ErrorResponse};
use vstd::prelude::*;

verus! {

/// An error response before it is written out.
#[derive(Debug)]
pub struct Refusal {
    pub status: u16,
    pub body: ErrorResponse,
}

impl View for Refusal {
    type V = (u16, Complaint);

    open spec fn view(&self) -> (u16, Complaint) {
        (self.status, self.body@)
    }
}

/// What a refusal without a parameter says.
pub open spec fn refused(status: u16, error_type: Seq<char>, message: Seq<char>) -> (
    u16,
    Complaint,
) {
    (status, complaint(error_type, message, None))
}

/// What a refusal for a bad request says.
pub open spec fn bad_request(message: Seq<char>) -> (u16, Complaint) {
    refused(400, "invalid_request_error"@, message)
}

/// What a refusal for a bad parameter says.
pub open spec fn bad_param(message: Seq<char>, param: Seq<char>) -> (u16, Complaint) {
    (400, complaint("invalid_request_error"@, message, Some(param)))
}

/// The reason phrase that goes with a status.
pub open spec fn phrase(status: u16) -> Seq<char> {
    if status == 200 {
        "OK"@
    } else if status == 400 {
        "Bad Request"@
    } else if status == 401 {
        "Unauthorized"@
    } else if status == 404 {
        "Not Found"@
    } else if status == 413 {
        "Payload Too Large"@
    } else if status == 431 {
        "Request Header Fields Too Large"@
    } else if status == 500 {
        "Internal Server Error"@
    } else if status == 501 {
        "Not Implemented"@
    } else if status == 503 {
        "Service Unavailable"@
    } else {
        "Error"@
    }
}

/// The reason phrase that goes with a status.
pub fn reason_phrase(status: u16) -> (r: &'static str)
    ensures
        r@ == phrase(status),
        status == 200 ==> r@ == "OK"@,
        status == 400 ==> r@ == "Bad Request"@,
        status == 401 ==> r@ == "Unauthorized"@,
        status == 404 ==> r@ == "Not Found"@,
        status == 413 ==> r@ == "Payload Too Large"@,
        status == 431 ==> r@ == "Request Header Fields Too Large"@,
        status == 500 ==> r@ == "Internal Server Error"@,
        status == 501 ==> r@ == "Not Implemented"@,
        status == 503 ==> r@ == "Service Unavailable"@,
{
    match status {
        200 => "OK",
        400 => "Bad Request",
        401 => "Unauthorized",
        404 => "Not Found",
        413 => "Payload Too Large",
        431 => "Request Header Fields Too Large",
        500 => "Internal Server Error",
        501 => "Not Implemented",
        503 => "Service Unavailable",
        _ => "Error",
    }
}

/// A refusal.
pub fn error(status: u16, error_type: &'static str, message: String) -> (r: Refusal)
    ensures
        r@ == refused(status, error_type@, message@),
        r.status == status,
        r.body.error.message@ == message@,
        r.body.error.error_type@ == error_type@,
        r.body.error.param is None,
{
    Refusal { status, body: ErrorResponse::new(error_type, message) }
}

/// A refusal that blames a parameter.
pub fn error_param(
    status: u16,
    error_type: &'static str,
    message: String,
    param: &'static str,
) -> (r: Refusal)
    ensures
        r@ == (status, complaint(error_type@, message@, Some(param@))),
        r.status == status,
        r.body.error.message@ == message@,
        r.body.error.error_type@ == error_type@,
        r.body.error.param matches Some(blamed) && blamed@ == param@,
{
    Refusal { status, body: ErrorResponse::with_param(error_type, message, param) }
}

/// A refusal carries its status, its kind, what is wrong and the parameter that
/// is to blame; a request that is malformed is answered with 400.
pub proof fn refusals_say_what_is_wrong(
    status: u16,
    error_type: Seq<char>,
    message: Seq<char>,
    param: Seq<char>,
)
    ensures
        refused(status, error_type, message).0 == status,
        refused(status, error_type, message).1 == (Complaint {
            error_type,
            message,
            param: None,
            code: None,
        }),
        bad_request(message) == refused(400, "invalid_request_error"@, message),
        bad_param(message, param).0 == 400,
        bad_param(message, param).1 == (Complaint {
            error_type: "invalid_request_error"@,
            message,
            param: Some(param),
            code: None,
        }),
{
}

} // verus!
