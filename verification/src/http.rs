//! HTTP status texts and response bodies, as error messages show them.
use vstd::prelude::*;
use vstd::string::*;
use crate::error::AppError;
use crate::text::{blank, dec, decimal, is_blank};

verus! {

/// The reason phrase that `http::StatusCode::canonical_reason` gives for a
/// status code, if the code is a registered one.
pub uninterp spec fn canonical_reason_of(code: u16) -> Option<Seq<char>>;

/// The text that `String::from_utf8_lossy` makes of a body.
pub uninterp spec fn utf8_lossy_of(bytes: Seq<u8>) -> Seq<char>;

/// `reqwest::StatusCode::from_u16` then `canonical_reason`: the registered
/// reason phrase of a status code in 100..=999. The contract claims only that
/// the result is the phrase that the crate's table holds for `code`.
#[verifier::external_body]
fn canonical_reason(code: u16) -> (res: Option<String>)
    requires
        100 <= code <= 999,
    ensures
        match res {
            Some(s) => canonical_reason_of(code) == Some(s@),
            None => canonical_reason_of(code) is None,
        },
{
    match reqwest::StatusCode::from_u16(code) {
        Ok(status) => match status.canonical_reason() {
            Some(reason) => Some(reason.to_string()),
            None => None,
        },
        Err(_) => None,
    }
}

/// `String::from_utf8_lossy`: the text of a body, invalid sequences replaced.
/// The contract claims that the result is determined by the bytes, and that
/// valid UTF-8 is decoded as it stands.
#[verifier::external_body]
fn utf8_lossy(bytes: &[u8]) -> (res: String)
    ensures
        res@ == utf8_lossy_of(bytes@),
        vstd::utf8::valid_utf8(bytes@) ==> res@ == vstd::utf8::decode_utf8(bytes@),
{
    String::from_utf8_lossy(bytes).into_owned()
}

/// What a status code shows when displayed: the code, a space, and its
/// reason phrase or `<unknown status code>`.
pub open spec fn status_text(code: u16) -> Seq<char> {
    dec(code as nat) + seq![' '] + match canonical_reason_of(code) {
        Some(r) => r,
        None => UNKNOWN_STATUS@,
    }
}

/// Shown in place of the reason phrase of an unregistered status code.
pub const UNKNOWN_STATUS: &'static str = "<unknown status code>";

/// Put between the status and the body in a failure message.
pub const BODY_INFIX: &'static str = "，响应：";

/// Whether a status code reports success (200 to 299).
pub fn status_is_success(code: u16) -> (res: bool)
    ensures
        res == (200 <= code < 300),
{
    200 <= code && code < 300
}

/// The displayed form of a status code.
pub fn display_status(code: u16) -> (res: String)
    requires
        100 <= code <= 999,
    ensures
        res@ == status_text(code),
{
    let mut res = decimal(code as u64);
    res.append(" ");
    match canonical_reason(code) {
        Some(reason) => res.append(reason.as_str()),
        None => res.append(UNKNOWN_STATUS),
    }
    proof {
        reveal_strlit(" ");
    }
    assert(res@ =~= status_text(code));
    res
}

/// The message of a failed request: `prefix` and the status, then the body
/// when it is not blank.
pub open spec fn failure_message(prefix: Seq<char>, code: u16, body: Seq<u8>) -> Seq<char> {
    let text = utf8_lossy_of(body);
    if blank(text) {
        prefix + status_text(code)
    } else {
        prefix + status_text(code) + BODY_INFIX@ + text
    }
}

/// Accepts a successful status; otherwise the error that reports it.
pub fn check_status(prefix: &str, code: u16, body: &[u8]) -> (res: Result<(), AppError>)
    requires
        100 <= code <= 999,
    ensures
        match res {
            Ok(()) => 200 <= code < 300,
            Err(e) => !(200 <= code < 300) && (e matches AppError::LLMError(m) && m@ == failure_message(
                prefix@,
                code,
                body@,
            )),
        },
{
    if status_is_success(code) {
        return Ok(());
    }
    let text = utf8_lossy(body);
    let mut message = prefix.to_string();
    message.append(display_status(code).as_str());
    if !is_blank(text.as_str()) {
        message.append(BODY_INFIX);
        message.append(text.as_str());
    }
    Err(AppError::LLMError(message))
}

} // verus!
