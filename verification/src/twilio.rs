//! The messaging provider's wire values, as plain data.
//!
//! The runtime encodes a request, posts it, and decodes the reply; the
//! library builds the request, reads the reply's shape, and decides
//! whether a delivery counted as success.

use vstd::prelude::*;

use crate::text::str_eq;

verus! {

/// The reply to a send: the delivery status, and the provider's error
/// fields when it refused.
#[derive(Debug)]
pub struct CreateMessageResponse {
    pub error_code: Option<String>,
    pub error_message: Option<String>,
    pub status: String,
    pub body: Option<String>,
}

/// Which shape of reply a post expects.
#[derive(Debug)]
pub enum ResponseType {
    CreateMessage,
}

/// What a post produced: the expected shape, or `None` inside the variant
/// when the body did not decode into it.
#[derive(Debug)]
pub enum Response {
    CreateMessage(Option<CreateMessageResponse>),
}

/// A message to send: body, sending number, recipient number.
#[derive(Debug)]
pub struct CreateMessageRequest {
    pub body: String,
    pub from: String,
    pub to: String,
}

/// Why a send yielded no reply.
#[derive(Debug)]
pub enum TwilioError {
    MessageCodec,
}

impl TwilioError {
    pub fn message(&self) -> (r: &'static str)
        ensures
            (match self {
                TwilioError::MessageCodec => r@
                    == "Could not serialize / deserialize message to send"@,
            }),
    {
        match self {
            TwilioError::MessageCodec => "Could not serialize / deserialize message to send",
        }
    }
}

/// Builds the send request for one recipient.
pub fn build_message_request(from: &str, to: &str, message: &str) -> (r: CreateMessageRequest)
    ensures
        r.from@ == from@,
        r.to@ == to@,
        r.body@ == message@,
{
    CreateMessageRequest { body: message.to_owned(), from: from.to_owned(), to: to.to_owned() }
}

/// The decoded reply of a send; any other outcome is rejected.
pub fn message_from_response(response: Response) -> (r: Result<CreateMessageResponse, TwilioError>)
    ensures
        (match response {
            Response::CreateMessage(Some(cmr)) => r == Ok::<CreateMessageResponse, TwilioError>(
                cmr,
            ),
            _ => r == Err::<CreateMessageResponse, TwilioError>(TwilioError::MessageCodec),
        }),
{
    match response {
        Response::CreateMessage(Some(cmr)) => Ok(cmr),
        _ => Err(TwilioError::MessageCodec),
    }
}

/// Whether a reply reports the message on its way: the provider's `sent`
/// and `queued` statuses count as success, anything else as failure.
pub fn delivery_succeeded(response: &CreateMessageResponse) -> (r: bool)
    ensures
        r == (response.status@ == "sent"@ || response.status@ == "queued"@),
{
    str_eq(response.status.as_str(), "sent") || str_eq(response.status.as_str(), "queued")
}

} // verus!
