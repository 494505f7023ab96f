//! What a listener does with one request: the registry listener registers
//! published payloads and acknowledges them; the heartbeat listener echoes
//! heartbeats and drops anything else.

use crate::message::{be_bytes, u64_to_be_bytes, Message, MessageHeader};
use crate::service::{Payload, State};
use vstd::prelude::*;

verus! {

/// Why the registry listener refused a request.
#[derive(Clone, Copy, Debug, PartialEq, Eq, Structural)]
pub enum HandlerError {
    /// The header is not one the registry listener serves.
    UnexpectedHeader(MessageHeader),
    /// Every id has been handed out.
    RegistryFull,
}

/// The headers that the registry listener serves.
pub open spec fn is_request(h: MessageHeader) -> bool {
    h == MessageHeader::PUB || h == MessageHeader::CLAIM
}

/// Checks a request's header before its body is read: `PUB` and `CLAIM` are
/// served, any other header is refused.
pub fn expect_request(h: MessageHeader) -> (r: Result<(), HandlerError>)
    ensures
        r is Ok <==> is_request(h),
        r is Err ==> r->Err_0 == HandlerError::UnexpectedHeader(h),
{
    match h {
        MessageHeader::PUB | MessageHeader::CLAIM => Ok(()),
        _ => Err(HandlerError::UnexpectedHeader(h)),
    }
}

/// Serves one request whose body was read as `payload`: a `PUB` or `CLAIM`
/// registers it and is answered with an `ACK` whose body is the new id in
/// eight big-endian bytes. Any other header, or a registry with no id left,
/// changes nothing and gives an error.
pub fn request_handler(state: &mut State, header: MessageHeader, payload: Payload) -> (r: Result<
    Message,
    HandlerError,
>)
    requires
        old(state)@.wf(),
    ensures
        final(state)@.wf(),
        final(state).claims@ == old(state).claims@,
        r is Ok <==> is_request(header) && old(state).seq < u64::MAX,
        match r {
            Ok(m) => {
                &&& old(state)@.registered(payload@, final(state)@, old(state).seq)
                &&& m@ == (MessageHeader::ACK, be_bytes(old(state).seq))
            },
            Err(HandlerError::UnexpectedHeader(h)) => {
                &&& h == header
                &&& !is_request(header)
                &&& final(state)@ == old(state)@
            },
            Err(HandlerError::RegistryFull) => {
                &&& is_request(header)
                &&& old(state).seq == u64::MAX
                &&& final(state)@ == old(state)@
            },
        },
{
    if let Err(e) = expect_request(header) {
        return Err(e);
    }
    if state.seq == u64::MAX {
        return Err(HandlerError::RegistryFull);
    }
    let id = state.add(payload);
    Ok(Message { header: MessageHeader::ACK, body: u64_to_be_bytes(id) })
}

/// Answers a heartbeat with a heartbeat carrying the same body; any other
/// request gets no answer.
pub fn heartbeat_handler(request: Message) -> (r: Option<Message>)
    ensures
        r is Some <==> request.header == MessageHeader::HB,
        r is Some ==> r->Some_0@ == (MessageHeader::HB, request.body@),
{
    match request.header {
        MessageHeader::HB => Some(Message { header: MessageHeader::HB, body: request.body }),
        _ => None,
    }
}

/// Whether a reply to a publish acknowledges it.
pub fn is_acknowledged(reply: &Message) -> (r: bool)
    ensures
        r <==> reply.header == MessageHeader::ACK,
{
    match reply.header {
        MessageHeader::ACK => true,
        _ => false,
    }
}

} // verus!
