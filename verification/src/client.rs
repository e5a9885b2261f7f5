//! The pure side of the RPC client protocol.
//!
//! Everything here computes: queue and channel naming, assembling and
//! encoding a request, interpreting popped reply bytes and published
//! event payloads.  The broker commands themselves (push, blocking pop,
//! subscribe) are issued by the surrounding program, which feeds their
//! outcomes back into these functions.

use vstd::prelude::*;
use vstd::utf8::is_ascii_chars;
use vstd::utf8::is_ascii_chars_encode_utf8;

use crate::codec;
use crate::codec::args_view;
use crate::codec::enc_request;
use crate::codec::is_event_encoding;
use crate::error::ZBusError;
use crate::object_id_chars;
use crate::Event;
use crate::Id;
use crate::ObjectID;
use crate::ObjectIDView;
use crate::Request;
use crate::RequestView;

verus! {

/// Relies on `uuid::Uuid::new_v4` and the `Display` of `uuid::Uuid`:
/// a fresh random identifier rendered in its hyphenated form, which is
/// always 36 ASCII characters long.  The value is random, so nothing
/// beyond its shape is promised.
#[verifier::external_body]
pub(crate) fn fresh_unique_string() -> (r: String)
    ensures
        r@.len() == 36,
        is_ascii_chars(r@),
{
    uuid::Uuid::new_v4().to_string()
}

/// The name of the queue requests for an object travel on:
/// `module.object`, with the object in its canonical string form.
pub open spec fn queue_chars(module: Seq<char>, o: ObjectIDView) -> Seq<char> {
    module + seq!['.'] + object_id_chars(o)
}

/// The name of the channel events of an object are published on:
/// `module.object.event`.
pub open spec fn channel_chars(module: Seq<char>, o: ObjectIDView, event: Seq<char>) -> Seq<char> {
    queue_chars(module, o) + seq!['.'] + event
}

/// Renders the outbound queue name for an object hosted by a module.
pub fn queue_name(module: &str, object: &ObjectID) -> (r: String)
    ensures
        r@ == queue_chars(module@, object@),
{
    proof {
        reveal_strlit(".");
    }
    let mut s = module.to_owned();
    s.append(".");
    let os = object.to_string();
    s.append(os.as_str());
    proof {
        assert(s@ =~= queue_chars(module@, object@));
    }
    s
}

/// Renders the channel name an object's events are published on.
pub fn channel_name(module: &str, object: &ObjectID, event: &str) -> (r: String)
    ensures
        r@ == channel_chars(module@, object@, event@),
{
    proof {
        reveal_strlit(".");
    }
    let mut s = queue_name(module, object);
    s.append(".");
    s.append(event);
    proof {
        assert(s@ =~= channel_chars(module@, object@, event@));
    }
    s
}

/// Everything the transport needs to issue one request: the queue to
/// push the payload on, the queue to block-pop the reply from, and the
/// encoded payload itself.
pub struct PreparedRequest {
    /// The outbound queue, `module.object`.
    pub queue: String,
    /// The reply queue: the fresh identifier's string form, which the
    /// encoded request also carries as its `id` and `reply_to`.
    pub reply_queue: String,
    /// The encoded request record.
    pub payload: Vec<u8>,
}

/// Assembles and encodes a request around a fresh identifier.
///
/// The identifier doubles as the request's correlation id and as the
/// reply queue name, so replies to different requests travel on
/// different queues whatever object they address; the outbound queue
/// depends only on the module and the object.  Encoding fails, before
/// anything touches the network, exactly when a part of the request
/// does not fit its wire length header.
pub fn prepare_request(module: &str, object: ObjectID, method: &str, arguments: Vec<Vec<u8>>) -> (r:
    Result<PreparedRequest, ZBusError>)
    requires
        module@.len() > 0,
        method@.len() > 0,
    ensures
        match r {
            Ok(p) => {
                &&& p.queue@ == queue_chars(module@, object@)
                &&& p.reply_queue@.len() == 36
                &&& codec::arguments_encodable(args_view(arguments@))
                &&& codec::object_encodable(object@)
                &&& codec::str_encodable(method@)
                &&& p.payload@ == enc_request(
                    RequestView {
                        id: p.reply_queue@,
                        arguments: args_view(arguments@),
                        object: object@,
                        reply_to: p.reply_queue@,
                        method: method@,
                    },
                )
            },
            Err(e) => {
                &&& e is EncodingError
                &&& !(codec::arguments_encodable(args_view(arguments@)) && codec::object_encodable(
                    object@,
                ) && codec::str_encodable(method@))
            },
        },
{
    let id_string = fresh_unique_string();
    let reply_queue = id_string.clone();
    let queue = queue_name(module, &object);
    let request = Request {
        id: Id(id_string.clone()),
        arguments,
        object,
        reply_to: Id(id_string),
        method: method.to_owned(),
    };
    proof {
        is_ascii_chars_encode_utf8(reply_queue@);
        assert(codec::str_encodable(reply_queue@));
        assert(request@.arguments =~= args_view(request.arguments@));
    }
    let payload = match codec::encode_request(&request) {
        Ok(p) => p,
        Err(e) => {
            return Err(e);
        },
    };
    Ok(PreparedRequest { queue, reply_queue, payload })
}

/// What one step of an event subscription produced.
pub enum StreamStep {
    /// The broker closed the channel: the sequence ends, without error.
    Finished,
    /// A published payload decoded into an event.
    Item(Event),
    /// A payload failed to decode: the sequence ends with this error
    /// and yields nothing further.
    Failed(ZBusError),
}

/// Interprets one poll of a subscribed channel.
///
/// No message means the broker closed the channel, which ends the
/// sequence normally.  A published payload either decodes into the
/// next event or, when malformed, ends the whole sequence with a
/// decoding error: malformed items are not skipped.
pub fn subscriber_step(message: Option<Vec<u8>>) -> (r: StreamStep)
    ensures
        match message {
            None => r is Finished,
            Some(payload) => {
                &&& is_event_encoding(payload@) ==> r is Item
                &&& !is_event_encoding(payload@) ==> (r matches StreamStep::Failed(e) && e
                    is DecodingError)
            },
        },
{
    match message {
        None => StreamStep::Finished,
        Some(payload) => match codec::decode_event(payload.as_slice()) {
            Ok(e) => StreamStep::Item(e),
            Err(e) => StreamStep::Failed(e),
        },
    }
}

} // verus!
