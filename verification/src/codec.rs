//! The codec binding the frame grammar to a streaming transport: it
//! decodes typed messages from a caller-owned input buffer and encodes
//! typed messages onto a caller-owned output buffer.

use vstd::prelude::*;

use crate::frame::{
    cl_name, has_name, parse_frame, parse_spec, ser_frame, wf_frame, FrameModel, FrameParse,
    ParseError, ParseOutcome,
};
use crate::message::{
    client_msg_of_frame, rt_safe_from_server, rt_safe_to_server, server_msg_of_frame,
    to_server_frame, from_server_frame, FromServer, FromServerModel, MapError, Message,
    MessageModel, ToServer, ToServerModel,
};

verus! {

/// Why a decode call failed: the byte stream violated the frame
/// grammar (fatal, no resynchronization is attempted), or a
/// well-formed frame could not be mapped to a typed message.
#[derive(Clone, Copy, PartialEq, Eq, Structural, Debug)]
pub enum DecodeError {
    Parse(ParseError),
    Mapping(MapError),
}

/// Remove the first `n` bytes, keeping the remainder in order.
fn drain_front(buf: &mut Vec<u8>, n: usize)
    requires
        n <= old(buf)@.len(),
    ensures
        final (buf)@ == old(buf)@.skip(n as int),
{
    let len = buf.len();
    let rest = crate::frame::copy_range(buf.as_slice(), n, len);
    proof {
        assert(rest@ =~= old(buf)@.skip(n as int));
    }
    *buf = rest;
}

/// The stateless per-call codec of a client connection: one decode
/// stream of server messages and one encode stream of client messages.
pub struct ClientCodec;

impl ClientCodec {
    /// Attempt to decode one server message from the front of the
    /// caller-owned input buffer.
    ///
    /// On "incomplete" the buffer is untouched and `Ok(None)` asks the
    /// caller for more bytes. On a grammar violation the buffer is
    /// also untouched and the error is fatal to the connection. On a
    /// parsed frame exactly the frame's bytes are discarded, and the
    /// frame is mapped to a typed message or to a mapping error.
    pub fn decode(&self, buf: &mut Vec<u8>) -> (r: Result<Option<Message<FromServer>>, DecodeError>)
        ensures
            match parse_spec(old(buf)@) {
                FrameParse::Incomplete => r == Ok::<Option<Message<FromServer>>, DecodeError>(None)
                    && *final (buf) == *old(buf),
                FrameParse::Malformed(e) => r == Err::<Option<Message<FromServer>>, DecodeError>(
                    DecodeError::Parse(e),
                ) && *final (buf) == *old(buf),
                FrameParse::Complete(fv, used) => final (buf)@ == old(buf)@.skip(used) && (
                match server_msg_of_frame(fv) {
                    Ok(mv) => r matches Ok(Some(msg)) && msg@ == mv,
                    Err(e) => r == Err::<Option<Message<FromServer>>, DecodeError>(
                        DecodeError::Mapping(e),
                    ),
                }),
            },
    {
        match parse_frame(buf.as_slice()) {
            ParseOutcome::Incomplete => Ok(None),
            ParseOutcome::Malformed(e) => Err(DecodeError::Parse(e)),
            ParseOutcome::Complete(fr, used) => {
                drain_front(buf, used);
                match Message::<FromServer>::from_frame(fr) {
                    Ok(m) => Ok(Some(m)),
                    Err(e) => Err(DecodeError::Mapping(e)),
                }
            },
        }
    }

    /// Serialize one client message and append its bytes to the
    /// caller-owned output buffer. Cannot fail.
    pub fn encode(&self, msg: Message<ToServer>, out: &mut Vec<u8>)
        ensures
            final (out)@ == old(out)@ + ser_frame(to_server_frame(msg@)),
    {
        let f = msg.to_frame();
        f.serialize(out);
    }
}

/// Round trip: a client-bound message without header-name collisions,
/// serialized and parsed back from the front of any buffer, yields
/// exactly the message and consumes exactly its own bytes.
pub proof fn lemma_round_trip_to_server(m: MessageModel<ToServerModel>, rest: Seq<u8>)
    requires
        rt_safe_to_server(m),
        wf_frame(to_server_frame(m)),
    ensures
        parse_spec(ser_frame(to_server_frame(m)) + rest) == FrameParse::Complete(
            to_server_frame(m),
            ser_frame(to_server_frame(m)).len() as int,
        ),
        client_msg_of_frame(to_server_frame(m)) == Ok::<MessageModel<ToServerModel>, MapError>(m),
{
    crate::message::lemma_to_server_round_trip(m);
    crate::frame::lemma_parse_ser_frame(to_server_frame(m), rest);
}

/// Round trip for server-bound messages: what a well-behaved server
/// emits decodes back to the very message.
pub proof fn lemma_round_trip_from_server(m: MessageModel<FromServerModel>, rest: Seq<u8>)
    requires
        rt_safe_from_server(m),
        wf_frame(from_server_frame(m)),
    ensures
        parse_spec(ser_frame(from_server_frame(m)) + rest) == FrameParse::Complete(
            from_server_frame(m),
            ser_frame(from_server_frame(m)).len() as int,
        ),
        server_msg_of_frame(from_server_frame(m)) == Ok::<MessageModel<FromServerModel>, MapError>(
            m,
        ),
{
    crate::message::lemma_from_server_round_trip(m);
    crate::frame::lemma_parse_ser_frame(from_server_frame(m), rest);
}

/// Incremental delivery equivalence: every proper prefix of a valid
/// serialized frame decodes to "need more bytes" and consumes nothing,
/// so feeding the bytes one at a time yields the same message as one
/// call, with the same total number of bytes consumed.
pub proof fn lemma_incremental_delivery(f: FrameModel, k: int)
    requires
        wf_frame(f),
        !has_name(f.headers, cl_name()),
        0 <= k < ser_frame(f).len(),
    ensures
        parse_spec(ser_frame(f).take(k)) == FrameParse::Incomplete,
        parse_spec(ser_frame(f) + Seq::<u8>::empty()) == FrameParse::Complete(
            f,
            ser_frame(f).len() as int,
        ),
{
    crate::frame::lemma_parse_ser_frame_prefix(f, k);
    crate::frame::lemma_parse_ser_frame(f, Seq::empty());
}

/// Multi-frame buffer: two concatenated valid frames decode in order,
/// each call consuming exactly its own frame's bytes and leaving the
/// rest untouched.
pub proof fn lemma_two_frames(f1: FrameModel, f2: FrameModel)
    requires
        wf_frame(f1),
        wf_frame(f2),
        !has_name(f1.headers, cl_name()),
        !has_name(f2.headers, cl_name()),
    ensures
        parse_spec(ser_frame(f1) + ser_frame(f2)) == FrameParse::Complete(
            f1,
            ser_frame(f1).len() as int,
        ),
        (ser_frame(f1) + ser_frame(f2)).skip(ser_frame(f1).len() as int) == ser_frame(f2),
        parse_spec(ser_frame(f2)) == FrameParse::Complete(f2, ser_frame(f2).len() as int),
{
    crate::frame::lemma_parse_ser_frame(f1, ser_frame(f2));
    assert((ser_frame(f1) + ser_frame(f2)).skip(ser_frame(f1).len() as int) =~= ser_frame(f2));
    crate::frame::lemma_parse_ser_frame(f2, Seq::empty());
    assert(ser_frame(f2) + Seq::<u8>::empty() =~= ser_frame(f2));
}

} // verus!
