//! The envelope on the wire: a four-byte little-endian length, then that
//! many bytes of body. A reply's body starts with a four-byte status.

use crate::request::{
    append_bytes, encodable, encode_args, encode_args_spec, lemma_body_len, texts,
};
use crate::wire::{le_bytes, le_u32, lemma_le_round_trip, push_u32_le, read_u32_le};
use crate::ResponseStatus;
use vstd::prelude::*;
use vstd::slice::slice_subrange;
use vstd::string::StringSliceAdditionalSpecFns;
use vstd::utf8::encode_utf8;

verus! {

/// The longest body that an inbound frame may declare. The length prefix
/// itself does not count towards it.
pub const MAX_MSG: usize = 4096;

/// What the front of a read buffer holds.
#[derive(Clone, Copy, Debug, PartialEq, Eq, Structural)]
pub enum FrameResult {
    /// Fewer bytes than the frame needs: more must be read.
    Incomplete,
    /// The declared length is over `MAX_MSG`: the stream cannot be trusted
    /// any further.
    Invalid,
    /// A whole frame is present.
    Complete {
        /// Where the body starts.
        body_start: usize,
        /// How many bytes the body has.
        body_len: usize,
        /// How many bytes the frame takes in all, prefix included.
        consumed: usize,
    },
}

/// What the valid bytes of a read buffer hold at their front. Only the four
/// bytes of the prefix decide between `Invalid` and the rest.
pub open spec fn frame_spec(valid: Seq<u8>) -> FrameResult {
    if valid.len() < 4 {
        FrameResult::Incomplete
    } else if le_u32(valid) > MAX_MSG {
        FrameResult::Invalid
    } else if 4 + le_u32(valid) > valid.len() {
        FrameResult::Incomplete
    } else {
        FrameResult::Complete {
            body_start: 4,
            body_len: le_u32(valid) as usize,
            consumed: (4 + le_u32(valid)) as usize,
        }
    }
}

/// A reply on the wire: the length of what follows, the status, the payload.
pub open spec fn reply_bytes(status: ResponseStatus, payload: Seq<u8>) -> Seq<u8> {
    le_bytes((4 + payload.len()) as nat) + le_bytes(status.code() as nat) + payload
}

/// A request on the wire: the length of the body, then the body.
pub open spec fn request_bytes(body: Seq<u8>) -> Seq<u8> {
    le_bytes(body.len()) + body
}

/// The status and payload that a reply frame carries, where it is one: its
/// length prefix covers exactly the rest, which starts with a known status.
pub open spec fn reply_spec(frame: Seq<u8>) -> Option<(ResponseStatus, Seq<u8>)> {
    if frame.len() < 8 || le_u32(frame) + 4 != frame.len() {
        None
    } else {
        let code = le_u32(frame.skip(4));
        if code == 0 {
            Some((ResponseStatus::StatusOk, frame.skip(8)))
        } else if code == 1 {
            Some((ResponseStatus::StatusErr, frame.skip(8)))
        } else if code == 2 {
            Some((ResponseStatus::StatusNx, frame.skip(8)))
        } else {
            None
        }
    }
}

/// Reads the length prefix, where the four bytes of it are there.
pub fn decode_length(buf: &[u8]) -> (r: Option<u32>)
    ensures
        buf.len() < 4 ==> r is None,
        buf.len() >= 4 ==> r == Some(le_u32(buf@) as u32),
{
    if buf.len() < 4 {
        None
    } else {
        assert(buf@.skip(0) =~= buf@);
        Some(read_u32_le(buf, 0))
    }
}

/// Looks for one whole frame at the front of `buf`, of which the first
/// `read_len` bytes are valid.
pub fn try_extract_frame(buf: &[u8], read_len: usize) -> (r: FrameResult)
    requires
        read_len <= buf.len(),
    ensures
        r == frame_spec(buf@.take(read_len as int)),
{
    let valid = slice_subrange(buf, 0, read_len);
    assert(valid@ =~= buf@.take(read_len as int));
    match decode_length(valid) {
        None => FrameResult::Incomplete,
        Some(declared) => {
            let len = declared as usize;
            if len > MAX_MSG {
                FrameResult::Invalid
            } else if len > read_len - 4 {
                FrameResult::Incomplete
            } else {
                FrameResult::Complete { body_start: 4, body_len: len, consumed: 4 + len }
            }
        },
    }
}

/// Builds a reply frame: length, status, payload.
pub fn encode_frame(status: ResponseStatus, payload: &[u8]) -> (out: Vec<u8>)
    requires
        4 + payload.len() <= u32::MAX,
    ensures
        out@ == reply_bytes(status, payload@),
        out.len() == 8 + payload.len(),
{
    let mut out: Vec<u8> = Vec::new();
    push_u32_le(&mut out, (4 + payload.len()) as u32);
    push_u32_le(&mut out, status.to_code());
    append_bytes(&mut out, payload);
    proof {
        lemma_le_round_trip((4 + payload.len()) as nat);
        lemma_le_round_trip(status.code() as nat);
    }
    out
}

/// Builds a request frame around `body`, unless the body is longer than
/// `MAX_MSG`.
pub fn frame_request(body: &[u8]) -> (r: Option<Vec<u8>>)
    ensures
        match r {
            Some(out) => body.len() <= MAX_MSG && out@ == request_bytes(body@),
            None => body.len() > MAX_MSG,
        },
{
    if body.len() > MAX_MSG {
        return None;
    }
    let mut out: Vec<u8> = Vec::new();
    push_u32_le(&mut out, body.len() as u32);
    append_bytes(&mut out, body);
    Some(out)
}

/// Encodes a list of arguments as a whole request frame, unless its body
/// would be longer than `MAX_MSG`.
pub fn encode_request(args: &Vec<String>) -> (r: Option<Vec<u8>>)
    ensures
        match r {
            Some(frame) => {
                &&& encodable(texts(args@))
                &&& encode_args_spec(texts(args@)).len() <= MAX_MSG
                &&& frame@ == request_bytes(encode_args_spec(texts(args@)))
            },
            None => encode_args_spec(texts(args@)).len() > MAX_MSG,
        },
{
    let ghost all = texts(args@);
    proof {
        lemma_body_len(all, 0);
    }
    if args.len() > MAX_MSG / 4 {
        return None;
    }
    let mut i: usize = 0;
    while i < args.len()
        invariant
            i <= args.len(),
            all == texts(args@),
            forall|k: int| 0 <= k < i ==> (#[trigger] encode_utf8(all[k])).len() <= MAX_MSG,
        decreases args.len() - i,
    {
        assert(all[i as int] == args@[i as int]@);
        if args[i].as_str().as_bytes().len() > MAX_MSG {
            proof {
                lemma_body_len(all, i as int);
            }
            return None;
        }
        i = i + 1;
    }
    let body = encode_args(args);
    frame_request(body.as_slice())
}

/// The words that `str::split_whitespace` finds in a text, in order.
pub uninterp spec fn whitespace_words(text: Seq<char>) -> Seq<Seq<char>>;

/// Calls `str::split_whitespace` and collects the words it yields. The
/// result is named by `whitespace_words`; nothing more is claimed of it.
#[verifier::external_body]
fn split_words(text: &str) -> (words: Vec<String>)
    ensures
        texts(words@) == whitespace_words(text@),
{
    text.split_whitespace().map(String::from).collect()
}

/// Encodes the words of a line of text as one request frame, the first word
/// being the command, unless the body would be longer than `MAX_MSG`.
pub fn encode_line(text: &str) -> (r: Option<Vec<u8>>)
    ensures
        match r {
            Some(frame) => {
                &&& encode_args_spec(whitespace_words(text@)).len() <= MAX_MSG
                &&& frame@ == request_bytes(encode_args_spec(whitespace_words(text@)))
            },
            None => encode_args_spec(whitespace_words(text@)).len() > MAX_MSG,
        },
{
    let words = split_words(text);
    encode_request(&words)
}

/// Takes a reply frame apart into its status and payload.
pub fn decode_response(frame: &[u8]) -> (r: Option<(ResponseStatus, Vec<u8>)>)
    ensures
        match r {
            Some((status, payload)) => reply_spec(frame@) == Some((status, payload@)),
            None => reply_spec(frame@) is None,
        },
{
    let n = frame.len();
    if n < 8 {
        return None;
    }
    assert(frame@.skip(0) =~= frame@);
    let declared = read_u32_le(frame, 0) as usize;
    if declared != n - 4 {
        return None;
    }
    let code = read_u32_le(frame, 4);
    match ResponseStatus::from_code(code) {
        None => None,
        Some(status) => {
            let mut payload: Vec<u8> = Vec::new();
            let rest = slice_subrange(frame, 8, n);
            append_bytes(&mut payload, rest);
            assert(payload@ =~= frame@.skip(8));
            Some((status, payload))
        },
    }
}

/// A frame that `encode_frame` built is taken apart into what it was built
/// from.
pub proof fn lemma_reply_round_trip(status: ResponseStatus, payload: Seq<u8>)
    requires
        4 + payload.len() <= u32::MAX,
    ensures
        reply_spec(reply_bytes(status, payload)) == Some((status, payload)),
{
    let head = le_bytes((4 + payload.len()) as nat);
    let code = le_bytes(status.code() as nat);
    let frame = reply_bytes(status, payload);
    lemma_le_round_trip((4 + payload.len()) as nat);
    lemma_le_round_trip(status.code() as nat);
    assert(frame[0] == head[0] && frame[1] == head[1] && frame[2] == head[2] && frame[3]
        == head[3]);
    let tail = frame.skip(4);
    assert(tail[0] == code[0] && tail[1] == code[1] && tail[2] == code[2] && tail[3] == code[3]);
    assert(frame.skip(8) =~= payload);
}

/// A request frame holds exactly one whole frame, whose body is the one it
/// was built around.
pub proof fn lemma_request_is_complete(body: Seq<u8>)
    requires
        body.len() <= MAX_MSG,
    ensures
        frame_spec(request_bytes(body)) == (FrameResult::Complete {
            body_start: 4,
            body_len: body.len() as usize,
            consumed: (4 + body.len()) as usize,
        }),
        request_bytes(body).len() == 4 + body.len(),
        request_bytes(body).skip(4) == body,
{
    let head = le_bytes(body.len());
    let frame = request_bytes(body);
    lemma_le_round_trip(body.len());
    assert(frame[0] == head[0] && frame[1] == head[1] && frame[2] == head[2] && frame[3]
        == head[3]);
    assert(frame.skip(4) =~= body);
}

} // verus!
