//! What holds of a connection however its input arrives: the invariant of
//! its state, reads that split a frame, frames that share a read, frames
//! that declare too much, and replies that are owed before the end.

use crate::connection::{
    action_for, fresh, on_read, on_serve, on_write, one_request, serve, step, Action, ConnView,
    ConnectionState, EndCause, IoEvent, Progress, BUF_SIZE,
};
use crate::dispatch::request_outcome;
use crate::frame::{
    frame_spec, lemma_request_is_complete, reply_bytes, request_bytes, FrameResult, MAX_MSG,
};
use crate::wire::{le_u32, lemma_le_round_trip};
use crate::ResponseStatus;
use vstd::prelude::*;

verus! {

/// The pieces of a byte stream, put back together.
pub open spec fn joined(chunks: Seq<Seq<u8>>) -> Seq<u8>
    decreases chunks.len(),
{
    if chunks.len() == 0 {
        Seq::<u8>::empty()
    } else {
        chunks[0] + joined(chunks.skip(1))
    }
}

/// The connection and the store after one read for each chunk, in order.
pub open spec fn feed(c: ConnView, db: Map<Seq<char>, Seq<char>>, chunks: Seq<Seq<u8>>) -> (
    ConnView,
    Map<Seq<char>, Seq<char>>,
)
    decreases chunks.len(),
{
    if chunks.len() == 0 {
        (c, db)
    } else {
        let (next, db2) = on_read(c, db, chunks[0]);
        feed(next, db2, chunks.skip(1))
    }
}

/// Whether `frame` is exactly one frame of permitted length, no byte more.
pub open spec fn is_one_frame(frame: Seq<u8>) -> bool {
    frame_spec(frame) matches FrameResult::Complete { consumed, .. } && consumed == frame.len()
}

/// Whether the connection is reading with both buffers empty.
pub open spec fn is_idle(c: ConnView) -> bool {
    c.state == ConnectionState::StateReq && c.inbox.len() == 0 && c.outbox.len() == 0
}

/// Serving keeps the buffers within their size and leaves a state that
/// fits them.
pub proof fn lemma_serve_valid(inbox: Seq<u8>, outbox: Seq<u8>, db: Map<Seq<char>, Seq<char>>)
    requires
        inbox.len() <= BUF_SIZE,
        outbox.len() <= BUF_SIZE,
    ensures
        serve(inbox, outbox, db).0.valid(),
    decreases inbox.len(),
{
    match one_request(inbox, outbox, db) {
        Progress::Halted { state, cause } => {},
        Progress::Answered { inbox: rest, outbox: queued, db: db2 } => {
            let body = inbox.subrange(4, 4 + le_u32(inbox) as int);
            let reply = request_outcome(db, body).0;
            lemma_reply_len(reply.status, reply.payload);
            lemma_serve_valid(rest, queued, db2);
        },
    }
}

/// A reply frame is eight bytes longer than its payload.
pub proof fn lemma_reply_len(status: ResponseStatus, payload: Seq<u8>)
    ensures
        reply_bytes(status, payload).len() == 8 + payload.len(),
{
}

/// Every step takes a valid connection to a valid connection: the cursors
/// stay inside the buffers, a reading connection has nothing queued, a
/// writing connection has bytes left to send, and a connection has a cause
/// exactly when it is over.
pub proof fn lemma_step_keeps_valid(c: ConnView, db: Map<Seq<char>, Seq<char>>, event: IoEvent)
    requires
        c.valid(),
    ensures
        step(c, db, event).0.valid(),
{
    if c.state == ConnectionState::StateReq {
        match event {
            IoEvent::Data(bytes) => {
                if bytes@.len() > 0 && c.inbox.len() + bytes@.len() <= BUF_SIZE {
                    lemma_serve_valid(c.inbox + bytes@, c.outbox, db);
                }
            },
            _ => {},
        }
    }
}

/// Serving the frames that wait takes a valid connection to a valid
/// connection.
pub proof fn lemma_serve_keeps_valid(c: ConnView, db: Map<Seq<char>, Seq<char>>)
    requires
        c.valid(),
    ensures
        on_serve(c, db).0.valid(),
{
    if c.state == ConnectionState::StateReq {
        lemma_serve_valid(c.inbox, Seq::<u8>::empty(), db);
    }
}

/// Once the last queued byte is sent the connection is reading again with
/// both write cursors at zero, and its read buffer is as it was.
pub proof fn lemma_full_drain(c: ConnView, n: nat)
    requires
        c.valid(),
        c.state == ConnectionState::StateRes,
        c.sent + n == c.outbox.len(),
    ensures
        on_write(c, n) == (ConnView {
            state: ConnectionState::StateReq,
            inbox: c.inbox,
            outbox: Seq::<u8>::empty(),
            sent: 0,
            cause: None,
        }),
{
}

/// No reply is lost to a frame that ends the connection: where serving ends
/// a connection, nothing is queued.
pub proof fn lemma_end_loses_no_reply(
    inbox: Seq<u8>,
    outbox: Seq<u8>,
    db: Map<Seq<char>, Seq<char>>,
)
    ensures
        serve(inbox, outbox, db).0.state == ConnectionState::StateEnd ==> serve(
            inbox,
            outbox,
            db,
        ).0.outbox.len() == 0,
    decreases inbox.len(),
{
    match one_request(inbox, outbox, db) {
        Progress::Halted { state, cause } => {},
        Progress::Answered { inbox: rest, outbox: queued, db: db2 } => {
            lemma_end_loses_no_reply(rest, queued, db2);
        },
    }
}

/// A connection that is asked to read has room for at least one byte.
pub proof fn lemma_read_has_room(c: ConnView)
    requires
        c.valid(),
    ensures
        action_for(c) matches Action::Read { room } ==> room > 0 && room == BUF_SIZE
            - c.inbox.len(),
{
}

/// A connection that was just accepted is valid.
pub proof fn lemma_fresh_valid()
    ensures
        fresh().valid(),
        is_idle(fresh()),
{
}

/// The front of a frame that is not yet all of it is an incomplete frame.
pub proof fn lemma_prefix_incomplete(frame: Seq<u8>, n: int)
    requires
        is_one_frame(frame),
        0 <= n < frame.len(),
    ensures
        frame_spec(frame.take(n)) == FrameResult::Incomplete,
{
    let front = frame.take(n);
    if n >= 4 {
        assert(front[0] == frame[0] && front[1] == frame[1] && front[2] == frame[2] && front[3]
            == frame[3]);
    }
}

/// Chunks that are not empty join to something that is not empty.
proof fn lemma_joined_len(chunks: Seq<Seq<u8>>)
    requires
        chunks.len() >= 1,
        chunks[0].len() > 0,
    ensures
        joined(chunks).len() > 0,
{
}

/// Feeding the rest of a frame, chunk by chunk, to a connection that holds
/// the front of it ends where serving the whole frame ends.
proof fn lemma_feed_rest(
    c: ConnView,
    db: Map<Seq<char>, Seq<char>>,
    frame: Seq<u8>,
    chunks: Seq<Seq<u8>>,
)
    requires
        c.state == ConnectionState::StateReq,
        c.outbox.len() == 0,
        is_one_frame(frame),
        chunks.len() >= 1,
        forall|i: int| 0 <= i < chunks.len() ==> (#[trigger] chunks[i]).len() > 0,
        c.inbox + joined(chunks) == frame,
    ensures
        feed(c, db, chunks) == serve(frame, c.outbox, db),
    decreases chunks.len(),
{
    let head = chunks[0];
    let rest = chunks.skip(1);
    let held = c.inbox + head;
    assert(joined(chunks) == head + joined(rest));
    assert(frame =~= held + joined(rest));
    assert(frame.len() <= BUF_SIZE);
    if rest.len() == 0 {
        assert(held =~= frame);
        let (next, db2) = on_read(c, db, head);
        assert(feed(next, db2, rest) == (next, db2));
    } else {
        assert(rest[0] == chunks[1]);
        lemma_joined_len(rest);
        assert(held =~= frame.take(held.len() as int));
        lemma_prefix_incomplete(frame, held.len() as int);
        let next = ConnView {
            state: ConnectionState::StateReq,
            inbox: held,
            outbox: c.outbox,
            sent: 0,
            cause: None,
        };
        assert(on_read(c, db, head) == (next, db));
        assert forall|i: int| 0 <= i < rest.len() implies (#[trigger] rest[i]).len() > 0 by {
            assert(rest[i] == chunks[i + 1]);
        }
        lemma_feed_rest(next, db, frame, rest);
    }
}

/// A frame that arrives in pieces is served as if it had arrived whole:
/// however one valid frame is cut into reads that each bring something, an
/// idle connection ends in the same state, with the same replies queued and
/// the same store, as after one read that brings all of it.
pub proof fn lemma_split_reads(
    c: ConnView,
    db: Map<Seq<char>, Seq<char>>,
    frame: Seq<u8>,
    chunks: Seq<Seq<u8>>,
)
    requires
        is_idle(c),
        is_one_frame(frame),
        chunks.len() >= 1,
        forall|i: int| 0 <= i < chunks.len() ==> (#[trigger] chunks[i]).len() > 0,
        joined(chunks) == frame,
    ensures
        feed(c, db, chunks) == on_read(c, db, frame),
{
    assert(c.inbox + joined(chunks) =~= frame);
    assert(c.inbox + frame =~= frame);
    lemma_feed_rest(c, db, frame, chunks);
}

/// Two requests that arrive in one read are both answered, the first one
/// first: where neither request fails and both replies fit the write
/// buffer, the connection ends up writing, with the reply to the first
/// followed by the reply to the second, the second served against the store
/// that the first one left.
pub proof fn lemma_pipelined_pair(
    c: ConnView,
    db: Map<Seq<char>, Seq<char>>,
    first: Seq<u8>,
    second: Seq<u8>,
)
    requires
        is_idle(c),
        first.len() <= MAX_MSG,
        second.len() <= MAX_MSG,
        8 + first.len() + second.len() <= BUF_SIZE,
        request_outcome(db, first).0.status != ResponseStatus::StatusErr,
        request_outcome(request_outcome(db, first).1, second).0.status
            != ResponseStatus::StatusErr,
        16 + request_outcome(db, first).0.payload.len() + request_outcome(
            request_outcome(db, first).1,
            second,
        ).0.payload.len() <= BUF_SIZE,
    ensures
        ({
            let (r1, db1) = request_outcome(db, first);
            let (r2, db2) = request_outcome(db1, second);
            on_read(c, db, request_bytes(first) + request_bytes(second)) == (
                ConnView {
                    state: ConnectionState::StateRes,
                    inbox: Seq::<u8>::empty(),
                    outbox: reply_bytes(r1.status, r1.payload) + reply_bytes(r2.status, r2.payload),
                    sent: 0,
                    cause: None,
                },
                db2,
            )
        }),
{
    let (r1, db1) = request_outcome(db, first);
    let (r2, db2) = request_outcome(db1, second);
    let f1 = request_bytes(first);
    let f2 = request_bytes(second);
    let both = f1 + f2;
    let o1 = reply_bytes(r1.status, r1.payload);
    let o2 = reply_bytes(r2.status, r2.payload);
    lemma_request_is_complete(first);
    lemma_request_is_complete(second);
    lemma_le_round_trip(first.len());
    assert(c.inbox + both =~= both);
    assert(c.outbox =~= Seq::<u8>::empty());
    assert(both[0] == f1[0] && both[1] == f1[1] && both[2] == f1[2] && both[3] == f1[3]);
    assert(le_u32(both) == first.len());
    assert(both.subrange(4, 4 + first.len() as int) =~= first);
    assert(both.skip(4 + first.len() as int) =~= f2);
    assert(Seq::<u8>::empty() + o1 =~= o1);
    assert(one_request(both, Seq::<u8>::empty(), db) == (Progress::Answered {
        inbox: f2,
        outbox: o1,
        db: db1,
    }));
    assert(f2.subrange(4, 4 + second.len() as int) =~= second);
    assert(f2.skip(4 + second.len() as int) =~= Seq::<u8>::empty());
    assert(one_request(f2, o1, db1) == (Progress::Answered {
        inbox: Seq::<u8>::empty(),
        outbox: o1 + o2,
        db: db2,
    }));
    assert(one_request(Seq::<u8>::empty(), o1 + o2, db2) == (Progress::Halted {
        state: ConnectionState::StateRes,
        cause: None,
    }));
    assert(serve(Seq::<u8>::empty(), o1 + o2, db2) == (
        ConnView {
            state: ConnectionState::StateRes,
            inbox: Seq::<u8>::empty(),
            outbox: o1 + o2,
            sent: 0,
            cause: None,
        },
        db2,
    ));
    assert(serve(f2, o1, db1) == serve(Seq::<u8>::empty(), o1 + o2, db2));
    assert(serve(both, Seq::<u8>::empty(), db) == serve(f2, o1, db1));
}

/// A frame at the front of the input that declares more than `MAX_MSG`
/// bytes ends a reading connection as soon as its length prefix is there.
/// Nothing is queued and the store is not touched, whatever follows the
/// prefix.
pub proof fn lemma_oversized_frame_ends(
    c: ConnView,
    db: Map<Seq<char>, Seq<char>>,
    bytes: Seq<u8>,
)
    requires
        c.valid(),
        c.state == ConnectionState::StateReq,
        bytes.len() > 0,
        c.inbox.len() + bytes.len() <= BUF_SIZE,
        c.inbox.len() + bytes.len() >= 4,
        le_u32(c.inbox + bytes) > MAX_MSG,
    ensures
        on_read(c, db, bytes) == (
            ConnView {
                state: ConnectionState::StateEnd,
                inbox: c.inbox + bytes,
                outbox: c.outbox,
                sent: 0,
                cause: Some(EndCause::MessageTooLong),
            },
            db,
        ),
{
}

} // verus!
