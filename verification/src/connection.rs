//! One connection: its state, its two buffers, and what each outcome of a
//! read or a write does to them.
//!
//! The connection never touches a socket. Its owner asks it what to do next,
//! performs the read or the write, and hands the outcome back as an
//! `IoEvent`.

use crate::buffer::ByteBuffer;
use crate::database::Database;
use crate::dispatch::{dispatch, lemma_payload_means_lookup, request_outcome};
use crate::frame::{encode_frame, frame_spec, reply_bytes, try_extract_frame, FrameResult};
use crate::request::{parse_args, parse_spec, texts};
use crate::ResponseStatus;
use vstd::prelude::*;
use vstd::slice::slice_subrange;

pub use crate::frame::MAX_MSG;

verus! {

/// The size of each of a connection's two buffers: the longest frame.
pub const BUF_SIZE: usize = 4 + MAX_MSG;

/// Where a connection stands.
#[derive(Clone, Copy, Debug, PartialEq, Eq, Structural)]
pub enum ConnectionState {
    /// Waiting for request bytes.
    StateReq,
    /// Holding replies that are not yet sent in full.
    StateRes,
    /// Over. The owner drops the connection.
    StateEnd,
}

/// Why a connection is over.
#[derive(Clone, Copy, Debug, PartialEq, Eq, Structural)]
pub enum EndCause {
    /// The peer shut down between two frames.
    Eof,
    /// The peer shut down with part of a frame sent.
    UnexpectedEof,
    /// A read failed, or brought more than there was room for.
    ReadError,
    /// A write failed, or took more than was pending.
    WriteError,
    /// A frame declared a body longer than `MAX_MSG`.
    MessageTooLong,
    /// A request was malformed, unknown, had the wrong number of arguments,
    /// or asked for more than a reply frame can carry.
    BadRequest,
}

/// The outcome of the read or write that the owner made for a connection.
#[derive(Debug)]
pub enum IoEvent {
    /// A read brought these bytes. No bytes at all mean that the peer has
    /// shut down.
    Data(Vec<u8>),
    /// A read found that the peer has shut down.
    Eof,
    /// A write took this many of the pending bytes.
    Sent(usize),
    /// The socket is not ready: nothing was read or written.
    WouldBlock,
    /// The read or write failed for good.
    Failed,
}

/// What the owner of a connection does next.
#[derive(Clone, Copy, Debug, PartialEq, Eq, Structural)]
pub enum Action {
    /// Read at most `room` bytes and hand the outcome over.
    Read { room: usize },
    /// Write the pending output and hand the outcome over.
    Write,
    /// Let the connection serve the frames that wait in its read buffer.
    Serve,
    /// Leave the connection until its socket is ready again.
    Wait,
    /// Close the socket and forget the connection.
    Drop,
}

/// A connection as the contracts see it.
pub struct ConnView {
    /// Where the connection stands.
    pub state: ConnectionState,
    /// The bytes read and not yet served.
    pub inbox: Seq<u8>,
    /// The reply bytes queued since the write buffer was last empty.
    pub outbox: Seq<u8>,
    /// How many of the queued bytes are sent.
    pub sent: nat,
    /// Why the connection is over, once it is.
    pub cause: Option<EndCause>,
}

impl ConnView {
    /// What holds of every connection between two events: the cursors lie
    /// inside the buffers, a reading connection has nothing queued, a
    /// writing connection has bytes to send, and exactly the connections
    /// that are over have a cause.
    pub open spec fn valid(self) -> bool {
        &&& self.inbox.len() <= BUF_SIZE
        &&& self.sent <= self.outbox.len() <= BUF_SIZE
        &&& self.state == ConnectionState::StateReq ==> self.outbox.len() == 0
        &&& self.state == ConnectionState::StateRes ==> self.sent < self.outbox.len()
        &&& self.state == ConnectionState::StateEnd <==> self.cause is Some
    }

    /// The same connection, over for the given cause.
    pub open spec fn ended(self, cause: EndCause) -> ConnView {
        ConnView { state: ConnectionState::StateEnd, cause: Some(cause), ..self }
    }
}

/// A connection that was just accepted.
pub open spec fn fresh() -> ConnView {
    ConnView {
        state: ConnectionState::StateReq,
        inbox: Seq::<u8>::empty(),
        outbox: Seq::<u8>::empty(),
        sent: 0,
        cause: None,
    }
}

/// What serving the frame at the front of the inbox comes to.
pub enum Progress {
    /// The frame was answered: it left the inbox, its reply joined the
    /// outbox, and the store is as the command left it.
    Answered { inbox: Seq<u8>, outbox: Seq<u8>, db: Map<Seq<char>, Seq<char>> },
    /// Nothing was served, and the connection goes on in this state.
    Halted { state: ConnectionState, cause: Option<EndCause> },
}

/// Where a connection goes that cannot serve the frame at its front for
/// good: it ends, but not before the replies that are queued are sent. While
/// any are, it writes, and the frame stays where it is.
pub open spec fn give_up(outbox: Seq<u8>, cause: EndCause) -> Progress {
    if outbox.len() > 0 {
        Progress::Halted { state: ConnectionState::StateRes, cause: None }
    } else {
        Progress::Halted { state: ConnectionState::StateEnd, cause: Some(cause) }
    }
}

/// Serves at most one frame.
///
/// Without a whole frame the connection waits: for more input where nothing
/// is queued, and else for its output to drain. A reply that does not fit
/// behind what is queued makes the connection drain its output first; the
/// frame stays where it is. The same holds while not even a reply without
/// payload would fit, whatever the frame holds. An oversized frame ends the
/// connection, and so does a request that is malformed, unknown, or answered
/// by more than a frame can carry; replies that are queued are sent first.
pub open spec fn one_request(
    inbox: Seq<u8>,
    outbox: Seq<u8>,
    db: Map<Seq<char>, Seq<char>>,
) -> Progress {
    match frame_spec(inbox) {
        FrameResult::Incomplete => Progress::Halted {
            state: if outbox.len() > 0 {
                ConnectionState::StateRes
            } else {
                ConnectionState::StateReq
            },
            cause: None,
        },
        FrameResult::Invalid => give_up(outbox, EndCause::MessageTooLong),
        FrameResult::Complete { body_start, body_len, consumed } => {
            let (reply, db2) = request_outcome(db, inbox.subrange(4, consumed as int));
            if outbox.len() + 8 > BUF_SIZE {
                Progress::Halted { state: ConnectionState::StateRes, cause: None }
            } else if reply.status == ResponseStatus::StatusErr || 8 + reply.payload.len()
                > BUF_SIZE {
                give_up(outbox, EndCause::BadRequest)
            } else if outbox.len() + 8 + reply.payload.len() > BUF_SIZE {
                Progress::Halted { state: ConnectionState::StateRes, cause: None }
            } else {
                Progress::Answered {
                    inbox: inbox.skip(consumed as int),
                    outbox: outbox + reply_bytes(reply.status, reply.payload),
                    db: db2,
                }
            }
        },
    }
}

/// Serves frame after frame until one cannot be served, and says where that
/// leaves the connection and the store. Replies queue up in the order of
/// their requests.
pub open spec fn serve(inbox: Seq<u8>, outbox: Seq<u8>, db: Map<Seq<char>, Seq<char>>) -> (
    ConnView,
    Map<Seq<char>, Seq<char>>,
)
    decreases inbox.len(),
{
    match one_request(inbox, outbox, db) {
        Progress::Halted { state, cause } => (
            ConnView { state, inbox, outbox, sent: 0, cause },
            db,
        ),
        Progress::Answered { inbox: rest, outbox: queued, db: db2 } => serve(rest, queued, db2),
    }
}

/// The connection and the store after a read that brought `bytes`.
///
/// Only a reading connection takes input. No bytes mean that the peer is
/// gone, and more bytes than the buffer has room for mean a faulty read:
/// both end the connection. Otherwise the bytes join the inbox and every
/// whole frame in it is served.
pub open spec fn on_read(c: ConnView, db: Map<Seq<char>, Seq<char>>, bytes: Seq<u8>) -> (
    ConnView,
    Map<Seq<char>, Seq<char>>,
) {
    if c.state != ConnectionState::StateReq {
        (c, db)
    } else if bytes.len() == 0 {
        (
            c.ended(
                if c.inbox.len() > 0 {
                    EndCause::UnexpectedEof
                } else {
                    EndCause::Eof
                },
            ),
            db,
        )
    } else if c.inbox.len() + bytes.len() > BUF_SIZE {
        (c.ended(EndCause::ReadError), db)
    } else {
        serve(c.inbox + bytes, c.outbox, db)
    }
}

/// The connection after a write that took `n` bytes.
///
/// Only a writing connection sends. More bytes than were pending mean a
/// faulty write, which ends the connection. Once everything is sent both
/// write cursors are back at zero and the connection is reading again; its
/// read buffer is left as it was.
pub open spec fn on_write(c: ConnView, n: nat) -> ConnView {
    if c.state != ConnectionState::StateRes {
        c
    } else if c.sent + n > c.outbox.len() {
        c.ended(EndCause::WriteError)
    } else if c.sent + n < c.outbox.len() {
        ConnView { sent: c.sent + n, ..c }
    } else {
        ConnView { state: ConnectionState::StateReq, outbox: Seq::<u8>::empty(), sent: 0, ..c }
    }
}

/// The connection and the store after a reading connection has served the
/// frames that waited in its read buffer.
pub open spec fn on_serve(c: ConnView, db: Map<Seq<char>, Seq<char>>) -> (
    ConnView,
    Map<Seq<char>, Seq<char>>,
) {
    if c.state != ConnectionState::StateReq {
        (c, db)
    } else {
        serve(c.inbox, Seq::<u8>::empty(), db)
    }
}

/// A reading connection and the store after `event`. The peer's shutdown
/// and a failed read end the connection; an event that tells of no read
/// changes nothing.
pub open spec fn read_step(c: ConnView, db: Map<Seq<char>, Seq<char>>, event: IoEvent) -> (
    ConnView,
    Map<Seq<char>, Seq<char>>,
) {
    match event {
        IoEvent::Data(bytes) => on_read(c, db, bytes@),
        IoEvent::Eof => on_read(c, db, Seq::<u8>::empty()),
        IoEvent::Failed => (c.ended(EndCause::ReadError), db),
        IoEvent::Sent(_) => (c, db),
        IoEvent::WouldBlock => (c, db),
    }
}

/// A writing connection after `event`. A failed write ends the connection;
/// an event that tells of no write changes nothing.
pub open spec fn write_step(c: ConnView, event: IoEvent) -> ConnView {
    match event {
        IoEvent::Sent(n) => on_write(c, n as nat),
        IoEvent::Failed => c.ended(EndCause::WriteError),
        IoEvent::Data(_) => c,
        IoEvent::Eof => c,
        IoEvent::WouldBlock => c,
    }
}

/// One step of the state machine: the connection and the store after
/// `event`. A connection that is over stays as it is.
pub open spec fn step(c: ConnView, db: Map<Seq<char>, Seq<char>>, event: IoEvent) -> (
    ConnView,
    Map<Seq<char>, Seq<char>>,
) {
    match c.state {
        ConnectionState::StateReq => read_step(c, db, event),
        ConnectionState::StateRes => (write_step(c, event), db),
        ConnectionState::StateEnd => (c, db),
    }
}

/// What a connection asks of its owner by its state alone: a connection
/// that is over is dropped, one with output pending is written, and a
/// reading one is read for, unless its buffer already holds a frame to
/// serve.
pub open spec fn action_for(c: ConnView) -> Action {
    match c.state {
        ConnectionState::StateEnd => Action::Drop,
        ConnectionState::StateRes => Action::Write,
        ConnectionState::StateReq => if frame_spec(c.inbox) == FrameResult::Incomplete {
            Action::Read { room: (BUF_SIZE - c.inbox.len()) as usize }
        } else {
            Action::Serve
        },
    }
}

/// What a connection asks of its owner after a step that `event` led to:
/// after a socket that was not ready the owner waits; after anything else,
/// a write that took nothing included, it goes on as the state asks.
pub open spec fn action_after(c: ConnView, event: IoEvent) -> Action {
    if event is WouldBlock && c.state != ConnectionState::StateEnd {
        Action::Wait
    } else {
        action_for(c)
    }
}

/// One accepted connection, without its socket.
pub struct Connection {
    state: ConnectionState,
    rbuf: ByteBuffer,
    wbuf: ByteBuffer,
    cause: Option<EndCause>,
}

impl View for Connection {
    type V = ConnView;

    closed spec fn view(&self) -> ConnView {
        ConnView {
            state: self.state,
            inbox: self.rbuf.written(),
            outbox: self.wbuf.written(),
            sent: self.wbuf.consumed(),
            cause: self.cause,
        }
    }
}

impl Connection {
    /// Both buffers are sound, have the fixed size, and the read buffer is
    /// compact.
    pub closed spec fn buffers_wf(&self) -> bool {
        &&& self.rbuf.wf()
        &&& self.wbuf.wf()
        &&& self.rbuf.capacity() == BUF_SIZE
        &&& self.wbuf.capacity() == BUF_SIZE
        &&& self.rbuf.consumed() == 0
    }

    /// The connection is sound: its buffers are, and its view is valid.
    pub closed spec fn wf(&self) -> bool {
        self.buffers_wf() && self@.valid()
    }

    /// A sound connection has a valid view.
    pub proof fn lemma_view_valid(&self)
        requires
            self.wf(),
        ensures
            self@.valid(),
    {
    }

    /// The connection for a socket that was just accepted: reading, with
    /// both buffers empty.
    pub fn on_accept() -> (c: Connection)
        ensures
            c.wf(),
            c@ == fresh(),
    {
        let c = Connection {
            state: ConnectionState::StateReq,
            rbuf: ByteBuffer::new(BUF_SIZE),
            wbuf: ByteBuffer::new(BUF_SIZE),
            cause: None,
        };
        c
    }

    /// Where the connection stands.
    pub fn state(&self) -> (s: ConnectionState)
        ensures
            s == self@.state,
    {
        self.state
    }

    /// Whether the connection is over and may be dropped.
    pub fn is_terminated(&self) -> (over: bool)
        ensures
            over == (self@.state == ConnectionState::StateEnd),
    {
        self.state == ConnectionState::StateEnd
    }

    /// Why the connection is over, or `None` while it is not.
    pub fn end_cause(&self) -> (cause: Option<EndCause>)
        ensures
            cause == self@.cause,
    {
        self.cause
    }

    /// How many bytes are read and not yet served.
    pub fn read_len(&self) -> (n: usize)
        requires
            self.wf(),
        ensures
            n == self@.inbox.len(),
            n <= BUF_SIZE,
    {
        proof {
            self.rbuf.lemma_bounds();
        }
        self.rbuf.len()
    }

    /// How many more bytes a read may bring.
    pub fn read_room(&self) -> (n: usize)
        requires
            self.wf(),
        ensures
            n == BUF_SIZE - self@.inbox.len(),
    {
        proof {
            self.rbuf.lemma_bounds();
        }
        self.rbuf.room()
    }

    /// How many reply bytes were queued since the write buffer was last
    /// empty.
    pub fn write_len(&self) -> (n: usize)
        requires
            self.wf(),
        ensures
            n == self@.outbox.len(),
            n <= BUF_SIZE,
    {
        proof {
            self.wbuf.lemma_bounds();
        }
        self.wbuf.len()
    }

    /// How many of the queued reply bytes are sent.
    pub fn write_sent(&self) -> (n: usize)
        requires
            self.wf(),
        ensures
            n == self@.sent,
            n <= self@.outbox.len(),
    {
        self.wbuf.sent()
    }

    /// The reply bytes that the next write should offer.
    pub fn pending_output(&self) -> (out: Vec<u8>)
        requires
            self.wf(),
        ensures
            out@ == self@.outbox.skip(self@.sent as int),
    {
        self.wbuf.pending_bytes()
    }

    /// What the owner does next, going by the state alone. A read that is
    /// asked for has room for at least one byte.
    pub fn next_action(&self) -> (action: Action)
        requires
            self.wf(),
        ensures
            action == action_for(self@),
            action matches Action::Read { room } ==> room > 0,
    {
        proof {
            self.rbuf.lemma_bounds();
        }
        match self.state {
            ConnectionState::StateEnd => Action::Drop,
            ConnectionState::StateRes => Action::Write,
            ConnectionState::StateReq => {
                match try_extract_frame(self.rbuf.as_slice(), self.rbuf.len()) {
                    FrameResult::Incomplete => Action::Read { room: self.rbuf.room() },
                    _ => Action::Serve,
                }
            },
        }
    }

    /// Decodes the first `len` bytes of `data` as a request body. `None`
    /// where they are malformed or `data` is shorter than `len`.
    pub fn parse_req(data: &[u8], len: usize) -> (r: Option<Vec<String>>)
        ensures
            len > data.len() ==> r is None,
            len <= data.len() ==> match r {
                Some(args) => parse_spec(data@.take(len as int)) == Some(texts(args@)),
                None => parse_spec(data@.take(len as int)) is None,
            },
    {
        if len > data.len() {
            return None;
        }
        let body = slice_subrange(data, 0, len);
        assert(body@ =~= data@.take(len as int));
        match parse_args(body) {
            Ok(args) => Some(args),
            Err(_) => None,
        }
    }

    /// Decodes and carries out the request in the first `len` bytes of
    /// `data`.
    ///
    /// The reply's payload is written to the front of `res_buf` and its
    /// length to `res_len`. Where `data` is shorter than `len`, or the
    /// payload longer than `res_buf`, the request counts as failed: the
    /// status is `StatusErr` and nothing is changed.
    pub fn do_request(
        database: &mut Database,
        data: &[u8],
        len: usize,
        res_buf: &mut Vec<u8>,
        res_len: &mut usize,
    ) -> (status: ResponseStatus)
        ensures
            len > data.len() || request_outcome(
                old(database)@,
                data@.take(len as int),
            ).0.payload.len() > old(res_buf).len() ==> {
                &&& status == ResponseStatus::StatusErr
                &&& final(database)@ == old(database)@
                &&& final(res_buf)@ == old(res_buf)@
                &&& *final(res_len) == *old(res_len)
            },
            len <= data.len() && request_outcome(
                old(database)@,
                data@.take(len as int),
            ).0.payload.len() <= old(res_buf).len() ==> {
                let (reply, db2) = request_outcome(old(database)@, data@.take(len as int));
                &&& status == reply.status
                &&& final(database)@ == db2
                &&& final(res_buf)@ == reply.payload + old(res_buf)@.skip(
                    reply.payload.len() as int,
                )
                &&& *final(res_len) == reply.payload.len()
            },
    {
        let args = match Connection::parse_req(data, len) {
            None => {
                if len <= data.len() {
                    *res_len = 0;
                    assert(res_buf@ =~= Seq::<u8>::empty() + old(res_buf)@.skip(0));
                }
                return ResponseStatus::StatusErr;
            },
            Some(args) => args,
        };
        let ghost body = data@.take(len as int);
        proof {
            lemma_payload_means_lookup(database@, body);
        }
        let reply = dispatch(database, &args);
        let n = reply.payload.len();
        if n > res_buf.len() {
            return ResponseStatus::StatusErr;
        }
        let mut i: usize = 0;
        while i < n
            invariant
                i <= n,
                n == reply.payload.len(),
                n <= res_buf.len(),
                res_buf.len() == old(res_buf).len(),
                res_buf@.take(i as int) == reply.payload@.take(i as int),
                res_buf@.skip(i as int) == old(res_buf)@.skip(i as int),
            decreases n - i,
        {
            let ghost before = res_buf@;
            res_buf.set(i, reply.payload[i]);
            i = i + 1;
            proof {
                assert(res_buf@.take(i as int) =~= before.take(i - 1).push(reply.payload@[i - 1]));
                assert(reply.payload@.take(i as int) =~= reply.payload@.take(i - 1).push(
                    reply.payload@[i - 1],
                ));
                assert(res_buf@.skip(i as int) =~= before.skip(i - 1).skip(1));
                assert(old(res_buf)@.skip(i as int) =~= old(res_buf)@.skip(i - 1).skip(1));
            }
        }
        *res_len = n;
        proof {
            assert(reply.payload@.take(n as int) =~= reply.payload@);
            assert(res_buf@ =~= res_buf@.take(n as int) + res_buf@.skip(n as int));
        }
        reply.status
    }

    /// Ends the connection for `cause`, unless replies are queued: then it
    /// writes first, and the frame at its front stays where it is.
    fn give_up(&mut self, cause: EndCause)
        requires
            old(self).buffers_wf(),
            old(self)@.cause is None,
            old(self)@.sent == 0,
        ensures
            final(self).buffers_wf(),
            give_up(old(self)@.outbox, cause) matches Progress::Halted { state, cause: why }
                && final(self)@ == (ConnView { state, cause: why, ..old(self)@ }),
    {
        proof {
            self.wbuf.lemma_bounds();
        }
        if self.wbuf.len() > 0 {
            self.state = ConnectionState::StateRes;
        } else {
            self.state = ConnectionState::StateEnd;
            self.cause = Some(cause);
        }
    }

    /// Serves the frame at the front of the read buffer, if there is one and
    /// its reply can be queued. Says whether it did, so that the caller may
    /// try the next one.
    fn try_one_request(&mut self, database: &mut Database) -> (again: bool)
        requires
            old(self).buffers_wf(),
            old(self)@.state == ConnectionState::StateReq,
            old(self)@.sent == 0,
            old(self)@.cause is None,
        ensures
            final(self).buffers_wf(),
            final(self)@.sent == 0,
            match one_request(old(self)@.inbox, old(self)@.outbox, old(database)@) {
                Progress::Answered { inbox, outbox, db } => {
                    &&& again
                    &&& final(self)@ == (ConnView {
                        state: ConnectionState::StateReq,
                        inbox,
                        outbox,
                        sent: 0,
                        cause: None,
                    })
                    &&& final(database)@ == db
                    &&& inbox.len() < old(self)@.inbox.len()
                },
                Progress::Halted { state, cause } => {
                    &&& !again
                    &&& final(self)@ == (ConnView { state, cause, ..old(self)@ })
                    &&& final(database)@ == old(database)@
                },
            },
    {
        proof {
            self.rbuf.lemma_bounds();
            self.wbuf.lemma_bounds();
        }
        let ghost inbox = self.rbuf.written();
        let ghost outbox = self.wbuf.written();
        let ghost db0 = database@;
        let read_len = self.rbuf.len();
        let found = try_extract_frame(self.rbuf.as_slice(), read_len);
        match found {
            FrameResult::Incomplete => {
                if self.wbuf.len() > 0 {
                    self.state = ConnectionState::StateRes;
                }
                false
            },
            FrameResult::Invalid => {
                self.give_up(EndCause::MessageTooLong);
                false
            },
            FrameResult::Complete { body_start, body_len, consumed } => {
                let room = self.wbuf.room();
                if room < 8 {
                    self.state = ConnectionState::StateRes;
                    return false;
                }
                let mut payload: Vec<u8> = vec![0u8; MAX_MSG - 4];
                let mut payload_len: usize = 0;
                let body = slice_subrange(self.rbuf.as_slice(), body_start, consumed);
                assert(body@ =~= inbox.subrange(4, consumed as int));
                assert(body@.take(body_len as int) =~= body@);
                proof {
                    lemma_payload_means_lookup(db0, body@);
                }
                let status = Connection::do_request(
                    database,
                    body,
                    body_len,
                    &mut payload,
                    &mut payload_len,
                );
                if status == ResponseStatus::StatusErr {
                    self.give_up(EndCause::BadRequest);
                    return false;
                }
                if payload_len > room - 8 {
                    self.state = ConnectionState::StateRes;
                    return false;
                }
                let ghost reply = request_outcome(db0, body@).0;
                let frame = encode_frame(status, slice_subrange(payload.as_slice(), 0, payload_len));
                assert(payload@.subrange(0, payload_len as int) =~= reply.payload);
                self.wbuf.fill(frame.as_slice());
                self.rbuf.consume(consumed);
                self.rbuf.compact();
                proof {
                    self.rbuf.lemma_bounds();
                    assert(self.rbuf.written() =~= inbox.skip(consumed as int));
                }
                true
            },
        }
    }

    /// Serves every frame that can be served now and settles the state.
    fn serve_all(&mut self, database: &mut Database)
        requires
            old(self).buffers_wf(),
            old(self)@.state == ConnectionState::StateReq,
            old(self)@.sent == 0,
            old(self)@.outbox.len() == 0,
            old(self)@.cause is None,
        ensures
            final(self).wf(),
            (final(self)@, final(database)@) == serve(
                old(self)@.inbox,
                old(self)@.outbox,
                old(database)@,
            ),
    {
        let ghost target = serve(self@.inbox, self@.outbox, database@);
        let mut again = true;
        proof {
            self.rbuf.lemma_bounds();
            self.wbuf.lemma_bounds();
        }
        while again
            invariant
                self.buffers_wf(),
                self@.sent == 0,
                self@.inbox.len() <= BUF_SIZE,
                self@.outbox.len() <= BUF_SIZE,
                again ==> self@.state == ConnectionState::StateReq && self@.cause is None && serve(
                    self@.inbox,
                    self@.outbox,
                    database@,
                ) == target,
                !again ==> (self@, database@) == target && self@.valid(),
            decreases self@.inbox.len() + (if again { 1nat } else { 0nat }),
        {
            again = self.try_one_request(database);
            proof {
                self.rbuf.lemma_bounds();
                self.wbuf.lemma_bounds();
            }
        }
    }

    /// Serves the frames that wait in the read buffer of a reading
    /// connection, each reply queued behind the last. In any other state the
    /// call changes nothing.
    ///
    /// Frames wait where the connection had to send its output before it
    /// could answer them. The owner calls this before it reads again.
    pub fn serve_waiting(&mut self, database: &mut Database)
        requires
            old(self).wf(),
        ensures
            final(self).wf(),
            (final(self)@, final(database)@) == on_serve(old(self)@, old(database)@),
    {
        if self.state == ConnectionState::StateReq {
            proof {
                self.wbuf.lemma_bounds();
                assert(self@.outbox =~= Seq::<u8>::empty());
            }
            self.serve_all(database);
        }
    }

    /// Takes the outcome of a read while the connection is reading.
    ///
    /// Bytes join the read buffer, and every whole frame in it is then
    /// served in turn, each reply queued behind the last. The peer's
    /// shutdown or a failed read end the connection; a socket that was not
    /// ready changes nothing. In any other state the call changes nothing.
    pub fn state_req(&mut self, database: &mut Database, event: IoEvent)
        requires
            old(self).wf(),
        ensures
            final(self).wf(),
            old(self)@.state == ConnectionState::StateReq ==> (final(self)@, final(database)@)
                == read_step(old(self)@, old(database)@, event),
            old(self)@.state != ConnectionState::StateReq ==> final(self)@ == old(self)@ && final(database)@ == old(database)@,
    {
        if self.state != ConnectionState::StateReq {
            return ;
        }
        proof {
            self.rbuf.lemma_bounds();
            self.wbuf.lemma_bounds();
        }
        match event {
            IoEvent::Data(bytes) => {
                if bytes.len() == 0 {
                    self.peer_gone();
                } else if bytes.len() > self.rbuf.room() {
                    self.state = ConnectionState::StateEnd;
                    self.cause = Some(EndCause::ReadError);
                } else {
                    self.rbuf.fill(bytes.as_slice());
                    self.serve_all(database);
                }
            },
            IoEvent::Eof => {
                self.peer_gone();
            },
            IoEvent::Failed => {
                self.state = ConnectionState::StateEnd;
                self.cause = Some(EndCause::ReadError);
            },
            IoEvent::Sent(_) => {},
            IoEvent::WouldBlock => {},
        }
    }

    /// Ends a reading connection whose peer has shut down.
    fn peer_gone(&mut self)
        requires
            old(self).wf(),
            old(self)@.state == ConnectionState::StateReq,
        ensures
            final(self).wf(),
            final(self)@ == old(self)@.ended(
                if old(self)@.inbox.len() > 0 {
                    EndCause::UnexpectedEof
                } else {
                    EndCause::Eof
                },
            ),
    {
        proof {
            self.rbuf.lemma_bounds();
        }
        self.state = ConnectionState::StateEnd;
        if self.rbuf.len() > 0 {
            self.cause = Some(EndCause::UnexpectedEof);
        } else {
            self.cause = Some(EndCause::Eof);
        }
    }

    /// Takes the outcome of a write while the connection is writing.
    ///
    /// The bytes that were sent count as done. Once all are, both write
    /// cursors are back at zero and the connection is reading again, its
    /// read buffer untouched. A failed write ends the connection; a socket
    /// that was not ready changes nothing. In any other state the call
    /// changes nothing.
    pub fn state_res(&mut self, event: IoEvent)
        requires
            old(self).wf(),
        ensures
            final(self).wf(),
            old(self)@.state == ConnectionState::StateRes ==> final(self)@ == write_step(
                old(self)@,
                event,
            ),
            old(self)@.state != ConnectionState::StateRes ==> final(self)@ == old(self)@,
    {
        if self.state != ConnectionState::StateRes {
            return ;
        }
        proof {
            self.rbuf.lemma_bounds();
            self.wbuf.lemma_bounds();
        }
        match event {
            IoEvent::Sent(n) => {
                let unsent = self.wbuf.len() - self.wbuf.sent();
                if n > unsent {
                    self.state = ConnectionState::StateEnd;
                    self.cause = Some(EndCause::WriteError);
                } else if n < unsent {
                    self.wbuf.consume(n);
                    proof {
                        self.wbuf.lemma_bounds();
                    }
                } else {
                    self.wbuf.consume(n);
                    self.state = ConnectionState::StateReq;
                    proof {
                        self.wbuf.lemma_bounds();
                        assert(self@.outbox =~= Seq::<u8>::empty());
                    }
                }
            },
            IoEvent::Failed => {
                self.state = ConnectionState::StateEnd;
                self.cause = Some(EndCause::WriteError);
            },
            IoEvent::Data(_) => {},
            IoEvent::Eof => {},
            IoEvent::WouldBlock => {},
        }
    }

    /// Takes one event, whatever the state, and says what the owner does
    /// next: one step of the state machine.
    pub fn advance(&mut self, database: &mut Database, event: IoEvent) -> (action: Action)
        requires
            old(self).wf(),
        ensures
            final(self).wf(),
            (final(self)@, final(database)@) == step(old(self)@, old(database)@, event),
            action == action_after(final(self)@, event),
            action matches Action::Read { room } ==> room > 0,
    {
        let blocked = match event {
            IoEvent::WouldBlock => true,
            _ => false,
        };
        match self.state {
            ConnectionState::StateReq => self.state_req(database, event),
            ConnectionState::StateRes => self.state_res(event),
            ConnectionState::StateEnd => {},
        }
        if blocked && self.state != ConnectionState::StateEnd {
            Action::Wait
        } else {
            self.next_action()
        }
    }
}

} // verus!
