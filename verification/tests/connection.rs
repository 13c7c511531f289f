use kv_framing::connection::{
    Action, Connection, ConnectionState, EndCause, IoEvent, BUF_SIZE, MAX_MSG,
};
use kv_framing::database::Database;
use kv_framing::frame::{decode_length, decode_response, encode_frame, frame_request};
use kv_framing::request::encode_args;
use kv_framing::ResponseStatus;

fn request(list: &[&str]) -> Vec<u8> {
    let args: Vec<String> = list.iter().map(|s| s.to_string()).collect();
    frame_request(&encode_args(&args)).unwrap()
}

fn replies(mut bytes: &[u8]) -> Vec<(ResponseStatus, Vec<u8>)> {
    let mut out = Vec::new();
    while !bytes.is_empty() {
        let len = decode_length(bytes).unwrap() as usize + 4;
        out.push(decode_response(&bytes[..len]).unwrap());
        bytes = &bytes[len..];
    }
    out
}

fn flush(conn: &mut Connection) -> Vec<u8> {
    let mut sent = Vec::new();
    while conn.state() == ConnectionState::StateRes {
        let pending = conn.pending_output();
        assert!(!pending.is_empty());
        sent.extend_from_slice(&pending);
        conn.state_res(IoEvent::Sent(pending.len()));
    }
    sent
}

fn ask(conn: &mut Connection, db: &mut Database, list: &[&str]) -> Vec<(ResponseStatus, Vec<u8>)> {
    conn.state_req(db, IoEvent::Data(request(list)));
    replies(&flush(conn))
}

fn snapshot(conn: &Connection) -> (ConnectionState, usize, usize, usize, Vec<u8>) {
    (conn.state(), conn.read_len(), conn.write_len(), conn.write_sent(), conn.pending_output())
}

#[test]
fn accepted_connection_reads_with_empty_buffers() {
    let conn = Connection::on_accept();
    assert_eq!(conn.state(), ConnectionState::StateReq);
    assert!(!conn.is_terminated());
    assert_eq!(conn.read_len(), 0);
    assert_eq!(conn.write_len(), 0);
    assert_eq!(conn.write_sent(), 0);
    assert_eq!(conn.read_room(), 4 + MAX_MSG);
    assert_eq!(BUF_SIZE, 4100);
    assert!(conn.pending_output().is_empty());
}

#[test]
fn set_is_answered_ok_without_payload() {
    let mut db = Database::new();
    let mut conn = Connection::on_accept();
    assert_eq!(ask(&mut conn, &mut db, &["set", "foo", "bar"]), vec![(ResponseStatus::StatusOk, vec![])]);
    assert_eq!(conn.state(), ConnectionState::StateReq);
}

#[test]
fn get_after_set_returns_the_value() {
    let mut db = Database::new();
    let mut conn = Connection::on_accept();
    ask(&mut conn, &mut db, &["set", "foo", "bar"]);
    assert_eq!(
        ask(&mut conn, &mut db, &["get", "foo"]),
        vec![(ResponseStatus::StatusOk, b"bar".to_vec())]
    );
}

#[test]
fn get_of_a_missing_key_is_not_found() {
    let mut db = Database::new();
    let mut conn = Connection::on_accept();
    assert_eq!(ask(&mut conn, &mut db, &["get", "missing"]), vec![(ResponseStatus::StatusNx, vec![])]);
    assert_eq!(conn.state(), ConnectionState::StateReq);
}

#[test]
fn del_then_get_is_ok_then_not_found() {
    let mut db = Database::new();
    let mut conn = Connection::on_accept();
    ask(&mut conn, &mut db, &["set", "foo", "bar"]);
    assert_eq!(ask(&mut conn, &mut db, &["del", "foo"]), vec![(ResponseStatus::StatusOk, vec![])]);
    assert_eq!(ask(&mut conn, &mut db, &["get", "foo"]), vec![(ResponseStatus::StatusNx, vec![])]);
}

#[test]
fn get_without_a_key_is_an_error_and_ends_the_connection() {
    let mut db = Database::new();
    let body = encode_args(&vec!["get".to_string()]);
    let mut out = vec![0u8; 16];
    let mut n = 0usize;
    assert_eq!(
        Connection::do_request(&mut db, &body, body.len(), &mut out, &mut n),
        ResponseStatus::StatusErr
    );
    let mut conn = Connection::on_accept();
    assert_eq!(ask(&mut conn, &mut db, &["get"]), vec![]);
    assert!(conn.is_terminated());
    assert_eq!(conn.write_len(), 0);
}

#[test]
fn a_request_without_arguments_is_an_error() {
    let mut db = Database::new();
    let body = encode_args(&Vec::<String>::new());
    assert_eq!(body, vec![0u8, 0, 0, 0]);
    let mut out = vec![0u8; 16];
    let mut n = 0usize;
    assert_eq!(
        Connection::do_request(&mut db, &body, body.len(), &mut out, &mut n),
        ResponseStatus::StatusErr
    );
    let mut conn = Connection::on_accept();
    conn.state_req(&mut db, IoEvent::Data(frame_request(&body).unwrap()));
    assert_eq!(conn.state(), ConnectionState::StateEnd);
}

#[test]
fn unknown_command_and_malformed_body_end_the_connection() {
    let mut db = Database::new();
    let mut conn = Connection::on_accept();
    conn.state_req(&mut db, IoEvent::Data(request(&["ping"])));
    assert!(conn.is_terminated());
    let mut conn = Connection::on_accept();
    conn.state_req(&mut db, IoEvent::Data(frame_request(&[1, 0, 0, 0, 9, 0, 0, 0, b'x']).unwrap()));
    assert!(conn.is_terminated());
    let mut conn = Connection::on_accept();
    conn.state_req(&mut db, IoEvent::Data(frame_request(&[]).unwrap()));
    assert!(conn.is_terminated());
}

#[test]
fn split_reads_give_the_same_as_one_read() {
    let frame = request(&["set", "split", "value"]);
    let mut whole_db = Database::new();
    let mut whole = Connection::on_accept();
    whole.state_req(&mut whole_db, IoEvent::Data(frame.clone()));
    let expected = snapshot(&whole);
    assert_eq!(expected.0, ConnectionState::StateRes);
    assert_eq!(expected.4, encode_frame(ResponseStatus::StatusOk, b""));

    for cut in 1..frame.len() {
        let mut db = Database::new();
        let mut conn = Connection::on_accept();
        conn.state_req(&mut db, IoEvent::Data(frame[..cut].to_vec()));
        assert_eq!(conn.state(), ConnectionState::StateReq);
        assert_eq!(conn.read_len(), cut);
        assert_eq!(conn.write_len(), 0);
        conn.state_req(&mut db, IoEvent::Data(frame[cut..].to_vec()));
        assert_eq!(snapshot(&conn), expected);
        let mut value = String::new();
        assert_eq!(db.get("split", &mut value), ResponseStatus::StatusOk);
        assert_eq!(value, "value");
    }

    for first in 1..frame.len() - 1 {
        for second in first + 1..frame.len() {
            let mut db = Database::new();
            let mut conn = Connection::on_accept();
            conn.state_req(&mut db, IoEvent::Data(frame[..first].to_vec()));
            conn.state_req(&mut db, IoEvent::Data(frame[first..second].to_vec()));
            conn.state_req(&mut db, IoEvent::Data(frame[second..].to_vec()));
            assert_eq!(snapshot(&conn), expected);
        }
    }

    let mut db = Database::new();
    let mut conn = Connection::on_accept();
    for byte in &frame {
        conn.state_req(&mut db, IoEvent::WouldBlock);
        conn.state_req(&mut db, IoEvent::Data(vec![*byte]));
    }
    assert_eq!(snapshot(&conn), expected);
}

#[test]
fn two_frames_in_one_read_are_answered_in_order() {
    let mut db = Database::new();
    let mut conn = Connection::on_accept();
    let mut both = request(&["set", "a", "1"]);
    both.extend_from_slice(&request(&["get", "a"]));
    conn.state_req(&mut db, IoEvent::Data(both));
    assert_eq!(conn.state(), ConnectionState::StateRes);
    assert_eq!(conn.read_len(), 0);
    let mut expected = encode_frame(ResponseStatus::StatusOk, b"");
    expected.extend_from_slice(&encode_frame(ResponseStatus::StatusOk, b"1"));
    assert_eq!(conn.write_len(), expected.len());
    assert_eq!(conn.write_sent(), 0);
    assert_eq!(conn.pending_output(), expected);
    assert_eq!(
        replies(&flush(&mut conn)),
        vec![(ResponseStatus::StatusOk, vec![]), (ResponseStatus::StatusOk, b"1".to_vec())]
    );
    assert_eq!(conn.state(), ConnectionState::StateReq);
}

#[test]
fn a_frame_and_a_half_leave_the_half_in_the_buffer() {
    let mut db = Database::new();
    let mut conn = Connection::on_accept();
    let second = request(&["get", "a"]);
    let mut bytes = request(&["set", "a", "1"]);
    bytes.extend_from_slice(&second[..5]);
    conn.state_req(&mut db, IoEvent::Data(bytes));
    assert_eq!(conn.state(), ConnectionState::StateRes);
    assert_eq!(conn.read_len(), 5);
    conn.state_req(&mut db, IoEvent::Data(second[5..].to_vec()));
    assert_eq!(conn.read_len(), 5);
    assert_eq!(replies(&flush(&mut conn)), vec![(ResponseStatus::StatusOk, vec![])]);
    assert_eq!(conn.state(), ConnectionState::StateReq);
    assert_eq!(conn.read_len(), 5);
    conn.state_req(&mut db, IoEvent::Data(second[5..].to_vec()));
    assert_eq!(replies(&flush(&mut conn)), vec![(ResponseStatus::StatusOk, b"1".to_vec())]);
}

#[test]
fn an_oversized_length_ends_the_connection_at_once() {
    let mut db = Database::new();
    let mut conn = Connection::on_accept();
    conn.state_req(&mut db, IoEvent::Data(4097u32.to_le_bytes().to_vec()));
    assert!(conn.is_terminated());
    assert_eq!(conn.write_len(), 0);

    let mut conn = Connection::on_accept();
    conn.state_req(&mut db, IoEvent::Data(vec![0xff, 0xff]));
    assert_eq!(conn.state(), ConnectionState::StateReq);
    conn.state_req(&mut db, IoEvent::Data(vec![0xff, 0xff]));
    assert_eq!(conn.state(), ConnectionState::StateEnd);

    let mut conn = Connection::on_accept();
    let mut bytes = 5000u32.to_le_bytes().to_vec();
    bytes.extend_from_slice(&encode_args(&vec!["set".to_string(), "k".to_string(), "v".to_string()]));
    conn.state_req(&mut db, IoEvent::Data(bytes));
    assert!(conn.is_terminated());
    let mut value = String::new();
    assert_eq!(db.get("k", &mut value), ResponseStatus::StatusNx);
}

#[test]
fn the_longest_frame_is_still_served() {
    let mut db = Database::new();
    let mut conn = Connection::on_accept();
    let value = "v".repeat(MAX_MSG - 4 - 4 - 3 - 4 - 1 - 4);
    let frame = request(&["set", "k", &value]);
    assert_eq!(frame.len(), 4 + MAX_MSG);
    conn.state_req(&mut db, IoEvent::Data(frame));
    assert_eq!(replies(&flush(&mut conn)), vec![(ResponseStatus::StatusOk, vec![])]);
    assert_eq!(
        ask(&mut conn, &mut db, &["get", "k"]),
        vec![(ResponseStatus::StatusOk, value.into_bytes())]
    );
}

#[test]
fn shutdown_and_failure_end_a_reading_connection() {
    let mut db = Database::new();
    for event in [IoEvent::Eof, IoEvent::Failed, IoEvent::Data(vec![])] {
        let mut conn = Connection::on_accept();
        conn.state_req(&mut db, event);
        assert!(conn.is_terminated());
    }
    let mut conn = Connection::on_accept();
    conn.state_req(&mut db, IoEvent::Data(vec![1, 0]));
    conn.state_req(&mut db, IoEvent::Eof);
    assert!(conn.is_terminated());
    assert_eq!(conn.read_len(), 2);
}

#[test]
fn a_socket_that_is_not_ready_changes_nothing() {
    let mut db = Database::new();
    let mut conn = Connection::on_accept();
    conn.state_req(&mut db, IoEvent::Data(vec![9, 0, 0]));
    let before = snapshot(&conn);
    conn.state_req(&mut db, IoEvent::WouldBlock);
    assert_eq!(snapshot(&conn), before);
    conn.state_req(&mut db, IoEvent::Sent(3));
    assert_eq!(snapshot(&conn), before);
    conn.state_res(IoEvent::Sent(3));
    assert_eq!(snapshot(&conn), before);
    conn.state_res(IoEvent::Failed);
    assert_eq!(snapshot(&conn), before);

    let mut conn = Connection::on_accept();
    conn.state_req(&mut db, IoEvent::Data(request(&["get", "k"])));
    let writing = snapshot(&conn);
    assert_eq!(writing.0, ConnectionState::StateRes);
    conn.state_res(IoEvent::WouldBlock);
    assert_eq!(snapshot(&conn), writing);
    conn.state_res(IoEvent::Data(vec![1]));
    assert_eq!(snapshot(&conn), writing);
    conn.state_res(IoEvent::Eof);
    assert_eq!(snapshot(&conn), writing);
    conn.state_req(&mut db, IoEvent::Data(vec![1]));
    assert_eq!(snapshot(&conn), writing);
    conn.state_req(&mut db, IoEvent::Eof);
    assert_eq!(snapshot(&conn), writing);
    conn.state_res(IoEvent::Sent(0));
    assert_eq!(snapshot(&conn), writing);
}

#[test]
fn short_writes_advance_the_cursor_until_all_is_sent() {
    let mut db = Database::new();
    let mut conn = Connection::on_accept();
    db.set("k".to_string(), "abc".to_string());
    conn.state_req(&mut db, IoEvent::Data(request(&["get", "k"])));
    let frame = encode_frame(ResponseStatus::StatusOk, b"abc");
    assert_eq!(frame.len(), 11);
    assert_eq!(conn.pending_output(), frame);
    conn.state_res(IoEvent::Sent(4));
    assert_eq!(conn.state(), ConnectionState::StateRes);
    assert_eq!((conn.write_len(), conn.write_sent()), (11, 4));
    assert_eq!(conn.pending_output(), frame[4..].to_vec());
    conn.state_res(IoEvent::Sent(6));
    assert_eq!((conn.write_len(), conn.write_sent()), (11, 10));
    assert_eq!(conn.pending_output(), frame[10..].to_vec());
    conn.state_res(IoEvent::Sent(1));
    assert_eq!(conn.state(), ConnectionState::StateReq);
    assert_eq!((conn.write_len(), conn.write_sent()), (0, 0));
    assert!(conn.pending_output().is_empty());
}

#[test]
fn a_failed_or_faulty_write_ends_the_connection() {
    let mut db = Database::new();
    let mut conn = Connection::on_accept();
    conn.state_req(&mut db, IoEvent::Data(request(&["get", "k"])));
    conn.state_res(IoEvent::Failed);
    assert!(conn.is_terminated());

    let mut conn = Connection::on_accept();
    conn.state_req(&mut db, IoEvent::Data(request(&["get", "k"])));
    conn.state_res(IoEvent::Sent(9));
    assert!(conn.is_terminated());
}

#[test]
fn a_read_that_brings_too_much_ends_the_connection() {
    let mut db = Database::new();
    let mut conn = Connection::on_accept();
    conn.state_req(&mut db, IoEvent::Data(vec![0u8; BUF_SIZE + 1]));
    assert!(conn.is_terminated());
    let mut conn = Connection::on_accept();
    conn.state_req(&mut db, IoEvent::Data(vec![1, 1]));
    conn.state_req(&mut db, IoEvent::Data(vec![0u8; BUF_SIZE - 1]));
    assert!(conn.is_terminated());
}

#[test]
fn an_ended_connection_stays_ended() {
    let mut db = Database::new();
    let mut conn = Connection::on_accept();
    conn.advance(&mut db, IoEvent::Eof);
    assert!(conn.is_terminated());
    for event in [
        IoEvent::Data(request(&["set", "k", "v"])),
        IoEvent::Sent(1),
        IoEvent::WouldBlock,
        IoEvent::Eof,
        IoEvent::Failed,
    ] {
        conn.advance(&mut db, event);
        assert!(conn.is_terminated());
    }
    let mut value = String::new();
    assert_eq!(db.get("k", &mut value), ResponseStatus::StatusNx);
}

#[test]
fn advance_picks_the_step_by_state() {
    let mut db = Database::new();
    let mut conn = Connection::on_accept();
    conn.advance(&mut db, IoEvent::Data(request(&["set", "k", "v"])));
    assert_eq!(conn.state(), ConnectionState::StateRes);
    conn.advance(&mut db, IoEvent::Sent(8));
    assert_eq!(conn.state(), ConnectionState::StateReq);
    conn.advance(&mut db, IoEvent::Data(request(&["get", "k"])));
    assert_eq!(conn.pending_output(), encode_frame(ResponseStatus::StatusOk, b"v"));
    conn.advance(&mut db, IoEvent::Failed);
    assert!(conn.is_terminated());
}

#[test]
fn replies_that_do_not_fit_wait_for_the_buffer_to_drain() {
    let mut db = Database::new();
    let mut conn = Connection::on_accept();
    let value = "x".repeat(2000);
    assert_eq!(ask(&mut conn, &mut db, &["set", "big", &value]), vec![(ResponseStatus::StatusOk, vec![])]);
    let get = request(&["get", "big"]);
    let mut three = Vec::new();
    for _ in 0..3 {
        three.extend_from_slice(&get);
    }
    conn.state_req(&mut db, IoEvent::Data(three));
    assert_eq!(conn.state(), ConnectionState::StateRes);
    assert_eq!(conn.write_len(), 2 * 2008);
    assert_eq!(conn.read_len(), get.len());
    conn.state_res(IoEvent::Sent(2008));
    assert_eq!(conn.write_len(), 2 * 2008);
    assert_eq!(conn.read_len(), get.len());
    conn.state_res(IoEvent::Sent(2008));
    assert_eq!(conn.state(), ConnectionState::StateReq);
    assert_eq!(conn.read_len(), get.len());
    assert_eq!((conn.write_len(), conn.write_sent()), (0, 0));
    assert_eq!(conn.next_action(), Action::Serve);
    conn.serve_waiting(&mut db);
    assert_eq!(conn.state(), ConnectionState::StateRes);
    assert_eq!(conn.read_len(), 0);
    assert_eq!((conn.write_len(), conn.write_sent()), (2008, 0));
    assert_eq!(
        replies(&flush(&mut conn)),
        vec![(ResponseStatus::StatusOk, value.into_bytes())]
    );
    assert_eq!(conn.state(), ConnectionState::StateReq);
    assert_eq!(conn.next_action(), Action::Read { room: BUF_SIZE });
}

#[test]
fn a_full_drain_leaves_the_read_buffer_alone() {
    let mut db = Database::new();
    let mut conn = Connection::on_accept();
    let second = request(&["get", "a"]);
    let mut bytes = request(&["set", "a", "1"]);
    bytes.extend_from_slice(&second[..7]);
    conn.state_req(&mut db, IoEvent::Data(bytes));
    assert_eq!(conn.state(), ConnectionState::StateRes);
    assert_eq!((conn.read_len(), conn.write_len(), conn.write_sent()), (7, 8, 0));
    conn.state_res(IoEvent::Sent(8));
    assert_eq!(conn.state(), ConnectionState::StateReq);
    assert_eq!((conn.read_len(), conn.write_len(), conn.write_sent()), (7, 0, 0));
    assert_eq!(conn.next_action(), Action::Read { room: BUF_SIZE - 7 });
    conn.serve_waiting(&mut db);
    assert_eq!(conn.state(), ConnectionState::StateReq);
    assert_eq!((conn.read_len(), conn.write_len(), conn.write_sent()), (7, 0, 0));
}

#[test]
fn a_reply_too_long_for_any_frame_ends_the_connection() {
    let mut db = Database::new();
    db.set("huge".to_string(), "y".repeat(MAX_MSG - 3));
    db.set("fits".to_string(), "y".repeat(MAX_MSG - 4));
    let mut conn = Connection::on_accept();
    let got = ask(&mut conn, &mut db, &["get", "fits"]);
    assert_eq!(got.len(), 1);
    assert_eq!(got[0].1.len(), MAX_MSG - 4);
    conn.state_req(&mut db, IoEvent::Data(request(&["get", "huge"])));
    assert!(conn.is_terminated());
    assert_eq!(conn.write_len(), 0);
}

#[test]
fn a_bad_frame_behind_a_good_one_ends_the_connection_after_the_reply() {
    let mut db = Database::new();
    let mut conn = Connection::on_accept();
    let bad = request(&["nope"]);
    let mut bytes = request(&["set", "k", "v"]);
    bytes.extend_from_slice(&bad);
    conn.state_req(&mut db, IoEvent::Data(bytes));
    assert_eq!(conn.state(), ConnectionState::StateRes);
    assert_eq!(conn.end_cause(), None);
    assert_eq!(conn.read_len(), bad.len());
    assert_eq!(conn.pending_output(), encode_frame(ResponseStatus::StatusOk, b""));
    assert_eq!(replies(&flush(&mut conn)), vec![(ResponseStatus::StatusOk, vec![])]);
    assert_eq!(conn.state(), ConnectionState::StateReq);
    assert_eq!(conn.next_action(), Action::Serve);
    conn.serve_waiting(&mut db);
    assert!(conn.is_terminated());
    assert_eq!(conn.end_cause(), Some(EndCause::BadRequest));
    assert_eq!(conn.write_len(), 0);
    let mut value = String::new();
    assert_eq!(db.get("k", &mut value), ResponseStatus::StatusOk);
    assert_eq!(value, "v");
}

#[test]
fn an_oversized_frame_behind_a_good_one_ends_the_connection_after_the_reply() {
    let mut db = Database::new();
    let mut conn = Connection::on_accept();
    let mut bytes = request(&["get", "k"]);
    bytes.extend_from_slice(&4097u32.to_le_bytes());
    conn.state_req(&mut db, IoEvent::Data(bytes));
    assert_eq!(conn.state(), ConnectionState::StateRes);
    assert_eq!(replies(&flush(&mut conn)), vec![(ResponseStatus::StatusNx, vec![])]);
    assert_eq!(conn.next_action(), Action::Serve);
    conn.serve_waiting(&mut db);
    assert_eq!(conn.end_cause(), Some(EndCause::MessageTooLong));
    assert_eq!(conn.next_action(), Action::Drop);
}

#[test]
fn every_end_has_its_cause() {
    let mut db = Database::new();
    let fresh = Connection::on_accept();
    assert_eq!(fresh.end_cause(), None);

    let mut conn = Connection::on_accept();
    conn.state_req(&mut db, IoEvent::Eof);
    assert_eq!(conn.end_cause(), Some(EndCause::Eof));
    let mut conn = Connection::on_accept();
    conn.state_req(&mut db, IoEvent::Data(vec![]));
    assert_eq!(conn.end_cause(), Some(EndCause::Eof));

    let mut conn = Connection::on_accept();
    conn.state_req(&mut db, IoEvent::Data(vec![1]));
    conn.state_req(&mut db, IoEvent::Eof);
    assert_eq!(conn.end_cause(), Some(EndCause::UnexpectedEof));
    let mut conn = Connection::on_accept();
    conn.state_req(&mut db, IoEvent::Data(vec![1]));
    conn.state_req(&mut db, IoEvent::Data(vec![]));
    assert_eq!(conn.end_cause(), Some(EndCause::UnexpectedEof));

    let mut conn = Connection::on_accept();
    conn.state_req(&mut db, IoEvent::Failed);
    assert_eq!(conn.end_cause(), Some(EndCause::ReadError));
    let mut conn = Connection::on_accept();
    conn.state_req(&mut db, IoEvent::Data(vec![0u8; BUF_SIZE + 1]));
    assert_eq!(conn.end_cause(), Some(EndCause::ReadError));

    let mut conn = Connection::on_accept();
    conn.state_req(&mut db, IoEvent::Data(request(&["get", "k"])));
    assert_eq!(conn.end_cause(), None);
    conn.state_res(IoEvent::Failed);
    assert_eq!(conn.end_cause(), Some(EndCause::WriteError));
    let mut conn = Connection::on_accept();
    conn.state_req(&mut db, IoEvent::Data(request(&["get", "k"])));
    conn.state_res(IoEvent::Sent(9));
    assert_eq!(conn.end_cause(), Some(EndCause::WriteError));

    let mut conn = Connection::on_accept();
    conn.state_req(&mut db, IoEvent::Data(4097u32.to_le_bytes().to_vec()));
    assert_eq!(conn.end_cause(), Some(EndCause::MessageTooLong));

    for bad in [&["ping"][..], &["get"][..], &[][..], &["set", "k"][..]] {
        let mut conn = Connection::on_accept();
        conn.state_req(&mut db, IoEvent::Data(request(bad)));
        assert_eq!(conn.end_cause(), Some(EndCause::BadRequest));
    }
    let mut conn = Connection::on_accept();
    db.set("huge".to_string(), "y".repeat(MAX_MSG - 3));
    conn.state_req(&mut db, IoEvent::Data(request(&["get", "huge"])));
    assert_eq!(conn.end_cause(), Some(EndCause::BadRequest));

    conn.advance(&mut db, IoEvent::Failed);
    assert_eq!(conn.end_cause(), Some(EndCause::BadRequest));
}

#[test]
fn the_next_action_follows_the_state_and_the_last_event() {
    let mut db = Database::new();
    let mut conn = Connection::on_accept();
    assert_eq!(conn.next_action(), Action::Read { room: BUF_SIZE });
    assert_eq!(conn.advance(&mut db, IoEvent::WouldBlock), Action::Wait);
    assert_eq!(conn.advance(&mut db, IoEvent::Data(vec![9, 0])), Action::Read { room: BUF_SIZE - 2 });
    assert_eq!(conn.advance(&mut db, IoEvent::Sent(1)), Action::Read { room: BUF_SIZE - 2 });

    let mut conn = Connection::on_accept();
    db.set("k".to_string(), "abc".to_string());
    assert_eq!(conn.advance(&mut db, IoEvent::Data(request(&["get", "k"]))), Action::Write);
    assert_eq!(conn.next_action(), Action::Write);
    assert_eq!(conn.advance(&mut db, IoEvent::Sent(0)), Action::Write);
    assert_eq!(conn.advance(&mut db, IoEvent::Sent(3)), Action::Write);
    assert_eq!(conn.advance(&mut db, IoEvent::WouldBlock), Action::Wait);
    assert_eq!(conn.next_action(), Action::Write);
    assert_eq!(conn.advance(&mut db, IoEvent::Sent(8)), Action::Read { room: BUF_SIZE });
    assert_eq!(conn.advance(&mut db, IoEvent::Eof), Action::Drop);
    assert_eq!(conn.advance(&mut db, IoEvent::WouldBlock), Action::Drop);
    assert_eq!(conn.next_action(), Action::Drop);

    let mut conn = Connection::on_accept();
    db.set("k".to_string(), "x".repeat(100));
    let get = request(&["get", "k"]);
    let mut bytes = Vec::new();
    while bytes.len() + get.len() <= BUF_SIZE {
        bytes.extend_from_slice(&get);
    }
    let count = bytes.len() / get.len();
    let batch = BUF_SIZE / 108;
    assert_eq!((count, batch), (205, 37));
    assert_eq!(conn.advance(&mut db, IoEvent::Data(bytes)), Action::Write);
    assert_eq!(conn.write_len(), batch * 108);
    assert_eq!(conn.read_len(), (count - batch) * get.len());
    assert_eq!(conn.advance(&mut db, IoEvent::Sent(batch * 108)), Action::Serve);
    assert_eq!(conn.read_len(), (count - batch) * get.len());
    conn.serve_waiting(&mut db);
    assert_eq!(conn.next_action(), Action::Write);
    assert_eq!(conn.write_len(), batch * 108);
    assert_eq!(conn.read_len(), (count - 2 * batch) * get.len());
}

#[test]
fn many_small_requests_share_one_read() {
    let mut db = Database::new();
    let mut conn = Connection::on_accept();
    let one = request(&["del", "k"]);
    let count = BUF_SIZE / one.len();
    let mut bytes = Vec::new();
    for _ in 0..count {
        bytes.extend_from_slice(&one);
    }
    conn.state_req(&mut db, IoEvent::Data(bytes));
    assert_eq!(conn.write_len(), 8 * count);
    let got = replies(&flush(&mut conn));
    assert_eq!(got.len(), count);
    assert!(got.iter().all(|r| *r == (ResponseStatus::StatusOk, vec![])));
}
