//! From a list of arguments to a store operation and its reply.

use crate::database::Database;
use crate::request::{append_bytes, parse_spec, texts};
use crate::ResponseStatus;
use vstd::prelude::*;
use vstd::string::StringSliceAdditionalSpecFns;
use vstd::utf8::{encode_utf8, encode_utf8_decode_utf8};

verus! {

/// A reply before it is framed: a status and the bytes that go with it.
pub struct Response {
    /// How the command ended.
    pub status: ResponseStatus,
    /// The value that was asked for, or nothing.
    pub payload: Vec<u8>,
}

/// What a `Response` stands for.
pub struct Reply {
    /// How the command ended.
    pub status: ResponseStatus,
    /// The value that was asked for, or nothing.
    pub payload: Seq<u8>,
}

impl View for Response {
    type V = Reply;

    open spec fn view(&self) -> Reply {
        Reply { status: self.status, payload: self.payload@ }
    }
}

/// The name of the command that looks a key up.
pub open spec fn word_get() -> Seq<char> {
    seq!['g', 'e', 't']
}

/// The name of the command that stores a value.
pub open spec fn word_set() -> Seq<char> {
    seq!['s', 'e', 't']
}

/// The name of the command that removes a key.
pub open spec fn word_del() -> Seq<char> {
    seq!['d', 'e', 'l']
}

/// A reply that carries a status and nothing else.
pub open spec fn bare(status: ResponseStatus) -> Reply {
    Reply { status, payload: Seq::<u8>::empty() }
}

/// Whether the arguments are a well-formed lookup.
pub open spec fn is_lookup(args: Seq<Seq<char>>) -> bool {
    args.len() == 2 && args[0] == word_get()
}

/// The reply to a command and the store after it. Commands are matched by
/// their exact name and their exact number of arguments; everything else,
/// the empty list included, is answered with `StatusErr` and changes nothing.
pub open spec fn dispatch_spec(db: Map<Seq<char>, Seq<char>>, args: Seq<Seq<char>>) -> (
    Reply,
    Map<Seq<char>, Seq<char>>,
) {
    if is_lookup(args) {
        if db.contains_key(args[1]) {
            (Reply { status: ResponseStatus::StatusOk, payload: encode_utf8(db[args[1]]) }, db)
        } else {
            (bare(ResponseStatus::StatusNx), db)
        }
    } else if args.len() == 3 && args[0] == word_set() {
        (bare(ResponseStatus::StatusOk), db.insert(args[1], args[2]))
    } else if args.len() == 2 && args[0] == word_del() {
        (bare(ResponseStatus::StatusOk), db.remove(args[1]))
    } else {
        (bare(ResponseStatus::StatusErr), db)
    }
}

/// The reply to a request body and the store after it: a body that does not
/// parse is answered like an unknown command.
pub open spec fn request_outcome(db: Map<Seq<char>, Seq<char>>, body: Seq<u8>) -> (
    Reply,
    Map<Seq<char>, Seq<char>>,
) {
    match parse_spec(body) {
        None => (bare(ResponseStatus::StatusErr), db),
        Some(args) => dispatch_spec(db, args),
    }
}

/// Whether two byte strings are the same.
pub fn bytes_equal(x: &[u8], y: &[u8]) -> (same: bool)
    ensures
        same == (x@ == y@),
{
    if x.len() != y.len() {
        return false;
    }
    let mut i: usize = 0;
    while i < x.len()
        invariant
            i <= x.len(),
            x.len() == y.len(),
            x@.take(i as int) == y@.take(i as int),
        decreases x.len() - i,
    {
        if x[i] != y[i] {
            return false;
        }
        i = i + 1;
        assert(x@.take(i as int) =~= x@.take(i - 1).push(x@[i - 1]));
        assert(y@.take(i as int) =~= y@.take(i - 1).push(y@[i - 1]));
    }
    assert(x@ =~= x@.take(i as int));
    assert(y@ =~= y@.take(i as int));
    true
}

/// Whether two texts are the same, character for character.
pub fn same_text(a: &str, b: &str) -> (same: bool)
    ensures
        same == (a@ == b@),
{
    proof {
        encode_utf8_decode_utf8(a@);
        encode_utf8_decode_utf8(b@);
    }
    bytes_equal(a.as_bytes(), b.as_bytes())
}

/// Carries out the command that `args` holds and says how it went.
///
/// `get key` answers with the value's bytes, or with `StatusNx` where the key
/// is absent; `set key value` stores, overwriting; `del key` removes, and
/// does not mind an absent key. Anything else, the empty list included, is
/// answered with `StatusErr` and leaves the store as it was.
pub fn dispatch(db: &mut Database, args: &Vec<String>) -> (r: Response)
    ensures
        r@ == dispatch_spec(old(db)@, texts(args@)).0,
        final(db)@ == dispatch_spec(old(db)@, texts(args@)).1,
{
    proof {
        reveal_strlit("get");
        reveal_strlit("set");
        reveal_strlit("del");
        assert("get"@ =~= word_get());
        assert("set"@ =~= word_set());
        assert("del"@ =~= word_del());
    }
    let ghost list = texts(args@);
    let mut payload: Vec<u8> = Vec::new();
    let n = args.len();
    if n == 0 {
        return Response { status: ResponseStatus::StatusErr, payload };
    }
    assert(list[0] == args@[0]@);
    let name = args[0].as_str();
    if n == 2 && same_text(name, "get") {
        assert(list[1] == args@[1]@);
        let mut value = String::new();
        let status = db.get(args[1].as_str(), &mut value);
        if status == ResponseStatus::StatusOk {
            assert(value@ =~= db@[list[1]]);
            append_bytes(&mut payload, value.as_str().as_bytes());
            assert(payload@ =~= encode_utf8(db@[list[1]]));
        }
        Response { status, payload }
    } else if n == 3 && same_text(name, "set") {
        assert(list[1] == args@[1]@);
        assert(list[2] == args@[2]@);
        let status = db.set(args[1].clone(), args[2].clone());
        Response { status, payload }
    } else if n == 2 && same_text(name, "del") {
        assert(list[1] == args@[1]@);
        let status = db.del(args[1].as_str());
        Response { status, payload }
    } else {
        Response { status: ResponseStatus::StatusErr, payload }
    }
}

/// Removing a key is answered with `StatusOk` and no payload whether or
/// not the key is there, and a second removal is answered the same and
/// leaves the store as the first one left it.
pub proof fn lemma_delete_twice(db: Map<Seq<char>, Seq<char>>, key: Seq<char>)
    ensures
        dispatch_spec(db, seq![word_del(), key]).0 == bare(ResponseStatus::StatusOk),
        !db.contains_key(key) ==> dispatch_spec(db, seq![word_del(), key]).1 == db,
        dispatch_spec(dispatch_spec(db, seq![word_del(), key]).1, seq![word_del(), key])
            == dispatch_spec(db, seq![word_del(), key]),
{
    let args = seq![word_del(), key];
    assert(word_del()[0] != word_get()[0]);
    assert(args[0] == word_del() && args[1] == key);
    if !db.contains_key(key) {
        assert(db.remove(key) =~= db);
    }
    assert(db.remove(key).remove(key) =~= db.remove(key));
}

/// Only a lookup that finds its key is answered with a payload, and a
/// lookup never changes the store.
pub proof fn lemma_payload_means_lookup(db: Map<Seq<char>, Seq<char>>, body: Seq<u8>)
    ensures
        request_outcome(db, body).0.payload.len() > 0 ==> request_outcome(db, body).1 == db,
        request_outcome(db, body).0.status == ResponseStatus::StatusErr ==> request_outcome(
            db,
            body,
        ).1 == db,
{
}

} // verus!
