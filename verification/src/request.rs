//! The body of a request: a count of arguments, then each argument as a
//! length and that many bytes of text.

use crate::wire::{le_bytes, le_u32, lemma_le_round_trip, push_u32_le, read_u32_le};
use vstd::prelude::*;
use vstd::slice::slice_subrange;
use vstd::string::StringSliceAdditionalSpecFns;
use vstd::utf8::{
    decode_utf8, encode_utf8, encode_utf8_decode_utf8, encode_utf8_valid_utf8, valid_utf8,
};

verus! {

/// Why a request body could not be decoded.
#[derive(Clone, Copy, Debug, PartialEq, Eq, Structural)]
pub enum ParseError {
    /// A declared length runs past the end of the body, the body is too
    /// short to hold the argument count, or bytes are left over after the
    /// last argument.
    Truncated,
}

/// What `String::from_utf8_lossy` makes of a byte sequence.
pub uninterp spec fn lossy_text(bytes: Seq<u8>) -> Seq<char>;

/// The text that an argument's bytes stand for: the decoded characters
/// where the bytes are valid UTF-8, and the lossy rendering otherwise.
pub open spec fn text_of(bytes: Seq<u8>) -> Seq<char> {
    if valid_utf8(bytes) {
        decode_utf8(bytes)
    } else {
        lossy_text(bytes)
    }
}

/// The views of a list of strings.
pub open spec fn texts(v: Seq<String>) -> Seq<Seq<char>> {
    v.map_values(|s: String| s@)
}

/// Calls `String::from_utf8_lossy`. The result is named by `lossy_text`;
/// on valid UTF-8 the standard library hands the text back unchanged, so the
/// result is then the decoding of the bytes.
#[verifier::external_body]
fn decode_lossy(bytes: &[u8]) -> (s: String)
    ensures
        s@ == lossy_text(bytes@),
        valid_utf8(bytes@) ==> s@ == decode_utf8(bytes@),
{
    String::from_utf8_lossy(bytes).into_owned()
}

/// Parses exactly `k` arguments out of `rest`, which must hold nothing else.
pub open spec fn parse_items(rest: Seq<u8>, k: nat) -> Option<Seq<Seq<char>>>
    decreases k,
{
    if k == 0 {
        if rest.len() == 0 {
            Some(Seq::<Seq<char>>::empty())
        } else {
            None
        }
    } else if rest.len() < 4 {
        None
    } else {
        let n = le_u32(rest) as int;
        if 4 + n > rest.len() {
            None
        } else {
            match parse_items(rest.skip(4 + n), (k - 1) as nat) {
                None => None,
                Some(tail) => Some(seq![text_of(rest.subrange(4, 4 + n))] + tail),
            }
        }
    }
}

/// The arguments that a request body holds, or `None` where it is malformed.
pub open spec fn parse_spec(body: Seq<u8>) -> Option<Seq<Seq<char>>> {
    if body.len() < 4 {
        None
    } else {
        parse_items(body.skip(4), le_u32(body))
    }
}

/// One argument on the wire: its byte length, then its UTF-8 bytes.
pub open spec fn arg_bytes(arg: Seq<char>) -> Seq<u8> {
    le_bytes(encode_utf8(arg).len()) + encode_utf8(arg)
}

/// The arguments on the wire, one after the other.
pub open spec fn args_bytes(args: Seq<Seq<char>>) -> Seq<u8>
    decreases args.len(),
{
    if args.len() == 0 {
        Seq::<u8>::empty()
    } else {
        arg_bytes(args[0]) + args_bytes(args.skip(1))
    }
}

/// A request body: the argument count, then the arguments.
pub open spec fn encode_args_spec(args: Seq<Seq<char>>) -> Seq<u8> {
    le_bytes(args.len()) + args_bytes(args)
}

/// Whether the count and every argument's byte length fit a 32-bit field.
pub open spec fn encodable(args: Seq<Seq<char>>) -> bool {
    &&& args.len() <= u32::MAX
    &&& forall|i: int| 0 <= i < args.len() ==> (#[trigger] encode_utf8(args[i])).len() <= u32::MAX
}

/// Parsing `k` arguments is parsing one and then `k - 1` out of what
/// follows it.
proof fn lemma_parse_step(rest: Seq<u8>, k: nat)
    requires
        k > 0,
        rest.len() >= 4,
        4 + le_u32(rest) <= rest.len(),
    ensures
        parse_items(rest, k) == match parse_items(
            rest.skip(4 + le_u32(rest) as int),
            (k - 1) as nat,
        ) {
            None => None,
            Some(tail) => Some(seq![text_of(rest.subrange(4, 4 + le_u32(rest) as int))] + tail),
        },
{
}

/// Decodes a request body into its arguments.
///
/// The body starts with the number of arguments. Each argument is a length
/// followed by that many bytes, read as text; byte sequences that are not
/// valid UTF-8 are replaced, never refused. The body is refused where a
/// length runs past its end or where bytes remain after the last argument.
pub fn parse_args(body: &[u8]) -> (r: Result<Vec<String>, ParseError>)
    ensures
        match r {
            Ok(args) => parse_spec(body@) == Some(texts(args@)),
            Err(e) => e == ParseError::Truncated && parse_spec(body@) is None,
        },
{
    let len = body.len();
    if len < 4 {
        return Err(ParseError::Truncated);
    }
    let count: u32 = read_u32_le(body, 0);
    assert(body@.skip(0) =~= body@);
    let mut left: u32 = count;
    let mut pos: usize = 4;
    let mut args: Vec<String> = Vec::new();
    assert(texts(args@) =~= Seq::<Seq<char>>::empty());
    while left > 0
        invariant
            len == body.len(),
            4 <= pos <= len,
            parse_spec(body@) == match parse_items(body@.skip(pos as int), left as nat) {
                None => None,
                Some(tail) => Some(texts(args@) + tail),
            },
        decreases left,
    {
        let ghost rest = body@.skip(pos as int);
        if len - pos < 4 {
            return Err(ParseError::Truncated);
        }
        let n: usize = read_u32_le(body, pos) as usize;
        if n > len - pos - 4 {
            return Err(ParseError::Truncated);
        }
        let piece = slice_subrange(body, pos + 4, pos + 4 + n);
        let arg = decode_lossy(piece);
        proof {
            lemma_parse_step(rest, left as nat);
            assert(rest.subrange(4, 4 + n) =~= piece@);
            assert(arg@ == text_of(piece@));
            assert(rest.skip(4 + n) =~= body@.skip(pos + 4 + n));
            let ghost before = texts(args@);
            assert(texts(args@.push(arg)) =~= before + seq![arg@]);
            assert forall|tail: Seq<Seq<char>>|
                before + (seq![arg@] + tail) == (before + seq![arg@]) + tail by {
                assert(before + (seq![arg@] + tail) =~= (before + seq![arg@]) + tail);
            }
        }
        args.push(arg);
        pos = pos + 4 + n;
        left = left - 1;
    }
    if pos != len {
        return Err(ParseError::Truncated);
    }
    proof {
        assert(body@.skip(pos as int).len() == 0);
        assert(texts(args@) + Seq::<Seq<char>>::empty() =~= texts(args@));
    }
    Ok(args)
}

/// Appends a copy of `src` to `out`.
pub fn append_bytes(out: &mut Vec<u8>, src: &[u8])
    ensures
        final(out)@ == old(out)@ + src@,
{
    let mut i: usize = 0;
    while i < src.len()
        invariant
            i <= src.len(),
            out@ == old(out)@ + src@.take(i as int),
        decreases src.len() - i,
    {
        out.push(src[i]);
        i = i + 1;
        assert(out@ =~= old(out)@ + src@.take(i as int));
    }
    assert(src@.take(src.len() as int) =~= src@);
}

/// Encodes a list of arguments as a request body.
pub fn encode_args(args: &Vec<String>) -> (body: Vec<u8>)
    requires
        encodable(texts(args@)),
    ensures
        body@ == encode_args_spec(texts(args@)),
{
    let mut body: Vec<u8> = Vec::new();
    push_u32_le(&mut body, args.len() as u32);
    let ghost all = texts(args@);
    let mut i: usize = 0;
    assert(all.skip(0) =~= all);
    while i < args.len()
        invariant
            i <= args.len(),
            all == texts(args@),
            encodable(all),
            body@ + args_bytes(all.skip(i as int)) == encode_args_spec(all),
        decreases args.len() - i,
    {
        let bytes = args[i].as_str().as_bytes();
        proof {
            let ghost tail = all.skip(i as int);
            assert(tail[0] == args@[i as int]@);
            assert(bytes@ == encode_utf8(all[i as int]));
            assert(tail.skip(1) =~= all.skip(i + 1));
            assert(body@ + (arg_bytes(tail[0]) + args_bytes(tail.skip(1))) =~= (body@ + le_bytes(
                bytes@.len(),
            )) + bytes@ + args_bytes(all.skip(i + 1)));
        }
        push_u32_le(&mut body, bytes.len() as u32);
        append_bytes(&mut body, bytes);
        i = i + 1;
    }
    assert(body@ + Seq::<u8>::empty() =~= body@);
    body
}

/// Every argument takes at least its own bytes and a length field, so a
/// body is longer than any of its arguments and than four times their
/// number.
pub proof fn lemma_body_len(args: Seq<Seq<char>>, i: int)
    ensures
        args_bytes(args).len() >= 4 * args.len(),
        0 <= i < args.len() ==> args_bytes(args).len() >= 4 + encode_utf8(args[i]).len(),
    decreases args.len(),
{
    if args.len() > 0 {
        lemma_body_len(args.skip(1), i - 1);
        if 0 < i < args.len() {
            assert(args.skip(1)[i - 1] == args[i]);
        }
    }
}

/// A body that `encode_args` wrote parses back into the same arguments.
pub proof fn lemma_parse_encode_round_trip(args: Seq<Seq<char>>)
    requires
        encodable(args),
    ensures
        parse_spec(encode_args_spec(args)) == Some(args),
{
    let body = encode_args_spec(args);
    lemma_le_round_trip(args.len());
    lemma_parse_items_of_encoding(args);
    assert(body.skip(4) =~= args_bytes(args));
    assert(le_u32(body) == le_u32(le_bytes(args.len()))) by {
        let head = le_bytes(args.len());
        assert(body[0] == head[0] && body[1] == head[1] && body[2] == head[2] && body[3]
            == head[3]);
    }
}

/// The encoding of `args` parses as exactly `args`.
proof fn lemma_parse_items_of_encoding(args: Seq<Seq<char>>)
    requires
        encodable(args),
    ensures
        parse_items(args_bytes(args), args.len()) == Some(args),
    decreases args.len(),
{
    if args.len() == 0 {
        assert(args =~= Seq::<Seq<char>>::empty());
    } else {
        let first = encode_utf8(args[0]);
        let n = first.len() as int;
        let head = le_bytes(first.len());
        let rest = args.skip(1);
        let all = args_bytes(args);
        lemma_le_round_trip(first.len());
        assert(encodable(rest)) by {
            assert forall|i: int| 0 <= i < rest.len() implies (#[trigger] encode_utf8(
                rest[i],
            )).len() <= u32::MAX by {
                assert(rest[i] == args[i + 1]);
            }
        }
        lemma_parse_items_of_encoding(rest);
        assert(all == head + first + args_bytes(rest));
        assert(le_u32(all) == n) by {
            assert(all[0] == head[0] && all[1] == head[1] && all[2] == head[2] && all[3]
                == head[3]);
        }
        assert(all.subrange(4, 4 + n) =~= first);
        assert(all.skip(4 + n) =~= args_bytes(rest));
        encode_utf8_valid_utf8(args[0]);
        encode_utf8_decode_utf8(args[0]);
        assert(text_of(first) == args[0]);
        assert(seq![args[0]] + rest =~= args);
    }
}

} // verus!
