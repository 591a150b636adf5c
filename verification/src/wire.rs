//! The concrete frame format of the command handshake.
//!
//! The secure channel signs and encrypts plain bytes, so both sides must
//! agree on one byte layout and produce it reproducibly.  A request frame is
//! the IDLE tag followed by the declared capability tokens, each as an
//! 8-byte big-endian length and the token's UTF-8 bytes, in the set's
//! sorted order — so equal capability sets always serialize to equal bytes
//! and signatures over them are comparable.  A response frame is the
//! COMMAND tag alone.  Decoding rejects, rather than panics on, every
//! malformed input: a wrong tag, a truncated length, a length that overruns
//! the frame, or token bytes that are not valid UTF-8.

use vstd::prelude::*;
use crate::cap::CapSet;
use crate::cap::tokens_contain;
use crate::message::Request;
use crate::message::Response;

verus! {

/// First byte of an encoded `Request::IDLE`.
pub const REQUEST_IDLE_TAG: u8 = 1;

/// First byte of an encoded `Response::COMMAND`.
pub const RESPONSE_COMMAND_TAG: u8 = 2;

/// The 8-byte big-endian encoding of a length.
pub open spec fn be64(n: u64) -> Seq<u8> {
    seq![
        ((n >> 56) & 0xff) as u8,
        ((n >> 48) & 0xff) as u8,
        ((n >> 40) & 0xff) as u8,
        ((n >> 32) & 0xff) as u8,
        ((n >> 24) & 0xff) as u8,
        ((n >> 16) & 0xff) as u8,
        ((n >> 8) & 0xff) as u8,
        (n & 0xff) as u8,
    ]
}

/// The length an 8-byte big-endian field denotes.
pub open spec fn be64_val(b: Seq<u8>) -> u64
    recommends
        b.len() == 8,
{
    ((b[0] as u64) << 56) | ((b[1] as u64) << 48) | ((b[2] as u64) << 40) | ((b[3] as u64) << 32)
        | ((b[4] as u64) << 24) | ((b[5] as u64) << 16) | ((b[6] as u64) << 8) | (b[7] as u64)
}

pub proof fn lemma_be64_roundtrip(n: u64)
    ensures
        be64(n).len() == 8,
        be64_val(be64(n)) == n,
{
    assert(((((((n >> 56) & 0xff) as u8) as u64) << 56) | (((((n >> 48) & 0xff) as u8) as u64)
        << 48) | (((((n >> 40) & 0xff) as u8) as u64) << 40) | (((((n >> 32) & 0xff) as u8) as u64)
        << 32) | (((((n >> 24) & 0xff) as u8) as u64) << 24) | (((((n >> 16) & 0xff) as u8) as u64)
        << 16) | (((((n >> 8) & 0xff) as u8) as u64) << 8) | (((n & 0xff) as u8) as u64)) == n)
        by (bit_vector);
}

/// Append the 8-byte big-endian encoding of `n`.
fn push_be64(out: &mut Vec<u8>, n: u64)
    ensures
        final(out)@ == old(out)@ + be64(n),
{
    proof {
        assert(((n >> 56) & 0xff) < 256 && ((n >> 48) & 0xff) < 256 && ((n >> 40) & 0xff) < 256 && (
        (n >> 32) & 0xff) < 256 && ((n >> 24) & 0xff) < 256 && ((n >> 16) & 0xff) < 256 && ((n >> 8)
            & 0xff) < 256 && (n & 0xff) < 256) by (bit_vector);
    }
    out.push(((n >> 56) & 0xff) as u8);
    out.push(((n >> 48) & 0xff) as u8);
    out.push(((n >> 40) & 0xff) as u8);
    out.push(((n >> 32) & 0xff) as u8);
    out.push(((n >> 24) & 0xff) as u8);
    out.push(((n >> 16) & 0xff) as u8);
    out.push(((n >> 8) & 0xff) as u8);
    out.push((n & 0xff) as u8);
    proof {
        assert(out@ =~= old(out)@ + be64(n));
    }
}

/// The frame body that carries the token encodings `ts` in order.
pub open spec fn encode_tokens(ts: Seq<Seq<u8>>) -> Seq<u8>
    decreases ts.len(),
{
    if ts.len() == 0 {
        Seq::empty()
    } else {
        be64(ts[0].len() as u64) + ts[0] + encode_tokens(ts.drop_first())
    }
}

proof fn lemma_encode_tokens_snoc(ts: Seq<Seq<u8>>, t: Seq<u8>)
    ensures
        encode_tokens(ts.push(t)) == encode_tokens(ts) + be64(t.len() as u64) + t,
    decreases ts.len(),
{
    if ts.len() == 0 {
        assert(ts.push(t)[0] == t);
        assert(ts.push(t).drop_first() =~= Seq::<Seq<u8>>::empty());
        assert(encode_tokens(Seq::<Seq<u8>>::empty()) =~= Seq::<u8>::empty());
        assert(encode_tokens(ts.push(t)) =~= encode_tokens(ts) + be64(t.len() as u64) + t);
    } else {
        assert(ts.push(t).drop_first() =~= ts.drop_first().push(t));
        assert(ts.push(t)[0] == ts[0]);
        lemma_encode_tokens_snoc(ts.drop_first(), t);
        assert(encode_tokens(ts.push(t)) =~= encode_tokens(ts) + be64(t.len() as u64) + t);
    }
}

/// The full byte frame of `Request::IDLE` for the capability set `cs`.
pub open spec fn request_bytes(cs: CapSet) -> Seq<u8> {
    seq![REQUEST_IDLE_TAG] + encode_tokens(cs@)
}

/// Serialize a request: the IDLE tag, then each token of the (sorted,
/// deduplicated) capability set as a length-prefixed byte string.
pub fn encode_request(req: &Request) -> (out: Vec<u8>)
    ensures
        (req matches Request::IDLE(cs) ==> out@ == request_bytes(*cs)),
{
    match req {
        Request::IDLE(cs) => {
            let mut out: Vec<u8> = Vec::new();
            out.push(REQUEST_IDLE_TAG);
            proof {
                assert(cs@.take(0) =~= Seq::<Seq<u8>>::empty());
                assert(out@ =~= seq![REQUEST_IDLE_TAG] + encode_tokens(cs@.take(0)));
            }
            let n = cs.len();
            let mut i: usize = 0;
            while i < n
                invariant
                    n == cs@.len(),
                    0 <= i <= n,
                    out@ == seq![REQUEST_IDLE_TAG] + encode_tokens(cs@.take(i as int)),
                decreases n - i,
            {
                let tb = cs.token(i).bytes();
                let m = tb.len();
                push_be64(&mut out, m as u64);
                let ghost mid = out@;
                let mut j: usize = 0;
                while j < m
                    invariant
                        m == tb@.len(),
                        0 <= j <= m,
                        out@ == mid + tb@.take(j as int),
                    decreases m - j,
                {
                    out.push(tb[j]);
                    proof {
                        assert(out@ =~= mid + tb@.take(j as int + 1));
                    }
                    j += 1;
                }
                proof {
                    assert(tb@.take(m as int) =~= tb@);
                    lemma_encode_tokens_snoc(cs@.take(i as int), cs@[i as int]);
                    assert(cs@.take(i as int).push(cs@[i as int]) =~= cs@.take(i as int + 1));
                    assert(out@ =~= seq![REQUEST_IDLE_TAG] + encode_tokens(cs@.take(i as int + 1)));
                }
                i += 1;
            }
            proof {
                assert(cs@.take(n as int) =~= cs@);
            }
            out
        },
    }
}

/// Structural parse of a frame body: a run of length-prefixed byte strings
/// covering the input exactly, or nothing when a length field is truncated
/// or overruns the input.
pub open spec fn parse_tokens(b: Seq<u8>) -> Option<Seq<Seq<u8>>>
    decreases b.len(),
{
    if b.len() == 0 {
        Some(Seq::empty())
    } else if b.len() < 8 {
        None
    } else if be64_val(b.take(8)) as int > b.len() - 8 {
        None
    } else {
        match parse_tokens(b.skip(8 + be64_val(b.take(8)) as int)) {
            Some(rest) => Some(
                seq![b.subrange(8, 8 + be64_val(b.take(8)) as int)] + rest,
            ),
            None => None,
        }
    }
}

/// The tokens a frame body parses to (empty when it does not parse).
pub open spec fn parsed_tokens(b: Seq<u8>) -> Seq<Seq<u8>> {
    match parse_tokens(b) {
        Some(ts) => ts,
        None => Seq::empty(),
    }
}

/// Parsing inverts encoding: a frame built from tokens whose lengths fit
/// the 8-byte length field parses back to exactly those tokens.
pub proof fn lemma_parse_encode_tokens(ts: Seq<Seq<u8>>)
    requires
        forall|i: int| 0 <= i < ts.len() ==> (#[trigger] ts[i]).len() < 0x10000000000000000,
    ensures
        parse_tokens(encode_tokens(ts)) == Some(ts),
    decreases ts.len(),
{
    if ts.len() == 0 {
        assert(encode_tokens(ts) =~= Seq::<u8>::empty());
        assert(Seq::<Seq<u8>>::empty() =~= ts);
    } else {
        let t0 = ts[0];
        let rest = ts.drop_first();
        let n: u64 = t0.len() as u64;
        let b = encode_tokens(ts);
        lemma_be64_roundtrip(n);
        assert(b == be64(n) + t0 + encode_tokens(rest));
        assert(b.len() == 8 + t0.len() + encode_tokens(rest).len());
        assert(b.take(8) =~= be64(n));
        assert(be64_val(b.take(8)) == n);
        assert(n as int == t0.len());
        assert(b.subrange(8, 8 + n as int) =~= t0);
        assert(b.skip(8 + n as int) =~= encode_tokens(rest));
        assert forall|i: int| 0 <= i < rest.len() implies (#[trigger] rest[i]).len()
            < 0x10000000000000000 by {
            assert(rest[i] == ts[i + 1]);
        }
        lemma_parse_encode_tokens(rest);
        assert(parse_tokens(b) == Some(seq![t0] + rest));
        assert(seq![t0] + rest =~= ts);
    }
}

/// Relies on str::from_utf8: it returns Ok exactly when the bytes are valid
/// UTF-8, and the resulting string's byte content is the input itself.
#[verifier::external_body]
fn bytes_to_string(b: &[u8]) -> (r: Option<String>)
    ensures
        r is Some <==> vstd::utf8::valid_utf8(b@),
        (r matches Some(s) ==> vstd::utf8::encode_utf8(s@) == b@),
{
    match core::str::from_utf8(b) {
        Ok(s) => Some(s.to_string()),
        Err(_) => None,
    }
}

/// Parse the frame body starting at `off` into its token strings; fails
/// exactly when the structure is malformed or some token is not UTF-8.
fn decode_tokens(b: &[u8], off: usize) -> (r: Option<Vec<String>>)
    requires
        off <= b@.len(),
    ensures
        r is Some <==> (parse_tokens(b@.skip(off as int)) is Some && (forall|i: int|
            0 <= i < parsed_tokens(b@.skip(off as int)).len() ==> vstd::utf8::valid_utf8(
                #[trigger] parsed_tokens(b@.skip(off as int))[i],
            ))),
        (r matches Some(v) ==> v@.len() == parsed_tokens(b@.skip(off as int)).len() && (forall|
            i: int,
        |
            0 <= i < v@.len() ==> vstd::utf8::encode_utf8((#[trigger] v@[i])@) == parsed_tokens(
                b@.skip(off as int),
            )[i])),
    decreases b@.len() - off,
{
    let ghost tail = b@.skip(off as int);
    if off == b.len() {
        proof {
            assert(tail.len() == 0);
        }
        return Some(Vec::new());
    }
    if b.len() - off < 8 {
        proof {
            assert(0 < tail.len() < 8);
        }
        return None;
    }
    let len64 = read_be64(b, off);
    proof {
        assert(tail.take(8) =~= b@.subrange(off as int, off as int + 8));
    }
    let rem = b.len() - off - 8;
    if len64 > rem as u64 {
        proof {
            assert(be64_val(tail.take(8)) as int > tail.len() - 8);
        }
        return None;
    }
    let len = len64 as usize;
    let ghost tokv = tail.subrange(8, 8 + len64 as int);
    let ghost tail2 = b@.skip(off as int + 8 + len as int);
    proof {
        assert(tail.skip(8 + be64_val(tail.take(8)) as int) =~= tail2);
        assert(tokv =~= b@.subrange(off as int + 8, off as int + 8 + len as int));
    }
    let tok = vstd::slice::slice_subrange(b, off + 8, off + 8 + len);
    let parsed = bytes_to_string(tok);
    match parsed {
        None => {
            proof {
                if parse_tokens(tail) is Some {
                    assert(parsed_tokens(tail)[0] == tokv);
                }
            }
            None
        },
        Some(s) => {
            let rest = decode_tokens(b, off + 8 + len);
            match rest {
                None => {
                    proof {
                        if parse_tokens(tail) is Some {
                            assert(parse_tokens(tail2) is Some);
                            let ts = parsed_tokens(tail);
                            let rts = parsed_tokens(tail2);
                            assert(ts == seq![tokv] + rts);
                            if forall|i: int|
                                0 <= i < ts.len() ==> vstd::utf8::valid_utf8(#[trigger] ts[i]) {
                                assert forall|i: int|
                                    0 <= i < rts.len() implies vstd::utf8::valid_utf8(
                                    #[trigger] rts[i],
                                ) by {
                                    assert(rts[i] == ts[i + 1]);
                                }
                            }
                        }
                    }
                    None
                },
                Some(mut v2) => {
                    let ghost v2v = v2@;
                    let mut v: Vec<String> = Vec::new();
                    v.push(s);
                    v.append(&mut v2);
                    proof {
                        let ts = parsed_tokens(tail);
                        let rts = parsed_tokens(tail2);
                        assert(ts == seq![tokv] + rts);
                        assert(ts[0] == tokv);
                        assert forall|i: int| 0 <= i < ts.len() implies vstd::utf8::valid_utf8(
                            #[trigger] ts[i],
                        ) by {
                            if i > 0 {
                                assert(ts[i] == rts[i - 1]);
                            }
                        }
                        assert forall|i: int| 0 <= i < v@.len() implies vstd::utf8::encode_utf8(
                            (#[trigger] v@[i])@,
                        ) == ts[i] by {
                            if i > 0 {
                                assert(v@[i] == v2v[i - 1]);
                                assert(ts[i] == rts[i - 1]);
                            }
                        }
                    }
                    Some(v)
                },
            }
        },
    }
}

/// Read the 8-byte big-endian length field at `off`.
fn read_be64(b: &[u8], off: usize) -> (r: u64)
    requires
        off + 8 <= b@.len(),
    ensures
        r == be64_val(b@.subrange(off as int, off as int + 8)),
{
    let r = ((b[off] as u64) << 56) | ((b[off + 1] as u64) << 48) | ((b[off + 2] as u64) << 40) | (
    (b[off + 3] as u64) << 32) | ((b[off + 4] as u64) << 24) | ((b[off + 5] as u64) << 16) | ((b[off
        + 6] as u64) << 8) | (b[off + 7] as u64);
    proof {
        let s = b@.subrange(off as int, off as int + 8);
        assert(s[0] == b@[off as int]);
        assert(s[1] == b@[off as int + 1]);
        assert(s[2] == b@[off as int + 2]);
        assert(s[3] == b@[off as int + 3]);
        assert(s[4] == b@[off as int + 4]);
        assert(s[5] == b@[off as int + 5]);
        assert(s[6] == b@[off as int + 6]);
        assert(s[7] == b@[off as int + 7]);
    }
    r
}

/// A request frame is well formed: the IDLE tag, a structurally valid run
/// of length-prefixed tokens, and every token valid UTF-8.
pub open spec fn request_decodes(b: Seq<u8>) -> bool {
    &&& b.len() >= 1
    &&& b[0] == REQUEST_IDLE_TAG
    &&& parse_tokens(b.drop_first()) is Some
    &&& forall|i: int|
        0 <= i < parsed_tokens(b.drop_first()).len() ==> vstd::utf8::valid_utf8(
            #[trigger] parsed_tokens(b.drop_first())[i],
        )
}

/// Parse a request frame.  Success exactly on well-formed frames; the
/// resulting capability set holds exactly the frame's tokens (deduplicated
/// and re-sorted, so a forged unsorted frame still yields a canonical set).
/// A malformed frame is rejected, never a panic.
pub fn decode_request(b: &[u8]) -> (r: Option<Request>)
    ensures
        r is Some <==> request_decodes(b@),
        (r matches Some(req) ==> (req matches Request::IDLE(cs) && cs.wf() && (forall|t: Seq<u8>|
            #![trigger cs.contains_token(t)]
            #![trigger tokens_contain(parsed_tokens(b@.drop_first()), t)]
            cs.contains_token(t) <==> tokens_contain(parsed_tokens(b@.drop_first()), t)))),
{
    if b.len() == 0 {
        return None;
    }
    if b[0] != REQUEST_IDLE_TAG {
        return None;
    }
    proof {
        assert(b@.skip(1) =~= b@.drop_first());
    }
    let toks = decode_tokens(b, 1);
    match toks {
        None => None,
        Some(v) => {
            let ghost ts = parsed_tokens(b@.drop_first());
            let cs = CapSet::from_tokens(v);
            proof {
                assert forall|t: Seq<u8>|
                    #![trigger cs.contains_token(t)]
                    #![trigger tokens_contain(ts, t)]
                    cs.contains_token(t) <==> tokens_contain(ts, t) by {
                    if cs.contains_token(t) {
                        let i = choose|i: int|
                            0 <= i < v@.len() && t == vstd::utf8::encode_utf8(#[trigger] v@[i]@);
                        assert(ts[i] == t);
                    }
                    if tokens_contain(ts, t) {
                        let i = choose|i: int| 0 <= i < ts.len() && ts[i] == t;
                        assert(vstd::utf8::encode_utf8(v@[i]@) == t);
                    }
                }
            }
            Some(Request::IDLE(cs))
        },
    }
}

/// The round trip law: the frame serialized from a well-formed capability
/// set (whose token lengths fit the length field, as any real token's does)
/// is well formed, and parses back to exactly the set's tokens — so
/// `decode_request` applied to `encode_request` of an IDLE yields an IDLE
/// whose capability set has exactly the same tokens.
pub proof fn lemma_request_round_trip(cs: CapSet)
    requires
        cs.wf(),
        forall|i: int| 0 <= i < cs@.len() ==> (#[trigger] cs@[i]).len() < 0x10000000000000000,
    ensures
        request_decodes(request_bytes(cs)),
        forall|t: Seq<u8>|
            #![trigger cs.contains_token(t)]
            #![trigger tokens_contain(parsed_tokens(request_bytes(cs).drop_first()), t)]
            tokens_contain(parsed_tokens(request_bytes(cs).drop_first()), t)
                <==> cs.contains_token(t),
{
    let b = request_bytes(cs);
    assert(b.drop_first() =~= encode_tokens(cs@));
    lemma_parse_encode_tokens(cs@);
    assert(parsed_tokens(b.drop_first()) == cs@);
    cs.lemma_tokens_valid_utf8();
}

/// Serialize a response: the COMMAND tag alone.
pub fn encode_response(resp: &Response) -> (out: Vec<u8>)
    ensures
        (resp matches Response::COMMAND ==> out@ == seq![RESPONSE_COMMAND_TAG]),
{
    match resp {
        Response::COMMAND => {
            let mut out: Vec<u8> = Vec::new();
            out.push(RESPONSE_COMMAND_TAG);
            proof {
                assert(out@ =~= seq![RESPONSE_COMMAND_TAG]);
            }
            out
        },
    }
}

/// Parse a response frame; exactly the COMMAND tag alone is accepted.
pub fn decode_response(b: &[u8]) -> (r: Option<Response>)
    ensures
        r is Some <==> b@ == seq![RESPONSE_COMMAND_TAG],
        r matches Some(resp) ==> resp == Response::COMMAND,
{
    if b.len() == 1 && b[0] == RESPONSE_COMMAND_TAG {
        proof {
            assert(b@ =~= seq![RESPONSE_COMMAND_TAG]);
        }
        Some(Response::COMMAND)
    } else {
        proof {
            if b@ == seq![RESPONSE_COMMAND_TAG] {
                assert(b@.len() == 1 && b@[0] == RESPONSE_COMMAND_TAG);
            }
        }
        None
    }
}

} // verus!
