//! Wire protocol messages and their codec.
//!
//! Each request and each response travels as a single self-delimiting
//! record in the same format family as the log codec: a tag byte, a
//! space, 20-digit decimal length fields, payload bytes, and a
//! terminating newline.

use crate::codec::{
    copy_range, decode_keyrec, decode_pairrec, encoded_put, encoded_rm, parse_put_body,
    parse_rm_body, string_from_utf8, SEP, TERM,
};
use crate::error::Error;
use crate::numeral::{dec20, digits_val, is_digit, lemma_dec20_roundtrip, lemma_pow10_20,
    push_dec20, read_dec20};
use vstd::prelude::*;
use vstd::string::StrSliceExecFns;
use vstd::utf8::{decode_utf8, encode_utf8, encode_utf8_decode_utf8, encode_utf8_valid_utf8,
    valid_utf8};

verus! {

/// Tag bytes of the wire format.
pub const TAG_GET: u8 = 71;

pub const TAG_NONE: u8 = 78;

pub const TAG_VALUE: u8 = 86;

pub const TAG_ERR: u8 = 69;

/// A client request.
pub enum Request {
    Get { key: String },
    Put { key: String, val: String },
    Rm { key: String },
}

/// The mathematical shape of a request.
pub enum RequestView {
    Get { key: Seq<char> },
    Put { key: Seq<char>, val: Seq<char> },
    Rm { key: Seq<char> },
}

impl View for Request {
    type V = RequestView;

    open spec fn view(&self) -> RequestView {
        match self {
            Request::Get { key } => RequestView::Get { key: key@ },
            Request::Put { key, val } => RequestView::Put { key: key@, val: val@ },
            Request::Rm { key } => RequestView::Rm { key: key@ },
        }
    }
}

/// A server response: the value read (`None` for writes and removals),
/// or the message of the error the engine reported.
pub enum Response {
    Value(Option<String>),
    Failure(String),
}

/// The mathematical shape of a response.
pub enum ResponseView {
    Value(Option<Seq<char>>),
    Failure(Seq<char>),
}

impl View for Response {
    type V = ResponseView;

    open spec fn view(&self) -> ResponseView {
        match self {
            Response::Value(o) => ResponseView::Value(
                match o {
                    Some(v) => Some(v@),
                    None => None,
                },
            ),
            Response::Failure(m) => ResponseView::Failure(m@),
        }
    }
}

/// A record of the shape `<tag> <len> <payload>\n`.
pub open spec fn encoded_keyrec(tag: u8, payload: Seq<char>) -> Seq<u8> {
    let kb = encode_utf8(payload);
    seq![tag, SEP] + dec20(kb.len() as int) + seq![SEP] + kb + seq![TERM]
}

/// Encoding of a request.
pub open spec fn encoded_request(r: RequestView) -> Seq<u8> {
    match r {
        RequestView::Get { key } => encoded_keyrec(TAG_GET, key),
        RequestView::Put { key, val } => encoded_put(key, val),
        RequestView::Rm { key } => encoded_rm(key),
    }
}

/// Encoding of a response.
pub open spec fn encoded_response(r: ResponseView) -> Seq<u8> {
    match r {
        ResponseView::Value(None) => seq![TAG_NONE, TERM],
        ResponseView::Value(Some(v)) => encoded_keyrec(TAG_VALUE, v),
        ResponseView::Failure(m) => encoded_keyrec(TAG_ERR, m),
    }
}

/// Parses one request off the front of `s`.
pub open spec fn parse_request(s: Seq<u8>) -> Option<(RequestView, int)> {
    if s.len() < 2 || s[1] != SEP {
        None
    } else if s[0] == TAG_GET {
        match parse_rm_body(s) {
            Some((e, n)) => Some((RequestView::Get { key: e->Rm_key }, n)),
            None => None,
        }
    } else if s[0] == 83 {
        match parse_put_body(s) {
            Some((e, n)) => Some((RequestView::Put { key: e->Put_key, val: e->Put_val }, n)),
            None => None,
        }
    } else if s[0] == 82 {
        match parse_rm_body(s) {
            Some((e, n)) => Some((RequestView::Rm { key: e->Rm_key }, n)),
            None => None,
        }
    } else {
        None
    }
}

/// Parses one response off the front of `s`.
pub open spec fn parse_response(s: Seq<u8>) -> Option<(ResponseView, int)> {
    if s.len() < 2 {
        None
    } else if s[0] == TAG_NONE {
        if s[1] == TERM {
            Some((ResponseView::Value(None), 2))
        } else {
            None
        }
    } else if s[1] != SEP {
        None
    } else if s[0] == TAG_VALUE {
        match parse_rm_body(s) {
            Some((e, n)) => Some((ResponseView::Value(Some(e->Rm_key)), n)),
            None => None,
        }
    } else if s[0] == TAG_ERR {
        match parse_rm_body(s) {
            Some((e, n)) => Some((ResponseView::Failure(e->Rm_key), n)),
            None => None,
        }
    } else {
        None
    }
}

/// Serializes a record of the shape `<tag> <len> <payload>\n`.
fn encode_keyrec(tag: u8, payload: &String) -> (r: Vec<u8>)
    ensures
        r@ == encoded_keyrec(tag, payload@),
{
    let mut out: Vec<u8> = Vec::new();
    out.push(tag);
    out.push(SEP);
    let mut kb = payload.as_str().as_bytes_vec();
    push_dec20(&mut out, kb.len() as u64);
    out.push(SEP);
    out.append(&mut kb);
    out.push(TERM);
    proof {
        assert(out@ =~= encoded_keyrec(tag, payload@));
    }
    out
}

/// Serializes a request.
pub fn encode_request(req: &Request) -> (r: Vec<u8>)
    ensures
        r@ == encoded_request(req@),
{
    match req {
        Request::Get { key } => encode_keyrec(TAG_GET, key),
        Request::Put { key, val } => {
            let mut out = encode_keyrec(83, key);
            let _ = out.pop();
            let mut vb = val.as_str().as_bytes_vec();
            out.push(SEP);
            push_dec20(&mut out, vb.len() as u64);
            out.push(SEP);
            out.append(&mut vb);
            out.push(TERM);
            proof {
                assert(encoded_keyrec(83, key@).drop_last() =~= encoded_keyrec(
                    83,
                    key@,
                ).subrange(0, encoded_keyrec(83, key@).len() - 1));
                assert(out@ =~= encoded_put(key@, val@));
            }
            out
        },
        Request::Rm { key } => {
            let out = encode_keyrec(82, key);
            proof {
                assert(encoded_keyrec(82, key@) =~= encoded_rm(key@));
            }
            out
        },
    }
}

/// Serializes a response.
pub fn encode_response(resp: &Response) -> (r: Vec<u8>)
    ensures
        r@ == encoded_response(resp@),
{
    match resp {
        Response::Value(None) => {
            let mut out: Vec<u8> = Vec::new();
            out.push(TAG_NONE);
            out.push(TERM);
            proof {
                assert(out@ =~= seq![TAG_NONE, TERM]);
            }
            out
        },
        Response::Value(Some(v)) => encode_keyrec(TAG_VALUE, v),
        Response::Failure(m) => encode_keyrec(TAG_ERR, m),
    }
}

/// Deserializes the request that starts at byte `from` of `data`;
/// reports `Protocol` when no well-formed request starts there.
pub fn decode_request(data: &Vec<u8>, from: usize) -> (r: Result<(Request, usize), Error>)
    requires
        from <= data@.len(),
    ensures
        ({
            let tail = data@.subrange(from as int, data@.len() as int);
            match r {
                Ok((req, n)) => parse_request(tail) == Some((req@, n as int)) && 2 <= n && from
                    + n <= data@.len(),
                Err(err) => parse_request(tail) is None && err == Error::Protocol,
            }
        }),
{
    let len = data.len();
    let ghost tail = data@.subrange(from as int, len as int);
    if len - from < 2 {
        return Err(Error::Protocol);
    }
    let tag = data[from];
    let sep = data[from + 1];
    proof {
        assert(tail[0] == data@[from as int]);
        assert(tail[1] == data@[from + 1]);
    }
    if sep != SEP {
        return Err(Error::Protocol);
    }
    if tag == TAG_GET {
        match decode_keyrec(data, from) {
            Ok((key, n)) => Ok((Request::Get { key }, n)),
            Err(_) => Err(Error::Protocol),
        }
    } else if tag == 83 {
        match decode_pairrec(data, from) {
            Ok((key, val, n)) => Ok((Request::Put { key, val }, n)),
            Err(_) => Err(Error::Protocol),
        }
    } else if tag == 82 {
        match decode_keyrec(data, from) {
            Ok((key, n)) => Ok((Request::Rm { key }, n)),
            Err(_) => Err(Error::Protocol),
        }
    } else {
        Err(Error::Protocol)
    }
}

/// Deserializes the response that starts at byte `from` of `data`;
/// reports `Protocol` when no well-formed response starts there.
pub fn decode_response(data: &Vec<u8>, from: usize) -> (r: Result<(Response, usize), Error>)
    requires
        from <= data@.len(),
    ensures
        ({
            let tail = data@.subrange(from as int, data@.len() as int);
            match r {
                Ok((resp, n)) => parse_response(tail) == Some((resp@, n as int)) && 2 <= n
                    && from + n <= data@.len(),
                Err(err) => parse_response(tail) is None && err == Error::Protocol,
            }
        }),
{
    let len = data.len();
    let ghost tail = data@.subrange(from as int, len as int);
    if len - from < 2 {
        return Err(Error::Protocol);
    }
    let tag = data[from];
    let b1 = data[from + 1];
    proof {
        assert(tail[0] == data@[from as int]);
        assert(tail[1] == data@[from + 1]);
    }
    if tag == TAG_NONE {
        if b1 == TERM {
            return Ok((Response::Value(None), 2));
        } else {
            return Err(Error::Protocol);
        }
    }
    if b1 != SEP {
        return Err(Error::Protocol);
    }
    if tag == TAG_VALUE {
        match decode_keyrec(data, from) {
            Ok((v, n)) => Ok((Response::Value(Some(v)), n)),
            Err(_) => Err(Error::Protocol),
        }
    } else if tag == TAG_ERR {
        match decode_keyrec(data, from) {
            Ok((m, n)) => Ok((Response::Failure(m), n)),
            Err(_) => Err(Error::Protocol),
        }
    } else {
        Err(Error::Protocol)
    }
}

/// Round trip: an encoded record of the `<tag> <len> <payload>\n` shape
/// parses back to its payload and consumes the whole encoding.
proof fn lemma_encoded_keyrec_parse(tag: u8, payload: Seq<char>)
    requires
        encode_utf8(payload).len() < crate::numeral::pow10(20),
    ensures
        parse_rm_body(encoded_keyrec(tag, payload)) == Some(
            (
                crate::entry::EntryView::Rm { key: payload },
                encoded_keyrec(tag, payload).len() as int,
            ),
        ),
{
    broadcast use encode_utf8_valid_utf8;
    broadcast use encode_utf8_decode_utf8;

    let kb = encode_utf8(payload);
    let k = kb.len() as int;
    let s = encoded_keyrec(tag, payload);
    lemma_dec20_roundtrip(k);
    assert(s.len() == 24 + k);
    assert(s.subrange(2, 22) =~= dec20(k));
    assert(s[22] == SEP && s[23 + k] == TERM);
    assert(s.subrange(23, 23 + k) =~= kb);
}

/// Round trip: the encoding of a request parses back to that request.
pub proof fn lemma_encoded_request_parse(r: RequestView)
    requires
        request_len_fits(r),
    ensures
        parse_request(encoded_request(r)) == Some((r, encoded_request(r).len() as int)),
{
    match r {
        RequestView::Get { key } => {
            lemma_encoded_keyrec_parse(TAG_GET, key);
            assert(encoded_request(r)[0] == TAG_GET && encoded_request(r)[1] == SEP);
        },
        RequestView::Put { key, val } => {
            crate::codec::lemma_encoded_parse(crate::entry::EntryView::Put { key, val });
            assert(encoded_request(r)[0] == 83 && encoded_request(r)[1] == SEP);
        },
        RequestView::Rm { key } => {
            crate::codec::lemma_encoded_parse(crate::entry::EntryView::Rm { key });
            assert(encoded_keyrec(82, key) =~= encoded_rm(key));
            assert(encoded_request(r)[0] == 82 && encoded_request(r)[1] == SEP);
        },
    }
}

/// Round trip: the encoding of a response parses back to that response.
pub proof fn lemma_encoded_response_parse(r: ResponseView)
    requires
        response_len_fits(r),
    ensures
        parse_response(encoded_response(r)) == Some((r, encoded_response(r).len() as int)),
{
    match r {
        ResponseView::Value(None) => {
        },
        ResponseView::Value(Some(v)) => {
            lemma_encoded_keyrec_parse(TAG_VALUE, v);
            let s = encoded_response(r);
            assert(s[0] == TAG_VALUE && s[1] == SEP);
        },
        ResponseView::Failure(m) => {
            lemma_encoded_keyrec_parse(TAG_ERR, m);
            let s = encoded_response(r);
            assert(s[0] == TAG_ERR && s[1] == SEP);
        },
    }
}

/// The length fields of `r`'s encoding stay within 20 digits.  Every
/// request built from in-memory strings satisfies this.
pub open spec fn request_len_fits(r: RequestView) -> bool {
    match r {
        RequestView::Get { key } => encode_utf8(key).len() < crate::numeral::pow10(20),
        RequestView::Put { key, val } => encode_utf8(key).len() < crate::numeral::pow10(20)
            && encode_utf8(val).len() < crate::numeral::pow10(20),
        RequestView::Rm { key } => encode_utf8(key).len() < crate::numeral::pow10(20),
    }
}

/// The length field of `r`'s encoding stays within 20 digits.
pub open spec fn response_len_fits(r: ResponseView) -> bool {
    match r {
        ResponseView::Value(None) => true,
        ResponseView::Value(Some(v)) => encode_utf8(v).len() < crate::numeral::pow10(20),
        ResponseView::Failure(m) => encode_utf8(m).len() < crate::numeral::pow10(20),
    }
}


/// Progress of decoding one request from the front of a buffer.
pub enum RequestProgress {
    Done(Request, usize),
    Partial,
    Bad,
}

/// Classifies the front of a buffer: a whole well-formed request, bytes
/// that may still grow into one, or bytes that no extension can turn
/// into one.  A server that reads a stream piecewise waits for more
/// bytes on `Partial` and answers a protocol failure on `Bad`.
pub fn decode_request_partial(data: &Vec<u8>) -> (r: RequestProgress)
    ensures
        match r {
            RequestProgress::Done(req, n) => parse_request(data@) == Some((req@, n as int)) && 2
                <= n <= data@.len(),
            RequestProgress::Partial => parse_request(data@) is None,
            RequestProgress::Bad => parse_request(data@) is None && forall|t: Seq<u8>|
                parse_request(data@ + t) is None,
        },
{
    let len = data.len();
    let ghost s = data@;
    if len == 0 {
        return RequestProgress::Partial;
    }
    let tag = data[0];
    if tag != TAG_GET && tag != 83 && tag != 82 {
        proof {
            assert forall|t: Seq<u8>| parse_request(s + t) is None by {
                assert((s + t)[0] == s[0]);
            }
            assert(s + Seq::<u8>::empty() =~= s);
            assert(parse_request(s) is None);
        }
        return RequestProgress::Bad;
    }
    if len < 2 {
        return RequestProgress::Partial;
    }
    if data[1] != SEP {
        proof {
            assert forall|t: Seq<u8>| parse_request(s + t) is None by {
                assert((s + t)[1] == s[1]);
            }
            assert(s + Seq::<u8>::empty() =~= s);
            assert(parse_request(s) is None);
        }
        return RequestProgress::Bad;
    }
    let mut i: usize = 2;
    while i < len && i < 22
        invariant
            2 <= i <= 22,
            2 <= len == s.len(),
            s == data@,
            s[0] == tag,
            s[1] == SEP,
            tag == TAG_GET || tag == 83 || tag == 82,
            forall|q: int| 2 <= q < i ==> is_digit(#[trigger] s[q]),
        decreases 22 - i,
    {
        let b = data[i];
        if b < 48 || b > 57 {
            proof {
                assert forall|t: Seq<u8>| parse_request(s + t) is None by {
                    let u = s + t;
                    assert(u[0] == s[0] && u[1] == s[1] && u[i as int] == s[i as int]);
                    if u.len() >= 22 {
                        assert(u.subrange(2, 22)[i - 2] == u[i as int]);
                        assert(!crate::numeral::all_digits(u.subrange(2, 22)));
                    }
                }
                assert(s + Seq::<u8>::empty() =~= s);
                assert(parse_request(s) is None);
            }
            return RequestProgress::Bad;
        }
        i += 1;
    }
    if len < 23 {
        return RequestProgress::Partial;
    }
    let kval = match read_dec20(data, 2) {
        Some(v) => v,
        None => {
            proof {
                assert(false);
            }
            return RequestProgress::Bad;
        },
    };
    proof {
        lemma_pow10_20();
    }
    let ghost k = digits_val(s.subrange(2, 22));
    if data[22] != SEP {
        proof {
            assert forall|t: Seq<u8>| parse_request(s + t) is None by {
                let u = s + t;
                assert(u[0] == s[0] && u[1] == s[1] && u[22] == s[22]);
                assert(u.subrange(2, 22) =~= s.subrange(2, 22));
            }
            assert(s + Seq::<u8>::empty() =~= s);
            assert(parse_request(s) is None);
        }
        return RequestProgress::Bad;
    }
    if tag == TAG_GET || tag == 82 {
        if kval + 24 > len as u128 {
            return RequestProgress::Partial;
        }
        let ku = kval as usize;
        if data[23 + ku] != TERM {
            proof {
                assert forall|t: Seq<u8>| parse_request(s + t) is None by {
                    let u = s + t;
                    assert(u[0] == s[0] && u[1] == s[1] && u[22] == s[22]);
                    assert(u.subrange(2, 22) =~= s.subrange(2, 22));
                    assert(u[23 + k] == s[23 + k]);
                }
                assert(s + Seq::<u8>::empty() =~= s);
                assert(parse_request(s) is None);
            }
            return RequestProgress::Bad;
        }
        let kb = copy_range(data, 23, 23 + ku);
        match string_from_utf8(kb) {
            None => {
                proof {
                    assert forall|t: Seq<u8>| parse_request(s + t) is None by {
                        let u = s + t;
                        assert(u[0] == s[0] && u[1] == s[1] && u[22] == s[22] && u[23 + k] == s[23
                            + k]);
                        assert(u.subrange(2, 22) =~= s.subrange(2, 22));
                        assert(u.subrange(23, 23 + k) =~= s.subrange(23, 23 + k));
                    }
                    assert(s + Seq::<u8>::empty() =~= s);
                    assert(parse_request(s) is None);
                }
                RequestProgress::Bad
            },
            Some(key) => {
                proof {
                    broadcast use encode_utf8_valid_utf8;
                    broadcast use encode_utf8_decode_utf8;

                    assert(valid_utf8(s.subrange(23, 23 + k)));
                    assert(decode_utf8(s.subrange(23, 23 + k)) == key@);
                    assert(parse_rm_body(s) == Some((crate::entry::EntryView::Rm { key: key@ }, 24
                        + k)));
                }
                if tag == TAG_GET {
                    RequestProgress::Done(Request::Get { key }, 24 + ku)
                } else {
                    RequestProgress::Done(Request::Rm { key }, 24 + ku)
                }
            },
        }
    } else {
        if kval + 24 > len as u128 {
            return RequestProgress::Partial;
        }
        let ku = kval as usize;
        if data[23 + ku] != SEP {
            proof {
                assert forall|t: Seq<u8>| parse_request(s + t) is None by {
                    let u = s + t;
                    assert(u[0] == s[0] && u[1] == s[1] && u[22] == s[22] && u[23 + k] == s[23
                        + k]);
                    assert(u.subrange(2, 22) =~= s.subrange(2, 22));
                }
                assert(s + Seq::<u8>::empty() =~= s);
                assert(parse_request(s) is None);
            }
            return RequestProgress::Bad;
        }
        let mut j: usize = 0;
        while j < 20 && j < len - (24 + ku)
            invariant
                j <= 20,
                23 <= len == s.len(),
                s == data@,
                s[0] == tag && s[1] == SEP && s[22] == SEP,
                tag == 83,
                kval as int == digits_val(s.subrange(2, 22)),
                k == digits_val(s.subrange(2, 22)),
                ku == kval as usize,
                (kval as int) == ku as int,
                crate::numeral::all_digits(s.subrange(2, 22)),
                len >= 24 + ku,
                s[23 + ku] == SEP,
                forall|q: int| 24 + ku <= q < 24 + ku + j ==> is_digit(#[trigger] s[q]),
            decreases 20 - j,
        {
            let b = data[24 + ku + j];
            if b < 48 || b > 57 {
                let ghost p = 24 + k + j;
                proof {
                    assert forall|t: Seq<u8>| parse_request(s + t) is None by {
                        let u = s + t;
                        assert(u[0] == s[0] && u[1] == s[1] && u[22] == s[22] && u[23 + k] == s[23
                            + k] && u[p] == s[p]);
                        assert(u.subrange(2, 22) =~= s.subrange(2, 22));
                        if u.len() >= 44 + k {
                            assert(u.subrange(24 + k, 44 + k)[p - (24 + k)] == u[p]);
                            assert(!crate::numeral::all_digits(u.subrange(24 + k, 44 + k)));
                        }
                    }
                    assert(s + Seq::<u8>::empty() =~= s);
                    assert(parse_request(s) is None);
                }
                return RequestProgress::Bad;
            }
            j += 1;
        }
        if len - (24 + ku) < 21 {
            return RequestProgress::Partial;
        }
        let vval = match read_dec20(data, 24 + ku) {
            Some(v) => v,
            None => {
                proof {
                    assert(false);
                }
                return RequestProgress::Bad;
            },
        };
        let ghost v = digits_val(s.subrange(24 + k, 44 + k));
        if data[44 + ku] != SEP {
            proof {
                assert forall|t: Seq<u8>| parse_request(s + t) is None by {
                    let u = s + t;
                    assert(u[0] == s[0] && u[1] == s[1] && u[22] == s[22] && u[23 + k] == s[23
                        + k] && u[44 + k] == s[44 + k]);
                    assert(u.subrange(2, 22) =~= s.subrange(2, 22));
                    assert(u.subrange(24 + k, 44 + k) =~= s.subrange(24 + k, 44 + k));
                }
                assert(s + Seq::<u8>::empty() =~= s);
                assert(parse_request(s) is None);
            }
            return RequestProgress::Bad;
        }
        if kval + vval + 46 > len as u128 {
            return RequestProgress::Partial;
        }
        let vu = vval as usize;
        if data[45 + ku + vu] != TERM {
            proof {
                assert forall|t: Seq<u8>| parse_request(s + t) is None by {
                    let u = s + t;
                    assert(u[0] == s[0] && u[1] == s[1] && u[22] == s[22] && u[23 + k] == s[23
                        + k] && u[44 + k] == s[44 + k] && u[45 + k + v] == s[45 + k + v]);
                    assert(u.subrange(2, 22) =~= s.subrange(2, 22));
                    assert(u.subrange(24 + k, 44 + k) =~= s.subrange(24 + k, 44 + k));
                }
                assert(s + Seq::<u8>::empty() =~= s);
                assert(parse_request(s) is None);
            }
            return RequestProgress::Bad;
        }
        let kb = copy_range(data, 23, 23 + ku);
        let key = match string_from_utf8(kb) {
            None => {
                proof {
                    assert forall|t: Seq<u8>| parse_request(s + t) is None by {
                        let u = s + t;
                        assert(u[0] == s[0] && u[1] == s[1] && u[22] == s[22] && u[23 + k] == s[23
                            + k] && u[44 + k] == s[44 + k] && u[45 + k + v] == s[45 + k + v]);
                        assert(u.subrange(2, 22) =~= s.subrange(2, 22));
                        assert(u.subrange(24 + k, 44 + k) =~= s.subrange(24 + k, 44 + k));
                        assert(u.subrange(23, 23 + k) =~= s.subrange(23, 23 + k));
                    }
                    assert(s + Seq::<u8>::empty() =~= s);
                    assert(parse_request(s) is None);
                }
                return RequestProgress::Bad;
            },
            Some(x) => x,
        };
        let vb = copy_range(data, 45 + ku, 45 + ku + vu);
        match string_from_utf8(vb) {
            None => {
                proof {
                    broadcast use encode_utf8_valid_utf8;

                    assert(valid_utf8(s.subrange(23, 23 + k)));
                    assert forall|t: Seq<u8>| parse_request(s + t) is None by {
                        let u = s + t;
                        assert(u[0] == s[0] && u[1] == s[1] && u[22] == s[22] && u[23 + k] == s[23
                            + k] && u[44 + k] == s[44 + k] && u[45 + k + v] == s[45 + k + v]);
                        assert(u.subrange(2, 22) =~= s.subrange(2, 22));
                        assert(u.subrange(24 + k, 44 + k) =~= s.subrange(24 + k, 44 + k));
                        assert(u.subrange(23, 23 + k) =~= s.subrange(23, 23 + k));
                        assert(u.subrange(45 + k, 45 + k + v) =~= s.subrange(45 + k, 45 + k + v));
                    }
                    assert(s + Seq::<u8>::empty() =~= s);
                    assert(parse_request(s) is None);
                }
                RequestProgress::Bad
            },
            Some(val) => {
                proof {
                    broadcast use encode_utf8_valid_utf8;
                    broadcast use encode_utf8_decode_utf8;

                    assert(valid_utf8(s.subrange(23, 23 + k)));
                    assert(valid_utf8(s.subrange(45 + k, 45 + k + v)));
                    assert(decode_utf8(s.subrange(23, 23 + k)) == key@);
                    assert(decode_utf8(s.subrange(45 + k, 45 + k + v)) == val@);
                    assert(parse_put_body(s) == Some(
                        (crate::entry::EntryView::Put { key: key@, val: val@ }, 46 + k + v),
                    ));
                }
                RequestProgress::Done(Request::Put { key, val }, 46 + ku + vu)
            },
        }
    }
}

} // verus!
