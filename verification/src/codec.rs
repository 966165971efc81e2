//! The record codec: a self-delimiting text format for log records.
//!
//! A `Put` record is the bytes `S <klen> <key> <vlen> <val>\n` and a `Rm`
//! record the bytes `R <klen> <key>\n`, where `<klen>` and `<vlen>` are
//! 20-digit decimal byte counts and `<key>`/`<val>` are the UTF-8 bytes of
//! the strings.  Concatenated encodings decode back into the original
//! record sequence with no framing bytes between records.

use crate::entry::{Entry, EntryView};
use crate::error::Error;
use crate::numeral::{all_digits, dec20, digits_val, lemma_dec20_roundtrip,
    lemma_digits_val_nonneg, lemma_pow10_20, pow10, read_dec20, push_dec20};
use vstd::prelude::*;
use vstd::string::StrSliceExecFns;
use vstd::utf8::{decode_utf8, encode_utf8, encode_utf8_decode_utf8, encode_utf8_valid_utf8,
    valid_utf8};

verus! {

/// Byte values used by the format.
pub const TAG_PUT: u8 = 83;

pub const TAG_RM: u8 = 82;

pub const SEP: u8 = 32;

pub const TERM: u8 = 10;

/// Encoding of a `Put` record with the given key and value.
pub open spec fn encoded_put(key: Seq<char>, val: Seq<char>) -> Seq<u8> {
    let kb = encode_utf8(key);
    let vb = encode_utf8(val);
    seq![TAG_PUT, SEP] + dec20(kb.len() as int) + seq![SEP] + kb + seq![SEP] + dec20(
        vb.len() as int,
    ) + seq![SEP] + vb + seq![TERM]
}

/// Encoding of a `Rm` record with the given key.
pub open spec fn encoded_rm(key: Seq<char>) -> Seq<u8> {
    let kb = encode_utf8(key);
    seq![TAG_RM, SEP] + dec20(kb.len() as int) + seq![SEP] + kb + seq![TERM]
}

/// Encoding of any record.
pub open spec fn encoded(e: EntryView) -> Seq<u8> {
    match e {
        EntryView::Put { key, val } => encoded_put(key, val),
        EntryView::Rm { key } => encoded_rm(key),
    }
}

/// Parses one record off the front of `s`: the record and the number of
/// bytes it occupies, or `None` if no well-formed record starts at byte 0.
pub open spec fn parse_entry(s: Seq<u8>) -> Option<(EntryView, int)> {
    if s.len() < 2 {
        None
    } else if s[0] == TAG_RM && s[1] == SEP {
        parse_rm_body(s)
    } else if s[0] == TAG_PUT && s[1] == SEP {
        parse_put_body(s)
    } else {
        None
    }
}

pub open spec fn parse_rm_body(s: Seq<u8>) -> Option<(EntryView, int)> {
    if s.len() < 24 {
        None
    } else if !all_digits(s.subrange(2, 22)) {
        None
    } else {
        let k = digits_val(s.subrange(2, 22));
        if s[22] != SEP {
            None
        } else if s.len() < 24 + k {
            None
        } else {
            let kb = s.subrange(23, 23 + k);
            if s[23 + k] != TERM {
                None
            } else if !valid_utf8(kb) {
                None
            } else {
                Some((EntryView::Rm { key: decode_utf8(kb) }, 24 + k))
            }
        }
    }
}

pub open spec fn parse_put_body(s: Seq<u8>) -> Option<(EntryView, int)> {
    if s.len() < 46 {
        None
    } else if !all_digits(s.subrange(2, 22)) {
        None
    } else {
        let k = digits_val(s.subrange(2, 22));
        if s[22] != SEP {
            None
        } else if s.len() < 46 + k {
            None
        } else {
            let kb = s.subrange(23, 23 + k);
            if s[23 + k] != SEP {
                None
            } else if !all_digits(s.subrange(24 + k, 44 + k)) {
                None
            } else {
                let v = digits_val(s.subrange(24 + k, 44 + k));
                if s[44 + k] != SEP {
                    None
                } else if s.len() < 46 + k + v {
                    None
                } else {
                    let vb = s.subrange(45 + k, 45 + k + v);
                    if s[45 + k + v] != TERM {
                        None
                    } else if !valid_utf8(kb) || !valid_utf8(vb) {
                        None
                    } else {
                        Some(
                            (
                                EntryView::Put {
                                    key: decode_utf8(kb),
                                    val: decode_utf8(vb),
                                },
                                46 + k + v,
                            ),
                        )
                    }
                }
            }
        }
    }
}

/// A parsed record occupies at least 24 bytes and no more than all of `s`.
pub proof fn lemma_parse_entry_bounds(s: Seq<u8>)
    ensures
        parse_entry(s) matches Some(p) ==> 24 <= p.1 <= s.len(),
{
    if s.len() >= 2 && s[0] == TAG_RM && s[1] == SEP && s.len() >= 24 && all_digits(
        s.subrange(2, 22),
    ) {
        lemma_digits_val_nonneg(s.subrange(2, 22));
    }
    if s.len() >= 2 && s[0] == TAG_PUT && s[1] == SEP && s.len() >= 46 && all_digits(
        s.subrange(2, 22),
    ) {
        lemma_digits_val_nonneg(s.subrange(2, 22));
        let k = digits_val(s.subrange(2, 22));
        if s.len() >= 46 + k && all_digits(s.subrange(24 + k, 44 + k)) {
            lemma_digits_val_nonneg(s.subrange(24 + k, 44 + k));
        }
    }
}

/// Equal prefixes of two byte strings have equal inner ranges.
proof fn lemma_sub_eq(s1: Seq<u8>, s2: Seq<u8>, n: int, a: int, b: int)
    requires
        0 <= n <= s1.len(),
        n <= s2.len(),
        s1.subrange(0, n) == s2.subrange(0, n),
        0 <= a <= b <= n,
    ensures
        s1.subrange(a, b) == s2.subrange(a, b),
{
    assert forall|j: int| 0 <= j < b - a implies s1.subrange(a, b)[j] == s2.subrange(a, b)[j] by {
        assert(s1.subrange(a, b)[j] == s1[a + j]);
        assert(s2.subrange(a, b)[j] == s2[a + j]);
        assert(s1[a + j] == s1.subrange(0, n)[a + j]);
        assert(s2[a + j] == s2.subrange(0, n)[a + j]);
    }
    assert(s1.subrange(a, b) =~= s2.subrange(a, b));
}

/// Parsing looks only at the bytes it consumes: a record parsed from `s1`
/// parses identically from any `s2` that carries the same first `p.1`
/// bytes.
pub proof fn lemma_parse_entry_local(s1: Seq<u8>, s2: Seq<u8>)
    requires
        parse_entry(s1) is Some,
        parse_entry(s1)->Some_0.1 <= s2.len(),
        s1.subrange(0, parse_entry(s1)->Some_0.1) == s2.subrange(0, parse_entry(s1)->Some_0.1),
    ensures
        parse_entry(s2) == parse_entry(s1),
{
    let n = parse_entry(s1)->Some_0.1;
    lemma_parse_entry_bounds(s1);
    assert forall|j: int| 0 <= j < n implies s1[j] == s2[j] by {
        assert(s1.subrange(0, n)[j] == s2.subrange(0, n)[j]);
    }
    if s1[0] == TAG_RM {
        let k = digits_val(s1.subrange(2, 22));
        lemma_sub_eq(s1, s2, n, 2, 22);
        lemma_digits_val_nonneg(s1.subrange(2, 22));
        assert(n == 24 + k);
        lemma_sub_eq(s1, s2, n, 23, 23 + k);
    } else {
        let k = digits_val(s1.subrange(2, 22));
        lemma_sub_eq(s1, s2, n, 2, 22);
        lemma_digits_val_nonneg(s1.subrange(2, 22));
        assert(s1.len() >= 46 + k);
        let v = digits_val(s1.subrange(24 + k, 44 + k));
        lemma_digits_val_nonneg(s1.subrange(24 + k, 44 + k));
        assert(n == 46 + k + v);
        lemma_sub_eq(s1, s2, n, 24 + k, 44 + k);
        lemma_sub_eq(s1, s2, n, 23, 23 + k);
        lemma_sub_eq(s1, s2, n, 45 + k, 45 + k + v);
    }
}

/// Round trip: the encoding of a record parses back to that record and
/// consumes exactly the encoding.
pub proof fn lemma_encoded_parse(e: EntryView)
    requires
        encoded_len_fits(e),
    ensures
        parse_entry(encoded(e)) == Some((e, encoded(e).len() as int)),
{
    broadcast use encode_utf8_valid_utf8;
    broadcast use encode_utf8_decode_utf8;

    lemma_pow10_20();
    match e {
        EntryView::Rm { key } => {
            let kb = encode_utf8(key);
            let k = kb.len() as int;
            let s = encoded_rm(key);
            lemma_dec20_roundtrip(k);
            assert(s.len() == 24 + k);
            assert(s.subrange(2, 22) =~= dec20(k));
            assert(s[0] == TAG_RM && s[1] == SEP && s[22] == SEP && s[23 + k] == TERM);
            assert(s.subrange(23, 23 + k) =~= kb);
            assert(decode_utf8(kb) == key);
        },
        EntryView::Put { key, val } => {
            let kb = encode_utf8(key);
            let vb = encode_utf8(val);
            let k = kb.len() as int;
            let v = vb.len() as int;
            let s = encoded_put(key, val);
            lemma_dec20_roundtrip(k);
            lemma_dec20_roundtrip(v);
            assert(s.len() == 46 + k + v);
            assert(s.subrange(2, 22) =~= dec20(k));
            assert(s.subrange(24 + k, 44 + k) =~= dec20(v));
            assert(s[0] == TAG_PUT && s[1] == SEP && s[22] == SEP && s[23 + k] == SEP && s[44 + k]
                == SEP && s[45 + k + v] == TERM);
            assert(s.subrange(23, 23 + k) =~= kb);
            assert(s.subrange(45 + k, 45 + k + v) =~= vb);
            assert(decode_utf8(kb) == key);
            assert(decode_utf8(vb) == val);
        },
    }
}

/// The length fields of `e`'s encoding stay within 20 digits.  Every
/// record built from in-memory strings satisfies this.
pub open spec fn encoded_len_fits(e: EntryView) -> bool {
    match e {
        EntryView::Put { key, val } => encode_utf8(key).len() < pow10(20) && encode_utf8(
            val,
        ).len() < pow10(20),
        EntryView::Rm { key } => encode_utf8(key).len() < pow10(20),
    }
}

/// Copies the byte range `[start, end)` of `data` into a fresh vector.
pub fn copy_range(data: &Vec<u8>, start: usize, end: usize) -> (r: Vec<u8>)
    requires
        start <= end <= data@.len(),
    ensures
        r@ == data@.subrange(start as int, end as int),
{
    let mut r: Vec<u8> = Vec::new();
    let mut i = start;
    while i < end
        invariant
            start <= i <= end <= data@.len(),
            r@ == data@.subrange(start as int, i as int),
        decreases end - i,
    {
        r.push(data[i]);
        proof {
            assert(data@.subrange(start as int, i + 1) =~= data@.subrange(start as int, i as int)
                .push(data@[i as int]));
        }
        i += 1;
    }
    r
}

/// Relies on `String::from_utf8`: it succeeds exactly on valid UTF-8 and
/// returns the string whose UTF-8 encoding is the given bytes.
#[verifier::external_body]
pub(crate) fn string_from_utf8(v: Vec<u8>) -> (r: Option<String>)
    ensures
        match r {
            Some(s) => encode_utf8(s@) == v@,
            None => !valid_utf8(v@),
        },
{
    match String::from_utf8(v) {
        Ok(s) => Some(s),
        Err(_) => None,
    }
}

/// Serializes a record.
pub fn encode_entry(e: &Entry) -> (r: Vec<u8>)
    ensures
        r@ == encoded(e@),
        r@.len() >= 24,
{
    let mut out: Vec<u8> = Vec::new();
    match e {
        Entry::Put { key, val } => {
            out.push(TAG_PUT);
            out.push(SEP);
            let mut kb = key.as_str().as_bytes_vec();
            let mut vb = val.as_str().as_bytes_vec();
            push_dec20(&mut out, kb.len() as u64);
            out.push(SEP);
            out.append(&mut kb);
            out.push(SEP);
            push_dec20(&mut out, vb.len() as u64);
            out.push(SEP);
            out.append(&mut vb);
            out.push(TERM);
            proof {
                assert(out@ =~= encoded(e@));
            }
        },
        Entry::Rm { key } => {
            out.push(TAG_RM);
            out.push(SEP);
            let mut kb = key.as_str().as_bytes_vec();
            push_dec20(&mut out, kb.len() as u64);
            out.push(SEP);
            out.append(&mut kb);
            out.push(TERM);
            proof {
                assert(out@ =~= encoded(e@));
            }
        },
    }
    out
}

/// Deserializes the record that starts at byte `from` of `data`; reports
/// `CorruptLog` when no well-formed record starts there.
pub fn decode_entry(data: &Vec<u8>, from: usize) -> (r: Result<(Entry, usize), Error>)
    requires
        from <= data@.len(),
    ensures
        ({
            let tail = data@.subrange(from as int, data@.len() as int);
            match r {
                Ok((e, n)) => parse_entry(tail) == Some((e@, n as int)) && 24 <= n && from + n
                    <= data@.len(),
                Err(err) => parse_entry(tail) is None && err == Error::CorruptLog,
            }
        }),
{
    let len = data.len();
    let ghost tail = data@.subrange(from as int, len as int);
    if len - from < 2 {
        return Err(Error::CorruptLog);
    }
    let tag = data[from];
    if data[from + 1] != SEP || (tag != TAG_RM && tag != TAG_PUT) {
        proof {
            assert(tail[0] == data@[from as int]);
            assert(tail[1] == data@[from + 1]);
        }
        return Err(Error::CorruptLog);
    }
    proof {
        assert(tail[0] == data@[from as int]);
        assert(tail[1] == data@[from + 1]);
    }
    if tag == TAG_RM {
        match decode_keyrec(data, from) {
            Ok((key, n)) => Ok((Entry::Rm { key }, n)),
            Err(err) => Err(err),
        }
    } else {
        match decode_pairrec(data, from) {
            Ok((key, val, n)) => Ok((Entry::Put { key, val }, n)),
            Err(err) => Err(err),
        }
    }
}

/// Deserializes a record of the shape `<tag> <len> <payload>\n` that
/// starts at byte `from`, handing back the payload string.
pub(crate) fn decode_keyrec(data: &Vec<u8>, from: usize) -> (r: Result<(String, usize), Error>)
    requires
        from + 2 <= data@.len(),
    ensures
        ({
            let tail = data@.subrange(from as int, data@.len() as int);
            match r {
                Ok((key, n)) => parse_rm_body(tail) == Some(
                    (EntryView::Rm { key: key@ }, n as int),
                ) && 24 <= n && from + n <= data@.len(),
                Err(err) => parse_rm_body(tail) is None && err == Error::CorruptLog,
            }
        }),
{
    let len = data.len();
    let ghost tail = data@.subrange(from as int, len as int);
    if len - from < 24 {
        return Err(Error::CorruptLog);
    }
    proof {
        assert(tail.subrange(2, 22) =~= data@.subrange(from + 2, from + 22));
    }
    let kval = match read_dec20(data, from + 2) {
        None => {
            return Err(Error::CorruptLog);
        },
        Some(v) => v,
    };
    if data[from + 22] != SEP {
        proof {
            assert(tail[22] == data@[from + 22]);
        }
        return Err(Error::CorruptLog);
    }
    proof {
        assert(tail[22] == data@[from + 22]);
    }
    if kval > (len - from - 24) as u128 {
        return Err(Error::CorruptLog);
    }
    let k = kval as usize;
    let kb = copy_range(data, from + 23, from + 23 + k);
    proof {
        assert(tail.subrange(23, 23 + k as int) =~= data@.subrange(from + 23, from + 23 + k));
    }
    if data[from + 23 + k] != TERM {
        proof {
            assert(tail[23 + k as int] == data@[from + 23 + k]);
        }
        return Err(Error::CorruptLog);
    }
    proof {
        assert(tail[23 + k as int] == data@[from + 23 + k]);
    }
    match string_from_utf8(kb) {
        None => Err(Error::CorruptLog),
        Some(key) => {
            proof {
                broadcast use encode_utf8_valid_utf8;
                broadcast use encode_utf8_decode_utf8;

                assert(valid_utf8(tail.subrange(23, 23 + k as int)));
                assert(decode_utf8(tail.subrange(23, 23 + k as int)) == key@);
            }
            Ok((key, 24 + k))
        },
    }
}

/// Deserializes a record of the shape `<tag> <len> <key> <len> <val>\n`
/// that starts at byte `from`, handing back both payload strings.
pub(crate) fn decode_pairrec(data: &Vec<u8>, from: usize) -> (r: Result<
    (String, String, usize),
    Error,
>)
    requires
        from + 2 <= data@.len(),
    ensures
        ({
            let tail = data@.subrange(from as int, data@.len() as int);
            match r {
                Ok((key, val, n)) => parse_put_body(tail) == Some(
                    (EntryView::Put { key: key@, val: val@ }, n as int),
                ) && 24 <= n && from + n <= data@.len(),
                Err(err) => parse_put_body(tail) is None && err == Error::CorruptLog,
            }
        }),
{
    let len = data.len();
    let ghost tail = data@.subrange(from as int, len as int);
    if len - from < 46 {
        return Err(Error::CorruptLog);
    }
    proof {
        assert(tail.subrange(2, 22) =~= data@.subrange(from + 2, from + 22));
    }
    let kval = match read_dec20(data, from + 2) {
        None => {
            return Err(Error::CorruptLog);
        },
        Some(v) => v,
    };
    if data[from + 22] != SEP {
        proof {
            assert(tail[22] == data@[from + 22]);
        }
        return Err(Error::CorruptLog);
    }
    proof {
        assert(tail[22] == data@[from + 22]);
    }
    if kval > (len - from - 46) as u128 {
        return Err(Error::CorruptLog);
    }
    let k = kval as usize;
    let kb = copy_range(data, from + 23, from + 23 + k);
    proof {
        assert(tail.subrange(23, 23 + k as int) =~= data@.subrange(from + 23, from + 23 + k));
    }
    if data[from + 23 + k] != SEP {
        proof {
            assert(tail[23 + k as int] == data@[from + 23 + k]);
        }
        return Err(Error::CorruptLog);
    }
    proof {
        assert(tail[23 + k as int] == data@[from + 23 + k]);
        assert(tail.subrange(24 + k as int, 44 + k as int) =~= data@.subrange(
            from + 24 + k,
            from + 44 + k,
        ));
    }
    let vval = match read_dec20(data, from + 24 + k) {
        None => {
            return Err(Error::CorruptLog);
        },
        Some(v) => v,
    };
    if data[from + 44 + k] != SEP {
        proof {
            assert(tail[44 + k as int] == data@[from + 44 + k]);
        }
        return Err(Error::CorruptLog);
    }
    proof {
        assert(tail[44 + k as int] == data@[from + 44 + k]);
    }
    if vval > (len - from - 46 - k) as u128 {
        return Err(Error::CorruptLog);
    }
    let v = vval as usize;
    let vb = copy_range(data, from + 45 + k, from + 45 + k + v);
    proof {
        assert(tail.subrange(45 + k as int, 45 + k as int + v as int) =~= data@.subrange(
            from + 45 + k,
            from + 45 + k + v,
        ));
    }
    if data[from + 45 + k + v] != TERM {
        proof {
            assert(tail[45 + k as int + v as int] == data@[from + 45 + k + v]);
        }
        return Err(Error::CorruptLog);
    }
    proof {
        assert(tail[45 + k as int + v as int] == data@[from + 45 + k + v]);
    }
    let key = match string_from_utf8(kb) {
        None => {
            return Err(Error::CorruptLog);
        },
        Some(key) => key,
    };
    match string_from_utf8(vb) {
        None => Err(Error::CorruptLog),
        Some(val) => {
            proof {
                broadcast use encode_utf8_valid_utf8;
                broadcast use encode_utf8_decode_utf8;

                assert(valid_utf8(tail.subrange(23, 23 + k as int)));
                assert(valid_utf8(tail.subrange(45 + k as int, 45 + k as int + v as int)));
                assert(decode_utf8(tail.subrange(23, 23 + k as int)) == key@);
                assert(decode_utf8(tail.subrange(45 + k as int, 45 + k as int + v as int))
                    == val@);
            }
            Ok((key, val, 46 + k + v))
        },
    }
}

} // verus!
