//! The executable value decoder, verified against the specification-level
//! decoder of [`crate::format`].

use vstd::prelude::*;
use vstd::slice::slice_subrange;
use vstd::utf8::{decode_utf8, valid_utf8};
use crate::format::{decoded_prepend, lemma_decoded_prepend_assoc, remaining, spec_decode_args,
    spec_decode_at, spec_decode_children, spec_decode_request, spec_decode_response};
use crate::value::{lemma_models_push, model_of, models_of, DecodeError, Value, ValueModel,
    TAG_ARRAY, TAG_ERROR, TAG_FLOAT, TAG_INTEGER, TAG_NIL, TAG_STRING};
use crate::wire::{read_u32_le, read_u64_le};

verus! {

/// Relies on `str::from_utf8` and `str::to_owned`: conversion succeeds
/// exactly on valid UTF-8 input, and the characters of the result are the
/// decoding of the input bytes.
#[verifier::external_body]
fn utf8_to_string(bytes: &[u8]) -> (r: Option<String>)
    ensures
        r is Some <==> valid_utf8(bytes@),
        r is Some ==> r->Some_0@ == decode_utf8(bytes@),
{
    match core::str::from_utf8(bytes) {
        Ok(s) => Some(s.to_owned()),
        Err(_) => None,
    }
}

/// The executable outcome `r` agrees with the specification decoder at
/// `off`: same value (up to view), same consumed-byte count, same error.
pub open spec fn decode_at_matches(
    b: Seq<u8>,
    off: int,
    r: Result<(Value, usize), DecodeError>,
) -> bool {
    match r {
        Ok((v, n)) => {
            &&& spec_decode_at(b, off) == Ok::<(ValueModel, nat), DecodeError>(
                (model_of(v), n as nat),
            )
            &&& 1 <= n
            &&& off + n <= b.len()
        },
        Err(e) => spec_decode_at(b, off) == Err::<(ValueModel, nat), DecodeError>(e),
    }
}

/// Parses exactly one value of `data` starting at offset `off` and reports
/// the number of bytes it occupied.  Every declared length is checked
/// against the bytes that remain before anything is read, so the function
/// never looks past the end of the buffer; its recursion depth is bounded
/// by the buffer's length, as every nesting level consumes at least five
/// bytes of array header.
pub fn decode_value(data: &Vec<u8>, off: usize) -> (r: Result<(Value, usize), DecodeError>)
    ensures
        decode_at_matches(data@, off as int, r),
    decreases remaining(data@, off as int),
{
    let len = data.len();
    if off >= len {
        return Err(DecodeError::TruncatedInput);
    }
    let tag = data[off];
    if tag == TAG_NIL {
        Ok((Value::Nil, 1))
    } else if tag == TAG_ERROR {
        if len - off < 9 {
            return Err(DecodeError::TruncatedInput);
        }
        let code_bits = read_u32_le(data, off + 1);
        let mlen = read_u32_le(data, off + 5) as usize;
        if mlen > len - off - 9 {
            return Err(DecodeError::TruncatedInput);
        }
        let payload = slice_subrange(data.as_slice(), off + 9, off + 9 + mlen);
        match utf8_to_string(payload) {
            Some(message) => {
                let code: i32 = #[verifier::truncate] (code_bits as i32);
                Ok((Value::Error { code, message }, 9 + mlen))
            },
            None => Err(DecodeError::InvalidEncoding),
        }
    } else if tag == TAG_STRING {
        if len - off < 5 {
            return Err(DecodeError::TruncatedInput);
        }
        let slen = read_u32_le(data, off + 1) as usize;
        if slen > len - off - 5 {
            return Err(DecodeError::TruncatedInput);
        }
        let payload = slice_subrange(data.as_slice(), off + 5, off + 5 + slen);
        match utf8_to_string(payload) {
            Some(s) => Ok((Value::Str(s), 5 + slen)),
            None => Err(DecodeError::InvalidEncoding),
        }
    } else if tag == TAG_INTEGER {
        if len - off < 9 {
            return Err(DecodeError::TruncatedInput);
        }
        let bits = read_u64_le(data, off + 1);
        let n: i64 = #[verifier::truncate] (bits as i64);
        Ok((Value::Int(n), 9))
    } else if tag == TAG_FLOAT {
        if len - off < 9 {
            return Err(DecodeError::TruncatedInput);
        }
        let bits = read_u64_le(data, off + 1);
        Ok((Value::Float(bits), 9))
    } else if tag == TAG_ARRAY {
        if len - off < 5 {
            return Err(DecodeError::TruncatedInput);
        }
        let count = read_u32_le(data, off + 1);
        let ghost whole = spec_decode_children(data@, off + 5, count as nat);
        let mut elems: Vec<Value> = Vec::new();
        let mut cur: usize = off + 5;
        let mut k: u32 = 0;
        while k < count
            invariant
                data@.len() == len,
                off < len,
                5 <= len - off,
                data@[off as int] == TAG_ARRAY,
                count == vstd::bytes::spec_u32_from_le_bytes(
                    data@.subrange(off + 1, off + 5),
                ),
                off + 5 <= cur <= len,
                k <= count,
                elems@.len() == k,
                whole == spec_decode_children(data@, off + 5, count as nat),
                whole == decoded_prepend(
                    models_of(elems@),
                    (cur - off - 5) as nat,
                    spec_decode_children(data@, cur as int, (count - k) as nat),
                ),
            decreases count - k,
        {
            let ghost elems0 = elems;
            let ghost cur0 = cur;
            match decode_value(data, cur) {
                Ok((v, n)) => {
                    proof {
                        assert(spec_decode_children(data@, cur0 as int, (count - k) as nat)
                            == decoded_prepend(
                                seq![model_of(v)],
                                n as nat,
                                spec_decode_children(
                                    data@,
                                    cur0 + n,
                                    (count - k - 1) as nat,
                                ),
                            ));
                        lemma_decoded_prepend_assoc(
                            models_of(elems0@),
                            (cur0 - off - 5) as nat,
                            seq![model_of(v)],
                            n as nat,
                            spec_decode_children(data@, cur0 + n, (count - k - 1) as nat),
                        );
                    }
                    elems.push(v);
                    cur = cur + n;
                    k = k + 1;
                    proof {
                        lemma_models_push(elems@, elems0@, v);
                    }
                },
                Err(e) => {
                    proof {
                        assert(spec_decode_children(data@, cur as int, (count - k) as nat)
                            == Err::<(Seq<ValueModel>, nat), DecodeError>(e));
                    }
                    return Err(e);
                },
            }
        }
        proof {
            assert(spec_decode_children(data@, cur as int, 0) == Ok::<(Seq<ValueModel>, nat),
                DecodeError>((Seq::empty(), 0nat)));
            assert(models_of(elems@) + Seq::<ValueModel>::empty() =~= models_of(elems@));
            assert(whole == Ok::<(Seq<ValueModel>, nat), DecodeError>(
                (models_of(elems@), (cur - off - 5) as nat),
            ));
        }
        Ok((Value::Array(elems), cur - off))
    } else {
        Err(DecodeError::UnknownTag)
    }
}

/// The executable outcome `r` agrees with the specification decoder on a
/// whole payload.
pub open spec fn decode_response_matches(b: Seq<u8>, r: Result<Value, DecodeError>) -> bool {
    match r {
        Ok(v) => spec_decode_response(b) == Ok::<ValueModel, DecodeError>(model_of(v)),
        Err(e) => spec_decode_response(b) == Err::<ValueModel, DecodeError>(e),
    }
}

/// Decodes a whole response payload (without its outer length field) into
/// one value.  The value must start at offset zero and consume every byte
/// of the payload: leftover or missing bytes fail with `FrameMismatch`,
/// which tells a frame whose outer length disagrees with its structure
/// apart from a payload that is structurally malformed.
pub fn decode_response(payload: &Vec<u8>) -> (r: Result<Value, DecodeError>)
    ensures
        decode_response_matches(payload@, r),
{
    match decode_value(payload, 0) {
        Ok((v, n)) => {
            if n == payload.len() {
                Ok(v)
            } else {
                Err(DecodeError::FrameMismatch)
            }
        },
        Err(e) => Err(e),
    }
}

/// The executable outcome `r` agrees with the specification request
/// decoder on a whole frame.
pub open spec fn decode_request_matches(b: Seq<u8>, r: Result<Vec<String>, DecodeError>) -> bool {
    match r {
        Ok(args) => spec_decode_request(b) == Ok::<Seq<Seq<char>>, DecodeError>(args.deep_view()),
        Err(e) => spec_decode_request(b) == Err::<Seq<Seq<char>>, DecodeError>(e),
    }
}

/// Decodes a request frame back into its argument list: the inverse of the
/// frame encoder.  The frame's `total_len` must match the bytes that follow
/// it, and the declared arguments must consume the frame exactly; either
/// disagreement fails with `FrameMismatch`.
pub fn decode_request(frame: &Vec<u8>) -> (r: Result<Vec<String>, DecodeError>)
    ensures
        decode_request_matches(frame@, r),
{
    let len = frame.len();
    if len < 8 {
        return Err(DecodeError::TruncatedInput);
    }
    let total = read_u32_le(frame, 0) as usize;
    if total != len - 4 {
        return Err(DecodeError::FrameMismatch);
    }
    let argc = read_u32_le(frame, 4);
    let ghost whole = spec_decode_args(frame@, 8, argc as nat);
    let mut args: Vec<String> = Vec::new();
    let mut cur: usize = 8;
    let mut k: u32 = 0;
    while k < argc
        invariant
            frame@.len() == len,
            8 <= len,
            vstd::bytes::spec_u32_from_le_bytes(frame@.subrange(0, 4)) as int == len - 4,
            argc == vstd::bytes::spec_u32_from_le_bytes(frame@.subrange(4, 8)),
            8 <= cur <= len,
            k <= argc,
            args@.len() == k,
            whole == spec_decode_args(frame@, 8, argc as nat),
            whole == decoded_prepend(
                args.deep_view(),
                (cur - 8) as nat,
                spec_decode_args(frame@, cur as int, (argc - k) as nat),
            ),
        decreases argc - k,
    {
        let ghost args0 = args;
        let ghost cur0 = cur;
        if len - cur < 4 {
            proof {
                assert(spec_decode_args(frame@, cur as int, (argc - k) as nat)
                    == Err::<(Seq<Seq<char>>, nat), DecodeError>(DecodeError::TruncatedInput));
            }
            return Err(DecodeError::TruncatedInput);
        }
        let alen = read_u32_le(frame, cur) as usize;
        if alen > len - cur - 4 {
            proof {
                assert(spec_decode_args(frame@, cur as int, (argc - k) as nat)
                    == Err::<(Seq<Seq<char>>, nat), DecodeError>(DecodeError::TruncatedInput));
            }
            return Err(DecodeError::TruncatedInput);
        }
        let payload = slice_subrange(frame.as_slice(), cur + 4, cur + 4 + alen);
        match utf8_to_string(payload) {
            Some(s) => {
                let ghost sv = s@;
                proof {
                    assert(spec_decode_args(frame@, cur0 as int, (argc - k) as nat)
                        == decoded_prepend(
                            seq![sv],
                            (4 + alen) as nat,
                            spec_decode_args(frame@, cur0 + 4 + alen, (argc - k - 1) as nat),
                        ));
                    lemma_decoded_prepend_assoc(
                        args0.deep_view(),
                        (cur0 - 8) as nat,
                        seq![sv],
                        (4 + alen) as nat,
                        spec_decode_args(frame@, cur0 + 4 + alen, (argc - k - 1) as nat),
                    );
                }
                args.push(s);
                cur = cur + 4 + alen;
                k = k + 1;
                proof {
                    assert(args.deep_view() =~= args0.deep_view() + seq![sv]);
                }
            },
            None => {
                proof {
                    assert(spec_decode_args(frame@, cur as int, (argc - k) as nat)
                        == Err::<(Seq<Seq<char>>, nat), DecodeError>(DecodeError::InvalidEncoding));
                }
                return Err(DecodeError::InvalidEncoding);
            },
        }
    }
    proof {
        assert(spec_decode_args(frame@, cur as int, 0nat) == Ok::<(Seq<Seq<char>>, nat),
            DecodeError>((Seq::empty(), 0nat)));
        assert(args.deep_view() + Seq::<Seq<char>>::empty() =~= args.deep_view());
        assert(whole == Ok::<(Seq<Seq<char>>, nat), DecodeError>(
            (args.deep_view(), (cur - 8) as nat),
        ));
    }
    if cur == len {
        Ok(args)
    } else {
        Err(DecodeError::FrameMismatch)
    }
}

} // verus!
