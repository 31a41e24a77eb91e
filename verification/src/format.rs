//! The wire format itself: the canonical byte image of a value, the byte
//! image of a request frame, and the specification-level decoder that the
//! executable decoder is verified against.

use vstd::prelude::*;
use vstd::bytes::{spec_u32_from_le_bytes, spec_u32_to_le_bytes, spec_u64_from_le_bytes,
    spec_u64_to_le_bytes};
use vstd::utf8::{decode_utf8, encode_utf8, valid_utf8};
use crate::value::{DecodeError, ValueModel, TAG_ARRAY, TAG_ERROR, TAG_FLOAT, TAG_INTEGER,
    TAG_NIL, TAG_STRING};
use crate::wire::{i32_of_bits, i64_of_bits, bits_of_i32, bits_of_i64};

verus! {

/// One more than the largest value a four-byte length or count field can
/// hold.
pub const FIELD_LIMIT: u64 = 0x1_0000_0000;

/// A value the wire format can carry: each string or message payload and
/// each element count must fit its four-byte field.
pub open spec fn model_wf(v: ValueModel) -> bool
    decreases v, 0int,
{
    match v {
        ValueModel::Nil => true,
        ValueModel::Error { code, message } => encode_utf8(message).len() < FIELD_LIMIT,
        ValueModel::Str(s) => encode_utf8(s).len() < FIELD_LIMIT,
        ValueModel::Int(_) => true,
        ValueModel::Float(_) => true,
        ValueModel::Array(vs) => vs.len() < FIELD_LIMIT && models_wf_from(vs, 0),
    }
}

/// Well-formedness of the elements of `vs` from position `i` on.
pub open spec fn models_wf_from(vs: Seq<ValueModel>, i: int) -> bool
    decreases vs, vs.len() - i,
{
    if 0 <= i < vs.len() {
        model_wf(vs[i]) && models_wf_from(vs, i + 1)
    } else {
        true
    }
}

/// The canonical encoding of `v`: its tag byte, the little-endian fixed
/// fields its variant declares, and its payload bytes.
pub open spec fn val_bytes(v: ValueModel) -> Seq<u8>
    decreases v, 0int,
{
    match v {
        ValueModel::Nil => seq![TAG_NIL],
        ValueModel::Error { code, message } => seq![TAG_ERROR]
            + spec_u32_to_le_bytes(bits_of_i32(code))
            + spec_u32_to_le_bytes(encode_utf8(message).len() as u32)
            + encode_utf8(message),
        ValueModel::Str(s) => seq![TAG_STRING]
            + spec_u32_to_le_bytes(encode_utf8(s).len() as u32)
            + encode_utf8(s),
        ValueModel::Int(i) => seq![TAG_INTEGER] + spec_u64_to_le_bytes(bits_of_i64(i)),
        ValueModel::Float(bits) => seq![TAG_FLOAT] + spec_u64_to_le_bytes(bits),
        ValueModel::Array(vs) => seq![TAG_ARRAY]
            + spec_u32_to_le_bytes(vs.len() as u32)
            + vals_bytes_from(vs, 0),
    }
}

/// The concatenated canonical encodings of the elements of `vs` from
/// position `i` on.
pub open spec fn vals_bytes_from(vs: Seq<ValueModel>, i: int) -> Seq<u8>
    decreases vs, vs.len() - i,
{
    if 0 <= i < vs.len() {
        val_bytes(vs[i]) + vals_bytes_from(vs, i + 1)
    } else {
        Seq::empty()
    }
}

/// Bytes of `b` that lie at or past the offset `off`.
pub open spec fn remaining(b: Seq<u8>, off: int) -> nat {
    if 0 <= off <= b.len() {
        (b.len() - off) as nat
    } else {
        0
    }
}

/// Decodes one value of `b` starting at offset `off`, yielding the value
/// and the number of bytes it occupied, or the first error encountered.
/// Every length is checked against the remaining bytes before any payload
/// is read, and a string or message payload must be valid UTF-8.
pub open spec fn spec_decode_at(b: Seq<u8>, off: int) -> Result<(ValueModel, nat), DecodeError>
    decreases remaining(b, off), 0nat,
{
    if !(0 <= off < b.len()) {
        Err(DecodeError::TruncatedInput)
    } else {
        let tag = b[off];
        if tag == TAG_NIL {
            Ok((ValueModel::Nil, 1nat))
        } else if tag == TAG_ERROR {
            if b.len() - off < 9 {
                Err(DecodeError::TruncatedInput)
            } else {
                let code = spec_u32_from_le_bytes(b.subrange(off + 1, off + 5));
                let mlen = spec_u32_from_le_bytes(b.subrange(off + 5, off + 9)) as int;
                if b.len() - off < 9 + mlen {
                    Err(DecodeError::TruncatedInput)
                } else {
                    let payload = b.subrange(off + 9, off + 9 + mlen);
                    if valid_utf8(payload) {
                        Ok((
                            ValueModel::Error {
                                code: i32_of_bits(code),
                                message: decode_utf8(payload),
                            },
                            (9 + mlen) as nat,
                        ))
                    } else {
                        Err(DecodeError::InvalidEncoding)
                    }
                }
            }
        } else if tag == TAG_STRING {
            if b.len() - off < 5 {
                Err(DecodeError::TruncatedInput)
            } else {
                let slen = spec_u32_from_le_bytes(b.subrange(off + 1, off + 5)) as int;
                if b.len() - off < 5 + slen {
                    Err(DecodeError::TruncatedInput)
                } else {
                    let payload = b.subrange(off + 5, off + 5 + slen);
                    if valid_utf8(payload) {
                        Ok((ValueModel::Str(decode_utf8(payload)), (5 + slen) as nat))
                    } else {
                        Err(DecodeError::InvalidEncoding)
                    }
                }
            }
        } else if tag == TAG_INTEGER {
            if b.len() - off < 9 {
                Err(DecodeError::TruncatedInput)
            } else {
                let bits = spec_u64_from_le_bytes(b.subrange(off + 1, off + 9));
                Ok((ValueModel::Int(i64_of_bits(bits)), 9nat))
            }
        } else if tag == TAG_FLOAT {
            if b.len() - off < 9 {
                Err(DecodeError::TruncatedInput)
            } else {
                let bits = spec_u64_from_le_bytes(b.subrange(off + 1, off + 9));
                Ok((ValueModel::Float(bits), 9nat))
            }
        } else if tag == TAG_ARRAY {
            if b.len() - off < 5 {
                Err(DecodeError::TruncatedInput)
            } else {
                let count = spec_u32_from_le_bytes(b.subrange(off + 1, off + 5));
                match spec_decode_children(b, off + 5, count as nat) {
                    Ok((vs, n)) => Ok((ValueModel::Array(vs), (5 + n) as nat)),
                    Err(e) => Err(e),
                }
            }
        } else {
            Err(DecodeError::UnknownTag)
        }
    }
}

/// Decodes `count` consecutive values of `b` starting at offset `off`,
/// yielding the values and the total number of bytes they occupied, or the
/// first child's error.
pub open spec fn spec_decode_children(b: Seq<u8>, off: int, count: nat) -> Result<
    (Seq<ValueModel>, nat),
    DecodeError,
>
    decreases remaining(b, off), count,
{
    if count == 0 {
        Ok((Seq::empty(), 0nat))
    } else if !(0 <= off <= b.len()) {
        Err(DecodeError::TruncatedInput)
    } else {
        match spec_decode_at(b, off) {
            Ok((v, n)) => match spec_decode_children(b, off + n, (count - 1) as nat) {
                Ok((vs, m)) => Ok((seq![v] + vs, n + m)),
                Err(e) => Err(e),
            },
            Err(e) => Err(e),
        }
    }
}

/// Prepends already-decoded items and their byte count to the outcome of
/// decoding the remaining items.
pub open spec fn decoded_prepend<T>(
    prefix: Seq<T>,
    used: nat,
    rest: Result<(Seq<T>, nat), DecodeError>,
) -> Result<(Seq<T>, nat), DecodeError> {
    match rest {
        Ok((vs, m)) => Ok((prefix + vs, used + m)),
        Err(e) => Err(e),
    }
}

/// Two prepends collapse into one.
pub proof fn lemma_decoded_prepend_assoc<T>(
    p1: Seq<T>,
    u1: nat,
    p2: Seq<T>,
    u2: nat,
    rest: Result<(Seq<T>, nat), DecodeError>,
)
    ensures
        decoded_prepend(p1, u1, decoded_prepend(p2, u2, rest)) == decoded_prepend(
            p1 + p2,
            u1 + u2,
            rest,
        ),
{
    match rest {
        Ok((vs, m)) => {
            assert(p1 + (p2 + vs) =~= (p1 + p2) + vs);
        },
        Err(_) => {},
    }
}

/// A well-formed sequence of values is well formed at each position.
pub proof fn lemma_models_wf_at(vs: Seq<ValueModel>, i: int, k: int)
    requires
        models_wf_from(vs, i),
        i <= k < vs.len(),
        0 <= i,
    ensures
        model_wf(vs[k]),
    decreases k - i,
{
    if i < k {
        lemma_models_wf_at(vs, i + 1, k);
    }
}

/// Decodes a whole response payload: exactly one value must start at offset
/// zero and consume every byte of the payload; leftover or missing bytes
/// are a frame mismatch.
pub open spec fn spec_decode_response(b: Seq<u8>) -> Result<ValueModel, DecodeError> {
    match spec_decode_at(b, 0) {
        Ok((v, n)) => if n == b.len() {
            Ok(v)
        } else {
            Err(DecodeError::FrameMismatch)
        },
        Err(e) => Err(e),
    }
}

/// The encoding of one request argument: its byte length as a little-endian
/// `u32`, then its UTF-8 bytes.
pub open spec fn arg_bytes(arg: Seq<char>) -> Seq<u8> {
    spec_u32_to_le_bytes(encode_utf8(arg).len() as u32) + encode_utf8(arg)
}

/// The concatenated encodings of the arguments from position `i` on.
pub open spec fn args_bytes_from(args: Seq<Seq<char>>, i: int) -> Seq<u8>
    decreases args.len() - i,
{
    if 0 <= i < args.len() {
        arg_bytes(args[i]) + args_bytes_from(args, i + 1)
    } else {
        Seq::empty()
    }
}

/// The byte length the arguments from position `i` on contribute to
/// `total_len`: four bytes of length field plus the UTF-8 bytes, per
/// argument.
pub open spec fn args_len_from(args: Seq<Seq<char>>, i: int) -> int
    decreases args.len() - i,
{
    if 0 <= i < args.len() {
        4 + encode_utf8(args[i]).len() + args_len_from(args, i + 1)
    } else {
        0
    }
}

/// Each argument contributes at least its four-byte length field.
pub proof fn lemma_args_len_lower(args: Seq<Seq<char>>, i: int)
    requires
        0 <= i <= args.len(),
    ensures
        args_len_from(args, i) >= 4 * (args.len() - i),
    decreases args.len() - i,
{
    if i < args.len() {
        lemma_args_len_lower(args, i + 1);
    }
}

/// The tail starting at `i` covers the length field and payload of every
/// argument at or past `i`.
pub proof fn lemma_args_len_at(args: Seq<Seq<char>>, i: int, k: int)
    requires
        0 <= i <= k < args.len(),
    ensures
        args_len_from(args, i) >= 4 + encode_utf8(args[k]).len(),
    decreases k - i,
{
    if i < k {
        lemma_args_len_at(args, i + 1, k);
        lemma_args_len_lower(args, i + 1);
        assert(args_len_from(args, i) == 4 + encode_utf8(args[i]).len() + args_len_from(
            args,
            i + 1,
        ));
    } else {
        lemma_args_len_lower(args, i + 1);
    }
}

/// A request frame's `total_len`: the byte length of everything after the
/// `total_len` field itself, that is four bytes of argument count plus each
/// argument's length field and payload.
pub open spec fn req_total_len(args: Seq<Seq<char>>) -> int {
    4 + args_len_from(args, 0)
}

/// The full byte image of the request frame for `args`: `total_len`, the
/// argument count, and each argument's length and payload, all little
/// endian.
pub open spec fn req_frame_bytes(args: Seq<Seq<char>>) -> Seq<u8> {
    spec_u32_to_le_bytes(req_total_len(args) as u32)
        + spec_u32_to_le_bytes(args.len() as u32)
        + args_bytes_from(args, 0)
}

/// The bytes of the arguments from position `i` on occupy exactly the
/// length they contribute to `total_len`.
pub proof fn lemma_args_bytes_len(args: Seq<Seq<char>>, i: int)
    requires
        0 <= i <= args.len(),
    ensures
        args_bytes_from(args, i).len() == args_len_from(args, i),
    decreases args.len() - i,
{
    if i < args.len() {
        lemma_args_bytes_len(args, i + 1);
        vstd::bytes::lemma_auto_spec_u32_to_from_le_bytes();
    }
}

/// Decodes `count` consecutive request arguments of `b` starting at offset
/// `off`: each is a four-byte little-endian length followed by that many
/// bytes of UTF-8.  Yields the arguments and the total number of bytes they
/// occupied, or the first error.
pub open spec fn spec_decode_args(b: Seq<u8>, off: int, count: nat) -> Result<
    (Seq<Seq<char>>, nat),
    DecodeError,
>
    decreases remaining(b, off), count,
{
    if count == 0 {
        Ok((Seq::empty(), 0nat))
    } else if !(0 <= off && off + 4 <= b.len()) {
        Err(DecodeError::TruncatedInput)
    } else {
        let alen = spec_u32_from_le_bytes(b.subrange(off, off + 4)) as int;
        if b.len() - off < 4 + alen {
            Err(DecodeError::TruncatedInput)
        } else {
            let payload = b.subrange(off + 4, off + 4 + alen);
            if valid_utf8(payload) {
                match spec_decode_args(b, off + 4 + alen, (count - 1) as nat) {
                    Ok((args, m)) => Ok(
                        (seq![decode_utf8(payload)] + args, (4 + alen + m) as nat),
                    ),
                    Err(e) => Err(e),
                }
            } else {
                Err(DecodeError::InvalidEncoding)
            }
        }
    }
}

/// Decodes a whole request frame back into its argument list.  The frame's
/// `total_len` must equal the bytes that follow it, and the declared
/// arguments must consume the frame exactly; either disagreement is a frame
/// mismatch.
pub open spec fn spec_decode_request(b: Seq<u8>) -> Result<Seq<Seq<char>>, DecodeError> {
    if b.len() < 8 {
        Err(DecodeError::TruncatedInput)
    } else if spec_u32_from_le_bytes(b.subrange(0, 4)) as int != b.len() - 4 {
        Err(DecodeError::FrameMismatch)
    } else {
        let argc = spec_u32_from_le_bytes(b.subrange(4, 8));
        match spec_decode_args(b, 8, argc as nat) {
            Ok((args, m)) => if 8 + m == b.len() {
                Ok(args)
            } else {
                Err(DecodeError::FrameMismatch)
            },
            Err(e) => Err(e),
        }
    }
}

} // verus!
