//! The codec's laws: canonical bytes decode back to the value they encode,
//! whole payloads round-trip, and decoding is a pure function of the
//! payload.

use vstd::prelude::*;
use vstd::bytes::{spec_u32_from_le_bytes, spec_u32_to_le_bytes, spec_u64_to_le_bytes};
use vstd::utf8::{encode_utf8, encode_utf8_decode_utf8, encode_utf8_valid_utf8};
use crate::format::{args_bytes_from, args_len_from, lemma_args_bytes_len,
    lemma_args_len_lower, model_wf, models_wf_from, spec_decode_args, spec_decode_at,
    spec_decode_children, spec_decode_request, spec_decode_response, req_frame_bytes,
    req_total_len, val_bytes, vals_bytes_from, FIELD_LIMIT};
use crate::decode::decode_response_matches;
use crate::value::{model_of, DecodeError, Value, ValueModel, MAX_FRAME_SIZE, TAG_ARRAY,
    TAG_ERROR, TAG_FLOAT, TAG_INTEGER, TAG_NIL, TAG_STRING};
use crate::wire::{lemma_i32_bits_round_trip, lemma_i64_bits_round_trip, lemma_u32_le_round_trip,
    lemma_u64_le_round_trip, bits_of_i32, bits_of_i64};

verus! {

/// A slice of a slice of `b` is the matching slice of the inner bytes.
proof fn lemma_subrange_piece(b: Seq<u8>, off: int, enc: Seq<u8>, a: int, c: int)
    requires
        0 <= off,
        off + enc.len() <= b.len(),
        b.subrange(off, off + enc.len()) == enc,
        0 <= a <= c <= enc.len(),
    ensures
        b.subrange(off + a, off + c) == enc.subrange(a, c),
{
    assert forall|j: int| 0 <= j < c - a implies b.subrange(off + a, off + c)[j] == enc.subrange(
        a,
        c,
    )[j] by {
        assert(enc[a + j] == b.subrange(off, off + enc.len())[a + j]);
    }
    assert(b.subrange(off + a, off + c) =~= enc.subrange(a, c));
}

/// The canonical encoding of a well-formed value always decodes back to
/// that value, wherever it sits in a larger buffer, consuming exactly its
/// own bytes.
pub proof fn lemma_decode_val_bytes(b: Seq<u8>, off: int, v: ValueModel)
    requires
        model_wf(v),
        0 <= off,
        off + val_bytes(v).len() <= b.len(),
        b.subrange(off, off + val_bytes(v).len()) == val_bytes(v),
    ensures
        spec_decode_at(b, off) == Ok::<(ValueModel, nat), DecodeError>(
            (v, val_bytes(v).len() as nat),
        ),
    decreases v, 0int,
{
    let enc = val_bytes(v);
    assert(b[off] == enc[0]) by {
        assert(b.subrange(off, off + enc.len())[0] == enc[0]);
    }
    match v {
        ValueModel::Nil => {
            assert(enc[0] == TAG_NIL);
        },
        ValueModel::Error { code, message } => {
            let cb = spec_u32_to_le_bytes(bits_of_i32(code));
            let mb = encode_utf8(message);
            let lb = spec_u32_to_le_bytes(mb.len() as u32);
            lemma_u32_le_round_trip(bits_of_i32(code));
            lemma_u32_le_round_trip(mb.len() as u32);
            assert(enc =~= seq![TAG_ERROR] + cb + lb + mb);
            assert(enc.subrange(1, 5) =~= cb);
            assert(enc.subrange(5, 9) =~= lb);
            assert(enc.subrange(9, 9 + mb.len() as int) =~= mb);
            lemma_subrange_piece(b, off, enc, 1, 5);
            lemma_subrange_piece(b, off, enc, 5, 9);
            lemma_subrange_piece(b, off, enc, 9, 9 + mb.len() as int);
            lemma_i32_bits_round_trip(code);
            encode_utf8_valid_utf8(message);
            encode_utf8_decode_utf8(message);
            assert(spec_u32_from_le_bytes(b.subrange(off + 5, off + 9)) == mb.len() as u32);
            assert(b.len() - off >= 9 + mb.len());
        },
        ValueModel::Str(s) => {
            let sb = encode_utf8(s);
            let lb = spec_u32_to_le_bytes(sb.len() as u32);
            lemma_u32_le_round_trip(sb.len() as u32);
            assert(enc =~= seq![TAG_STRING] + lb + sb);
            assert(enc.subrange(1, 5) =~= lb);
            assert(enc.subrange(5, 5 + sb.len() as int) =~= sb);
            lemma_subrange_piece(b, off, enc, 1, 5);
            lemma_subrange_piece(b, off, enc, 5, 5 + sb.len() as int);
            encode_utf8_valid_utf8(s);
            encode_utf8_decode_utf8(s);
            assert(spec_u32_from_le_bytes(b.subrange(off + 1, off + 5)) == sb.len() as u32);
            assert(b.len() - off >= 5 + sb.len());
        },
        ValueModel::Int(i) => {
            let ib = spec_u64_to_le_bytes(bits_of_i64(i));
            lemma_u64_le_round_trip(bits_of_i64(i));
            assert(enc =~= seq![TAG_INTEGER] + ib);
            assert(enc.subrange(1, 9) =~= ib);
            lemma_subrange_piece(b, off, enc, 1, 9);
            lemma_i64_bits_round_trip(i);
        },
        ValueModel::Float(bits) => {
            let fb = spec_u64_to_le_bytes(bits);
            lemma_u64_le_round_trip(bits);
            assert(enc =~= seq![TAG_FLOAT] + fb);
            assert(enc.subrange(1, 9) =~= fb);
            lemma_subrange_piece(b, off, enc, 1, 9);
        },
        ValueModel::Array(vs) => {
            let cb = spec_u32_to_le_bytes(vs.len() as u32);
            let body = vals_bytes_from(vs, 0);
            lemma_u32_le_round_trip(vs.len() as u32);
            assert(enc =~= seq![TAG_ARRAY] + cb + body);
            assert(enc.subrange(1, 5) =~= cb);
            assert(enc.subrange(5, 5 + body.len() as int) =~= body);
            lemma_subrange_piece(b, off, enc, 1, 5);
            lemma_subrange_piece(b, off, enc, 5, 5 + body.len() as int);
            assert(spec_u32_from_le_bytes(b.subrange(off + 1, off + 5)) == vs.len() as u32);
            lemma_decode_children_bytes(b, off + 5, vs, 0);
            assert(vs.subrange(0, vs.len() as int) =~= vs);
        },
    }
}

/// The concatenated canonical encodings of the values of `vs` from position
/// `i` on decode back to exactly those values.
proof fn lemma_decode_children_bytes(b: Seq<u8>, off: int, vs: Seq<ValueModel>, i: int)
    requires
        models_wf_from(vs, i),
        0 <= i <= vs.len(),
        0 <= off,
        off + vals_bytes_from(vs, i).len() <= b.len(),
        b.subrange(off, off + vals_bytes_from(vs, i).len()) == vals_bytes_from(vs, i),
    ensures
        spec_decode_children(b, off, (vs.len() - i) as nat) == Ok::<(Seq<ValueModel>, nat),
            DecodeError>((vs.subrange(i, vs.len() as int), vals_bytes_from(vs, i).len() as nat)),
    decreases vs, vs.len() - i,
{
    let enc = vals_bytes_from(vs, i);
    if i == vs.len() {
        assert(vs.subrange(i, vs.len() as int) =~= Seq::<ValueModel>::empty());
        assert(enc =~= Seq::<u8>::empty());
    } else {
        let head = val_bytes(vs[i]);
        let tail = vals_bytes_from(vs, i + 1);
        assert(enc == head + tail);
        assert(enc.subrange(0, head.len() as int) =~= head);
        assert(enc.subrange(head.len() as int, enc.len() as int) =~= tail);
        lemma_subrange_piece(b, off, enc, 0, head.len() as int);
        lemma_subrange_piece(b, off, enc, head.len() as int, enc.len() as int);
        lemma_decode_val_bytes(b, off, vs[i]);
        lemma_decode_children_bytes(b, off + head.len(), vs, i + 1);
        assert(seq![vs[i]] + vs.subrange(i + 1, vs.len() as int) =~= vs.subrange(
            i,
            vs.len() as int,
        ));
    }
}

/// Round trip: decoding the canonical byte image of any well-formed value
/// as a whole payload yields exactly that value.
pub proof fn lemma_value_round_trip(v: ValueModel)
    requires
        model_wf(v),
    ensures
        spec_decode_response(val_bytes(v)) == Ok::<ValueModel, DecodeError>(v),
{
    let b = val_bytes(v);
    assert(b.subrange(0, b.len() as int) =~= b);
    lemma_decode_val_bytes(b, 0, v);
}

/// The concatenated encodings of the arguments from position `i` on decode
/// back to exactly those arguments.
proof fn lemma_decode_args_bytes(b: Seq<u8>, off: int, args: Seq<Seq<char>>, i: int)
    requires
        0 <= i <= args.len(),
        0 <= off,
        off + args_bytes_from(args, i).len() <= b.len(),
        b.subrange(off, off + args_bytes_from(args, i).len()) == args_bytes_from(args, i),
        args_len_from(args, i) < FIELD_LIMIT,
    ensures
        spec_decode_args(b, off, (args.len() - i) as nat) == Ok::<(Seq<Seq<char>>, nat),
            DecodeError>(
            (args.subrange(i, args.len() as int), args_bytes_from(args, i).len() as nat),
        ),
    decreases args.len() - i,
{
    let enc = args_bytes_from(args, i);
    if i == args.len() {
        assert(args.subrange(i, args.len() as int) =~= Seq::<Seq<char>>::empty());
        assert(enc =~= Seq::<u8>::empty());
    } else {
        let ab = encode_utf8(args[i]);
        let lb = spec_u32_to_le_bytes(ab.len() as u32);
        let tail = args_bytes_from(args, i + 1);
        lemma_u32_le_round_trip(ab.len() as u32);
        lemma_args_bytes_len(args, i + 1);
        lemma_args_len_lower(args, i + 1);
        assert(enc =~= lb + ab + tail);
        assert(enc.subrange(0, 4) =~= lb);
        assert(enc.subrange(4, 4 + ab.len() as int) =~= ab);
        assert(enc.subrange(4 + ab.len() as int, enc.len() as int) =~= tail);
        lemma_subrange_piece(b, off, enc, 0, 4);
        lemma_subrange_piece(b, off, enc, 4, 4 + ab.len() as int);
        lemma_subrange_piece(b, off, enc, 4 + ab.len() as int, enc.len() as int);
        encode_utf8_valid_utf8(args[i]);
        encode_utf8_decode_utf8(args[i]);
        assert(spec_u32_from_le_bytes(b.subrange(off, off + 4)) == ab.len() as u32);
        lemma_decode_args_bytes(b, off + 4 + ab.len(), args, i + 1);
        assert(seq![args[i]] + args.subrange(i + 1, args.len() as int) =~= args.subrange(
            i,
            args.len() as int,
        ));
    }
}

/// Round trip: the request frame encoded for any command whose `total_len`
/// fits under the frame cap decodes back to exactly that command's argument
/// list, zero arguments and empty-string arguments included.
pub proof fn lemma_request_round_trip(args: Seq<Seq<char>>)
    requires
        req_total_len(args) <= MAX_FRAME_SIZE,
    ensures
        spec_decode_request(req_frame_bytes(args)) == Ok::<Seq<Seq<char>>, DecodeError>(args),
{
    let total = req_total_len(args);
    lemma_args_len_lower(args, 0);
    lemma_args_bytes_len(args, 0);
    let tb = spec_u32_to_le_bytes(total as u32);
    let hb = spec_u32_to_le_bytes(args.len() as u32);
    let body = args_bytes_from(args, 0);
    let b = req_frame_bytes(args);
    lemma_u32_le_round_trip(total as u32);
    lemma_u32_le_round_trip(args.len() as u32);
    assert(b == tb + hb + body);
    assert(b.len() == 4 + total);
    assert(b.subrange(0, b.len() as int) =~= b);
    assert(b.subrange(0, 4) =~= tb);
    assert(b.subrange(4, 8) =~= hb);
    assert(b.subrange(8, b.len() as int) =~= body);
    assert(4 * args.len() <= total - 4);
    lemma_decode_args_bytes(b, 8, args, 0);
    assert(args.subrange(0, args.len() as int) =~= args);
}

/// The combined byte size of the encodings of the elements of `vs` from
/// position `i` on.
pub open spec fn encoded_sizes_from(vs: Seq<ValueModel>, i: int) -> int
    decreases vs.len() - i,
{
    if 0 <= i < vs.len() {
        val_bytes(vs[i]).len() + encoded_sizes_from(vs, i + 1)
    } else {
        0
    }
}

/// The concatenated encodings occupy exactly the sum of their sizes.
proof fn lemma_vals_bytes_len(vs: Seq<ValueModel>, i: int)
    requires
        0 <= i <= vs.len(),
    ensures
        vals_bytes_from(vs, i).len() == encoded_sizes_from(vs, i),
    decreases vs.len() - i,
{
    if i < vs.len() {
        lemma_vals_bytes_len(vs, i + 1);
    }
}

/// An array's total encoded size is five bytes of tag and count plus the
/// sum of its elements' encoded sizes, for any depth of nesting.
pub proof fn lemma_array_encoded_size(vs: Seq<ValueModel>)
    ensures
        val_bytes(ValueModel::Array(vs)).len() == 5 + encoded_sizes_from(vs, 0),
{
    lemma_u32_le_round_trip(vs.len() as u32);
    lemma_vals_bytes_len(vs, 0);
}

/// Idempotence: any two outcomes that satisfy `decode_response`'s
/// contract on the same payload agree, so decoding a payload twice yields
/// structurally equal values, or the same error twice.
pub proof fn lemma_decode_idempotent(
    b: Seq<u8>,
    r1: Result<Value, DecodeError>,
    r2: Result<Value, DecodeError>,
)
    requires
        decode_response_matches(b, r1),
        decode_response_matches(b, r2),
    ensures
        match (r1, r2) {
            (Ok(v1), Ok(v2)) => model_of(v1) == model_of(v2),
            (Err(e1), Err(e2)) => e1 == e2,
            _ => false,
        },
{
}

} // verus!
