//! The executable encoders: one for a whole request frame, one for a single
//! value, both verified to produce exactly the canonical bytes of
//! [`crate::format`].

use vstd::prelude::*;
use vstd::bytes::spec_u32_to_le_bytes;
use vstd::string::StrSliceExecFns;
use vstd::utf8::encode_utf8;
use crate::format::{arg_bytes, args_bytes_from, args_len_from, lemma_args_len_at,
    lemma_args_len_lower, lemma_models_wf_at, model_wf, models_wf_from, req_frame_bytes,
    req_total_len, val_bytes, vals_bytes_from};
use crate::value::{lemma_models_from_index, model_of, models_of, EncodeError, Value,
    MAX_FRAME_SIZE, TAG_ARRAY, TAG_ERROR, TAG_FLOAT, TAG_INTEGER, TAG_NIL, TAG_STRING};
use crate::wire::{push_u32_le, push_u64_le};

verus! {

/// Encodes one value into its canonical byte image: its tag byte, the
/// little-endian fixed fields of its variant, and its payload.  The same
/// value always encodes to the same bytes.
pub fn encode_value(v: &Value) -> (out: Vec<u8>)
    requires
        model_wf(model_of(*v)),
    ensures
        out@ == val_bytes(model_of(*v)),
    decreases v,
{
    match v {
        Value::Nil => {
            let mut out: Vec<u8> = Vec::new();
            out.push(TAG_NIL);
            proof {
                assert(out@ =~= val_bytes(model_of(*v)));
            }
            out
        },
        Value::Error { code, message } => {
            let mut out: Vec<u8> = Vec::new();
            out.push(TAG_ERROR);
            let bits: u32 = #[verifier::truncate] (*code as u32);
            push_u32_le(&mut out, bits);
            let mut mb = message.as_str().as_bytes_vec();
            push_u32_le(&mut out, mb.len() as u32);
            out.append(&mut mb);
            proof {
                assert(out@ =~= val_bytes(model_of(*v)));
            }
            out
        },
        Value::Str(s) => {
            let mut out: Vec<u8> = Vec::new();
            out.push(TAG_STRING);
            let mut sb = s.as_str().as_bytes_vec();
            push_u32_le(&mut out, sb.len() as u32);
            out.append(&mut sb);
            proof {
                assert(out@ =~= val_bytes(model_of(*v)));
            }
            out
        },
        Value::Int(i) => {
            let mut out: Vec<u8> = Vec::new();
            out.push(TAG_INTEGER);
            let bits: u64 = #[verifier::truncate] (*i as u64);
            push_u64_le(&mut out, bits);
            proof {
                assert(out@ =~= val_bytes(model_of(*v)));
            }
            out
        },
        Value::Float(bits) => {
            let mut out: Vec<u8> = Vec::new();
            out.push(TAG_FLOAT);
            push_u64_le(&mut out, *bits);
            proof {
                assert(out@ =~= val_bytes(model_of(*v)));
            }
            out
        },
        Value::Array(vs) => {
            let ghost ms = models_of(vs@);
            proof {
                lemma_models_from_index(vs@, 0);
            }
            let n = vs.len();
            let mut out: Vec<u8> = Vec::new();
            out.push(TAG_ARRAY);
            push_u32_le(&mut out, n as u32);
            let ghost header = out@;
            let mut k: usize = 0;
            while k < n
                invariant
                    *v == Value::Array(*vs),
                    vs@.len() == n,
                    ms == models_of(vs@),
                    ms.len() == n,
                    forall|j: int| 0 <= j < n ==> #[trigger] ms[j] == model_of(vs@[j]),
                    models_wf_from(ms, 0),
                    k <= n,
                    header + vals_bytes_from(ms, 0) == out@ + vals_bytes_from(ms, k as int),
                decreases n - k,
            {
                proof {
                    lemma_models_wf_at(ms, 0, k as int);
                    assert(decreases_to!(*v => v->Array_0));
                    assert(v->Array_0 == *vs);
                    assert(decreases_to!(*vs => vs@));
                    assert(decreases_to!(vs@ => vs@[k as int]));
                }
                let mut eb = encode_value(&vs[k]);
                proof {
                    assert(vals_bytes_from(ms, k as int) == val_bytes(ms[k as int])
                        + vals_bytes_from(ms, k + 1));
                    assert(out@ + (eb@ + vals_bytes_from(ms, k + 1)) =~= (out@ + eb@)
                        + vals_bytes_from(ms, k + 1));
                }
                out.append(&mut eb);
                k = k + 1;
            }
            proof {
                assert(vals_bytes_from(ms, n as int) =~= Seq::<u8>::empty());
                assert(out@ + Seq::<u8>::empty() =~= out@);
                assert(out@ =~= val_bytes(model_of(*v)));
            }
            out
        },
    }
}

/// Encodes a command into a request frame: `total_len`, the argument count,
/// then each argument's byte length and UTF-8 bytes, all little-endian.
/// Succeeds exactly when the frame's `total_len` fits under
/// [`MAX_FRAME_SIZE`]; an oversized command fails without producing any
/// bytes.  A command with no arguments still encodes a valid frame, and
/// empty-string arguments are valid.
pub fn encode_request(cmd: &Vec<String>) -> (r: Result<Vec<u8>, EncodeError>)
    ensures
        r is Ok ==> req_total_len(cmd.deep_view()) <= MAX_FRAME_SIZE && r->Ok_0@
            == req_frame_bytes(cmd.deep_view()),
        r is Err ==> req_total_len(cmd.deep_view()) > MAX_FRAME_SIZE && r->Err_0
            == EncodeError::FrameTooLarge,
{
    let ghost args = cmd.deep_view();
    let mut total: usize = 4;
    let mut idx: usize = 0;
    while idx < cmd.len()
        invariant
            args == cmd.deep_view(),
            args.len() == cmd@.len(),
            forall|j: int| 0 <= j < args.len() ==> #[trigger] args[j] == cmd@[j]@,
            idx <= cmd@.len(),
            4 <= total <= MAX_FRAME_SIZE,
            req_total_len(args) == total + args_len_from(args, idx as int),
        decreases cmd@.len() - idx,
    {
        let alen = cmd[idx].as_str().as_bytes().len();
        proof {
            assert(args_len_from(args, idx as int) == 4 + encode_utf8(args[idx as int]).len()
                + args_len_from(args, idx as int + 1));
        }
        if total > MAX_FRAME_SIZE - 4 || alen > MAX_FRAME_SIZE - 4 - total {
            proof {
                lemma_args_len_lower(args, idx as int + 1);
            }
            return Err(EncodeError::FrameTooLarge);
        }
        total = total + 4 + alen;
        idx = idx + 1;
    }
    let mut out: Vec<u8> = Vec::new();
    proof {
        lemma_args_len_lower(args, 0);
    }
    push_u32_le(&mut out, total as u32);
    push_u32_le(&mut out, cmd.len() as u32);
    let ghost header = out@;
    let mut k: usize = 0;
    while k < cmd.len()
        invariant
            args == cmd.deep_view(),
            args.len() == cmd@.len(),
            forall|j: int| 0 <= j < args.len() ==> #[trigger] args[j] == cmd@[j]@,
            k <= cmd@.len(),
            req_total_len(args) == total <= MAX_FRAME_SIZE,
            header + args_bytes_from(args, 0) == out@ + args_bytes_from(args, k as int),
        decreases cmd@.len() - k,
    {
        proof {
            lemma_args_len_at(args, 0, k as int);
        }
        let mut ab = cmd[k].as_str().as_bytes_vec();
        push_u32_le(&mut out, ab.len() as u32);
        proof {
            assert(args_bytes_from(args, k as int) == arg_bytes(args[k as int])
                + args_bytes_from(args, k + 1));
            assert(out@ + (spec_u32_to_le_bytes(ab@.len() as u32) + ab@ + args_bytes_from(
                args,
                k + 1,
            )) =~= (out@ + spec_u32_to_le_bytes(ab@.len() as u32) + ab@) + args_bytes_from(
                args,
                k + 1,
            ));
        }
        out.append(&mut ab);
        k = k + 1;
    }
    proof {
        assert(args_bytes_from(args, cmd@.len() as int) =~= Seq::<u8>::empty());
        assert(out@ =~= req_frame_bytes(args));
    }
    Ok(out)
}

} // verus!
