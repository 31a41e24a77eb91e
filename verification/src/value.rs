//! The decoded response value, its ghost model, and the codec's error types.

use vstd::prelude::*;

verus! {

/// Upper bound, in bytes, on one frame: a request's `total_len` may not
/// exceed it, and the transport rejects any declared response length above
/// it before the payload ever reaches the decoder.
pub const MAX_FRAME_SIZE: usize = 4096;

/// Tag byte of a nil value.
pub const TAG_NIL: u8 = 0;

/// Tag byte of an error value.
pub const TAG_ERROR: u8 = 1;

/// Tag byte of a string value.
pub const TAG_STRING: u8 = 2;

/// Tag byte of an integer value.
pub const TAG_INTEGER: u8 = 3;

/// Tag byte of a float value.
pub const TAG_FLOAT: u8 = 4;

/// Tag byte of an array value.
pub const TAG_ARRAY: u8 = 5;

/// Why encoding a request failed.
#[derive(Clone, Copy, Debug, PartialEq, Eq, Structural)]
pub enum EncodeError {
    /// The command's `total_len` would exceed [`MAX_FRAME_SIZE`].
    FrameTooLarge,
}

/// Why decoding a response payload failed.
#[derive(Clone, Copy, Debug, PartialEq, Eq, Structural)]
pub enum DecodeError {
    /// Fewer bytes remain than the current value's header and declared
    /// payload require.
    TruncatedInput,
    /// The leading byte of a value matches none of the six defined tags.
    UnknownTag,
    /// A string or error-message payload is not valid UTF-8.
    InvalidEncoding,
    /// Every value parsed, but the payload's length disagrees with the
    /// number of bytes the top-level value consumed.
    FrameMismatch,
}

/// One decoded response value: a recursive tagged union.
///
/// A float is carried as the raw bits of its IEEE 754 double-precision
/// little-endian payload; callers that want the numeric value convert with
/// `f64::from_bits` outside the library.
#[derive(Debug, PartialEq)]
pub enum Value {
    /// Tag 0: no payload.
    Nil,
    /// Tag 1: a status code and a UTF-8 message.
    Error { code: i32, message: String },
    /// Tag 2: a UTF-8 string.
    Str(String),
    /// Tag 3: a signed 64-bit integer.
    Int(i64),
    /// Tag 4: the bits of a 64-bit IEEE 754 float.
    Float(u64),
    /// Tag 5: a counted sequence of values, each of any variant.
    Array(Vec<Value>),
}

/// The ghost shape of a [`Value`]: strings as character sequences, arrays
/// as sequences of ghost values.  Contracts speak of values through this
/// model.
pub enum ValueModel {
    Nil,
    Error { code: i32, message: Seq<char> },
    Str(Seq<char>),
    Int(i64),
    Float(u64),
    Array(Seq<ValueModel>),
}

/// The ghost model of one value.
pub open spec fn model_of(v: Value) -> ValueModel
    decreases v, 0int,
{
    match v {
        Value::Nil => ValueModel::Nil,
        Value::Error { code, message } => ValueModel::Error { code, message: message@ },
        Value::Str(s) => ValueModel::Str(s@),
        Value::Int(i) => ValueModel::Int(i),
        Value::Float(bits) => ValueModel::Float(bits),
        Value::Array(vs) => ValueModel::Array(models_from(vs@, 0)),
    }
}

/// The ghost models of the values of `vs` from position `i` on.
pub open spec fn models_from(vs: Seq<Value>, i: int) -> Seq<ValueModel>
    decreases vs, vs.len() - i,
{
    if 0 <= i < vs.len() {
        seq![model_of(vs[i])] + models_from(vs, i + 1)
    } else {
        Seq::empty()
    }
}

/// The ghost models of all the values of `vs`.
pub open spec fn models_of(vs: Seq<Value>) -> Seq<ValueModel> {
    models_from(vs, 0)
}

impl View for Value {
    type V = ValueModel;

    open spec fn view(&self) -> ValueModel {
        model_of(*self)
    }
}

/// From position `i` on, `models_from` has one model per value, in order.
pub proof fn lemma_models_from_index(vs: Seq<Value>, i: int)
    requires
        0 <= i <= vs.len(),
    ensures
        models_from(vs, i).len() == vs.len() - i,
        forall|j: int|
            0 <= j < vs.len() - i ==> #[trigger] models_from(vs, i)[j] == model_of(vs[i + j]),
    decreases vs.len() - i,
{
    if i < vs.len() {
        lemma_models_from_index(vs, i + 1);
    }
}

/// Pushing a value onto a vector appends its model to the vector's models.
pub proof fn lemma_models_push(a: Seq<Value>, b: Seq<Value>, x: Value)
    requires
        a == b.push(x),
    ensures
        models_of(a) == models_of(b) + seq![model_of(x)],
{
    lemma_models_from_index(a, 0);
    lemma_models_from_index(b, 0);
    assert(models_of(a) =~= models_of(b) + seq![model_of(x)]);
}

} // verus!
