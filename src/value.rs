use vstd::prelude::*;
use vstd::utf8::encode_utf8;

verus! {

broadcast use vstd::std_specs::vec::group_vec_axioms;

/// A value of the format.
///
/// `F64` holds the IEEE-754 binary64 bit pattern of the number, so that the
/// model carries no floating point (`f64::to_bits` / `f64::from_bits` convert).
/// A well-formed value (`well_formed`) keeps object entries in strictly
/// increasing key order: numeric for `U64Object`, lexicographic over the UTF-8
/// bytes for `CharSeqObject`. The builder and the decoder only make
/// well-formed values, the encoder requires one, and `is_well_formed` checks
/// a value built by hand.
#[derive(Debug, PartialEq)]
pub enum Value {
    U64(u64),
    F64(u64),
    CharSeq(String),
    U64Object(Vec<(u64, Value)>),
    CharSeqObject(Vec<(String, Value)>),
}

/// The mathematical meaning of a `Value`: the same tree with text as
/// `Seq<char>` and entry lists as `Seq`.
pub enum Model {
    U64(u64),
    F64(u64),
    CharSeq(Seq<char>),
    U64Object(Seq<(u64, Model)>),
    CharSeqObject(Seq<(Seq<char>, Model)>),
}

impl Value {
    /// The model of this value.
    pub open spec fn model(self) -> Model
        decreases self, 1nat,
    {
        match self {
            Value::U64(n) => Model::U64(n),
            Value::F64(b) => Model::F64(b),
            Value::CharSeq(s) => Model::CharSeq(s@),
            Value::U64Object(es) => Model::U64Object(u64_entries_model(es@)),
            Value::CharSeqObject(es) => Model::CharSeqObject(text_entries_model(es@)),
        }
    }
}

/// The model of the entries of a `U64Object`.
pub open spec fn u64_entries_model(es: Seq<(u64, Value)>) -> Seq<(u64, Model)>
    decreases es, 0nat,
{
    Seq::new(
        es.len(),
        |i: int|
            if 0 <= i < es.len() {
                (es[i].0, es[i].1.model())
            } else {
                arbitrary()
            },
    )
}

/// The model of the entries of a `CharSeqObject`.
pub open spec fn text_entries_model(es: Seq<(String, Value)>) -> Seq<(Seq<char>, Model)>
    decreases es, 0nat,
{
    Seq::new(
        es.len(),
        |i: int|
            if 0 <= i < es.len() {
                (es[i].0@, es[i].1.model())
            } else {
                arbitrary()
            },
    )
}

/// Strict lexicographic order on byte strings (a proper prefix comes first).
pub open spec fn bytes_lt(a: Seq<u8>, b: Seq<u8>) -> bool
    decreases a.len(),
{
    if a.len() == 0 {
        b.len() > 0
    } else if b.len() == 0 {
        false
    } else if a[0] != b[0] {
        a[0] < b[0]
    } else {
        bytes_lt(a.drop_first(), b.drop_first())
    }
}

/// The order of `U64Object` keys.
pub open spec fn u64_order() -> spec_fn(u64, u64) -> bool {
    |a: u64, b: u64| a < b
}

/// The order of `CharSeqObject` keys: byte order of their UTF-8 encodings.
pub open spec fn text_order() -> spec_fn(Seq<char>, Seq<char>) -> bool {
    |a: Seq<char>, b: Seq<char>| bytes_lt(encode_utf8(a), encode_utf8(b))
}

/// Entry keys strictly increasing under `lt`.
pub open spec fn sorted_by<K>(es: Seq<(K, Model)>, lt: spec_fn(K, K) -> bool) -> bool {
    forall|i: int, j: int| 0 <= i < j < es.len() ==> lt(es[i].0, es[j].0)
}

/// A text whose UTF-8 length can be written as a `u64` prefix.
pub open spec fn text_fits(s: Seq<char>) -> bool {
    encode_utf8(s).len() <= u64::MAX
}

/// Well-formedness of a model: objects keep their keys unique and in order,
/// and every text fits the length prefix.
pub open spec fn well_formed(m: Model) -> bool
    decreases m,
{
    match m {
        Model::CharSeq(s) => text_fits(s),
        Model::U64Object(es) => sorted_by(es, u64_order()) && forall|i: int|
            0 <= i < es.len() ==> well_formed(#[trigger] es[i].1),
        Model::CharSeqObject(es) => sorted_by(es, text_order()) && forall|i: int|
            0 <= i < es.len() ==> text_fits(es[i].0) && well_formed(#[trigger] es[i].1),
        _ => true,
    }
}

/// Objects in `m` nest no deeper than the decoder accepts, `m` itself
/// standing inside `d` objects.
pub open spec fn nests_within(m: Model, d: nat) -> bool
    decreases m,
{
    match m {
        Model::U64Object(es) => d < crate::wire::MAX_DEPTH && forall|i: int|
            0 <= i < es.len() ==> nests_within(#[trigger] es[i].1, d + 1),
        Model::CharSeqObject(es) => d < crate::wire::MAX_DEPTH && forall|i: int|
            0 <= i < es.len() ==> nests_within(#[trigger] es[i].1, d + 1),
        _ => true,
    }
}

} // verus!
