use vstd::prelude::*;
use vstd::bytes::spec_u64_from_le_bytes;
use vstd::slice::{slice_subrange, slice_to_vec};
use vstd::utf8::{decode_utf8, decode_utf8_encode_utf8, valid_utf8};
use crate::entries::{
    has_key, insert_text_entry, insert_u64_entry, lemma_put_props, lemma_text_order_total,
    lemma_u64_order_total, put,
};
use crate::value::{
    sorted_by, text_entries_model, text_fits, text_order, u64_entries_model, u64_order,
    well_formed, Model, Value,
};
use crate::wire::{
    magic_bytes, read_u64_le, string_from_utf8, END_OBJ, MAX_DEPTH, START_CHAR_SEQ,
    START_CHAR_SEQ_OBJ, START_F64, START_U64, START_U64_OBJ,
};

verus! {

broadcast use vstd::std_specs::vec::group_vec_axioms, vstd::seq_lib::group_seq_properties;

/// Why a byte stream does not decode.
#[derive(Debug, Clone, Copy, PartialEq, Eq, Structural)]
pub enum ReadError {
    /// The stream does not open with `HERO BIN`.
    BadMagic,
    /// The bytes ran out in the middle of a value.
    Truncated,
    /// A value starts with a tag that is not known.
    UnknownTag,
    /// In an object, a key starts with a tag other than the object's key tag
    /// or the end marker.
    BadKeyTag,
    /// Text bytes are not valid UTF-8.
    BadString,
    /// An object holds the same key twice.
    DuplicateKey,
    /// Objects are nested deeper than `MAX_DEPTH`.
    DepthExceeded,
}

/// The `u64` written little-endian at `pos`.
pub open spec fn le_at(b: Seq<u8>, pos: int) -> u64 {
    spec_u64_from_le_bytes(b.subrange(pos, pos + 8))
}

/// Where a text whose length prefix stands at `pos` ends.
pub open spec fn text_end(b: Seq<u8>, pos: int) -> int {
    pos + 8 + le_at(b, pos)
}

/// The text whose length prefix stands at `pos` (just after its tag).
pub open spec fn parse_text(b: Seq<u8>, pos: int) -> Result<Seq<char>, ReadError> {
    if pos + 8 > b.len() {
        Err(ReadError::Truncated)
    } else if text_end(b, pos) > b.len() {
        Err(ReadError::Truncated)
    } else if !valid_utf8(b.subrange(pos + 8, text_end(b, pos))) {
        Err(ReadError::BadString)
    } else {
        Ok(decode_utf8(b.subrange(pos + 8, text_end(b, pos))))
    }
}

/// The value whose tag stands at `pos`, nested in `depth` objects, and the
/// position just after it.
pub open spec fn parse_value(b: Seq<u8>, pos: int, depth: nat) -> Result<(Model, int), ReadError>
    decreases b.len() - pos, 1nat,
{
    if pos < 0 || pos >= b.len() {
        Err(ReadError::Truncated)
    } else if b[pos] == START_U64 || b[pos] == START_F64 {
        if pos + 9 > b.len() {
            Err(ReadError::Truncated)
        } else if b[pos] == START_U64 {
            Ok((Model::U64(le_at(b, pos + 1)), pos + 9))
        } else {
            Ok((Model::F64(le_at(b, pos + 1)), pos + 9))
        }
    } else if b[pos] == START_CHAR_SEQ {
        match parse_text(b, pos + 1) {
            Ok(s) => Ok((Model::CharSeq(s), text_end(b, pos + 1))),
            Err(e) => Err(e),
        }
    } else if b[pos] == START_U64_OBJ || b[pos] == START_CHAR_SEQ_OBJ {
        if depth >= MAX_DEPTH {
            Err(ReadError::DepthExceeded)
        } else if b[pos] == START_U64_OBJ {
            parse_u64_entries(b, pos + 1, depth + 1, Seq::empty())
        } else {
            parse_text_entries(b, pos + 1, depth + 1, Seq::empty())
        }
    } else {
        Err(ReadError::UnknownTag)
    }
}

/// The rest of a `U64Object` from `pos` on, with the entries `acc` read so far.
pub open spec fn parse_u64_entries(b: Seq<u8>, pos: int, depth: nat, acc: Seq<(u64, Model)>) -> Result<
    (Model, int),
    ReadError,
>
    decreases b.len() - pos, 0nat,
{
    if pos < 0 || pos >= b.len() {
        Err(ReadError::Truncated)
    } else if b[pos] == END_OBJ {
        Ok((Model::U64Object(acc), pos + 1))
    } else if b[pos] != START_U64 {
        Err(ReadError::BadKeyTag)
    } else if pos + 9 > b.len() {
        Err(ReadError::Truncated)
    } else {
        match parse_value(b, pos + 9, depth) {
            Err(e) => Err(e),
            Ok((m, p)) => {
                let k = le_at(b, pos + 1);
                if has_key(acc, k) {
                    Err(ReadError::DuplicateKey)
                } else if p <= pos || p > b.len() {
                    // Never taken (a value read moves forward and stays within `b`);
                    // it is what shows this recursion terminates.
                    Err(ReadError::Truncated)
                } else {
                    parse_u64_entries(b, p, depth, put(acc, k, m, u64_order()))
                }
            },
        }
    }
}

/// The rest of a `CharSeqObject` from `pos` on, with the entries `acc` read
/// so far.
pub open spec fn parse_text_entries(
    b: Seq<u8>,
    pos: int,
    depth: nat,
    acc: Seq<(Seq<char>, Model)>,
) -> Result<(Model, int), ReadError>
    decreases b.len() - pos, 0nat,
{
    if pos < 0 || pos >= b.len() {
        Err(ReadError::Truncated)
    } else if b[pos] == END_OBJ {
        Ok((Model::CharSeqObject(acc), pos + 1))
    } else if b[pos] != START_CHAR_SEQ {
        Err(ReadError::BadKeyTag)
    } else {
        match parse_text(b, pos + 1) {
            Err(e) => Err(e),
            Ok(k) => match parse_value(b, text_end(b, pos + 1), depth) {
                Err(e) => Err(e),
                Ok((m, p)) => {
                    if has_key(acc, k) {
                        Err(ReadError::DuplicateKey)
                    } else if p <= pos || p > b.len() {
                        // Never taken, as above.
                        Err(ReadError::Truncated)
                    } else {
                        parse_text_entries(b, p, depth, put(acc, k, m, text_order()))
                    }
                },
            },
        }
    }
}

/// A whole stream: the header, then one value (bytes after it are not read).
pub open spec fn parse_stream(b: Seq<u8>) -> Result<Model, ReadError> {
    if b.len() < 8 {
        Err(ReadError::Truncated)
    } else if b.subrange(0, 8) != magic_bytes() {
        Err(ReadError::BadMagic)
    } else {
        match parse_value(b, 8, 0) {
            Ok((m, _)) => Ok(m),
            Err(e) => Err(e),
        }
    }
}

/// The meaning of a result of `read_value`.
pub open spec fn read_result_model(r: Result<(Value, usize), ReadError>) -> Result<
    (Model, int),
    ReadError,
> {
    match r {
        Ok((v, p)) => Ok((v.model(), p as int)),
        Err(e) => Err(e),
    }
}

/// Reads the `u64` written little-endian at `pos`.
fn read_u64_at(b: &[u8], pos: usize) -> (r: u64)
    requires
        pos + 8 <= b@.len(),
    ensures
        r == le_at(b@, pos as int),
{
    assert(b@.len() == b.len());
    read_u64_le(slice_subrange(b, pos, pos + 8))
}

/// Reads the text whose length prefix stands at `pos`; returns it with the
/// position just after it.
fn read_text(b: &[u8], pos: usize) -> (r: Result<(String, usize), ReadError>)
    ensures
        match parse_text(b@, pos as int) {
            Ok(s) => r matches Ok((t, e)) && t@ == s && e == text_end(b@, pos as int),
            Err(e) => r == Err::<(String, usize), ReadError>(e),
        },
        r matches Ok((t, e)) ==> text_fits(t@),
{
    if b.len() < 8 || pos > b.len() - 8 {
        return Err(ReadError::Truncated);
    }
    let n = read_u64_at(b, pos);
    if n > (b.len() - pos - 8) as u64 {
        return Err(ReadError::Truncated);
    }
    let end = pos + 8 + n as usize;
    let bytes = slice_to_vec(slice_subrange(b, pos + 8, end));
    let ghost bs = bytes@;
    match string_from_utf8(bytes) {
        Some(s) => {
            proof {
                decode_utf8_encode_utf8(bs);
                vstd::utf8::encode_utf8_decode_utf8(s@);
            }
            Ok((s, end))
        },
        None => Err(ReadError::BadString),
    }
}

/// Reads the value whose tag stands at `pos`, nested in `depth` objects;
/// returns it with the position just after it.
#[verifier::loop_isolation(false)]
pub fn read_value(b: &[u8], pos: usize, depth: usize) -> (r: Result<(Value, usize), ReadError>)
    requires
        depth <= MAX_DEPTH,
    ensures
        read_result_model(r) == parse_value(b@, pos as int, depth as nat),
        r matches Ok((v, q)) ==> pos < q <= b@.len() && well_formed(v.model()),
    decreases b@.len() - pos,
{
    if pos >= b.len() {
        return Err(ReadError::Truncated);
    }
    let tag = b[pos];
    if tag == START_U64 || tag == START_F64 {
        if b.len() - pos < 9 {
            return Err(ReadError::Truncated);
        }
        let n = read_u64_at(b, pos + 1);
        if tag == START_U64 {
            Ok((Value::U64(n), pos + 9))
        } else {
            Ok((Value::F64(n), pos + 9))
        }
    } else if tag == START_CHAR_SEQ {
        match read_text(b, pos + 1) {
            Ok((s, e)) => {
                proof {
                    vstd::utf8::encode_utf8_decode_utf8(s@);
                }
                Ok((Value::CharSeq(s), e))
            },
            Err(e) => Err(e),
        }
    } else if tag == START_U64_OBJ || tag == START_CHAR_SEQ_OBJ {
        if depth >= MAX_DEPTH {
            return Err(ReadError::DepthExceeded);
        }
        if tag == START_U64_OBJ {
            read_u64_object(b, pos, depth)
        } else {
            read_text_object(b, pos, depth)
        }
    } else {
        Err(ReadError::UnknownTag)
    }
}

/// Reads the entries of a `U64Object` whose tag stands at `pos`.
#[verifier::loop_isolation(false)]
fn read_u64_object(b: &[u8], pos: usize, depth: usize) -> (r: Result<(Value, usize), ReadError>)
    requires
        depth < MAX_DEPTH,
        pos < b@.len(),
        b@[pos as int] == START_U64_OBJ,
    ensures
        read_result_model(r) == parse_value(b@, pos as int, depth as nat),
        r matches Ok((v, q)) ==> pos < q <= b@.len() && well_formed(v.model()),
    decreases b@.len() - pos, 0nat,
{
    let mut acc: Vec<(u64, Value)> = Vec::new();
    assert(b@.len() == b.len());
    let mut cur: usize = pos + 1;
    assert(u64_entries_model(acc@) =~= Seq::<(u64, Model)>::empty());
    loop
        invariant
            pos < cur <= b@.len(),
            sorted_by(u64_entries_model(acc@), u64_order()),
            forall|i: int|
                0 <= i < acc@.len() ==> well_formed(#[trigger] u64_entries_model(acc@)[i].1),
            parse_value(b@, pos as int, depth as nat) == parse_u64_entries(
                b@,
                cur as int,
                (depth + 1) as nat,
                u64_entries_model(acc@),
            ),
        decreases b@.len() - cur,
    {
        if cur >= b.len() {
            return Err(ReadError::Truncated);
        }
        let t = b[cur];
        if t == END_OBJ {
            let v = Value::U64Object(acc);
            assert(well_formed(v.model()));
            return Ok((v, cur + 1));
        }
        if t != START_U64 {
            return Err(ReadError::BadKeyTag);
        }
        if b.len() - cur < 9 {
            return Err(ReadError::Truncated);
        }
        let k = read_u64_at(b, cur + 1);
        match read_value(b, cur + 9, depth + 1) {
            Err(e) => {
                return Err(e);
            },
            Ok((v, p)) => {
                let ghost old_ms = u64_entries_model(acc@);
                let ghost m = v.model();
                proof {
                    lemma_u64_order_total();
                    lemma_put_props(old_ms, k, m, u64_order());
                }
                let existed = insert_u64_entry(&mut acc, k, v);
                if existed {
                    return Err(ReadError::DuplicateKey);
                }
                proof {
                    let ms = u64_entries_model(acc@);
                    assert forall|i: int| 0 <= i < acc@.len() implies well_formed(
                        #[trigger] u64_entries_model(acc@)[i].1,
                    ) by {
                        assert(ms[i] == put(old_ms, k, m, u64_order())[i]);
                        if ms[i] != (k, m) {
                            let j = choose|j: int| 0 <= j < old_ms.len() && old_ms[j] == ms[i];
                        }
                    }
                }
                cur = p;
            },
        }
    }
}

/// Reads the entries of a `CharSeqObject` whose tag stands at `pos`.
#[verifier::loop_isolation(false)]
fn read_text_object(b: &[u8], pos: usize, depth: usize) -> (r: Result<(Value, usize), ReadError>)
    requires
        depth < MAX_DEPTH,
        pos < b@.len(),
        b@[pos as int] == START_CHAR_SEQ_OBJ,
    ensures
        read_result_model(r) == parse_value(b@, pos as int, depth as nat),
        r matches Ok((v, q)) ==> pos < q <= b@.len() && well_formed(v.model()),
    decreases b@.len() - pos, 0nat,
{
    let mut acc: Vec<(String, Value)> = Vec::new();
    assert(b@.len() == b.len());
    let mut cur: usize = pos + 1;
    assert(text_entries_model(acc@) =~= Seq::<(Seq<char>, Model)>::empty());
    loop
        invariant
            pos < cur <= b@.len(),
            sorted_by(text_entries_model(acc@), text_order()),
            forall|i: int|
                0 <= i < acc@.len() ==> text_fits(#[trigger] text_entries_model(acc@)[i].0)
                    && well_formed(text_entries_model(acc@)[i].1),
            parse_value(b@, pos as int, depth as nat) == parse_text_entries(
                b@,
                cur as int,
                (depth + 1) as nat,
                text_entries_model(acc@),
            ),
        decreases b@.len() - cur,
    {
        if cur >= b.len() {
            return Err(ReadError::Truncated);
        }
        let t = b[cur];
        if t == END_OBJ {
            let v = Value::CharSeqObject(acc);
            assert(well_formed(v.model()));
            return Ok((v, cur + 1));
        }
        if t != START_CHAR_SEQ {
            return Err(ReadError::BadKeyTag);
        }
        match read_text(b, cur + 1) {
            Err(e) => {
                return Err(e);
            },
            Ok((k, e)) => {
                let ghost kv = k@;
                proof {
                    vstd::utf8::encode_utf8_decode_utf8(kv);
                }
                match read_value(b, e, depth + 1) {
                    Err(err) => {
                        return Err(err);
                    },
                    Ok((v, p)) => {
                        let ghost old_ms = text_entries_model(acc@);
                        let ghost m = v.model();
                        proof {
                            lemma_text_order_total();
                            lemma_put_props(old_ms, kv, m, text_order());
                        }
                        let existed = insert_text_entry(&mut acc, k, v);
                        if existed {
                            return Err(ReadError::DuplicateKey);
                        }
                        proof {
                            let ms = text_entries_model(acc@);
                            assert forall|i: int| 0 <= i < acc@.len() implies text_fits(
                                #[trigger] text_entries_model(acc@)[i].0,
                            ) && well_formed(text_entries_model(acc@)[i].1) by {
                                assert(ms[i] == put(old_ms, kv, m, text_order())[i]);
                                if ms[i] != (kv, m) {
                                    let j = choose|j: int|
                                        0 <= j < old_ms.len() && old_ms[j] == ms[i];
                                }
                            }
                        }
                        cur = p;
                    },
                }
            },
        }
    }
}

/// Decodes a whole stream: checks the header, then reads one value.
pub fn from_bytes(b: &[u8]) -> (r: Result<Value, ReadError>)
    ensures
        match parse_stream(b@) {
            Ok(m) => r matches Ok(v) && v.model() == m,
            Err(e) => r == Err::<Value, ReadError>(e),
        },
        r matches Ok(v) ==> well_formed(v.model()),
{
    if b.len() < 8 {
        return Err(ReadError::Truncated);
    }
    let magic: [u8; 8] = [0x48, 0x45, 0x52, 0x4F, 0x20, 0x42, 0x49, 0x4E];
    let mut i: usize = 0;
    while i < 8
        invariant
            i <= 8,
            b@.len() >= 8,
            magic@ == magic_bytes(),
            b@.subrange(0, i as int) == magic_bytes().subrange(0, i as int),
        decreases 8 - i,
    {
        if b[i] != magic[i] {
            assert(b@.subrange(0, 8)[i as int] != magic_bytes()[i as int]);
            return Err(ReadError::BadMagic);
        }
        assert(b@.subrange(0, i + 1) =~= magic_bytes().subrange(0, i + 1));
        i = i + 1;
    }
    assert(b@.subrange(0, 8) =~= magic_bytes());
    match read_value(b, 8, 0) {
        Ok((v, _)) => Ok(v),
        Err(e) => Err(e),
    }
}

} // verus!
