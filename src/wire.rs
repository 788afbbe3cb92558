use vstd::prelude::*;
use vstd::bytes::{spec_u64_from_le_bytes, spec_u64_to_le_bytes};
use vstd::utf8::{encode_utf8, valid_utf8};
use byteorder::ByteOrder;
use byteorder::WriteBytesExt;
use crate::value::Model;

verus! {

/// Tag of a `U64` scalar: eight little-endian bytes follow.
pub const START_U64: u8 = 0x04;
/// Tag of an `F64` scalar: eight little-endian bytes follow.
pub const START_F64: u8 = 0x07;
/// Tag of a `CharSeq`: a `u64` byte length and the UTF-8 bytes follow.
pub const START_CHAR_SEQ: u8 = 0x25;
/// Start of a `U64Object`.
pub const START_U64_OBJ: u8 = 0x84;
/// Start of a `CharSeqObject`.
pub const START_CHAR_SEQ_OBJ: u8 = 0x8C;
/// End of the current object.
pub const END_OBJ: u8 = 0xC8;
/// The header that opens every stream.
pub const MAGIC: &'static str = "HERO BIN";
/// Objects nested deeper than this are refused on decode.
pub const MAX_DEPTH: usize = 1024;

/// The header as bytes: `H E R O ␠ B I N`.
pub open spec fn magic_bytes() -> Seq<u8> {
    seq![0x48u8, 0x45u8, 0x52u8, 0x4Fu8, 0x20u8, 0x42u8, 0x49u8, 0x4Eu8]
}

/// A tagged `u64`: the tag and the eight little-endian bytes.
pub open spec fn enc_u64(tag: u8, n: u64) -> Seq<u8> {
    seq![tag] + spec_u64_to_le_bytes(n)
}

/// A tagged text: the tag, its UTF-8 length, its UTF-8 bytes.
pub open spec fn enc_text(s: Seq<char>) -> Seq<u8> {
    enc_u64(START_CHAR_SEQ, encode_utf8(s).len() as u64) + encode_utf8(s)
}

/// The bytes of one tagged value, without header.
pub open spec fn enc(m: Model) -> Seq<u8>
    decreases m, 1nat,
{
    match m {
        Model::U64(n) => enc_u64(START_U64, n),
        Model::F64(b) => enc_u64(START_F64, b),
        Model::CharSeq(s) => enc_text(s),
        Model::U64Object(es) => seq![START_U64_OBJ] + u64_entry_parts(es).flatten() + seq![END_OBJ],
        Model::CharSeqObject(es) => seq![START_CHAR_SEQ_OBJ] + text_entry_parts(es).flatten()
            + seq![END_OBJ],
    }
}

/// The bytes of each entry of a `U64Object`: the tagged key, then the value.
pub open spec fn u64_entry_parts(es: Seq<(u64, Model)>) -> Seq<Seq<u8>>
    decreases es, 0nat,
{
    Seq::new(
        es.len(),
        |i: int|
            if 0 <= i < es.len() {
                enc_u64(START_U64, es[i].0) + enc(es[i].1)
            } else {
                Seq::empty()
            },
    )
}

/// The bytes of each entry of a `CharSeqObject`: the tagged key, then the value.
pub open spec fn text_entry_parts(es: Seq<(Seq<char>, Model)>) -> Seq<Seq<u8>>
    decreases es, 0nat,
{
    Seq::new(
        es.len(),
        |i: int|
            if 0 <= i < es.len() {
                enc_text(es[i].0) + enc(es[i].1)
            } else {
                Seq::empty()
            },
    )
}

/// A whole stream: header, then one tagged value.
pub open spec fn enc_stream(m: Model) -> Seq<u8> {
    magic_bytes() + enc(m)
}

/// Relies on byteorder's `LittleEndian::read_u64`: the first eight bytes,
/// little-endian (it panics on fewer than eight).
#[verifier::external_body]
pub(crate) fn read_u64_le(buf: &[u8]) -> (r: u64)
    requires
        buf@.len() == 8,
    ensures
        r == spec_u64_from_le_bytes(buf@),
{
    byteorder::LittleEndian::read_u64(buf)
}

/// Relies on byteorder's `WriteBytesExt::write_u64::<LittleEndian>` on a
/// `Vec<u8>`: appends the eight little-endian bytes; writing to a `Vec` does
/// not fail.
#[verifier::external_body]
pub(crate) fn push_u64_le(out: &mut Vec<u8>, n: u64)
    ensures
        final(out)@ == old(out)@ + spec_u64_to_le_bytes(n),
{
    out.write_u64::<byteorder::LittleEndian>(n).unwrap()
}

/// Relies on std's `String::from_utf8`: `Ok` exactly on valid UTF-8, and then
/// the string whose UTF-8 bytes are the input.
#[verifier::external_body]
pub(crate) fn string_from_utf8(bytes: Vec<u8>) -> (r: Option<String>)
    ensures
        r is Some <==> valid_utf8(bytes@),
        r matches Some(s) ==> encode_utf8(s@) == bytes@,
{
    String::from_utf8(bytes).ok()
}

} // verus!
