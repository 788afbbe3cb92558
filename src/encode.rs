use vstd::prelude::*;
use vstd::bytes::spec_u64_to_le_bytes;
use vstd::utf8::encode_utf8;
use crate::value::{well_formed, Model, Value};
use crate::wire::{enc, text_entry_parts, u64_entry_parts, enc_stream, enc_text, enc_u64, magic_bytes, push_u64_le, END_OBJ, START_CHAR_SEQ, START_CHAR_SEQ_OBJ, START_F64, START_U64, START_U64_OBJ};

verus! {

broadcast use vstd::std_specs::vec::group_vec_axioms, vstd::seq_lib::group_seq_properties;

/// Appends every byte of `b` to `out`.
fn push_all(out: &mut Vec<u8>, b: &[u8])
    ensures
        final(out)@ == old(out)@ + b@,
{
    let mut i: usize = 0;
    while i < b.len()
        invariant
            i <= b@.len(),
            out@ == old(out)@ + b@.subrange(0, i as int),
        decreases b@.len() - i,
    {
        out.push(b[i]);
        i = i + 1;
        assert(out@ =~= old(out)@ + b@.subrange(0, i as int));
    }
    assert(b@.subrange(0, b@.len() as int) =~= b@);
}

/// Appends a tagged text: tag, UTF-8 length, UTF-8 bytes.
fn write_text(s: &String, out: &mut Vec<u8>)
    ensures
        final(out)@ == old(out)@ + enc_text(s@),
{
    let b = s.as_str().as_bytes();
    out.push(START_CHAR_SEQ);
    push_u64_le(out, b.len() as u64);
    push_all(out, b);
    assert(out@ =~= old(out)@ + enc_text(s@));
}

/// Appends a tagged `u64`.
fn write_u64_tagged(tag: u8, n: u64, out: &mut Vec<u8>)
    ensures
        final(out)@ == old(out)@ + enc_u64(tag, n),
{
    out.push(tag);
    push_u64_le(out, n);
    assert(out@ =~= old(out)@ + enc_u64(tag, n));
}

/// Appends the bytes of one tagged value, without header.
#[verifier::loop_isolation(false)]
pub fn write_internal(v: &Value, out: &mut Vec<u8>)
    requires
        well_formed(v.model()),
    ensures
        final(out)@ == old(out)@ + enc(v.model()),
    decreases v,
{
    match v {
        Value::U64(n) => {
            write_u64_tagged(START_U64, *n, out);
            assert(v.model() == Model::U64(*n));
        },
        Value::F64(b) => {
            write_u64_tagged(START_F64, *b, out);
            assert(v.model() == Model::F64(*b));
        },
        Value::CharSeq(s) => {
            write_text(s, out);
            assert(v.model() == Model::CharSeq(s@));
        },
        Value::U64Object(es) => {
            let ghost m = v.model();
            let ghost ms = match m {
                Model::U64Object(ms) => ms,
                _ => Seq::empty(),
            };
            let ghost parts = u64_entry_parts(ms);
            out.push(START_U64_OBJ);
            let ghost start = out@;
            let mut i: usize = 0;
            while i < es.len()
                invariant
                    i <= es@.len(),
                    ms.len() == es@.len(),
                    forall|j: int| 0 <= j < es@.len() ==> #[trigger] ms[j] == (es@[j].0, es@[j].1.model()),
                    parts.len() == ms.len(),
                    forall|j: int| 0 <= j < ms.len() ==> #[trigger] parts[j] == enc_u64(START_U64, ms[j].0) + enc(ms[j].1),
                    out@ == start + parts.take(i as int).flatten(),
                decreases es@.len() - i,
            {
                let e = &es[i];
                proof {
                    assert(decreases_to!(*v => *es));
                    assert(decreases_to!(*es => es[i as int]));
                    assert(decreases_to!(es[i as int] => es[i as int].1));
                }
                let ghost before = out@;
                assert(well_formed(ms[i as int].1));
                write_u64_tagged(START_U64, e.0, out);
                write_internal(&e.1, out);
                proof {
                    assert(parts.take(i + 1) =~= parts.take(i as int).push(parts[i as int]));
                    parts.take(i as int).lemma_flatten_push(parts[i as int]);
                    assert(out@ =~= before + parts[i as int]);
                }
                i = i + 1;
            }
            assert(parts.take(i as int) =~= parts);
            out.push(END_OBJ);
            proof {
                assert(enc(m) == seq![START_U64_OBJ] + parts.flatten() + seq![END_OBJ]);
                assert(out@ =~= old(out)@ + enc(m));
            }
        },
        Value::CharSeqObject(es) => {
            let ghost m = v.model();
            let ghost ms = match m {
                Model::CharSeqObject(ms) => ms,
                _ => Seq::empty(),
            };
            let ghost parts = text_entry_parts(ms);
            out.push(START_CHAR_SEQ_OBJ);
            let ghost start = out@;
            let mut i: usize = 0;
            while i < es.len()
                invariant
                    i <= es@.len(),
                    ms.len() == es@.len(),
                    forall|j: int| 0 <= j < es@.len() ==> #[trigger] ms[j] == (es@[j].0@, es@[j].1.model()),
                    parts.len() == ms.len(),
                    forall|j: int| 0 <= j < ms.len() ==> #[trigger] parts[j] == enc_text(ms[j].0) + enc(ms[j].1),
                    out@ == start + parts.take(i as int).flatten(),
                decreases es@.len() - i,
            {
                let e = &es[i];
                proof {
                    assert(decreases_to!(*v => *es));
                    assert(decreases_to!(*es => es[i as int]));
                    assert(decreases_to!(es[i as int] => es[i as int].1));
                }
                let ghost before = out@;
                assert(well_formed(ms[i as int].1));
                write_text(&e.0, out);
                write_internal(&e.1, out);
                proof {
                    assert(parts.take(i + 1) =~= parts.take(i as int).push(parts[i as int]));
                    parts.take(i as int).lemma_flatten_push(parts[i as int]);
                    assert(out@ =~= before + parts[i as int]);
                }
                i = i + 1;
            }
            assert(parts.take(i as int) =~= parts);
            out.push(END_OBJ);
            proof {
                assert(enc(m) == seq![START_CHAR_SEQ_OBJ] + parts.flatten() + seq![END_OBJ]);
                assert(out@ =~= old(out)@ + enc(m));
            }
        },
    }
}

/// Appends a whole stream to `out`: the header, then one tagged value.
pub fn write(v: &Value, out: &mut Vec<u8>)
    requires
        well_formed(v.model()),
    ensures
        final(out)@ == old(out)@ + enc_stream(v.model()),
{
    let magic: [u8; 8] = [0x48, 0x45, 0x52, 0x4F, 0x20, 0x42, 0x49, 0x4E];
    push_all(out, magic.as_slice());
    assert(magic@ =~= magic_bytes());
    write_internal(v, out);
    assert(out@ =~= old(out)@ + enc_stream(v.model()));
}

} // verus!
