use vstd::prelude::*;
use vstd::string::{is_ascii, is_ascii_spec_bytes, StringSliceAdditionalSpecFns};
use vstd::bytes::{lemma_auto_spec_u64_to_from_le_bytes, spec_u64_to_le_bytes};
use vstd::utf8::{encode_utf8, encode_utf8_decode_utf8, encode_utf8_valid_utf8, valid_utf8};
use crate::decode::{ReadError, le_at, parse_stream, parse_text, parse_text_entries, parse_u64_entries, parse_value, text_end};
use crate::entries::{
    has_key, lemma_put_at, lemma_text_order_total, lemma_u64_order_total, put, strict_total,
};
use crate::value::{nests_within, sorted_by, text_fits, text_order, u64_order, well_formed, Model};
use crate::wire::{
    enc, enc_stream, enc_text, enc_u64, magic_bytes, text_entry_parts, u64_entry_parts, END_OBJ,
    MAGIC, MAX_DEPTH, START_CHAR_SEQ, START_CHAR_SEQ_OBJ, START_F64, START_U64, START_U64_OBJ,
};

verus! {

broadcast use vstd::seq_lib::group_seq_properties;

/// `b` holds `s` from `pos` on.
pub open spec fn holds_at(b: Seq<u8>, pos: int, s: Seq<u8>) -> bool {
    0 <= pos && pos + s.len() <= b.len() && b.subrange(pos, pos + s.len()) == s
}

proof fn lemma_holds_split(b: Seq<u8>, pos: int, s1: Seq<u8>, s2: Seq<u8>)
    requires
        holds_at(b, pos, s1 + s2),
    ensures
        holds_at(b, pos, s1),
        holds_at(b, pos + s1.len(), s2),
{
    let s = s1 + s2;
    assert forall|i: int| 0 <= i < s.len() implies b[pos + i] == s[i] by {
        assert(b.subrange(pos, pos + s.len())[i] == b[pos + i]);
    }
    assert(b.subrange(pos, pos + s1.len()) =~= s1) by {
        assert forall|i: int| 0 <= i < s1.len() implies b[pos + i] == s1[i] by {
            assert(s[i] == s1[i]);
        }
    }
    assert(b.subrange(pos + s1.len(), pos + s1.len() + s2.len()) =~= s2) by {
        assert forall|i: int| 0 <= i < s2.len() implies b[pos + s1.len() + i] == s2[i] by {
            assert(s[s1.len() + i] == s2[i]);
        }
    }
}

proof fn lemma_read_tagged_u64(b: Seq<u8>, pos: int, tag: u8, n: u64)
    requires
        holds_at(b, pos, enc_u64(tag, n)),
    ensures
        enc_u64(tag, n).len() == 9,
        b[pos] == tag,
        le_at(b, pos + 1) == n,
{
    lemma_auto_spec_u64_to_from_le_bytes();
    lemma_holds_split(b, pos, seq![tag], spec_u64_to_le_bytes(n));
    assert(b.subrange(pos, pos + 1)[0] == b[pos]);
}

proof fn lemma_read_text(b: Seq<u8>, pos: int, s: Seq<char>)
    requires
        text_fits(s),
        holds_at(b, pos, enc_text(s)),
    ensures
        b[pos] == START_CHAR_SEQ,
        parse_text(b, pos + 1) == Ok::<Seq<char>, ReadError>(s),
        text_end(b, pos + 1) == pos + enc_text(s).len(),
{
    let u = encode_utf8(s);
    lemma_holds_split(b, pos, enc_u64(START_CHAR_SEQ, u.len() as u64), u);
    lemma_read_tagged_u64(b, pos, START_CHAR_SEQ, u.len() as u64);
    encode_utf8_valid_utf8(s);
    encode_utf8_decode_utf8(s);
}

/// Decoding the bytes of a well-formed model, wherever they stand, gives back
/// the model and the position just after its bytes.
pub proof fn lemma_parse_enc(b: Seq<u8>, pos: int, d: nat, m: Model)
    requires
        well_formed(m),
        nests_within(m, d),
        holds_at(b, pos, enc(m)),
    ensures
        parse_value(b, pos, d) == Ok::<(Model, int), ReadError>(
            (m, pos + enc(m).len()),
        ),
    decreases m, 1nat,
{
    match m {
        Model::U64(n) => {
            lemma_read_tagged_u64(b, pos, START_U64, n);
        },
        Model::F64(n) => {
            lemma_read_tagged_u64(b, pos, START_F64, n);
        },
        Model::CharSeq(s) => {
            lemma_read_text(b, pos, s);
        },
        Model::U64Object(es) => {
            let parts = u64_entry_parts(es);
            assert(enc(m) =~= seq![START_U64_OBJ] + (parts.flatten() + seq![END_OBJ]));
            lemma_holds_split(b, pos, seq![START_U64_OBJ], parts.flatten() + seq![END_OBJ]);
            assert(b.subrange(pos, pos + 1)[0] == b[pos]);
            assert(parts.skip(0) =~= parts);
            assert(es.take(0) =~= Seq::<(u64, Model)>::empty());
            lemma_u64_entries(b, pos + 1, d + 1, es, 0);
        },
        Model::CharSeqObject(es) => {
            let parts = text_entry_parts(es);
            assert(enc(m) =~= seq![START_CHAR_SEQ_OBJ] + (parts.flatten() + seq![END_OBJ]));
            lemma_holds_split(b, pos, seq![START_CHAR_SEQ_OBJ], parts.flatten() + seq![END_OBJ]);
            assert(b.subrange(pos, pos + 1)[0] == b[pos]);
            assert(parts.skip(0) =~= parts);
            assert(es.take(0) =~= Seq::<(Seq<char>, Model)>::empty());
            assert forall|j: int| 0 <= j < es.len() implies text_fits(#[trigger] es[j].0)
                && well_formed(es[j].1) && nests_within(es[j].1, d + 1) by {
                assert(well_formed(es[j].1));
                assert(nests_within(es[j].1, d + 1));
            }
            lemma_text_entries(b, pos + 1, d + 1, es, 0);
        },
    }
}

proof fn lemma_u64_entries(b: Seq<u8>, q: int, d: nat, es: Seq<(u64, Model)>, i: int)
    requires
        sorted_by(es, u64_order()),
        forall|j: int|
            0 <= j < es.len() ==> well_formed(#[trigger] es[j].1) && nests_within(es[j].1, d),
        0 <= i <= es.len(),
        holds_at(b, q, u64_entry_parts(es).skip(i).flatten() + seq![END_OBJ]),
    ensures
        parse_u64_entries(b, q, d, es.take(i)) == Ok::<(Model, int), ReadError>(
            (Model::U64Object(es), q + u64_entry_parts(es).skip(i).flatten().len() + 1),
        ),
    decreases es, es.len() - i,
{
    let parts = u64_entry_parts(es);
    let rest = parts.skip(i);
    if i == es.len() {
        assert(rest =~= Seq::<Seq<u8>>::empty());
        assert(rest.flatten() =~= Seq::<u8>::empty());
        assert(b.subrange(q, q + 1)[0] == b[q]);
        assert(es.take(i) =~= es);
    } else {
        let k = es[i].0;
        let m = es[i].1;
        assert(rest.flatten() == rest[0] + rest.drop_first().flatten());
        assert(rest.drop_first() =~= parts.skip(i + 1));
        assert(rest[0] == enc_u64(START_U64, k) + enc(m));
        let tail = parts.skip(i + 1).flatten() + seq![END_OBJ];
        assert(rest.flatten() + seq![END_OBJ] =~= enc_u64(START_U64, k) + (enc(m) + tail));
        lemma_holds_split(b, q, enc_u64(START_U64, k), enc(m) + tail);
        lemma_read_tagged_u64(b, q, START_U64, k);
        lemma_holds_split(b, q + 9, enc(m), tail);
        assert(decreases_to!(es => es[i]));
        lemma_parse_enc(b, q + 9, d, m);
        let acc = es.take(i);
        assert(!has_key(acc, k)) by {
            if has_key(acc, k) {
                let j = choose|j: int| 0 <= j < acc.len() && acc[j].0 == k;
                assert(u64_order()(es[j].0, es[i].0));
            }
        }
        lemma_u64_order_total();
        assert(sorted_by(acc, u64_order()));
        assert forall|j: int| 0 <= j < i implies u64_order()(#[trigger] acc[j].0, k) by {
            assert(u64_order()(es[j].0, es[i].0));
        }
        lemma_put_at(acc, k, m, u64_order(), i);
        assert(acc.take(i).push((k, m)) + acc.skip(i) =~= es.take(i + 1));
        lemma_u64_entries(b, q + 9 + enc(m).len(), d, es, i + 1);
    }
}

proof fn lemma_text_entries(b: Seq<u8>, q: int, d: nat, es: Seq<(Seq<char>, Model)>, i: int)
    requires
        sorted_by(es, text_order()),
        forall|j: int|
            0 <= j < es.len() ==> text_fits(#[trigger] es[j].0) && well_formed(es[j].1)
                && nests_within(es[j].1, d),
        0 <= i <= es.len(),
        holds_at(b, q, text_entry_parts(es).skip(i).flatten() + seq![END_OBJ]),
    ensures
        parse_text_entries(b, q, d, es.take(i)) == Ok::<(Model, int), ReadError>(
            (Model::CharSeqObject(es), q + text_entry_parts(es).skip(i).flatten().len() + 1),
        ),
    decreases es, es.len() - i,
{
    let parts = text_entry_parts(es);
    let rest = parts.skip(i);
    if i == es.len() {
        assert(rest =~= Seq::<Seq<u8>>::empty());
        assert(rest.flatten() =~= Seq::<u8>::empty());
        assert(b.subrange(q, q + 1)[0] == b[q]);
        assert(es.take(i) =~= es);
    } else {
        let k = es[i].0;
        let m = es[i].1;
        assert(rest.flatten() == rest[0] + rest.drop_first().flatten());
        assert(rest.drop_first() =~= parts.skip(i + 1));
        assert(rest[0] == enc_text(k) + enc(m));
        let tail = parts.skip(i + 1).flatten() + seq![END_OBJ];
        assert(rest.flatten() + seq![END_OBJ] =~= enc_text(k) + (enc(m) + tail));
        lemma_holds_split(b, q, enc_text(k), enc(m) + tail);
        lemma_read_text(b, q, k);
        let e = q + enc_text(k).len();
        lemma_holds_split(b, e, enc(m), tail);
        assert(decreases_to!(es => es[i]));
        lemma_parse_enc(b, e, d, m);
        let acc = es.take(i);
        lemma_text_order_total();
        assert(!has_key(acc, k)) by {
            if has_key(acc, k) {
                let j = choose|j: int| 0 <= j < acc.len() && acc[j].0 == k;
                assert(text_order()(es[j].0, es[i].0));
                assert(text_order()(k, k));
            }
        }
        assert(sorted_by(acc, text_order()));
        assert forall|j: int| 0 <= j < i implies text_order()(#[trigger] acc[j].0, k) by {
            assert(text_order()(es[j].0, es[i].0));
        }
        lemma_put_at(acc, k, m, text_order(), i);
        assert(acc.take(i).push((k, m)) + acc.skip(i) =~= es.take(i + 1));
        lemma_text_entries(b, e + enc(m).len(), d, es, i + 1);
    }
}

/// Round trip: decoding the stream written for a well-formed model whose
/// objects nest within the decoder's depth cap gives back that model.
pub proof fn lemma_round_trip(m: Model)
    requires
        well_formed(m),
        nests_within(m, 0),
    ensures
        parse_stream(enc_stream(m)) == Ok::<Model, ReadError>(m),
{
    let b = enc_stream(m);
    assert(b.subrange(0, 8) =~= magic_bytes());
    assert(b.subrange(8, 8 + enc(m).len() as int) =~= enc(m));
    lemma_parse_enc(b, 8, 0, m);
}

/// Encoding is idempotent through a decode: writing what was read from a
/// written stream gives the same bytes.
pub proof fn lemma_encode_idempotent(m: Model)
    requires
        well_formed(m),
        nests_within(m, 0),
    ensures
        parse_stream(enc_stream(m)) is Ok,
        enc_stream(parse_stream(enc_stream(m))->Ok_0) == enc_stream(m),
{
    lemma_round_trip(m);
}

/// The header is exactly eight bytes: the UTF-8 bytes of `MAGIC` are
/// `H E R O ␠ B I N`.
pub proof fn lemma_magic_len()
    ensures
        MAGIC.spec_bytes() == magic_bytes(),
        MAGIC.spec_bytes().len() == 8,
{
    reveal_strlit("HERO BIN");
    assert(MAGIC@ == seq!['H', 'E', 'R', 'O', ' ', 'B', 'I', 'N']);
    assert(is_ascii(MAGIC));
    is_ascii_spec_bytes(MAGIC);
    assert(MAGIC.spec_bytes() =~= magic_bytes());
}

/// Putting two entries under different keys gives the same entries in
/// either order.
pub proof fn lemma_put_commutes<K>(
    es: Seq<(K, Model)>,
    k1: K,
    m1: Model,
    k2: K,
    m2: Model,
    lt: spec_fn(K, K) -> bool,
)
    requires
        strict_total(lt),
        k1 != k2,
    ensures
        put(put(es, k1, m1, lt), k2, m2, lt) == put(put(es, k2, m2, lt), k1, m1, lt),
    decreases es.len(),
{
    reveal_with_fuel(put, 3);
    if es.len() == 0 {
        if lt(k1, k2) {
            assert(!lt(k2, k1)) by {
                if lt(k2, k1) {
                    assert(lt(k1, k1));
                }
            }
        }
        assert(put(put(es, k1, m1, lt), k2, m2, lt) =~= put(put(es, k2, m2, lt), k1, m1, lt));
    } else {
        let e = es[0];
        let rest = es.drop_first();
        lemma_put_commutes(rest, k1, m1, k2, m2, lt);
        assert(!lt(k1, k1) && !lt(k2, k2) && !lt(e.0, e.0));
        assert(lt(k1, k2) ==> !lt(k2, k1)) by {
            if lt(k1, k2) && lt(k2, k1) {
                assert(lt(k1, k1));
            }
        }
        assert(lt(k1, e.0) ==> !lt(e.0, k1)) by {
            if lt(k1, e.0) && lt(e.0, k1) {
                assert(lt(k1, k1));
            }
        }
        assert(lt(k2, e.0) ==> !lt(e.0, k2)) by {
            if lt(k2, e.0) && lt(e.0, k2) {
                assert(lt(k2, k2));
            }
        }
        assert(lt(k1, e.0) && lt(e.0, k2) ==> lt(k1, k2));
        assert(lt(k2, e.0) && lt(e.0, k1) ==> lt(k2, k1));
        assert(put(put(es, k1, m1, lt), k2, m2, lt) =~= put(put(es, k2, m2, lt), k1, m1, lt));
    }
}

/// The order in which two different keys are set on a builder does not
/// change the entries it holds.
pub proof fn lemma_set_order_irrelevant(
    es: Seq<(u64, Model)>,
    k1: u64,
    m1: Model,
    k2: u64,
    m2: Model,
)
    requires
        k1 != k2,
    ensures
        put(put(es, k1, m1, u64_order()), k2, m2, u64_order()) == put(
            put(es, k2, m2, u64_order()),
            k1,
            m1,
            u64_order(),
        ),
{
    lemma_u64_order_total();
    lemma_put_commutes(es, k1, m1, k2, m2, u64_order());
}

/// Equal models are written as equal bytes.
pub proof fn lemma_write_deterministic(m1: Model, m2: Model)
    requires
        m1 == m2,
    ensures
        enc_stream(m1) == enc_stream(m2),
{
}

/// A value that starts with a tag the format does not define is refused
/// with `UnknownTag`.
pub proof fn lemma_unknown_tag_rejected(b: Seq<u8>)
    requires
        b.len() > 8,
        b.subrange(0, 8) == magic_bytes(),
        b[8] != START_U64 && b[8] != START_F64 && b[8] != START_CHAR_SEQ && b[8] != START_U64_OBJ
            && b[8] != START_CHAR_SEQ_OBJ,
    ensures
        parse_stream(b) == Err::<Model, ReadError>(ReadError::UnknownTag),
{
}

/// A text whose length prefix is cut short is refused with `Truncated`.
pub proof fn lemma_short_length_rejected(rest: Seq<u8>)
    requires
        rest.len() < 8,
    ensures
        parse_stream(magic_bytes() + seq![START_CHAR_SEQ] + rest) == Err::<Model, ReadError>(
            ReadError::Truncated,
        ),
{
    let b = magic_bytes() + seq![START_CHAR_SEQ] + rest;
    assert(b.subrange(0, 8) =~= magic_bytes());
    assert(b[8] == START_CHAR_SEQ);
}

/// A text whose bytes are not valid UTF-8 is refused with `BadString`.
pub proof fn lemma_bad_utf8_rejected(bytes: Seq<u8>)
    requires
        bytes.len() <= u64::MAX,
        !valid_utf8(bytes),
    ensures
        parse_stream(magic_bytes() + enc_u64(START_CHAR_SEQ, bytes.len() as u64) + bytes) == Err::<
            Model,
            ReadError,
        >(ReadError::BadString),
{
    let b = magic_bytes() + enc_u64(START_CHAR_SEQ, bytes.len() as u64) + bytes;
    lemma_auto_spec_u64_to_from_le_bytes();
    assert(b.subrange(0, 8) =~= magic_bytes());
    assert(b[8] == START_CHAR_SEQ);
    assert(b.subrange(9, 17) =~= spec_u64_to_le_bytes(bytes.len() as u64));
    assert(b.subrange(17, 17 + bytes.len() as int) =~= bytes);
}

/// An object that holds the same key twice is refused with `DuplicateKey`,
/// whatever well-formed values the two entries hold.
#[verifier::rlimit(40)]
pub proof fn lemma_duplicate_key_rejected(k: u64, a: Model, c: Model)
    requires
        well_formed(a),
        well_formed(c),
        nests_within(a, 1),
        nests_within(c, 1),
    ensures
        parse_stream(
            magic_bytes() + seq![START_U64_OBJ] + enc_u64(START_U64, k) + enc(a) + enc_u64(
                START_U64,
                k,
            ) + enc(c) + seq![END_OBJ],
        ) == Err::<Model, ReadError>(ReadError::DuplicateKey),
{
    let first = enc_u64(START_U64, k) + enc(a);
    let second = enc_u64(START_U64, k) + enc(c);
    let b = magic_bytes() + seq![START_U64_OBJ] + enc_u64(START_U64, k) + enc(a) + enc_u64(
        START_U64,
        k,
    ) + enc(c) + seq![END_OBJ];
    lemma_auto_spec_u64_to_from_le_bytes();
    assert(b =~= magic_bytes() + seq![START_U64_OBJ] + (first + (second + seq![END_OBJ])));
    assert(b.subrange(0, 8) =~= magic_bytes());
    assert(b[8] == START_U64_OBJ);
    let q1 = 9int;
    assert(b.subrange(q1, q1 + first.len() + second.len() + 1) =~= first + (second + seq![END_OBJ]));
    lemma_holds_split(b, q1, first, second + seq![END_OBJ]);
    lemma_holds_split(b, q1, enc_u64(START_U64, k), enc(a));
    lemma_read_tagged_u64(b, q1, START_U64, k);
    lemma_parse_enc(b, q1 + 9, 1, a);
    let q2 = q1 + first.len();
    assert(q2 == q1 + 9 + enc(a).len());
    let acc = put(Seq::<(u64, Model)>::empty(), k, a, u64_order());
    assert(parse_u64_entries(b, q2, 1, acc) == Err::<(Model, int), ReadError>(
        ReadError::DuplicateKey,
    )) by {
        lemma_holds_split(b, q2, second, seq![END_OBJ]);
        lemma_holds_split(b, q2, enc_u64(START_U64, k), enc(c));
        lemma_read_tagged_u64(b, q2, START_U64, k);
        lemma_parse_enc(b, q2 + 9, 1, c);
        assert(acc[0].0 == k);
        assert(has_key(acc, k));
    }
    assert(!has_key(Seq::<(u64, Model)>::empty(), k));
    assert(parse_u64_entries(b, q1, 1, Seq::empty()) == parse_u64_entries(b, q2, 1, acc));
    assert(parse_value(b, 8, 0) == parse_u64_entries(b, q1, 1, Seq::empty()));
}

proof fn lemma_value_not_bad_magic(b: Seq<u8>, pos: int, depth: nat)
    ensures
        parse_value(b, pos, depth) != Err::<(Model, int), ReadError>(ReadError::BadMagic),
    decreases b.len() - pos, 1nat,
{
    if 0 <= pos < b.len() && depth < MAX_DEPTH {
        if b[pos] == START_U64_OBJ {
            lemma_u64_entries_not_bad_magic(b, pos + 1, depth + 1, Seq::empty());
        } else if b[pos] == START_CHAR_SEQ_OBJ {
            lemma_text_entries_not_bad_magic(b, pos + 1, depth + 1, Seq::empty());
        }
    }
}

proof fn lemma_u64_entries_not_bad_magic(b: Seq<u8>, pos: int, depth: nat, acc: Seq<(u64, Model)>)
    ensures
        parse_u64_entries(b, pos, depth, acc) != Err::<(Model, int), ReadError>(
            ReadError::BadMagic,
        ),
    decreases b.len() - pos, 0nat,
{
    if 0 <= pos < b.len() && b[pos] == START_U64 && pos + 9 <= b.len() {
        lemma_value_not_bad_magic(b, pos + 9, depth);
        if let Ok((m, p)) = parse_value(b, pos + 9, depth) {
            if pos < p <= b.len() {
                lemma_u64_entries_not_bad_magic(
                    b,
                    p,
                    depth,
                    put(acc, le_at(b, pos + 1), m, u64_order()),
                );
            }
        }
    }
}

proof fn lemma_text_entries_not_bad_magic(
    b: Seq<u8>,
    pos: int,
    depth: nat,
    acc: Seq<(Seq<char>, Model)>,
)
    ensures
        parse_text_entries(b, pos, depth, acc) != Err::<(Model, int), ReadError>(
            ReadError::BadMagic,
        ),
    decreases b.len() - pos, 0nat,
{
    if 0 <= pos < b.len() && b[pos] == START_CHAR_SEQ {
        if let Ok(k) = parse_text(b, pos + 1) {
            let e = text_end(b, pos + 1);
            if e > pos {
                lemma_value_not_bad_magic(b, e, depth);
                if let Ok((m, p)) = parse_value(b, e, depth) {
                    if pos < p <= b.len() {
                        lemma_text_entries_not_bad_magic(
                            b,
                            p,
                            depth,
                            put(acc, k, m, text_order()),
                        );
                    }
                }
            }
        }
    }
}

/// A stream is refused with `BadMagic` exactly when it has eight bytes and
/// they are not the header.
pub proof fn lemma_bad_magic_exactly(b: Seq<u8>)
    ensures
        parse_stream(b) == Err::<Model, ReadError>(ReadError::BadMagic) <==> (b.len() >= 8
            && b.subrange(0, 8) != magic_bytes()),
{
    lemma_value_not_bad_magic(b, 8, 0);
}

/// `b` ends strictly inside `s`, which starts at `pos`.
pub open spec fn cut_at(b: Seq<u8>, pos: int, s: Seq<u8>) -> bool {
    0 <= pos <= b.len() < pos + s.len() && b.subrange(pos, b.len() as int) == s.take(
        b.len() - pos,
    )
}

proof fn lemma_cut_split(b: Seq<u8>, pos: int, s1: Seq<u8>, s2: Seq<u8>)
    requires
        cut_at(b, pos, s1 + s2),
    ensures
        b.len() < pos + s1.len() ==> cut_at(b, pos, s1),
        b.len() >= pos + s1.len() ==> holds_at(b, pos, s1) && cut_at(b, pos + s1.len(), s2),
{
    let s = s1 + s2;
    let n = b.len() - pos;
    assert forall|i: int| 0 <= i < n implies b[pos + i] == s[i] by {
        assert(b.subrange(pos, b.len() as int)[i] == b[pos + i]);
        assert(s.take(n)[i] == s[i]);
    }
    if b.len() < pos + s1.len() {
        assert(b.subrange(pos, b.len() as int) =~= s1.take(n)) by {
            assert forall|i: int| 0 <= i < n implies b[pos + i] == s1[i] by {
                assert(s[i] == s1[i]);
            }
        }
    } else {
        assert(b.subrange(pos, pos + s1.len()) =~= s1) by {
            assert forall|i: int| 0 <= i < s1.len() implies b[pos + i] == s1[i] by {
                assert(s[i] == s1[i]);
            }
        }
        let m = b.len() - pos - s1.len();
        assert(b.subrange(pos + s1.len(), b.len() as int) =~= s2.take(m)) by {
            assert forall|i: int| 0 <= i < m implies b[pos + s1.len() + i] == s2[i] by {
                assert(s[s1.len() + i] == s2[i]);
            }
        }
    }
}

proof fn lemma_cut_first(b: Seq<u8>, pos: int, s: Seq<u8>)
    requires
        cut_at(b, pos, s),
        pos < b.len(),
    ensures
        b[pos] == s[0],
{
    assert(b.subrange(pos, b.len() as int)[0] == b[pos]);
}

proof fn lemma_cut_tagged_u64(b: Seq<u8>, pos: int, tag: u8, n: u64)
    requires
        cut_at(b, pos, enc_u64(tag, n)),
        pos < b.len(),
    ensures
        b[pos] == tag,
        pos + 9 > b.len(),
{
    lemma_auto_spec_u64_to_from_le_bytes();
    lemma_cut_first(b, pos, enc_u64(tag, n));
}

proof fn lemma_cut_text(b: Seq<u8>, pos: int, s: Seq<char>)
    requires
        text_fits(s),
        cut_at(b, pos, enc_text(s)),
        pos < b.len(),
    ensures
        b[pos] == START_CHAR_SEQ,
        parse_text(b, pos + 1) == Err::<Seq<char>, ReadError>(ReadError::Truncated),
{
    let u = encode_utf8(s);
    lemma_auto_spec_u64_to_from_le_bytes();
    lemma_cut_first(b, pos, enc_text(s));
    lemma_cut_split(b, pos, enc_u64(START_CHAR_SEQ, u.len() as u64), u);
    if b.len() >= pos + 9 {
        lemma_read_tagged_u64(b, pos, START_CHAR_SEQ, u.len() as u64);
    }
}

/// A cut-short encoding of a well-formed model is refused with `Truncated`.
pub proof fn lemma_cut_value(b: Seq<u8>, pos: int, d: nat, m: Model)
    requires
        well_formed(m),
        nests_within(m, d),
        cut_at(b, pos, enc(m)),
    ensures
        parse_value(b, pos, d) == Err::<(Model, int), ReadError>(ReadError::Truncated),
    decreases m, 1nat,
{
    if pos < b.len() {
        match m {
            Model::U64(n) => {
                lemma_cut_tagged_u64(b, pos, START_U64, n);
            },
            Model::F64(n) => {
                lemma_cut_tagged_u64(b, pos, START_F64, n);
            },
            Model::CharSeq(s) => {
                lemma_cut_text(b, pos, s);
            },
            Model::U64Object(es) => {
                let parts = u64_entry_parts(es);
                assert(enc(m) =~= seq![START_U64_OBJ] + (parts.flatten() + seq![END_OBJ]));
                lemma_cut_first(b, pos, enc(m));
                lemma_cut_split(b, pos, seq![START_U64_OBJ], parts.flatten() + seq![END_OBJ]);
                assert(parts.skip(0) =~= parts);
                assert(es.take(0) =~= Seq::<(u64, Model)>::empty());
                lemma_cut_u64_entries(b, pos + 1, d + 1, es, 0);
            },
            Model::CharSeqObject(es) => {
                let parts = text_entry_parts(es);
                assert(enc(m) =~= seq![START_CHAR_SEQ_OBJ] + (parts.flatten() + seq![END_OBJ]));
                lemma_cut_first(b, pos, enc(m));
                lemma_cut_split(b, pos, seq![START_CHAR_SEQ_OBJ], parts.flatten() + seq![END_OBJ]);
                assert(parts.skip(0) =~= parts);
                assert(es.take(0) =~= Seq::<(Seq<char>, Model)>::empty());
                assert forall|j: int| 0 <= j < es.len() implies text_fits(#[trigger] es[j].0)
                    && well_formed(es[j].1) && nests_within(es[j].1, d + 1) by {
                    assert(well_formed(es[j].1));
                    assert(nests_within(es[j].1, d + 1));
                }
                lemma_cut_text_entries(b, pos + 1, d + 1, es, 0);
            },
        }
    }
}

proof fn lemma_cut_u64_entries(b: Seq<u8>, q: int, d: nat, es: Seq<(u64, Model)>, i: int)
    requires
        sorted_by(es, u64_order()),
        forall|j: int|
            0 <= j < es.len() ==> well_formed(#[trigger] es[j].1) && nests_within(es[j].1, d),
        0 <= i <= es.len(),
        cut_at(b, q, u64_entry_parts(es).skip(i).flatten() + seq![END_OBJ]),
    ensures
        parse_u64_entries(b, q, d, es.take(i)) == Err::<(Model, int), ReadError>(
            ReadError::Truncated,
        ),
    decreases es, es.len() - i,
{
    let parts = u64_entry_parts(es);
    let rest = parts.skip(i);
    if q < b.len() {
        if i == es.len() {
            assert(rest =~= Seq::<Seq<u8>>::empty());
            assert(rest.flatten() =~= Seq::<u8>::empty());
        } else {
            let k = es[i].0;
            let m = es[i].1;
            assert(rest.flatten() == rest[0] + rest.drop_first().flatten());
            assert(rest.drop_first() =~= parts.skip(i + 1));
            assert(rest[0] == enc_u64(START_U64, k) + enc(m));
            let tail = parts.skip(i + 1).flatten() + seq![END_OBJ];
            assert(rest.flatten() + seq![END_OBJ] =~= enc_u64(START_U64, k) + (enc(m) + tail));
            lemma_auto_spec_u64_to_from_le_bytes();
            lemma_cut_split(b, q, enc_u64(START_U64, k), enc(m) + tail);
            if b.len() < q + 9 {
                lemma_cut_tagged_u64(b, q, START_U64, k);
            } else {
                lemma_read_tagged_u64(b, q, START_U64, k);
                lemma_cut_split(b, q + 9, enc(m), tail);
                assert(decreases_to!(es => es[i]));
                if b.len() < q + 9 + enc(m).len() {
                    lemma_cut_value(b, q + 9, d, m);
                } else {
                    lemma_parse_enc(b, q + 9, d, m);
                    let acc = es.take(i);
                    assert(!has_key(acc, k)) by {
                        if has_key(acc, k) {
                            let j = choose|j: int| 0 <= j < acc.len() && acc[j].0 == k;
                            assert(u64_order()(es[j].0, es[i].0));
                        }
                    }
                    lemma_u64_order_total();
                    assert(sorted_by(acc, u64_order()));
                    assert forall|j: int| 0 <= j < i implies u64_order()(#[trigger] acc[j].0, k) by {
                        assert(u64_order()(es[j].0, es[i].0));
                    }
                    lemma_put_at(acc, k, m, u64_order(), i);
                    assert(acc.take(i).push((k, m)) + acc.skip(i) =~= es.take(i + 1));
                    lemma_cut_u64_entries(b, q + 9 + enc(m).len(), d, es, i + 1);
                }
            }
        }
    }
}

proof fn lemma_cut_text_entries(b: Seq<u8>, q: int, d: nat, es: Seq<(Seq<char>, Model)>, i: int)
    requires
        sorted_by(es, text_order()),
        forall|j: int|
            0 <= j < es.len() ==> text_fits(#[trigger] es[j].0) && well_formed(es[j].1)
                && nests_within(es[j].1, d),
        0 <= i <= es.len(),
        cut_at(b, q, text_entry_parts(es).skip(i).flatten() + seq![END_OBJ]),
    ensures
        parse_text_entries(b, q, d, es.take(i)) == Err::<(Model, int), ReadError>(
            ReadError::Truncated,
        ),
    decreases es, es.len() - i,
{
    let parts = text_entry_parts(es);
    let rest = parts.skip(i);
    if q < b.len() {
        if i == es.len() {
            assert(rest =~= Seq::<Seq<u8>>::empty());
            assert(rest.flatten() =~= Seq::<u8>::empty());
        } else {
            let k = es[i].0;
            let m = es[i].1;
            assert(rest.flatten() == rest[0] + rest.drop_first().flatten());
            assert(rest.drop_first() =~= parts.skip(i + 1));
            assert(rest[0] == enc_text(k) + enc(m));
            let tail = parts.skip(i + 1).flatten() + seq![END_OBJ];
            assert(rest.flatten() + seq![END_OBJ] =~= enc_text(k) + (enc(m) + tail));
            lemma_cut_split(b, q, enc_text(k), enc(m) + tail);
            if b.len() < q + enc_text(k).len() {
                lemma_cut_text(b, q, k);
            } else {
                lemma_read_text(b, q, k);
                let e = q + enc_text(k).len();
                lemma_cut_split(b, e, enc(m), tail);
                assert(decreases_to!(es => es[i]));
                if b.len() < e + enc(m).len() {
                    lemma_cut_value(b, e, d, m);
                } else {
                    lemma_parse_enc(b, e, d, m);
                    let acc = es.take(i);
                    lemma_text_order_total();
                    assert(!has_key(acc, k)) by {
                        if has_key(acc, k) {
                            let j = choose|j: int| 0 <= j < acc.len() && acc[j].0 == k;
                            assert(text_order()(es[j].0, es[i].0));
                            assert(text_order()(k, k));
                        }
                    }
                    assert(sorted_by(acc, text_order()));
                    assert forall|j: int| 0 <= j < i implies text_order()(#[trigger] acc[j].0, k) by {
                        assert(text_order()(es[j].0, es[i].0));
                    }
                    lemma_put_at(acc, k, m, text_order(), i);
                    assert(acc.take(i).push((k, m)) + acc.skip(i) =~= es.take(i + 1));
                    lemma_cut_text_entries(b, e + enc(m).len(), d, es, i + 1);
                }
            }
        }
    }
}

/// Every strict prefix of the stream written for a well-formed model,
/// whose objects nest within the decoder's depth cap, is refused with
/// `Truncated`.
pub proof fn lemma_truncated_stream_rejected(m: Model, n: int)
    requires
        well_formed(m),
        nests_within(m, 0),
        0 <= n < enc_stream(m).len(),
    ensures
        parse_stream(enc_stream(m).take(n)) == Err::<Model, ReadError>(ReadError::Truncated),
{
    let b = enc_stream(m).take(n);
    if n >= 8 {
        assert(b.subrange(0, 8) =~= magic_bytes());
        assert(b.subrange(8, b.len() as int) =~= enc(m).take(n - 8));
        lemma_cut_value(b, 8, 0, m);
    }
}

} // verus!
