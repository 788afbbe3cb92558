use vstd::prelude::*;
use vstd::utf8::{encode_utf8, encode_utf8_decode_utf8};
use crate::value::{
    bytes_lt, sorted_by, text_fits, well_formed, text_entries_model, text_order, u64_entries_model, u64_order, Model,
    Value,
};

verus! {

broadcast use vstd::std_specs::vec::group_vec_axioms, vstd::seq_lib::group_seq_properties;

/// `lt` is a strict total order.
pub open spec fn strict_total<K>(lt: spec_fn(K, K) -> bool) -> bool {
    &&& forall|a: K| !#[trigger] lt(a, a)
    &&& forall|a: K, b: K, c: K| #![trigger lt(a, b), lt(b, c)] lt(a, b) && lt(b, c) ==> lt(a, c)
    &&& forall|a: K, b: K| #![trigger lt(a, b)] a != b ==> lt(a, b) || lt(b, a)
}

/// Some entry has key `k`.
pub open spec fn has_key<K>(es: Seq<(K, Model)>, k: K) -> bool {
    exists|i: int| 0 <= i < es.len() && es[i].0 == k
}

/// The entries with `(k, m)` put in key order, replacing an entry under `k`.
pub open spec fn put<K>(es: Seq<(K, Model)>, k: K, m: Model, lt: spec_fn(K, K) -> bool) -> Seq<
    (K, Model),
>
    decreases es.len(),
{
    if es.len() == 0 {
        seq![(k, m)]
    } else if es[0].0 == k {
        seq![(k, m)] + es.drop_first()
    } else if lt(k, es[0].0) {
        seq![(k, m)] + es
    } else {
        seq![es[0]] + put(es.drop_first(), k, m, lt)
    }
}

/// Where `put` places the new entry: after the `i` smaller keys.
pub proof fn lemma_put_at<K>(es: Seq<(K, Model)>, k: K, m: Model, lt: spec_fn(K, K) -> bool, i: int)
    requires
        strict_total(lt),
        sorted_by(es, lt),
        0 <= i <= es.len(),
        forall|j: int| 0 <= j < i ==> lt(#[trigger] es[j].0, k),
        i < es.len() ==> es[i].0 == k || lt(k, es[i].0),
    ensures
        put(es, k, m, lt) == if i < es.len() && es[i].0 == k {
            es.take(i).push((k, m)) + es.skip(i + 1)
        } else {
            es.take(i).push((k, m)) + es.skip(i)
        },
    decreases i,
{
    if i == 0 {
        if es.len() == 0 {
            assert(put(es, k, m, lt) =~= es.take(i).push((k, m)) + es.skip(i));
        } else if es[0].0 == k {
            assert(put(es, k, m, lt) =~= es.take(i).push((k, m)) + es.skip(i + 1));
        } else {
            assert(put(es, k, m, lt) =~= es.take(i).push((k, m)) + es.skip(i));
        }
    } else {
        let rest = es.drop_first();
        assert(lt(es[0].0, k));
        assert(es[0].0 != k);
        assert(!lt(k, es[0].0)) by {
            if lt(k, es[0].0) {
                assert(lt(k, k));
            }
        }
        assert forall|j: int| 0 <= j < i - 1 implies lt(#[trigger] rest[j].0, k) by {
            assert(rest[j] == es[j + 1]);
        }
        lemma_put_at(rest, k, m, lt, i - 1);
        if i < es.len() && es[i].0 == k {
            assert(put(es, k, m, lt) =~= es.take(i).push((k, m)) + es.skip(i + 1));
        } else {
            assert(put(es, k, m, lt) =~= es.take(i).push((k, m)) + es.skip(i));
        }
    }
}

/// `put` keeps the entries sorted; its entries are `(k, m)` and the old
/// entries under other keys.
pub proof fn lemma_put_props<K>(es: Seq<(K, Model)>, k: K, m: Model, lt: spec_fn(K, K) -> bool)
    requires
        strict_total(lt),
        sorted_by(es, lt),
    ensures
        sorted_by(put(es, k, m, lt), lt),
        has_key(put(es, k, m, lt), k),
        forall|i: int|
            0 <= i < put(es, k, m, lt).len() ==> #[trigger] put(es, k, m, lt)[i] == (k, m) || (
            exists|j: int| 0 <= j < es.len() && es[j] == put(es, k, m, lt)[i]),
        forall|i: int|
            0 <= i < put(es, k, m, lt).len() && #[trigger] put(es, k, m, lt)[i].0 == k ==> put(
                es,
                k,
                m,
                lt,
            )[i] == (k, m),
    decreases es.len(),
{
    let p = put(es, k, m, lt);
    if es.len() == 0 {
        assert(p[0] == (k, m));
    } else if es[0].0 == k {
        assert(p[0] == (k, m));
        assert forall|i: int| 1 <= i < p.len() implies p[i] == es[i] by {}
        assert forall|i: int, j: int| 0 <= i < j < p.len() implies lt(p[i].0, p[j].0) by {
            assert(p[j] == es[j]);
            if i > 0 {
                assert(p[i] == es[i]);
            }
        }
        assert forall|i: int| 0 <= i < p.len() && #[trigger] p[i].0 == k implies p[i] == (k, m) by {
            if i > 0 {
                assert(lt(es[0].0, es[i].0));
                assert(p[i] == es[i]);
            }
        }
    } else if lt(k, es[0].0) {
        assert(p[0] == (k, m));
        assert forall|i: int| 1 <= i < p.len() implies p[i] == es[i - 1] by {}
        assert forall|i: int, j: int| 0 <= i < j < p.len() implies lt(p[i].0, p[j].0) by {
            assert(p[j] == es[j - 1]);
            if i > 0 {
                assert(p[i] == es[i - 1]);
            } else if j > 1 {
                assert(lt(es[0].0, es[j - 1].0));
            }
        }
        assert forall|i: int| 0 <= i < p.len() && #[trigger] p[i].0 == k implies p[i] == (k, m) by {
            if i > 1 {
                assert(lt(es[0].0, es[i - 1].0));
                assert(lt(k, k));
            }
        }
        assert forall|i: int| 0 <= i < p.len() implies #[trigger] p[i] == (k, m) || (exists|j: int|
            0 <= j < es.len() && es[j] == p[i]) by {
            if i > 0 {
                assert(es[i - 1] == p[i]);
            }
        }
    } else {
        let rest = es.drop_first();
        let q = put(rest, k, m, lt);
        assert(lt(es[0].0, k));
        assert(sorted_by(rest, lt)) by {
            assert forall|i: int, j: int| 0 <= i < j < rest.len() implies lt(rest[i].0, rest[j].0) by {
                assert(rest[i] == es[i + 1] && rest[j] == es[j + 1]);
            }
        }
        lemma_put_props(rest, k, m, lt);
        assert(p == seq![es[0]] + q);
        assert forall|i: int| 0 <= i < q.len() implies lt(es[0].0, #[trigger] q[i].0) by {
            if q[i] != (k, m) {
                let j = choose|j: int| 0 <= j < rest.len() && rest[j] == q[i];
                assert(rest[j] == es[j + 1]);
            }
        }
        assert forall|i: int, j: int| 0 <= i < j < p.len() implies lt(p[i].0, p[j].0) by {
            assert(p[j] == q[j - 1]);
            if i > 0 {
                assert(p[i] == q[i - 1]);
            }
        }
        assert(p[0] == es[0]);
        let w = choose|i: int| 0 <= i < q.len() && q[i].0 == k;
        assert(p[w + 1] == q[w]);
        assert forall|i: int| 0 <= i < p.len() implies #[trigger] p[i] == (k, m) || (exists|j: int|
            0 <= j < es.len() && es[j] == p[i]) by {
            if i == 0 {
                assert(es[0] == p[i]);
            } else {
                assert(p[i] == q[i - 1]);
                if q[i - 1] != (k, m) {
                    let j = choose|j: int| 0 <= j < rest.len() && rest[j] == q[i - 1];
                    assert(es[j + 1] == p[i]);
                }
            }
        }
        assert forall|i: int| 0 <= i < p.len() && #[trigger] p[i].0 == k implies p[i] == (k, m) by {
            if i > 0 {
                assert(p[i] == q[i - 1]);
            }
        }
    }
}

/// Byte order is irreflexive.
pub proof fn lemma_bytes_lt_irreflexive(a: Seq<u8>)
    ensures
        !bytes_lt(a, a),
    decreases a.len(),
{
    if a.len() > 0 {
        lemma_bytes_lt_irreflexive(a.drop_first());
    }
}

/// Byte order is transitive.
pub proof fn lemma_bytes_lt_transitive(a: Seq<u8>, b: Seq<u8>, c: Seq<u8>)
    requires
        bytes_lt(a, b),
        bytes_lt(b, c),
    ensures
        bytes_lt(a, c),
    decreases a.len(),
{
    if a.len() > 0 && b.len() > 0 && c.len() > 0 && a[0] == b[0] && b[0] == c[0] {
        lemma_bytes_lt_transitive(a.drop_first(), b.drop_first(), c.drop_first());
    }
}

/// Two different byte strings are ordered one way or the other.
pub proof fn lemma_bytes_lt_total(a: Seq<u8>, b: Seq<u8>)
    requires
        a != b,
    ensures
        bytes_lt(a, b) || bytes_lt(b, a),
    decreases a.len(),
{
    if a.len() == 0 {
        assert(b.len() > 0) by {
            if b.len() == 0 {
                assert(a =~= b);
            }
        }
    } else if b.len() > 0 && a[0] == b[0] {
        if a.drop_first() == b.drop_first() {
            assert(a =~= seq![a[0]] + a.drop_first());
            assert(b =~= seq![b[0]] + b.drop_first());
        }
        lemma_bytes_lt_total(a.drop_first(), b.drop_first());
    }
}

/// Numeric order on keys is a strict total order.
pub proof fn lemma_u64_order_total()
    ensures
        strict_total(u64_order()),
{
}

/// Byte order on the UTF-8 encodings of keys is a strict total order.
pub proof fn lemma_text_order_total()
    ensures
        strict_total(text_order()),
{
    let lt = text_order();
    assert forall|a: Seq<char>| !#[trigger] lt(a, a) by {
        lemma_bytes_lt_irreflexive(encode_utf8(a));
    }
    assert forall|a: Seq<char>, b: Seq<char>, c: Seq<char>| #![trigger lt(a, b), lt(b, c)] lt(a, b)
        && lt(b, c) implies lt(a, c) by {
        lemma_bytes_lt_transitive(encode_utf8(a), encode_utf8(b), encode_utf8(c));
    }
    assert forall|a: Seq<char>, b: Seq<char>| #![trigger lt(a, b)] a != b implies lt(a, b) || lt(
        b,
        a,
    ) by {
        encode_utf8_decode_utf8(a);
        encode_utf8_decode_utf8(b);
        lemma_bytes_lt_total(encode_utf8(a), encode_utf8(b));
    }
}

/// Compares two byte strings in lexicographic order.
pub fn bytes_less(a: &[u8], b: &[u8]) -> (r: bool)
    ensures
        r == bytes_lt(a@, b@),
{
    let mut i: usize = 0;
    while i < a.len() && i < b.len() && a[i] == b[i]
        invariant
            i <= a@.len(),
            i <= b@.len(),
            bytes_lt(a@, b@) == bytes_lt(a@.skip(i as int), b@.skip(i as int)),
        decreases a@.len() - i,
    {
        assert(a@.skip(i as int).drop_first() =~= a@.skip(i + 1));
        assert(b@.skip(i as int).drop_first() =~= b@.skip(i + 1));
        i = i + 1;
    }
    if i < a.len() && i < b.len() {
        a[i] < b[i]
    } else {
        i == a.len() && i < b.len()
    }
}

/// Puts `(k, v)` into entries kept in increasing key order, replacing an
/// entry under `k`; says whether there was one.
pub fn insert_u64_entry(es: &mut Vec<(u64, Value)>, k: u64, v: Value) -> (existed: bool)
    requires
        sorted_by(u64_entries_model(old(es)@), u64_order()),
    ensures
        u64_entries_model(final(es)@) == put(u64_entries_model(old(es)@), k, v.model(), u64_order()),
        existed == has_key(u64_entries_model(old(es)@), k),
{
    let ghost ms = u64_entries_model(es@);
    let ghost m = v.model();
    let mut i: usize = 0;
    while i < es.len() && es[i].0 < k
        invariant
            i <= es@.len(),
            es@ == old(es)@,
            ms == u64_entries_model(es@),
            forall|j: int| 0 <= j < i ==> u64_order()(#[trigger] ms[j].0, k),
        decreases es@.len() - i,
    {
        i = i + 1;
    }
    proof {
        lemma_u64_order_total();
        lemma_put_at(ms, k, m, u64_order(), i as int);
    }
    if i < es.len() && es[i].0 == k {
        es.set(i, (k, v));
        assert(u64_entries_model(es@) =~= ms.take(i as int).push((k, m)) + ms.skip(i + 1));
        true
    } else {
        es.insert(i, (k, v));
        assert(u64_entries_model(es@) =~= ms.take(i as int).push((k, m)) + ms.skip(i as int));
        assert(!has_key(ms, k)) by {
            if has_key(ms, k) {
                let j = choose|j: int| 0 <= j < ms.len() && ms[j].0 == k;
                if j >= i {
                    assert(i < ms.len() && ms[i as int].0 != k);
                    if j > i {
                        assert(u64_order()(ms[i as int].0, ms[j].0));
                    }
                }
            }
        }
        false
    }
}

/// Puts `(k, v)` into entries kept in increasing byte order of the keys,
/// replacing an entry under `k`; says whether there was one.
pub fn insert_text_entry(es: &mut Vec<(String, Value)>, k: String, v: Value) -> (existed: bool)
    requires
        sorted_by(text_entries_model(old(es)@), text_order()),
    ensures
        text_entries_model(final(es)@) == put(
            text_entries_model(old(es)@),
            k@,
            v.model(),
            text_order(),
        ),
        existed == has_key(text_entries_model(old(es)@), k@),
{
    let ghost ms = text_entries_model(es@);
    let ghost m = v.model();
    let mut i: usize = 0;
    while i < es.len() && bytes_less(es[i].0.as_str().as_bytes(), k.as_str().as_bytes())
        invariant
            i <= es@.len(),
            es@ == old(es)@,
            ms == text_entries_model(es@),
            forall|j: int| 0 <= j < i ==> text_order()(#[trigger] ms[j].0, k@),
        decreases es@.len() - i,
    {
        i = i + 1;
    }
    proof {
        lemma_text_order_total();
        if i < es.len() && ms[i as int].0 != k@ {
            assert(!text_order()(ms[i as int].0, k@));
        }
        lemma_put_at(ms, k@, m, text_order(), i as int);
    }
    if i < es.len() && es[i].0 == k {
        let ghost kv = k@;
        es.set(i, (k, v));
        assert(text_entries_model(es@) =~= ms.take(i as int).push((kv, m)) + ms.skip(i + 1));
        true
    } else {
        let ghost kv = k@;
        es.insert(i, (k, v));
        assert(text_entries_model(es@) =~= ms.take(i as int).push((kv, m)) + ms.skip(i as int));
        assert(!has_key(ms, kv)) by {
            if has_key(ms, kv) {
                let j = choose|j: int| 0 <= j < ms.len() && ms[j].0 == kv;
                if j >= i {
                    assert(i < ms.len() && ms[i as int].0 != kv);
                    if j > i {
                        assert(text_order()(ms[i as int].0, ms[j].0));
                        assert(text_order()(kv, kv));
                    }
                } else {
                    assert(text_order()(kv, kv));
                }
            }
        }
        false
    }
}

/// Whether a value is well-formed: every object's keys unique and in
/// order, every text short enough for its length prefix.
#[verifier::loop_isolation(false)]
pub fn is_well_formed(v: &Value) -> (r: bool)
    ensures
        r == well_formed(v.model()),
    decreases v,
{
    match v {
        Value::U64(_) | Value::F64(_) => true,
        Value::CharSeq(s) => {
            let n = s.as_str().as_bytes().len();
            assert(n as int <= u64::MAX);
            true
        },
        Value::U64Object(es) => {
            let ghost ms = u64_entries_model(es@);
            let mut i: usize = 0;
            while i < es.len()
                invariant
                    i <= es@.len(),
                    ms == u64_entries_model(es@),
                    sorted_by(ms.take(i as int), u64_order()),
                    forall|j: int| 0 <= j < i ==> well_formed(#[trigger] ms[j].1),
                decreases es@.len() - i,
            {
                proof {
                    assert(decreases_to!(*v => *es));
                    assert(decreases_to!(*es => es[i as int]));
                    assert(decreases_to!(es[i as int] => es[i as int].1));
                }
                if i > 0 && es[i - 1].0 >= es[i].0 {
                    assert(!u64_order()(ms[i - 1].0, ms[i as int].0));
                    assert(!sorted_by(ms, u64_order()));
                    return false;
                }
                if !is_well_formed(&es[i].1) {
                    assert(ms[i as int].1 == es@[i as int].1.model());
                    return false;
                }
                assert(sorted_by(ms.take(i + 1), u64_order())) by {
                    assert forall|a: int, b: int| #![trigger ms.take(i + 1)[a], ms.take(i + 1)[b]] 0 <= a < b < i + 1 implies u64_order()(
                        ms.take(i + 1)[a].0,
                        ms.take(i + 1)[b].0,
                    ) by {
                        if b == i && a < i - 1 {
                            assert(u64_order()(ms.take(i as int)[a].0, ms.take(i as int)[i - 1].0));
                        }
                    }
                }
                i = i + 1;
            }
            assert(ms.take(i as int) =~= ms);
            true
        },
        Value::CharSeqObject(es) => {
            let ghost ms = text_entries_model(es@);
            proof {
                lemma_text_order_total();
            }
            let mut i: usize = 0;
            while i < es.len()
                invariant
                    i <= es@.len(),
                    ms == text_entries_model(es@),
                    sorted_by(ms.take(i as int), text_order()),
                    forall|j: int|
                        0 <= j < i ==> text_fits(#[trigger] ms[j].0) && well_formed(ms[j].1),
                decreases es@.len() - i,
            {
                proof {
                    assert(decreases_to!(*v => *es));
                    assert(decreases_to!(*es => es[i as int]));
                    assert(decreases_to!(es[i as int] => es[i as int].1));
                }
                assert(ms[i as int].0 == es@[i as int].0@);
                if i > 0 {
                    assert(ms[i - 1].0 == es@[i - 1].0@);
                }
                if i > 0 && !bytes_less(es[i - 1].0.as_str().as_bytes(), es[i].0.as_str().as_bytes()) {
                    assert(!text_order()(ms[i - 1].0, ms[i as int].0));
                    assert(!sorted_by(ms, text_order()));
                    return false;
                }
                let n = es[i].0.as_str().as_bytes().len();
                assert(n as int <= u64::MAX);
                assert(ms[i as int].0 == es@[i as int].0@);
                assert(text_fits(ms[i as int].0));
                if i > 0 {
                    assert(ms[i - 1].0 == es@[i - 1].0@);
                    assert(text_order()(ms[i - 1].0, ms[i as int].0));
                }
                if !is_well_formed(&es[i].1) {
                    assert(ms[i as int].1 == es@[i as int].1.model());
                    return false;
                }
                assert(sorted_by(ms.take(i + 1), text_order())) by {
                    assert forall|a: int, b: int| #![trigger ms.take(i + 1)[a], ms.take(i + 1)[b]] 0 <= a < b < i + 1 implies text_order()(
                        ms.take(i + 1)[a].0,
                        ms.take(i + 1)[b].0,
                    ) by {
                        if b == i && a < i - 1 {
                            assert(text_order()(ms.take(i as int)[a].0, ms.take(i as int)[i - 1].0));
                            assert(text_order()(ms[a].0, ms[i - 1].0));
                            assert(text_order()(ms[i - 1].0, ms[i as int].0));
                        }
                    }
                }
                i = i + 1;
            }
            assert(ms.take(i as int) =~= ms);
            true
        },
    }
}

} // verus!
