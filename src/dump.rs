use vstd::prelude::*;
use vstd::string::StringExecFns;
use crate::value::{Model, Value};

verus! {

broadcast use vstd::std_specs::vec::group_vec_axioms, vstd::seq_lib::group_seq_properties;

/// `n` spaces: the indentation of the human-readable dump (four per level).
pub open spec fn spaces(n: nat) -> Seq<char> {
    Seq::new(n, |i: int| ' ')
}

/// The decimal digits.
pub open spec fn digits() -> Seq<char> {
    seq!['0', '1', '2', '3', '4', '5', '6', '7', '8', '9']
}

/// `n` in decimal, without leading zeros.
pub open spec fn decimal(n: u64) -> Seq<char>
    decreases n,
{
    if n < 10 {
        seq![digits()[n as int]]
    } else {
        decimal(n / 10) + seq![digits()[(n % 10) as int]]
    }
}

/// A piece of the human-readable dump: text, or a float (as its bit
/// pattern) for the caller to render.
pub enum DumpPiece {
    Text(String),
    F64Bits(u64),
}

/// The meaning of a `DumpPiece`.
pub enum PieceModel {
    Text(Seq<char>),
    F64Bits(u64),
}

impl DumpPiece {
    pub open spec fn model(self) -> PieceModel {
        match self {
            DumpPiece::Text(s) => PieceModel::Text(s@),
            DumpPiece::F64Bits(b) => PieceModel::F64Bits(b),
        }
    }
}

/// The meaning of a list of pieces.
pub open spec fn pieces_model(ps: Seq<DumpPiece>) -> Seq<PieceModel> {
    Seq::new(ps.len(), |i: int| ps[i].model())
}

/// The dump of a value at nesting level `depth`: primitives in their natural
/// form; an object as `{`, one `key:value` line per entry indented one level
/// deeper, then `}`, its braces indented four spaces per level; text keys in
/// double quotes.
pub open spec fn dump_model(m: Model, depth: nat) -> Seq<PieceModel>
    decreases m, 1nat,
{
    match m {
        Model::U64(n) => seq![PieceModel::Text(decimal(n))],
        Model::F64(b) => seq![PieceModel::F64Bits(b)],
        Model::CharSeq(s) => seq![PieceModel::Text(s)],
        Model::U64Object(es) => seq![PieceModel::Text(spaces(4 * depth) + seq!['{', '\n'])]
            + u64_dump_parts(es, depth).flatten() + seq![
            PieceModel::Text(spaces(4 * depth) + seq!['}', '\n']),
        ],
        Model::CharSeqObject(es) => seq![PieceModel::Text(spaces(4 * depth) + seq!['{', '\n'])]
            + text_dump_parts(es, depth).flatten() + seq![
            PieceModel::Text(spaces(4 * depth) + seq!['}', '\n']),
        ],
    }
}

/// The lines of the entries of a `U64Object` at level `depth`.
pub open spec fn u64_dump_parts(es: Seq<(u64, Model)>, depth: nat) -> Seq<Seq<PieceModel>>
    decreases es, 0nat,
{
    Seq::new(
        es.len(),
        |i: int|
            if 0 <= i < es.len() {
                seq![PieceModel::Text(spaces(4 * (depth + 1)) + decimal(es[i].0) + seq![':'])]
                    + dump_model(es[i].1, depth + 1) + seq![PieceModel::Text(seq!['\n'])]
            } else {
                Seq::empty()
            },
    )
}

/// The lines of the entries of a `CharSeqObject` at level `depth`.
pub open spec fn text_dump_parts(es: Seq<(Seq<char>, Model)>, depth: nat) -> Seq<
    Seq<PieceModel>,
>
    decreases es, 0nat,
{
    Seq::new(
        es.len(),
        |i: int|
            if 0 <= i < es.len() {
                seq![
                    PieceModel::Text(
                        spaces(4 * (depth + 1)) + seq!['"'] + es[i].0 + seq!['"', ':'],
                    ),
                ] + dump_model(es[i].1, depth + 1) + seq![PieceModel::Text(seq!['\n'])]
            } else {
                Seq::empty()
            },
    )
}

/// Appends `n` spaces to `out`.
pub fn pad(out: &mut String, n: usize)
    ensures
        final(out)@ == old(out)@ + spaces(n as nat),
{
    let mut i: usize = 0;
    while i < n
        invariant
            i <= n,
            out@ == old(out)@ + spaces(i as nat),
        decreases n - i,
    {
        out.append(" ");
        proof {
            reveal_strlit(" ");
        }
        assert(out@ =~= old(out)@ + spaces((i + 1) as nat));
        i = i + 1;
    }
}

/// The digit `d` as text.
fn digit_text(d: u64) -> (r: &'static str)
    requires
        d < 10,
    ensures
        r@ == seq![digits()[d as int]],
{
    proof {
        reveal_strlit("0");
        reveal_strlit("1");
        reveal_strlit("2");
        reveal_strlit("3");
        reveal_strlit("4");
        reveal_strlit("5");
        reveal_strlit("6");
        reveal_strlit("7");
        reveal_strlit("8");
        reveal_strlit("9");
    }
    if d == 0 {
        "0"
    } else if d == 1 {
        "1"
    } else if d == 2 {
        "2"
    } else if d == 3 {
        "3"
    } else if d == 4 {
        "4"
    } else if d == 5 {
        "5"
    } else if d == 6 {
        "6"
    } else if d == 7 {
        "7"
    } else if d == 8 {
        "8"
    } else {
        "9"
    }
}

/// `n` in decimal.
pub fn decimal_string(n: u64) -> (r: String)
    ensures
        r@ == decimal(n),
    decreases n,
{
    let mut s = if n >= 10 {
        decimal_string(n / 10)
    } else {
        String::new()
    };
    s.append(digit_text(n % 10));
    assert(s@ =~= decimal(n));
    s
}

/// Appends a text piece.
fn push_text(out: &mut Vec<DumpPiece>, t: String)
    ensures
        pieces_model(final(out)@) == pieces_model(old(out)@) + seq![PieceModel::Text(t@)],
{
    let ghost tv = t@;
    out.push(DumpPiece::Text(t));
    assert(pieces_model(out@) =~= pieces_model(old(out)@) + seq![PieceModel::Text(tv)]);
}

/// `indent` followed by `tail`.
fn joined(indent: &String, tail: &str) -> (r: String)
    ensures
        r@ == indent@ + tail@,
{
    let mut t = indent.clone();
    t.append(tail);
    t
}

#[verifier::loop_isolation(false)]
fn dump_into(v: &Value, indent: &String, depth: Ghost<nat>, out: &mut Vec<DumpPiece>)
    requires
        indent@ == spaces(4 * depth@),
    ensures
        pieces_model(final(out)@) == pieces_model(old(out)@) + dump_model(v.model(), depth@),
    decreases v,
{
    proof {
        reveal_strlit("{\n");
        reveal_strlit("}\n");
        reveal_strlit("\n");
        reveal_strlit(":");
        reveal_strlit("\"");
        reveal_strlit("\":");
    }
    match v {
        Value::U64(n) => {
            push_text(out, decimal_string(*n));
            assert(v.model() == Model::U64(*n));
        },
        Value::F64(b) => {
            out.push(DumpPiece::F64Bits(*b));
            assert(v.model() == Model::F64(*b));
            assert(pieces_model(out@) =~= pieces_model(old(out)@) + dump_model(v.model(), depth@));
        },
        Value::CharSeq(s) => {
            push_text(out, s.clone());
            assert(v.model() == Model::CharSeq(s@));
        },
        Value::U64Object(es) => {
            let ghost m = v.model();
            let ghost ms = match m {
                Model::U64Object(ms) => ms,
                _ => Seq::empty(),
            };
            let ghost parts = u64_dump_parts(ms, depth@);
            let mut inner = indent.clone();
            pad(&mut inner, 4);
            assert(inner@ =~= spaces(4 * (depth@ + 1)));
            let open = joined(indent, "{\n");
            assert(open@ == spaces(4 * depth@) + seq!['{', '\n']);
            push_text(out, open);
            let ghost start = pieces_model(out@);
            let mut i: usize = 0;
            while i < es.len()
                invariant
                    i <= es@.len(),
                    pieces_model(out@) == start + parts.take(i as int).flatten(),
                decreases es@.len() - i,
            {
                let e = &es[i];
                proof {
                    assert(decreases_to!(*v => *es));
                    assert(decreases_to!(*es => es[i as int]));
                    assert(decreases_to!(es[i as int] => es[i as int].1));
                }
                let ghost before = pieces_model(out@);
                let mut key = joined(&inner, decimal_string(e.0).as_str());
                key.append(":");
                assert(key@ == spaces(4 * (depth@ + 1)) + decimal(e.0) + seq![':']);
                push_text(out, key);
                dump_into(&e.1, &inner, Ghost(depth@ + 1), out);
                let nl = String::from_str("\n");
                assert(nl@ == seq!['\n']);
                push_text(out, nl);
                proof {
                    assert(ms[i as int] == (es@[i as int].0, es@[i as int].1.model()));
                    assert(pieces_model(out@) =~= before + parts[i as int]);
                    assert(parts.take(i + 1) =~= parts.take(i as int).push(parts[i as int]));
                    parts.take(i as int).lemma_flatten_push(parts[i as int]);
                }
                i = i + 1;
            }
            assert(parts.take(i as int) =~= parts);
            let close = joined(indent, "}\n");
            assert(close@ == spaces(4 * depth@) + seq!['}', '\n']);
            push_text(out, close);
            assert(dump_model(m, depth@) == seq![PieceModel::Text(spaces(4 * depth@) + seq!['{', '\n'])]
                + parts.flatten() + seq![PieceModel::Text(spaces(4 * depth@) + seq!['}', '\n'])]);
            assert(pieces_model(out@) =~= pieces_model(old(out)@) + dump_model(m, depth@));
        },
        Value::CharSeqObject(es) => {
            let ghost m = v.model();
            let ghost ms = match m {
                Model::CharSeqObject(ms) => ms,
                _ => Seq::empty(),
            };
            let ghost parts = text_dump_parts(ms, depth@);
            let mut inner = indent.clone();
            pad(&mut inner, 4);
            assert(inner@ =~= spaces(4 * (depth@ + 1)));
            let open = joined(indent, "{\n");
            assert(open@ == spaces(4 * depth@) + seq!['{', '\n']);
            push_text(out, open);
            let ghost start = pieces_model(out@);
            let mut i: usize = 0;
            while i < es.len()
                invariant
                    i <= es@.len(),
                    pieces_model(out@) == start + parts.take(i as int).flatten(),
                decreases es@.len() - i,
            {
                let e = &es[i];
                proof {
                    assert(decreases_to!(*v => *es));
                    assert(decreases_to!(*es => es[i as int]));
                    assert(decreases_to!(es[i as int] => es[i as int].1));
                }
                let ghost before = pieces_model(out@);
                let mut key = joined(&inner, "\"");
                key.append(e.0.as_str());
                key.append("\":");
                assert(key@ == spaces(4 * (depth@ + 1)) + seq!['"'] + e.0@ + seq!['"', ':']);
                push_text(out, key);
                dump_into(&e.1, &inner, Ghost(depth@ + 1), out);
                let nl = String::from_str("\n");
                assert(nl@ == seq!['\n']);
                push_text(out, nl);
                proof {
                    assert(ms[i as int] == (es@[i as int].0@, es@[i as int].1.model()));
                    assert(pieces_model(out@) =~= before + parts[i as int]);
                    assert(parts.take(i + 1) =~= parts.take(i as int).push(parts[i as int]));
                    parts.take(i as int).lemma_flatten_push(parts[i as int]);
                }
                i = i + 1;
            }
            assert(parts.take(i as int) =~= parts);
            let close = joined(indent, "}\n");
            assert(close@ == spaces(4 * depth@) + seq!['}', '\n']);
            push_text(out, close);
            assert(dump_model(m, depth@) == seq![PieceModel::Text(spaces(4 * depth@) + seq!['{', '\n'])]
                + parts.flatten() + seq![PieceModel::Text(spaces(4 * depth@) + seq!['}', '\n'])]);
            assert(pieces_model(out@) =~= pieces_model(old(out)@) + dump_model(m, depth@));
        },
    }
}

/// Appends the pieces of the human-readable dump of `v` at the top level.
pub fn dump_pieces(v: &Value, out: &mut Vec<DumpPiece>)
    ensures
        pieces_model(final(out)@) == pieces_model(old(out)@) + dump_model(v.model(), 0),
{
    let indent = String::new();
    assert(indent@ =~= spaces(0));
    dump_into(v, &indent, Ghost(0), out);
}

} // verus!
