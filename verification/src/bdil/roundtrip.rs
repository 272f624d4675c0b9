//! Reading back a written frame gives the literal that was written.

use vstd::prelude::*;
use vstd::utf8::{encode_utf8, encode_utf8_decode_utf8, encode_utf8_valid_utf8};

use super::codec::{
    le_bytes, lemma_i32_u32_roundtrip, lemma_le_bytes_roundtrip, END, MAGIC, T_FLT, T_INT, T_STR, T_VAR,
    VER_0_1_0, WORD,
};
use super::decode::{
    args_at, argument_list, body_at, frame_literal, functor_at, nonzero_end, term_at, text_at,
    version_end,
};
use super::encode::{
    body_encoding, expression_tag, frame_encoding, functor_encoding, literal_term_tag, str_header,
    term_encoding, terms_encoding, variable_encoding, word,
};
use super::{LiteralModel, TermModel};

verus! {

/// The tags of the format that tell a negated literal from one that is not: a literal
/// argument opens with `0x24` when negated and `0x23` when not, and the expression of a
/// frame with `0x11` when negated and `0x10` when not. Written literals carry the tag of
/// their negation, and read literals are negated exactly when their tag says so.
pub proof fn lemma_negation_tags(l: LiteralModel, s: Seq<u8>, pos: int)
    ensures
        term_encoding(TermModel::Literal(l)) matches Ok(b) ==> b.len() >= 1 && b[0] == (if l.negated { 0x24u8 } else { 0x23u8 }),
        frame_encoding(l) matches Ok(b) ==> b.len() >= 4 && b[3] == (if l.negated { 0x11u8 } else { 0x10u8 }),
        term_at(s, pos) matches Some((TermModel::Literal(m), _)) ==> 0 <= pos < s.len()
            && (s[pos] == 0x23u8 || s[pos] == 0x24u8) && m.negated == (s[pos] == 0x24u8),
        0 <= pos < s.len() && s[pos] == 0x24u8 && term_at(s, pos) is Some ==> (term_at(s, pos) matches Some((TermModel::Literal(m), _)) && m.negated),
        0 <= pos < s.len() && s[pos] == 0x23u8 && term_at(s, pos) is Some ==> (term_at(s, pos) matches Some((TermModel::Literal(m), _)) && !m.negated),
        frame_literal(s) matches Some(m) ==> exists|v: int| 3 <= v < s.len() && (s[v] == 0x10u8 || s[v] == 0x11u8) && m.negated == (s[v] == 0x11u8),
{
    if let Some((TermModel::Literal(m), _)) = term_at(s, pos) {
        assert(0 <= pos < s.len());
    }
    if let Some(m) = frame_literal(s) {
        let v = version_end(s)->Some_0;
        assert(3 <= v < s.len());
    }
}

/// Each kind of term opens with its own tag: an integer with `0x20`, a float with `0x21`, a
/// byte string with `0x22`, a literal with `0x23` (`0x24` when negated) and a variable
/// with `0x25`; reading a term tells its kind by that tag. A literal's body opens with the
/// functor's tag `0x30`, and a frame opens with `0xCA 0xED 0x40` and closes with `0x00`.
pub proof fn lemma_term_tags(t: TermModel, l: LiteralModel, s: Seq<u8>, pos: int)
    ensures
        term_encoding(t) matches Ok(b) ==> b.len() >= 1 && b[0] == match t {
            TermModel::Int(_) => 0x20u8,
            TermModel::Float(_) => 0x21u8,
            TermModel::Str(_) => 0x22u8,
            TermModel::Literal(m) => if m.negated { 0x24u8 } else { 0x23u8 },
            TermModel::Variable(_) => 0x25u8,
        },
        body_encoding(l) matches Ok(b) ==> b.len() >= 2 && b[0] == 0x30u8 && b[b.len() - 1] == 0x00u8,
        frame_encoding(l) matches Ok(b) ==> b.len() >= 5 && b[0] == 0xCAu8 && b[1] == 0xEDu8 && b[2] == 0x40u8 && b[b.len() - 1] == 0x00u8,
        term_at(s, pos) matches Some((u, _)) ==> 0 <= pos < s.len() && s[pos] == match u {
            TermModel::Int(_) => 0x20u8,
            TermModel::Float(_) => 0x21u8,
            TermModel::Str(_) => 0x22u8,
            TermModel::Literal(m) => if m.negated { 0x24u8 } else { 0x23u8 },
            TermModel::Variable(_) => 0x25u8,
        },
{
    match t {
        TermModel::Str(b) => {
            assert((str_header(b.len()) + b)[0] == str_header(b.len())[0]);
        },
        TermModel::Literal(m) => {
            if let Ok(b) = body_encoding(m) {
                assert((seq![literal_term_tag(m.negated)] + b)[0] == literal_term_tag(m.negated));
            }
        },
        TermModel::Variable(name) => {
            if let Ok(b) = variable_encoding(name) {
                assert(b[0] == 0x25u8);
            }
        },
        _ => {},
    }
    if let Ok(f) = functor_encoding(l.functor) {
        assert(f[0] == 0x30u8);
        let args = match l.arguments {
            Some(a) => terms_encoding(a),
            None => Ok(Seq::empty()),
        };
        if let Ok(a) = args {
            let b = f + a + seq![END];
            assert(b[0] == f[0]);
            assert(b[b.len() - 1] == END);
        }
    }
    if let Ok(b) = body_encoding(l) {
        let fr = seq![MAGIC[0], MAGIC[1], VER_0_1_0, expression_tag(l.negated)] + b + seq![END];
        assert(fr[0] == MAGIC[0]);
        assert(fr[1] == MAGIC[1]);
        assert(fr[2] == VER_0_1_0);
        assert(fr[fr.len() - 1] == END);
    }
    if let Some((u, _)) = term_at(s, pos) {
        assert(0 <= pos < s.len());
    }
}

/// A term that the format can carry unchanged: byte strings fit its 16-bit length, and
/// every argument list it holds is non-empty (an empty one reads back as none).
pub open spec fn canonical_term(t: TermModel) -> bool
    decreases t,
{
    match t {
        TermModel::Str(b) => b.len() < 65536,
        TermModel::Literal(l) => canonical_literal(l),
        _ => true,
    }
}

pub open spec fn canonical_terms(ts: Seq<TermModel>) -> bool
    decreases ts,
{
    ts.len() == 0 || (canonical_term(ts[0]) && canonical_terms(ts.drop_first()))
}

pub open spec fn canonical_literal(l: LiteralModel) -> bool
    decreases l,
{
    match l.arguments {
        None => true,
        Some(a) => a.len() > 0 && canonical_terms(a),
    }
}

proof fn lemma_nonzero_run(s: Seq<u8>, pos: int, end: int)
    requires
        0 <= pos <= end < s.len(),
        s[end] == 0,
        forall|i: int| pos <= i < end ==> s[i] != 0,
    ensures
        nonzero_end(s, pos) == end,
    decreases end - pos,
{
    if pos < end {
        lemma_nonzero_run(s, pos + 1, end);
    }
}

proof fn lemma_text_roundtrip(c: Seq<char>, tag: u8, s: Seq<u8>, pos: int)
    requires
        encode_utf8(c).len() > 0,
        !encode_utf8(c).contains(0u8),
        0 <= pos,
        pos + word(tag, encode_utf8(c)).len() <= s.len(),
        s.subrange(pos, pos + word(tag, encode_utf8(c)).len()) == word(tag, encode_utf8(c)),
    ensures
        s[pos] == tag,
        text_at(s, pos + 1) == Some((c, pos + word(tag, encode_utf8(c)).len())),
{
    let b = encode_utf8(c);
    let w = word(tag, b);
    let n = b.len() as int;
    assert(w[0] == tag);
    assert(s[pos] == s.subrange(pos, pos + w.len())[0]);
    assert forall|i: int| pos + 1 <= i < pos + 1 + n implies s[i] != 0 by {
        assert(s[i] == s.subrange(pos, pos + w.len())[i - pos]);
        assert(w[i - pos] == b[i - pos - 1]);
        if s[i] == 0 {
            assert(b.contains(0u8));
        }
    }
    assert(s[pos + 1 + n] == s.subrange(pos, pos + w.len())[1 + n]);
    assert(w[1 + n] == 0);
    lemma_nonzero_run(s, pos + 1, pos + 1 + n);
    assert(s.subrange(pos + 1, pos + 1 + n) =~= b) by {
        assert forall|i: int| 0 <= i < n implies s.subrange(pos + 1, pos + 1 + n)[i] == b[i] by {
            assert(s.subrange(pos, pos + w.len())[i + 1] == w[i + 1]);
        }
    }
    encode_utf8_valid_utf8(c);
    encode_utf8_decode_utf8(c);
}

proof fn lemma_byte_at(s: Seq<u8>, pos: int, e: Seq<u8>, k: int)
    requires
        0 <= pos,
        pos + e.len() <= s.len(),
        s.subrange(pos, pos + e.len()) == e,
        0 <= k < e.len(),
    ensures
        s[pos + k] == e[k],
{
    assert(s.subrange(pos, pos + e.len())[k] == s[pos + k]);
}

proof fn lemma_str_length(n: nat)
    requires
        n < 65536,
    ensures
        ((n as u16) >> 8u16) as u8 as int * 256 + ((n as u16) & 0xffu16) as u8 as int == n,
{
    let l = n as u16;
    assert(l as int == n);
    assert(((l >> 8u16) as u8) as int * 256 + ((l & 0xffu16) as u8) as int == l as int) by (bit_vector);
}

proof fn lemma_term_roundtrip(t: TermModel, s: Seq<u8>, pos: int)
    requires
        canonical_term(t),
        term_encoding(t) is Ok,
        0 <= pos,
        pos + term_encoding(t)->Ok_0.len() <= s.len(),
        s.subrange(pos, pos + term_encoding(t)->Ok_0.len()) == term_encoding(t)->Ok_0,
    ensures
        term_encoding(t)->Ok_0.len() > 0,
        term_at(s, pos) == Some((t, pos + term_encoding(t)->Ok_0.len())),
    decreases t,
{
    let e = term_encoding(t)->Ok_0;
    assert forall|i: int| 0 <= i < e.len() implies s[pos + i] == e[i] by {
        lemma_byte_at(s, pos, e, i);
    }
    match t {
        TermModel::Int(i) => {
            let u = #[verifier::truncate] (i as u32);
            lemma_le_bytes_roundtrip(u);
            lemma_i32_u32_roundtrip(i);
            lemma_byte_at(s, pos, e, 0);
            lemma_byte_at(s, pos, e, 1);
            lemma_byte_at(s, pos, e, 2);
            lemma_byte_at(s, pos, e, 3);
            lemma_byte_at(s, pos, e, 4);
            assert(s[pos] == T_INT);
            assert(s[pos + 1] == le_bytes(u)[0]);
            assert(s[pos + 2] == le_bytes(u)[1]);
            assert(s[pos + 3] == le_bytes(u)[2]);
            assert(s[pos + 4] == le_bytes(u)[3]);
        },
        TermModel::Float(u) => {
            lemma_le_bytes_roundtrip(u);
            lemma_byte_at(s, pos, e, 0);
            lemma_byte_at(s, pos, e, 1);
            lemma_byte_at(s, pos, e, 2);
            lemma_byte_at(s, pos, e, 3);
            lemma_byte_at(s, pos, e, 4);
            assert(s[pos] == T_FLT);
            assert(s[pos + 1] == le_bytes(u)[0]);
            assert(s[pos + 2] == le_bytes(u)[1]);
            assert(s[pos + 3] == le_bytes(u)[2]);
            assert(s[pos + 4] == le_bytes(u)[3]);
        },
        TermModel::Str(b) => {
            lemma_str_length(b.len());
            lemma_byte_at(s, pos, e, 0);
            lemma_byte_at(s, pos, e, 1);
            lemma_byte_at(s, pos, e, 2);
            assert(s[pos] == T_STR);
            assert(s[pos + 1] == str_header(b.len())[1]);
            assert(s[pos + 2] == str_header(b.len())[2]);
            assert(s.subrange(pos + 3, pos + 3 + b.len()) =~= b) by {
                assert forall|i: int| 0 <= i < b.len() implies s.subrange(pos + 3, pos + 3 + b.len())[i] == b[i] by {
                    assert(s[pos + 3 + i] == e[3 + i]);
                }
            }
        },
        TermModel::Literal(l) => {
            let body = body_encoding(l)->Ok_0;
            lemma_byte_at(s, pos, e, 0);
            assert(s[pos] == literal_term_tag(l.negated));
            assert(s.subrange(pos + 1, pos + 1 + body.len()) =~= body) by {
                assert forall|i: int| 0 <= i < body.len() implies s.subrange(pos + 1, pos + 1 + body.len())[i] == body[i] by {
                    assert(s[pos + 1 + i] == e[1 + i]);
                }
            }
            lemma_body_roundtrip(l, s, pos + 1);
        },
        TermModel::Variable(name) => {
            lemma_text_roundtrip(name, T_VAR, s, pos);
        },
    }
}

proof fn lemma_args_roundtrip(ts: Seq<TermModel>, s: Seq<u8>, pos: int)
    requires
        canonical_terms(ts),
        terms_encoding(ts) is Ok,
        0 <= pos,
        pos + terms_encoding(ts)->Ok_0.len() + 1 <= s.len(),
        s.subrange(pos, pos + terms_encoding(ts)->Ok_0.len()) == terms_encoding(ts)->Ok_0,
        s[pos + terms_encoding(ts)->Ok_0.len()] == END,
    ensures
        args_at(s, pos) == Some((ts, pos + terms_encoding(ts)->Ok_0.len() + 1)),
    decreases ts,
{
    let a = terms_encoding(ts)->Ok_0;
    if ts.len() == 0 {
        assert(s[pos] == 0);
        assert(term_at(s, pos) is None);
        assert(ts =~= Seq::<TermModel>::empty());
    } else {
        let e0 = term_encoding(ts[0])->Ok_0;
        let rest = ts.drop_first();
        let r = terms_encoding(rest)->Ok_0;
        assert(a == e0 + r);
        assert(s.subrange(pos, pos + e0.len()) =~= e0) by {
            assert forall|i: int| 0 <= i < e0.len() implies s.subrange(pos, pos + e0.len())[i] == e0[i] by {
                assert(s.subrange(pos, pos + a.len())[i] == a[i]);
            }
        }
        lemma_term_roundtrip(ts[0], s, pos);
        let p = pos + e0.len();
        assert(s.subrange(p, p + r.len()) =~= r) by {
            assert forall|i: int| 0 <= i < r.len() implies s.subrange(p, p + r.len())[i] == r[i] by {
                assert(s.subrange(pos, pos + a.len())[e0.len() + i] == a[e0.len() + i]);
            }
        }
        lemma_args_roundtrip(rest, s, p);
        assert(seq![ts[0]] + rest =~= ts);
    }
}

proof fn lemma_body_roundtrip(l: LiteralModel, s: Seq<u8>, pos: int)
    requires
        canonical_literal(l),
        body_encoding(l) is Ok,
        0 <= pos,
        pos + body_encoding(l)->Ok_0.len() <= s.len(),
        s.subrange(pos, pos + body_encoding(l)->Ok_0.len()) == body_encoding(l)->Ok_0,
    ensures
        body_at(s, pos) == Some((l.functor, l.arguments, pos + body_encoding(l)->Ok_0.len())),
    decreases l,
{
    let e = body_encoding(l)->Ok_0;
    let f = functor_encoding(l.functor)->Ok_0;
    let ts = match l.arguments {
        Some(a) => a,
        None => Seq::empty(),
    };
    assert(terms_encoding(Seq::<TermModel>::empty()) == Ok::<Seq<u8>, super::error::EncodeError>(Seq::empty()));
    let a = terms_encoding(ts)->Ok_0;
    assert(e == f + a + seq![END]);
    assert(s.subrange(pos, pos + f.len()) =~= f) by {
        assert forall|i: int| 0 <= i < f.len() implies s.subrange(pos, pos + f.len())[i] == f[i] by {
            assert(s.subrange(pos, pos + e.len())[i] == e[i]);
        }
    }
    lemma_text_roundtrip(l.functor, WORD, s, pos);
    assert(functor_at(s, pos) == Some((l.functor, pos + f.len())));
    let p = pos + f.len();
    assert(s.subrange(p, p + a.len()) =~= a) by {
        assert forall|i: int| 0 <= i < a.len() implies s.subrange(p, p + a.len())[i] == a[i] by {
            assert(s.subrange(pos, pos + e.len())[f.len() + i] == e[f.len() + i]);
        }
    }
    assert(s[p + a.len()] == END) by {
        assert(s.subrange(pos, pos + e.len())[f.len() + a.len() as int] == e[f.len() + a.len() as int]);
    }
    assert(canonical_terms(ts)) by {
        if l.arguments is None {
            assert(ts.len() == 0);
        }
    }
    match l.arguments {
        Some(args) => {
            lemma_args_roundtrip(args, s, p);
        },
        None => {
            assert(term_at(s, p) is None);
        },
    }
    assert(argument_list(ts) == l.arguments);
}

/// Reading back a frame that was written gives the literal that was written, for every
/// literal that can be written and that the format carries unchanged.
pub proof fn lemma_frame_roundtrip(l: LiteralModel)
    requires
        canonical_literal(l),
        frame_encoding(l) is Ok,
    ensures
        frame_literal(frame_encoding(l)->Ok_0) == Some(l),
{
    let s = frame_encoding(l)->Ok_0;
    let b = body_encoding(l)->Ok_0;
    assert(s == seq![MAGIC[0], MAGIC[1], VER_0_1_0, expression_tag(l.negated)] + b + seq![END]);
    assert(version_end(s) == Some(3int));
    assert(s.subrange(4, 4 + b.len() as int) =~= b) by {
        assert forall|i: int| 0 <= i < b.len() implies s.subrange(4, 4 + b.len() as int)[i] == b[i] by {
            assert(s[4 + i] == b[i]);
        }
    }
    lemma_body_roundtrip(l, s, 4);
}

} // verus!
