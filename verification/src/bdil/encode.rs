//! Writing a literal as a frame: `MAGIC VERSION EXPRESSION END`.

use vstd::prelude::*;
use vstd::utf8::encode_utf8;

use crate::bytestring::bstring_as_bytes;

use super::codec::{le_bytes, END, EXPR_LIT_NEG, EXPR_LIT_POS, MAGIC, T_FLT, T_INT, T_LIT_NEG, T_LIT_POS, T_STR, T_VAR, VER_0_1_0, WORD};
use super::error::EncodeError;
use super::{terms_model, BdilContent, Functor, Literal, LiteralModel, Term, TermModel, Variable};

verus! {

broadcast use vstd::std_specs::vec::group_vec_axioms;

/// A word of the frame: `tag`, the bytes, then a zero byte.
pub open spec fn word(tag: u8, bytes: Seq<u8>) -> Seq<u8> {
    seq![tag] + bytes + seq![0u8]
}

/// The encoding of a functor, or why it has none.
pub open spec fn functor_encoding(f: Seq<char>) -> Result<Seq<u8>, EncodeError> {
    let b = encode_utf8(f);
    if b.len() == 0 {
        Err(EncodeError::EmptyFunctor)
    } else if b.contains(0u8) {
        Err(EncodeError::FunctorContainsNull)
    } else {
        Ok(word(WORD, b))
    }
}

/// The encoding of a variable name, or why it has none.
pub open spec fn variable_encoding(name: Seq<char>) -> Result<Seq<u8>, EncodeError> {
    let b = encode_utf8(name);
    if b.len() == 0 {
        Err(EncodeError::VariableNameEmpty)
    } else if b.contains(0u8) {
        Err(EncodeError::VariableNameContainsNull)
    } else {
        Ok(word(T_VAR, b))
    }
}

/// The header of a byte string: its tag, then its length as a big-endian `u16`
/// (truncated to 16 bits, as the format has no room for more).
pub open spec fn str_header(len: nat) -> Seq<u8> {
    let l = len as u16;
    seq![T_STR, (l >> 8u16) as u8, (l & 0xffu16) as u8]
}

/// A byte string's length is written after its tag `0x22` in two bytes, the more
/// significant first.
pub proof fn lemma_str_header_big_endian(len: nat)
    ensures
        str_header(len).len() == 3,
        str_header(len)[0] == 0x22u8,
        str_header(len)[1] as u32 * 256 + str_header(len)[2] as u32 == (len as u16) as u32,
{
    let l = len as u16;
    assert(((l >> 8u16) as u8) as u32 * 256 + ((l & 0xffu16) as u8) as u32 == l as u32) by (bit_vector);
}

/// The tag that opens a literal in argument position.
pub open spec fn literal_term_tag(negated: bool) -> u8 {
    if negated { T_LIT_NEG } else { T_LIT_POS }
}

/// The tag that opens the expression of a frame.
pub open spec fn expression_tag(negated: bool) -> u8 {
    if negated { EXPR_LIT_NEG } else { EXPR_LIT_POS }
}

/// The encoding of a term, or the first reason (in writing order) it has none.
pub open spec fn term_encoding(t: TermModel) -> Result<Seq<u8>, EncodeError>
    decreases t,
{
    match t {
        TermModel::Int(i) => Ok(seq![T_INT] + le_bytes(i as u32)),
        TermModel::Float(f) => Ok(seq![T_FLT] + le_bytes(f)),
        TermModel::Str(b) => Ok(str_header(b.len()) + b),
        TermModel::Literal(l) => match body_encoding(l) {
            Ok(b) => Ok(seq![literal_term_tag(l.negated)] + b),
            Err(e) => Err(e),
        },
        TermModel::Variable(name) => variable_encoding(name),
    }
}

/// The encodings of the terms one after the other, or the first error.
pub open spec fn terms_encoding(ts: Seq<TermModel>) -> Result<Seq<u8>, EncodeError>
    decreases ts,
{
    if ts.len() == 0 {
        Ok(Seq::empty())
    } else {
        match term_encoding(ts[0]) {
            Err(e) => Err(e),
            Ok(a) => match terms_encoding(ts.drop_first()) {
                Err(e) => Err(e),
                Ok(r) => Ok(a + r),
            },
        }
    }
}

/// The body of a literal: its functor, its arguments and the closing `END`.
pub open spec fn body_encoding(l: LiteralModel) -> Result<Seq<u8>, EncodeError>
    decreases l,
{
    match functor_encoding(l.functor) {
        Err(e) => Err(e),
        Ok(f) => {
            let args = match l.arguments {
                Some(a) => terms_encoding(a),
                None => Ok(Seq::empty()),
            };
            match args {
                Err(e) => Err(e),
                Ok(a) => Ok(f + a + seq![END]),
            }
        },
    }
}

/// A whole frame holding the literal.
pub open spec fn frame_encoding(l: LiteralModel) -> Result<Seq<u8>, EncodeError> {
    match body_encoding(l) {
        Err(e) => Err(e),
        Ok(b) => Ok(seq![MAGIC[0], MAGIC[1], VER_0_1_0, expression_tag(l.negated)] + b + seq![END]),
    }
}

/// Encoding a longer prefix of a term list extends the encoding of the shorter one.
pub proof fn lemma_terms_encoding_take(ts: Seq<TermModel>, i: int)
    requires
        0 <= i < ts.len(),
    ensures
        terms_encoding(ts.take(i + 1)) == match terms_encoding(ts.take(i)) {
            Err(e) => Err(e),
            Ok(a) => match term_encoding(ts[i]) {
                Err(e) => Err(e),
                Ok(b) => Ok(a + b),
            },
        },
    decreases i,
{
    let t1 = ts.take(i + 1);
    assert(t1[0] == ts[0]);
    if i == 0 {
        assert(t1.drop_first() =~= Seq::<TermModel>::empty());
        assert(ts.take(0) =~= Seq::<TermModel>::empty());
        match term_encoding(ts[0]) {
            Ok(b) => {
                assert(b + Seq::<u8>::empty() =~= b);
                assert(Seq::<u8>::empty() + b =~= b);
            },
            Err(e) => {},
        }
    } else {
        let rest = ts.drop_first();
        lemma_terms_encoding_take(rest, i - 1);
        assert(t1.drop_first() =~= rest.take(i));
        assert(ts.take(i)[0] == ts[0]);
        assert(ts.take(i).drop_first() =~= rest.take(i - 1));
        assert(rest[i - 1] == ts[i]);
        match term_encoding(ts[0]) {
            Err(e) => {},
            Ok(a0) => {
                match terms_encoding(rest.take(i - 1)) {
                    Err(e) => {},
                    Ok(r) => {
                        match term_encoding(ts[i]) {
                            Err(e) => {},
                            Ok(b) => {
                                assert(a0 + (r + b) =~= (a0 + r) + b);
                            },
                        }
                    },
                }
            },
        }
    }
}

/// An error in a prefix of a term list is the error of the whole list.
pub proof fn lemma_terms_encoding_error_prefix(ts: Seq<TermModel>, i: int, e: EncodeError)
    requires
        0 <= i <= ts.len(),
        terms_encoding(ts.take(i)) == Err::<Seq<u8>, EncodeError>(e),
    ensures
        terms_encoding(ts) == Err::<Seq<u8>, EncodeError>(e),
    decreases ts.len() - i,
{
    if i == ts.len() {
        assert(ts.take(i) =~= ts);
    } else {
        lemma_terms_encoding_take(ts, i);
        lemma_terms_encoding_error_prefix(ts, i + 1, e);
    }
}

/// Whether the byte zero occurs in `b`.
fn contains_zero(b: &[u8]) -> (r: bool)
    ensures
        r == b@.contains(0u8),
{
    let mut i: usize = 0;
    while i < b.len()
        invariant
            i <= b@.len(),
            forall|j: int| 0 <= j < i ==> b@[j] != 0u8,
        decreases b.len() - i,
    {
        if b[i] == 0 {
            assert(b@[i as int] == 0u8);
            return true;
        }
        i += 1;
    }
    proof {
        if b@.contains(0u8) {
            let j = choose|j: int| 0 <= j < b@.len() && b@[j] == 0u8;
            assert(b@[j] == 0u8);
        }
    }
    false
}

/// Appends the bytes of `b` to `out`.
fn extend_bytes(out: &mut Vec<u8>, b: &[u8])
    ensures
        final(out)@ == old(out)@ + b@,
{
    let mut i: usize = 0;
    while i < b.len()
        invariant
            i <= b@.len(),
            out@ == old(out)@ + b@.take(i as int),
        decreases b.len() - i,
    {
        out.push(b[i]);
        assert(b@.take(i + 1) =~= b@.take(i as int).push(b@[i as int]));
        i += 1;
    }
    assert(b@.take(b@.len() as int) =~= b@);
}

/// Appends the four bytes of `u`, least significant first.
fn push_u32_le(out: &mut Vec<u8>, u: u32)
    ensures
        final(out)@ == old(out)@ + le_bytes(u),
{
    out.push((u & 0xff) as u8);
    out.push(((u >> 8) & 0xff) as u8);
    out.push(((u >> 16) & 0xff) as u8);
    out.push(((u >> 24) & 0xff) as u8);
    assert(out@ =~= old(out)@ + le_bytes(u));
}

/// Appends `tag`, the UTF-8 bytes of `s` and a zero byte, unless those bytes are empty or
/// hold a zero: then nothing is appended and `Err` tells which.
fn push_word(out: &mut Vec<u8>, tag: u8, s: &String) -> (r: Result<(), bool>)
    ensures
        encode_utf8(s@).len() == 0 ==> r == Err::<(), bool>(true) && final(out)@ == old(out)@,
        encode_utf8(s@).len() != 0 && encode_utf8(s@).contains(0u8) ==> r == Err::<(), bool>(false)
            && final(out)@ == old(out)@,
        encode_utf8(s@).len() != 0 && !encode_utf8(s@).contains(0u8) ==> r is Ok && final(out)@
            == old(out)@ + word(tag, encode_utf8(s@)),
{
    let bytes = s.as_str().as_bytes();
    if bytes.len() == 0 {
        return Err(true);
    }
    if contains_zero(bytes) {
        return Err(false);
    }
    out.push(tag);
    extend_bytes(out, bytes);
    out.push(0u8);
    assert(out@ =~= old(out)@ + word(tag, encode_utf8(s@)));
    Ok(())
}

fn push_functor(functor: &Functor, out: &mut Vec<u8>) -> (r: Result<(), EncodeError>)
    ensures
        match functor_encoding(functor.0@) {
            Ok(b) => r is Ok && final(out)@ == old(out)@ + b,
            Err(e) => r == Err::<(), EncodeError>(e) && final(out)@ == old(out)@,
        },
{
    match push_word(out, WORD, &functor.0) {
        Ok(()) => Ok(()),
        Err(true) => Err(EncodeError::EmptyFunctor),
        Err(false) => Err(EncodeError::FunctorContainsNull),
    }
}

fn push_variable(var: &Variable, out: &mut Vec<u8>) -> (r: Result<(), EncodeError>)
    ensures
        match variable_encoding(var.name@) {
            Ok(b) => r is Ok && final(out)@ == old(out)@ + b,
            Err(e) => r == Err::<(), EncodeError>(e) && final(out)@ == old(out)@,
        },
{
    match push_word(out, T_VAR, &var.name) {
        Ok(()) => Ok(()),
        Err(true) => Err(EncodeError::VariableNameEmpty),
        Err(false) => Err(EncodeError::VariableNameContainsNull),
    }
}

fn push_term(term: &Term, out: &mut Vec<u8>) -> (r: Result<(), EncodeError>)
    ensures
        match term_encoding(term@) {
            Ok(b) => r is Ok && final(out)@ == old(out)@ + b,
            Err(e) => r == Err::<(), EncodeError>(e),
        },
    decreases term,
{
    match term {
        Term::Int(i) => {
            out.push(T_INT);
            push_u32_le(out, *i as u32);
            assert(out@ =~= old(out)@ + (seq![T_INT] + le_bytes(*i as u32)));
            Ok(())
        },
        Term::Float(f) => {
            out.push(T_FLT);
            push_u32_le(out, *f);
            assert(out@ =~= old(out)@ + (seq![T_FLT] + le_bytes(*f)));
            Ok(())
        },
        Term::Str(s) => {
            let b = bstring_as_bytes(s);
            let l = b.len() as u16;
            out.push(T_STR);
            out.push((l >> 8u16) as u8);
            out.push((l & 0xffu16) as u8);
            extend_bytes(out, b);
            assert(out@ =~= old(out)@ + (str_header(b@.len()) + b@));
            Ok(())
        },
        Term::Literal(lit) => {
            out.push(if lit.negated { T_LIT_NEG } else { T_LIT_POS });
            let ghost mid = out@;
            proof {
                assert(decreases_to!(*term => (*term)->Literal_0));
            }
            let r = push_literal_body(lit, out);
            proof {
                match body_encoding(lit@) {
                    Ok(b) => {
                        assert(out@ =~= old(out)@ + (seq![literal_term_tag(lit.negated)] + b));
                    },
                    Err(e) => {},
                }
            }
            r
        },
        Term::Variable(v) => push_variable(v, out),
    }
}

fn push_arg_list(args: &Option<Vec<Term>>, out: &mut Vec<u8>) -> (r: Result<(), EncodeError>)
    ensures
        match (match *args {
            Some(a) => terms_encoding(terms_model(a@)),
            None => Ok(Seq::empty()),
        }) {
            Ok(b) => r is Ok && final(out)@ == old(out)@ + b + seq![END],
            Err(e) => r == Err::<(), EncodeError>(e),
        },
    decreases args,
{
    match args {
        Some(a) => {
            let ghost ts = terms_model(a@);
            let mut i: usize = 0;
            while i < a.len()
                invariant
                    i <= a.len(),
                    ts == terms_model(a@),
                    *args == Some(*a),
                    terms_encoding(ts.take(i as int)) matches Ok(enc) && out@ == old(out)@ + enc,
                decreases a.len() - i,
            {
                proof {
                    assert(decreases_to!(*a => a[i as int]));
                    assert(decreases_to!(*args => (*args)->Some_0));
                    lemma_terms_encoding_take(ts, i as int);
                    assert(ts[i as int] == a@[i as int]@);
                }
                let ghost before = out@;
                match push_term(&a[i], out) {
                    Ok(()) => {
                        proof {
                            let enc = terms_encoding(ts.take(i as int))->Ok_0;
                            let b = term_encoding(ts[i as int])->Ok_0;
                            assert(out@ =~= old(out)@ + (enc + b));
                        }
                    },
                    Err(e) => {
                        proof {
                            lemma_terms_encoding_error_prefix(ts, i + 1, e);
                        }
                        return Err(e);
                    },
                }
                i += 1;
            }
            assert(ts.take(a.len() as int) =~= ts);
        },
        None => {},
    }
    out.push(END);
    Ok(())
}

fn push_literal_body(literal: &Literal, out: &mut Vec<u8>) -> (r: Result<(), EncodeError>)
    ensures
        match body_encoding(literal@) {
            Ok(b) => r is Ok && final(out)@ == old(out)@ + b,
            Err(e) => r == Err::<(), EncodeError>(e),
        },
    decreases literal,
{
    push_functor(&literal.functor, out)?;
    let ghost mid = out@;
    proof {
        assert(decreases_to!(*literal => literal.arguments));
    }
    let r = push_arg_list(&literal.arguments, out);
    proof {
        match body_encoding(literal@) {
            Ok(b) => {
                let f = functor_encoding(literal@.functor)->Ok_0;
                let a = match literal@.arguments {
                    Some(v) => terms_encoding(v)->Ok_0,
                    None => Seq::empty(),
                };
                assert(out@ =~= old(out)@ + (f + a + seq![END]));
            },
            Err(e) => {},
        }
    }
    r
}

/// Writes the literal as a frame.
///
/// Fails when a functor or a variable name is empty or holds a zero byte, with the
/// first such error in writing order.
pub fn encode(literal: &Literal) -> (r: Result<Vec<u8>, EncodeError>)
    ensures
        match frame_encoding(literal@) {
            Ok(b) => r matches Ok(v) && v@ == b,
            Err(e) => r == Err::<Vec<u8>, EncodeError>(e),
        },
{
    let mut out: Vec<u8> = Vec::new();
    out.push(MAGIC[0]);
    out.push(MAGIC[1]);
    out.push(VER_0_1_0);
    out.push(if literal.negated { EXPR_LIT_NEG } else { EXPR_LIT_POS });
    let ghost head = out@;
    match push_literal_body(literal, &mut out) {
        Ok(()) => {},
        Err(e) => return Err(e),
    }
    out.push(END);
    proof {
        let b = body_encoding(literal@)->Ok_0;
        assert(out@ =~= seq![MAGIC[0], MAGIC[1], VER_0_1_0, expression_tag(literal@.negated)] + b + seq![END]);
    }
    Ok(out)
}

/// Writes the content as a frame, or gives no bytes at all when it cannot be written.
pub fn encode_content(content: &BdilContent) -> (r: Vec<u8>)
    ensures
        match *content {
            BdilContent::Literal(l) => r@ == match frame_encoding(l@) {
                Ok(b) => b,
                Err(_) => Seq::empty(),
            },
        },
{
    match content {
        BdilContent::Literal(l) => match encode(l) {
            Ok(v) => v,
            Err(_) => Vec::new(),
        },
    }
}

} // verus!
