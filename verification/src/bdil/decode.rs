//! Reading a frame back as a literal.
//!
//! The grammar of a frame, in the order its alternatives are tried:
//!
//! ```text
//! frame        = 0xCA 0xED version expression END <end of input>
//! version      = 0x40 | 0x41 major minor patch      (major must be 0)
//! expression   = 0x10 literal_body | 0x11 literal_body
//! literal_body = functor term* END
//! functor      = 0x30 <non-zero bytes, at least one, valid UTF-8> 0x00
//! term         = 0x20 <i32, 4 bytes little-endian>
//!              | 0x21 <f32, 4 bytes little-endian>
//!              | 0x22 <length: u16 big-endian> <length bytes>
//!              | 0x23 literal_body | 0x24 literal_body
//!              | 0x25 <non-zero bytes, at least one, valid UTF-8> 0x00
//! ```
//!
//! `term*` takes terms as long as one can be read, and never gives one back.

use bstr::BString;
use vstd::prelude::*;
use vstd::utf8::{decode_utf8, valid_utf8};

use crate::bytestring::bstring_from_slice;

use super::codec::{
    from_le_bytes, END, EXPR_LIT_NEG, EXPR_LIT_POS, MAGIC, T_FLT, T_INT, T_LIT_NEG, T_LIT_POS,
    T_STR, T_VAR, VER_0_1_0, VER_EXPLICIT, WORD,
};
use super::error::DecodeError;
use super::{terms_model, Functor, Literal, LiteralModel, Term, TermModel, Variable};

verus! {

broadcast use vstd::std_specs::vec::group_vec_axioms;

/// The first position at or after `pos` that holds a zero byte, or the end of `s`.
pub open spec fn nonzero_end(s: Seq<u8>, pos: int) -> int
    decreases s.len() - pos,
{
    if pos < 0 || pos >= s.len() || s[pos] == 0 {
        pos
    } else {
        nonzero_end(s, pos + 1)
    }
}

/// A non-empty run of non-zero bytes at `pos` closed by a zero byte: the run, and the
/// position after the zero.
pub open spec fn word_at(s: Seq<u8>, pos: int) -> Option<(Seq<u8>, int)> {
    let end = nonzero_end(s, pos);
    if 0 <= pos < end && end < s.len() {
        Some((s.subrange(pos, end), end + 1))
    } else {
        None
    }
}

/// A word at `pos` whose bytes are valid UTF-8, as characters.
pub open spec fn text_at(s: Seq<u8>, pos: int) -> Option<(Seq<char>, int)> {
    match word_at(s, pos) {
        Some((b, p)) => if valid_utf8(b) {
            Some((decode_utf8(b), p))
        } else {
            None
        },
        None => None,
    }
}

/// A functor at `pos`.
pub open spec fn functor_at(s: Seq<u8>, pos: int) -> Option<(Seq<char>, int)> {
    if 0 <= pos < s.len() && s[pos] == WORD {
        text_at(s, pos + 1)
    } else {
        None
    }
}

/// The argument list of a literal: `None` when it holds no term.
pub open spec fn argument_list(ts: Seq<TermModel>) -> Option<Seq<TermModel>> {
    if ts.len() == 0 {
        None
    } else {
        Some(ts)
    }
}

/// A term at `pos`, and the position after it.
pub open spec fn term_at(s: Seq<u8>, pos: int) -> Option<(TermModel, int)>
    decreases s.len() - pos, 0int,
{
    if pos < 0 || pos >= s.len() {
        None
    } else {
        let tag = s[pos];
        if tag == T_INT {
            if pos + 5 <= s.len() {
                Some(
                    (
                        TermModel::Int(from_le_bytes(s[pos + 1], s[pos + 2], s[pos + 3], s[pos + 4]) as i32),
                        pos + 5,
                    ),
                )
            } else {
                None
            }
        } else if tag == T_FLT {
            if pos + 5 <= s.len() {
                Some(
                    (
                        TermModel::Float(from_le_bytes(s[pos + 1], s[pos + 2], s[pos + 3], s[pos + 4])),
                        pos + 5,
                    ),
                )
            } else {
                None
            }
        } else if tag == T_STR {
            if pos + 3 <= s.len() {
                let n = s[pos + 1] as int * 256 + s[pos + 2] as int;
                if pos + 3 + n <= s.len() {
                    Some((TermModel::Str(s.subrange(pos + 3, pos + 3 + n)), pos + 3 + n))
                } else {
                    None
                }
            } else {
                None
            }
        } else if tag == T_LIT_POS || tag == T_LIT_NEG {
            match body_at(s, pos + 1) {
                Some((f, a, p)) => Some(
                    (
                        TermModel::Literal(
                            LiteralModel { negated: tag == T_LIT_NEG, functor: f, arguments: a },
                        ),
                        p,
                    ),
                ),
                None => None,
            }
        } else if tag == T_VAR {
            match text_at(s, pos + 1) {
                Some((name, p)) => Some((TermModel::Variable(name), p)),
                None => None,
            }
        } else {
            None
        }
    }
}

/// The terms at `pos` up to the closing `END`, and the position after it.
pub open spec fn args_at(s: Seq<u8>, pos: int) -> Option<(Seq<TermModel>, int)>
    decreases s.len() - pos, 1int,
{
    if pos < 0 || pos > s.len() {
        None
    } else {
        match term_at(s, pos) {
            Some((t, p)) => if pos < p <= s.len() {
                match args_at(s, p) {
                    Some((ts, q)) => Some((seq![t] + ts, q)),
                    None => None,
                }
            } else {
                None
            },
            None => if pos < s.len() && s[pos] == END {
                Some((Seq::empty(), pos + 1))
            } else {
                None
            },
        }
    }
}

/// The body of a literal at `pos`: its functor, its argument list and the position
/// after it.
pub open spec fn body_at(s: Seq<u8>, pos: int) -> Option<(Seq<char>, Option<Seq<TermModel>>, int)>
    decreases s.len() - pos, 2int,
{
    if pos < 0 || pos > s.len() {
        None
    } else {
        match functor_at(s, pos) {
            Some((f, p)) => if pos < p <= s.len() {
                match args_at(s, p) {
                    Some((ts, q)) => Some((f, argument_list(ts), q)),
                    None => None,
                }
            } else {
                None
            },
            None => None,
        }
    }
}

/// The position after the version of a frame.
pub open spec fn version_end(s: Seq<u8>) -> Option<int> {
    if s.len() >= 3 && s[2] == VER_0_1_0 {
        Some(3)
    } else if s.len() >= 6 && s[2] == VER_EXPLICIT && s[3] == 0 {
        Some(6)
    } else {
        None
    }
}

/// The literal that the frame `s` holds, if it is one.
pub open spec fn frame_literal(s: Seq<u8>) -> Option<LiteralModel> {
    if s.len() >= 2 && s[0] == MAGIC[0] && s[1] == MAGIC[1] {
        match version_end(s) {
            Some(v) => if v < s.len() && (s[v] == EXPR_LIT_POS || s[v] == EXPR_LIT_NEG) {
                match body_at(s, v + 1) {
                    Some((f, a, p)) => if p < s.len() && s[p] == END && p + 1 == s.len() {
                        Some(LiteralModel { negated: s[v] == EXPR_LIT_NEG, functor: f, arguments: a })
                    } else {
                        None
                    },
                    None => None,
                }
            } else {
                None
            },
            None => None,
        }
    } else {
        None
    }
}

pub proof fn lemma_nonzero_end(s: Seq<u8>, pos: int)
    requires
        0 <= pos <= s.len(),
    ensures
        pos <= nonzero_end(s, pos) <= s.len(),
        nonzero_end(s, pos) < s.len() ==> s[nonzero_end(s, pos)] == 0,
        forall|i: int| pos <= i < nonzero_end(s, pos) ==> s[i] != 0,
    decreases s.len() - pos,
{
    if pos < s.len() && s[pos] != 0 {
        lemma_nonzero_end(s, pos + 1);
    }
}

/// Every term, argument list and body that is read moves forward, and stays within the
/// input.
pub proof fn lemma_progress(s: Seq<u8>, pos: int)
    ensures
        term_at(s, pos) matches Some((_, p)) ==> pos < p <= s.len(),
        args_at(s, pos) matches Some((_, p)) ==> pos < p <= s.len(),
        body_at(s, pos) matches Some((_, _, p)) ==> pos < p <= s.len(),
    decreases s.len() - pos,
{
    if 0 <= pos < s.len() {
        lemma_progress(s, pos + 1);
        if 0 <= pos + 1 <= s.len() {
            lemma_nonzero_end(s, pos + 1);
        }
        if let Some((_, p)) = term_at(s, pos) {
            lemma_progress(s, p);
        }
        if let Some((_, p)) = functor_at(s, pos) {
            if pos < p <= s.len() {
                lemma_progress(s, p);
            }
        }
    }
}

/// Copies `s[start..end]` into a new vector.
fn copy_range(s: &[u8], start: usize, end: usize) -> (v: Vec<u8>)
    requires
        start <= end <= s@.len(),
    ensures
        v@ == s@.subrange(start as int, end as int),
{
    let mut v: Vec<u8> = Vec::new();
    let mut i = start;
    while i < end
        invariant
            start <= i <= end <= s@.len(),
            v@ == s@.subrange(start as int, i as int),
        decreases end - i,
    {
        v.push(s[i]);
        assert(s@.subrange(start as int, i + 1) =~= s@.subrange(start as int, i as int).push(s@[i as int]));
        i += 1;
    }
    v
}

/// `String::from_utf8` (std) succeeds exactly when the bytes are valid UTF-8, and then
/// holds the characters they encode.
#[verifier::external_body]
fn string_from_utf8(bytes: Vec<u8>) -> (r: Option<String>)
    ensures
        r is Some <==> valid_utf8(bytes@),
        r matches Some(s) ==> s@ == decode_utf8(bytes@),
{
    String::from_utf8(bytes).ok()
}

fn nonzero_end_exec(s: &[u8], pos: usize) -> (e: usize)
    requires
        pos <= s@.len(),
    ensures
        e == nonzero_end(s@, pos as int),
{
    let mut i = pos;
    while i < s.len() && s[i] != 0
        invariant
            pos <= i <= s@.len(),
            nonzero_end(s@, i as int) == nonzero_end(s@, pos as int),
        decreases s.len() - i,
    {
        i += 1;
    }
    i
}

fn text_at_exec(s: &[u8], pos: usize) -> (r: Option<(String, usize)>)
    requires
        pos <= s@.len(),
    ensures
        match text_at(s@, pos as int) {
            Some((t, p)) => r matches Some((st, q)) && st@ == t && q == p,
            None => r is None,
        },
{
    let end = nonzero_end_exec(s, pos);
    proof {
        lemma_nonzero_end(s@, pos as int);
    }
    if pos < end && end < s.len() {
        let bytes = copy_range(s, pos, end);
        match string_from_utf8(bytes) {
            Some(st) => Some((st, end + 1)),
            None => None,
        }
    } else {
        None
    }
}

fn functor_at_exec(s: &[u8], pos: usize) -> (r: Option<(Functor, usize)>)
    requires
        pos <= s@.len(),
    ensures
        match functor_at(s@, pos as int) {
            Some((f, p)) => r matches Some((fu, q)) && fu.0@ == f && q == p,
            None => r is None,
        },
{
    if pos < s.len() && s[pos] == WORD {
        match text_at_exec(s, pos + 1) {
            Some((st, p)) => Some((Functor(st), p)),
            None => None,
        }
    } else {
        None
    }
}

fn read_u32_le(s: &[u8], pos: usize) -> (u: u32)
    requires
        pos + 4 <= s@.len(),
    ensures
        u == from_le_bytes(s@[pos as int], s@[pos + 1], s@[pos + 2], s@[pos + 3]),
{
    (s[pos] as u32) | ((s[pos + 1] as u32) << 8) | ((s[pos + 2] as u32) << 16) | ((s[pos + 3] as u32) << 24)
}

fn term_at_exec(s: &[u8], pos: usize) -> (r: Option<(Term, usize)>)
    requires
        pos <= s@.len(),
    ensures
        match term_at(s@, pos as int) {
            Some((t, p)) => r matches Some((term, q)) && term@ == t && q == p,
            None => r is None,
        },
    decreases s@.len() - pos, 0int,
{
    if pos >= s.len() {
        return None;
    }
    let tag = s[pos];
    if tag == T_INT {
        if s.len() - pos >= 5 {
            let u = read_u32_le(s, pos + 1);
            Some((Term::Int(#[verifier::truncate] (u as i32)), pos + 5))
        } else {
            None
        }
    } else if tag == T_FLT {
        if s.len() - pos >= 5 {
            let u = read_u32_le(s, pos + 1);
            Some((Term::Float(u), pos + 5))
        } else {
            None
        }
    } else if tag == T_STR {
        if s.len() - pos >= 3 {
            let n = ((s[pos + 1] as usize) << 8) | (s[pos + 2] as usize);
            let hi = s[pos + 1];
            let lo = s[pos + 2];
            assert(((hi as usize) << 8) | (lo as usize) == hi as usize * 256 + lo as usize) by (bit_vector);
            if n <= s.len() - pos - 3 {
                let bytes: BString = bstring_from_slice(&s[pos + 3..pos + 3 + n]);
                Some((Term::Str(bytes), pos + 3 + n))
            } else {
                None
            }
        } else {
            None
        }
    } else if tag == T_LIT_POS || tag == T_LIT_NEG {
        match body_at_exec(s, pos + 1) {
            Some((f, a, p)) => Some(
                (Term::Literal(Literal { negated: tag == T_LIT_NEG, functor: f, arguments: a }), p),
            ),
            None => None,
        }
    } else if tag == T_VAR {
        match text_at_exec(s, pos + 1) {
            Some((name, p)) => Some((Term::Variable(Variable { name }), p)),
            None => None,
        }
    } else {
        None
    }
}

fn args_at_exec(s: &[u8], pos: usize) -> (r: Option<(Vec<Term>, usize)>)
    requires
        pos <= s@.len(),
    ensures
        match args_at(s@, pos as int) {
            Some((ts, p)) => r matches Some((terms, q)) && terms_model(terms@) == ts && q == p,
            None => r is None,
        },
    decreases s@.len() - pos, 1int,
{
    let mut terms: Vec<Term> = Vec::new();
    let mut cur = pos;
    while cur <= s.len()
        invariant
            pos <= cur <= s@.len(),
            args_at(s@, pos as int) == match args_at(s@, cur as int) {
                Some((ts, q)) => Some((terms_model(terms@) + ts, q)),
                None => None,
            },
        decreases s@.len() - cur,
    {
        proof {
            lemma_progress(s@, cur as int);
        }
        match term_at_exec(s, cur) {
            Some((t, p)) => {
                let ghost before = terms@;
                terms.push(t);
                proof {
                    assert(terms_model(terms@) =~= terms_model(before) + seq![t@]);
                    match args_at(s@, p as int) {
                        Some((ts, q)) => {
                            assert(terms_model(before) + (seq![t@] + ts) =~= terms_model(terms@) + ts);
                        },
                        None => {},
                    }
                }
                cur = p;
            },
            None => {
                if cur < s.len() && s[cur] == END {
                    assert(terms_model(terms@) + Seq::<TermModel>::empty() =~= terms_model(terms@));
                    return Some((terms, cur + 1));
                } else {
                    return None;
                }
            },
        }
    }
    None
}

fn body_at_exec(s: &[u8], pos: usize) -> (r: Option<(Functor, Option<Vec<Term>>, usize)>)
    requires
        pos <= s@.len(),
    ensures
        match body_at(s@, pos as int) {
            Some((f, a, p)) => r matches Some((fu, args, q)) && fu.0@ == f && q == p && match args {
                Some(v) => a == Some(terms_model(v@)),
                None => a is None,
            },
            None => r is None,
        },
    decreases s@.len() - pos, 2int,
{
    match functor_at_exec(s, pos) {
        Some((f, p)) => {
            proof {
                lemma_progress(s@, pos as int);
                lemma_nonzero_end(s@, pos + 1);
            }
            match args_at_exec(s, p) {
                Some((terms, q)) => {
                    if terms.len() == 0 {
                        Some((f, None, q))
                    } else {
                        Some((f, Some(terms), q))
                    }
                },
                None => None,
            }
        },
        None => None,
    }
}

/// Reads a frame back as the literal it holds.
///
/// Succeeds exactly when `data` is a whole frame of the grammar above; the one error is
/// `ParseFailed`.
pub fn decode(data: &[u8]) -> (r: Result<Literal, DecodeError>)
    ensures
        match frame_literal(data@) {
            Some(l) => r matches Ok(lit) && lit@ == l,
            None => r == Err::<Literal, DecodeError>(DecodeError::ParseFailed),
        },
{
    if data.len() < 2 || data[0] != MAGIC[0] || data[1] != MAGIC[1] {
        return Err(DecodeError::ParseFailed);
    }
    let v: usize = if data.len() >= 3 && data[2] == VER_0_1_0 {
        3
    } else if data.len() >= 6 && data[2] == VER_EXPLICIT && data[3] == 0 {
        6
    } else {
        return Err(DecodeError::ParseFailed);
    };
    if v >= data.len() || (data[v] != EXPR_LIT_POS && data[v] != EXPR_LIT_NEG) {
        return Err(DecodeError::ParseFailed);
    }
    let negated = data[v] == EXPR_LIT_NEG;
    match body_at_exec(data, v + 1) {
        Some((functor, arguments, p)) => {
            if p < data.len() && data[p] == END && p + 1 == data.len() {
                Ok(Literal { negated, functor, arguments })
            } else {
                Err(DecodeError::ParseFailed)
            }
        },
        None => Err(DecodeError::ParseFailed),
    }
}

} // verus!
