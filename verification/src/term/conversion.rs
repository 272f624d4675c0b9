//! Reading plain values back out of terms.

use bstr::BString;
use vstd::prelude::*;
use vstd::string::StringExecFns;
use vstd::utf8::{decode_utf8, valid_utf8};

use crate::bytestring::{bstring_bytes, bstring_from_slice};

use super::{argument_terms, Term, TermModel};

verus! {

/// Why a term-native value could not be turned into a more specialized one.
#[derive(Debug, PartialEq, Eq)]
pub enum ConversionError {
    /// The bytes are not UTF-8.
    InvalidUtf8,
    /// The text is not an agent identifier; the reason the parser gave.
    InvalidAid(String),
}

/// Why a term could not be read as a value.
#[derive(Debug, PartialEq, Eq)]
pub enum FromTermError {
    /// The term is of another kind; the kind that was expected, if named.
    InvalidType(Option<&'static str>),
    /// The term is of the right kind but its content does not convert.
    IncorrectConversion(ConversionError),
}

impl ConversionError {
    /// The message the error displays.
    pub fn message(&self) -> (s: String)
        ensures
            s@ == match self {
                ConversionError::InvalidUtf8 => "coversion error: invalid utf-8"@,
                ConversionError::InvalidAid(e) => "coversion error: invalid aid: "@ + e@,
            },
    {
        match self {
            ConversionError::InvalidUtf8 => String::from_str("coversion error: invalid utf-8"),
            ConversionError::InvalidAid(e) => String::from_str("coversion error: invalid aid: ").concat(e.as_str()),
        }
    }
}

impl FromTermError {
    /// The message the error displays.
    pub fn message(&self) -> (s: String)
        ensures
            s@ == match self {
                FromTermError::InvalidType(Some(expected)) => "from term error: invalid type: expected "@ + expected@,
                FromTermError::InvalidType(None) => "from term error: invalid type"@,
                FromTermError::IncorrectConversion(e) => "from term error: "@ + match e {
                    ConversionError::InvalidUtf8 => "coversion error: invalid utf-8"@,
                    ConversionError::InvalidAid(x) => "coversion error: invalid aid: "@ + x@,
                },
            },
    {
        match self {
            FromTermError::InvalidType(Some(expected)) => String::from_str("from term error: invalid type: expected ").concat(expected),
            FromTermError::InvalidType(None) => String::from_str("from term error: invalid type"),
            FromTermError::IncorrectConversion(e) => {
                let inner = e.message();
                String::from_str("from term error: ").concat(inner.as_str())
            },
        }
    }
}

/// A number: the bits of its `f32`.
pub fn number_from_term(term: &Term) -> (r: Result<u32, FromTermError>)
    ensures
        match term@ {
            TermModel::Number(n) => r == Ok::<u32, FromTermError>(n),
            _ => r matches Err(FromTermError::InvalidType(Some(k))) && k@ == "number"@,
        },
{
    match term {
        Term::Number(n) => Ok(*n),
        _ => Err(FromTermError::InvalidType(Some("number"))),
    }
}

/// The bytes a term stands for as text: a string, or a bare atom that is not negated
/// (its name).
pub open spec fn text_bytes(t: TermModel) -> Option<Seq<u8>> {
    match t {
        TermModel::String(s) => Some(s),
        TermModel::Literal(l) => if !l.negated && argument_terms(l.structure.arguments).len() == 0 {
            Some(vstd::utf8::encode_utf8(l.structure.functor))
        } else {
            None
        },
        _ => None,
    }
}

/// A byte string: a string, or the name of a bare atom that is not negated.
pub fn bstring_from_term(term: &Term) -> (r: Result<BString, FromTermError>)
    ensures
        match text_bytes(term@) {
            Some(b) => r matches Ok(s) && bstring_bytes(s) == b,
            None => r matches Err(FromTermError::InvalidType(Some(k))) && k@ == "string or atom"@,
        },
{
    match term {
        Term::String(s) => {
            assert(term@ == TermModel::String(bstring_bytes(*s)));
            let c = s.clone();
            assert(bstring_bytes(c) == bstring_bytes(*s));
            assert(text_bytes(term@) == Some(bstring_bytes(*s)));
            Ok(c)
        },
        Term::Literal(l) => {
            let no_arguments = match &l.structure.arguments {
                Some(a) => a.len() == 0,
                None => true,
            };
            assert(term@ == TermModel::Literal(l@));
            assert(no_arguments == (argument_terms(l@.structure.arguments).len() == 0));
            if no_arguments && !l.negated {
                let name = l.structure.functor.0.as_str();
                let bytes = name.as_bytes();
                assert(bytes@ == vstd::utf8::encode_utf8(l@.structure.functor));
                Ok(bstring_from_slice(bytes))
            } else {
                Err(FromTermError::InvalidType(Some("string or atom")))
            }
        },
        _ => Err(FromTermError::InvalidType(Some("string or atom"))),
    }
}

/// `<String as TryFrom<bstr::BString>>::try_from` (bstr) succeeds exactly when the bytes
/// are valid UTF-8, and then holds the characters they encode.
#[verifier::external_body]
fn string_from_bstring(s: BString) -> (r: Option<String>)
    ensures
        r is Some <==> valid_utf8(bstring_bytes(s)),
        r matches Some(t) ==> t@ == decode_utf8(bstring_bytes(s)),
{
    String::try_from(s).ok()
}

/// Text: a string or the name of a bare atom, which must be UTF-8.
pub fn string_from_term(term: &Term) -> (r: Result<String, FromTermError>)
    ensures
        match text_bytes(term@) {
            Some(b) => if valid_utf8(b) {
                r matches Ok(s) && s@ == decode_utf8(b)
            } else {
                r == Err::<String, FromTermError>(FromTermError::IncorrectConversion(ConversionError::InvalidUtf8))
            },
            None => r matches Err(FromTermError::InvalidType(Some(k))) && k@ == "string or atom"@,
        },
{
    let bytes = match bstring_from_term(term) {
        Ok(b) => b,
        Err(e) => {
            return Err(e);
        },
    };
    match string_from_bstring(bytes) {
        Some(s) => Ok(s),
        None => Err(FromTermError::IncorrectConversion(ConversionError::InvalidUtf8)),
    }
}


/// Text names an agent when it is an agent identifier, `name@platform` (`name@local` on
/// the agent's own platform): it holds an `@` between the agent's name and its platform.
pub open spec fn is_aid_text(s: Seq<char>) -> bool {
    s.contains('@')
}

/// The agent identifier a term stands for: the text of a string term that is UTF-8 and
/// an agent identifier.
pub open spec fn aid_text(t: TermModel) -> Option<Seq<char>> {
    match t {
        TermModel::String(b) => if valid_utf8(b) && is_aid_text(decode_utf8(b)) {
            Some(decode_utf8(b))
        } else {
            None
        },
        _ => None,
    }
}

/// Why a term that is no agent identifier is refused: bytes that are not UTF-8, text that
/// is not an identifier, or a term that is not a string.
pub open spec fn aid_refusal(t: TermModel, e: FromTermError) -> bool {
    match t {
        TermModel::String(b) => if !valid_utf8(b) {
            e == FromTermError::IncorrectConversion(ConversionError::InvalidUtf8)
        } else {
            e matches FromTermError::IncorrectConversion(ConversionError::InvalidAid(_))
        },
        TermModel::Literal(_) => e matches FromTermError::InvalidType(Some(k)) && k@ == "string"@,
        _ => e matches FromTermError::InvalidType(Some(k)) && k@ == "aid string <agent-name@platform-address>"@,
    }
}

/// Whether the text holds an `@`.
fn has_at_sign(s: &str) -> (r: bool)
    ensures
        r == s@.contains('@'),
{
    broadcast use vstd::string::group_string_axioms;

    for c in it: s.chars()
        invariant
            it.seq() == s@,
            forall|j: int| 0 <= j < it.index() ==> it.seq()[j] != '@',
    {
        if c == '@' {
            return true;
        }
    }
    false
}

/// An agent identifier, as its text: a string term whose text is UTF-8 and of the form
/// `name@platform`.
pub fn aid_from_term(term: &Term) -> (r: Result<String, FromTermError>)
    ensures
        match aid_text(term@) {
            Some(s) => r matches Ok(x) && x@ == s,
            None => r matches Err(e) && aid_refusal(term@, e),
        },
{
    match term {
        Term::String(b) => {
            assert(term@ == TermModel::String(bstring_bytes(*b)));
            let c = b.clone();
            match string_from_bstring(c) {
                Some(s) => {
                    if has_at_sign(s.as_str()) {
                        Ok(s)
                    } else {
                        Err(FromTermError::IncorrectConversion(ConversionError::InvalidAid(
                            String::from_str("expected <agent-name>@<platform>"),
                        )))
                    }
                },
                None => Err(FromTermError::IncorrectConversion(ConversionError::InvalidUtf8)),
            }
        },
        Term::Literal(_) => Err(FromTermError::InvalidType(Some("string"))),
        _ => Err(FromTermError::InvalidType(Some("aid string <agent-name@platform-address>"))),
    }
}

} // verus!
