//! Byte strings of the `bstr` crate, as the term language and the wire format hold them.

use bstr::BString;
use vstd::prelude::*;

verus! {

#[verifier::external_type_specification]
#[verifier::external_body]
pub struct ExBString(BString);

/// The bytes held by a `bstr::BString`.
pub uninterp spec fn bstring_bytes(s: BString) -> Seq<u8>;

/// `BString::from(&[u8])` copies the slice into a new byte string: the result holds
/// exactly the bytes of the slice.
#[verifier::external_body]
pub(crate) fn bstring_from_slice(bytes: &[u8]) -> (s: BString)
    ensures
        bstring_bytes(s) == bytes@,
{
    BString::from(bytes)
}

/// `<BString as AsRef<[u8]>>::as_ref` borrows the held bytes.
#[verifier::external_body]
pub(crate) fn bstring_as_bytes(s: &BString) -> (b: &[u8])
    ensures
        b@ == bstring_bytes(*s),
{
    AsRef::<[u8]>::as_ref(s)
}

/// `<BString as PartialEq>::eq` compares the held bytes.
#[verifier::external_body]
pub(crate) fn bstring_eq(a: &BString, b: &BString) -> (r: bool)
    ensures
        r == (bstring_bytes(*a) == bstring_bytes(*b)),
{
    a == b
}

/// `<BString as Clone>::clone` copies the held bytes.
pub assume_specification[ <BString as Clone>::clone ](s: &BString) -> (r: BString)
    ensures
        bstring_bytes(r) == bstring_bytes(*s),
;

} // verus!
