//! Station names: text of at most [`MAX_STRING_LEN`] bytes, stored inline.

use crate::lexical::lemma_lex_irreflexive;
use crate::lexical::lemma_lex_total;
use crate::lexical::lex_lt;
use crate::lexical::slice_lex_lt;
use arrayvec::ArrayString;
use arrayvec::CapacityError;
use std::str::FromStr;
use vstd::prelude::*;
use vstd::string::StringSliceAdditionalSpecFns;
use vstd::utf8::decode_utf8;
use vstd::utf8::encode_utf8_decode_utf8;
use vstd::utf8::encode_utf8_valid_utf8;
use vstd::utf8::valid_utf8;

verus! {

/// The largest number of bytes that a station name may take in UTF-8.
pub const MAX_STRING_LEN: usize = 128;

/// `arrayvec::ArrayString`, a string of fixed capacity stored inline. Nothing
/// is known of a value but what [`array_string_bytes`] names.
#[verifier::external_type_specification]
#[verifier::external_body]
pub struct ExArrayString<const CAP: usize>(ArrayString<CAP>);

/// `arrayvec::CapacityError`, the error of a text that does not fit. Nothing
/// is known of a value.
#[verifier::external_type_specification]
#[verifier::external_body]
#[verifier::reject_recursive_types(T)]
pub struct ExCapacityError<T>(CapacityError<T>);

/// The bytes that an `arrayvec::ArrayString` holds, in order. Not proved:
/// [`array_string_from_str`] and [`array_string_as_str`] say all that is
/// taken to hold of it.
pub uninterp spec fn array_string_bytes(s: ArrayString<128>) -> Seq<u8>;

/// Calls `ArrayString::<128>::from_str`. Not proved: it succeeds exactly
/// when the text takes at most 128 bytes, and the string that it returns then
/// holds the bytes of the text, all of them and no others.
#[verifier::external_body]
fn array_string_from_str(s: &str) -> (r: Result<ArrayString<MAX_STRING_LEN>, CapacityError>)
    ensures
        r is Ok <==> s.spec_bytes().len() <= MAX_STRING_LEN,
        r matches Ok(a) ==> array_string_bytes(a) == s.spec_bytes(),
{
    ArrayString::<MAX_STRING_LEN>::from_str(s)
}

/// Calls `ArrayString::as_str`. Not proved: the string slice that it returns
/// is made of the bytes held.
#[verifier::external_body]
fn array_string_as_str(a: &ArrayString<MAX_STRING_LEN>) -> (r: &str)
    ensures
        r.spec_bytes() == array_string_bytes(*a),
{
    a.as_str()
}

/// A station name: valid UTF-8 of at most [`MAX_STRING_LEN`] bytes.
///
/// Its view is the sequence of its bytes. Names are equal when their bytes
/// are, and ordered as [`lex_lt`] orders their bytes.
#[derive(Copy, Clone, Debug, PartialEq, Eq, Hash, PartialOrd, Ord)]
pub struct ArrayString128(ArrayString<MAX_STRING_LEN>);

impl View for ArrayString128 {
    type V = Seq<u8>;

    closed spec fn view(&self) -> Seq<u8> {
        array_string_bytes(self.0)
    }
}

impl ArrayString128 {
    /// The characters of the name.
    pub open spec fn text(&self) -> Seq<char> {
        decode_utf8(self@)
    }

    #[verifier::type_invariant]
    spec fn well_formed(&self) -> bool {
        self@.len() <= MAX_STRING_LEN && valid_utf8(self@)
    }

    /// The name as a string slice.
    pub fn as_str(&self) -> (r: &str)
        ensures
            r.spec_bytes() == self@,
            r@ == self.text(),
            self@.len() <= MAX_STRING_LEN,
            valid_utf8(self@),
    {
        let r = array_string_as_str(&self.0);
        proof {
            use_type_invariant(self);
            encode_utf8_decode_utf8(r@);
        }
        r
    }

    /// The bytes of the name.
    pub fn as_bytes(&self) -> (r: &[u8])
        ensures
            r@ == self@,
            self@.len() <= MAX_STRING_LEN,
    {
        self.as_str().as_bytes()
    }

    /// The length of the name in bytes.
    pub fn len(&self) -> (n: usize)
        ensures
            n == self@.len(),
            n <= MAX_STRING_LEN,
    {
        self.as_str().len()
    }

    /// The name as an owned string.
    pub fn to_string(&self) -> (r: String)
        ensures
            r@ == self.text(),
    {
        self.as_str().to_owned()
    }

    /// Whether this name and `other` are the same, byte for byte.
    pub fn same_as(&self, other: &ArrayString128) -> (r: bool)
        ensures
            r == (self@ == other@),
    {
        proof {
            lemma_lex_total(self@, other@);
            lemma_lex_irreflexive(self@);
        }
        !self.precedes(other) && !other.precedes(self)
    }

    /// Whether this name is reported before `other`.
    pub fn precedes(&self, other: &ArrayString128) -> (r: bool)
        ensures
            r == lex_lt(self@, other@),
    {
        slice_lex_lt(self.as_bytes(), other.as_bytes())
    }
}

impl FromStr for ArrayString128 {
    type Err = CapacityError;

    /// Stores `s`, or fails when `s` is longer than [`MAX_STRING_LEN`] bytes.
    /// Nothing is cut off.
    fn from_str(s: &str) -> (r: Result<ArrayString128, CapacityError>)
        ensures
            r is Ok <==> s.spec_bytes().len() <= MAX_STRING_LEN,
            r matches Ok(name) ==> name@ == s.spec_bytes() && name.text() == s@,
    {
        proof {
            encode_utf8_valid_utf8(s@);
            encode_utf8_decode_utf8(s@);
        }
        match array_string_from_str(s) {
            Ok(a) => Ok(ArrayString128(a)),
            Err(e) => Err(e),
        }
    }
}

} // verus!
