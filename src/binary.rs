//! An owned byte buffer handed between the codec and its host.
use vstd::prelude::*;
use vstd::utf8::{decode_utf8, encode_utf8, valid_utf8};

verus! {

/// Owned bytes, such as one encoded record.
#[derive(Clone, Debug, Default, PartialEq, Eq)]
pub struct Bin(Vec<u8>);

impl View for Bin {
    type V = Seq<u8>;

    closed spec fn view(&self) -> Seq<u8> {
        self.0@
    }
}

/// The text that lossy UTF-8 decoding makes of some bytes.
pub uninterp spec fn lossy_utf8(b: Seq<u8>) -> Seq<char>;

/// Relies on String::from_utf8_lossy: the result depends on the bytes alone,
/// and well-formed UTF-8 comes back as the text it encodes.
#[verifier::external_body]
fn lossy_text(b: &[u8]) -> (r: String)
    ensures
        r@ == lossy_utf8(b@),
        valid_utf8(b@) ==> r@ == decode_utf8(b@),
{
    String::from_utf8_lossy(b).into_owned()
}

impl Bin {
    /// Takes ownership of `bin`.
    pub fn new(bin: Vec<u8>) -> (r: Bin)
        ensures
            r@ == bin@,
    {
        Bin(bin)
    }

    /// The UTF-8 bytes of `s`.
    pub fn from_text(s: &str) -> (r: Bin)
        ensures
            r@ == encode_utf8(s@),
    {
        Bin(vstd::slice::slice_to_vec(s.as_bytes()))
    }

    /// The bytes.
    pub fn as_slice(&self) -> (r: &[u8])
        ensures
            r@ == self@,
    {
        self.0.as_slice()
    }

    /// The bytes as text, each ill-formed sequence replaced by U+FFFD.
    pub fn to_string_lossy(&self) -> (r: String)
        ensures
            r@ == lossy_utf8(self@),
            valid_utf8(self@) ==> r@ == decode_utf8(self@),
    {
        lossy_text(self.0.as_slice())
    }
}

} // verus!
