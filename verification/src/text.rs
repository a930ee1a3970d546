use vstd::prelude::*;

verus! {

/// The characters that a sequence of ASCII bytes spells.
pub open spec fn ascii_chars(bytes: Seq<u8>) -> Seq<char> {
    bytes.map_values(|b: u8| b as char)
}

pub open spec fn all_ascii(bytes: Seq<u8>) -> bool {
    forall|i: int| 0 <= i < bytes.len() ==> #[trigger] bytes[i] < 128
}

/// Builds a `String` from ASCII bytes with `String::from_utf8`; ASCII bytes are
/// valid UTF-8, each byte standing for the character with the same code.
#[verifier::external_body]
pub(crate) fn ascii_string(bytes: Vec<u8>) -> (s: String)
    requires
        all_ascii(bytes@),
    ensures
        s@ == ascii_chars(bytes@),
{
    String::from_utf8(bytes).unwrap()
}

} // verus!
