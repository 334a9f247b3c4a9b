//! Materializing raw attribute bytes as text. Invalid encoding sequences
//! are replaced, never rejected; `lossy_of` names the replacement result.

use vstd::prelude::*;

verus! {

/// The text that a byte sequence materializes to, with invalid encoding
/// sequences replaced; the result depends on the bytes alone.
pub uninterp spec fn lossy_of(bytes: Seq<u8>) -> Seq<char>;

/// Relies on String::from_utf8_lossy: decodes the bytes as UTF-8,
/// replacing invalid sequences; the result depends on the bytes alone.
#[verifier::external_body]
pub fn to_text(bytes: &[u8]) -> (r: String)
    ensures
        r@ == lossy_of(bytes@),
{
    String::from_utf8_lossy(bytes).into_owned()
}

} // verus!
