//! Text decoding that puts up with bytes that are no text.

use vstd::prelude::*;
use vstd::utf8::valid_utf8;

verus! {

/// The UTF-8 text that `String::from_utf8_lossy` makes of a byte string.
pub uninterp spec fn lossy_text(bytes: Seq<u8>) -> Seq<u8>;

/// `String::from_utf8_lossy` of std, its result taken as bytes again: the
/// bytes with every sequence that is not UTF-8 replaced by the replacement
/// character. Bytes that are UTF-8 throughout come back as they are.
#[verifier::external_body]
pub(crate) fn decode_lossy(bytes: &[u8]) -> (text: Vec<u8>)
    ensures
        text@ == lossy_text(bytes@),
        valid_utf8(bytes@) ==> text@ == bytes@,
{
    String::from_utf8_lossy(bytes).into_owned().into_bytes()
}

} // verus!
