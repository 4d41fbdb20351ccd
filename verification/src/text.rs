//! Facts about UTF-8 byte lengths used by the byte-budgeted text
//! accumulators.

use vstd::prelude::*;
use vstd::utf8::encode_utf8;

verus! {

/// Encoding a concatenation of character sequences yields the
/// concatenation of their encodings; in particular byte lengths add up.
pub proof fn lemma_encode_utf8_concat(a: Seq<char>, b: Seq<char>)
    ensures
        encode_utf8(a + b) == encode_utf8(a) + encode_utf8(b),
    decreases a.len(),
{
    if a.len() == 0 {
        assert(a + b =~= b);
        assert(encode_utf8(a) + encode_utf8(b) =~= encode_utf8(b));
    } else {
        assert((a + b).drop_first() =~= a.drop_first() + b);
        lemma_encode_utf8_concat(a.drop_first(), b);
        assert(encode_utf8(a + b) =~= encode_utf8(a) + encode_utf8(b));
    }
}

} // verus!
