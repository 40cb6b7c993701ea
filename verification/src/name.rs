//! Decoding of executable names from fixed-capacity wide-character buffers.

use vstd::prelude::*;
use vstd::slice::slice_subrange;

verus! {

/// The text that `String::from_utf16_lossy` decodes from UTF-16 code units,
/// with U+FFFD in place of each unpaired surrogate.
pub uninterp spec fn utf16_lossy(units: Seq<u16>) -> Seq<char>;

/// The code units of a buffer that stand before its first terminator (a zero
/// unit); the whole buffer where it holds none.
pub open spec fn until_nul(units: Seq<u16>) -> Seq<u16> {
    match units.index_of_first(0u16) {
        Some(at) => units.take(at),
        None => units,
    }
}

/// Calls `String::from_utf16_lossy`. Nothing is proved of the decoding: the
/// contract only gives its result the name `utf16_lossy`, as a function of the
/// code units alone.
#[verifier::external_body]
fn decode_utf16_lossy(units: &[u16]) -> (text: String)
    ensures
        text@ == utf16_lossy(units@),
{
    String::from_utf16_lossy(units)
}

/// Decodes a nul-terminated wide-character buffer: cuts it at the first
/// terminator and decodes what stands before it.
pub fn widestring_to_string(buf: &[u16]) -> (name: String)
    ensures
        name@ == utf16_lossy(until_nul(buf@)),
{
    let mut nul_pos: usize = 0;
    while nul_pos < buf.len() && buf[nul_pos] != 0
        invariant
            nul_pos <= buf.len(),
            forall|j: int| 0 <= j < nul_pos ==> buf@[j] != 0u16,
        decreases buf.len() - nul_pos,
    {
        nul_pos += 1;
    }
    proof {
        buf@.index_of_first_ensures(0u16);
        if nul_pos == buf.len() {
            assert(buf@.take(nul_pos as int) =~= buf@);
        }
    }
    decode_utf16_lossy(slice_subrange(buf, 0, nul_pos))
}

} // verus!
