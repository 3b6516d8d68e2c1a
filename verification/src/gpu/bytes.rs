//! Words as the device sees them.

use vstd::prelude::*;

verus! {

/// The word that four bytes stand for, least significant byte first or last.
pub open spec fn word_at(bytes: Seq<u8>, at: int, little: bool) -> int {
    let a = bytes[at] as int;
    let b = bytes[at + 1] as int;
    let c = bytes[at + 2] as int;
    let d = bytes[at + 3] as int;
    if little {
        a + 0x100 * b + 0x1_0000 * c + 0x100_0000 * d
    } else {
        d + 0x100 * c + 0x1_0000 * b + 0x100_0000 * a
    }
}

/// Whether bytes hold the words, each in the given byte order.
pub open spec fn holds_words(bytes: Seq<u8>, words: Seq<u32>, little: bool) -> bool {
    &&& bytes.len() == 4 * words.len()
    &&& forall|i: int|
        0 <= i < words.len() ==> #[trigger] words[i] == word_at(bytes, 4 * i, little)
}

/// `bytemuck::cast_slice` from words to bytes.
///
/// The bytes are the words as they lie in memory: four for each, in the byte
/// order of the machine, which is one of the two.
#[verifier::external_body]
pub(crate) fn bytes_of_words(words: &Vec<u32>) -> (r: Vec<u8>)
    requires
        4 * words@.len() <= usize::MAX,
    ensures
        holds_words(r@, words@, true) || holds_words(r@, words@, false),
{
    bytemuck::cast_slice::<u32, u8>(words).to_vec()
}

/// `bytemuck::pod_read_unaligned` to eight words.
///
/// It panics unless there are exactly as many bytes as the words take.  The
/// words are those the bytes stand for in the byte order of the machine, which
/// is one of the two.
#[verifier::external_body]
pub(crate) fn eight_words(bytes: &Vec<u8>) -> (r: [u32; 8])
    requires
        bytes@.len() == 32,
    ensures
        holds_words(bytes@, r@, true) || holds_words(bytes@, r@, false),
{
    bytemuck::pod_read_unaligned::<[u32; 8]>(bytes)
}

} // verus!
