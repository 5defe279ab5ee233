use vstd::prelude::*;

verus! {

/// The shortest word that is replaced.
pub const MIN_LENGH: usize = 2;

/// The longest word that is replaced.
pub const MAX_LENGTH: usize = 22;

/// Whether `b` is one of the letters a word is made of: the small letters, and
/// the capitals but for `W`.
pub open spec fn is_letter(b: u8) -> bool {
    (0x61 <= b <= 0x7A) || (0x41 <= b <= 0x5A && b != 0x57)
}

/// Whether `word` is a word that is replaced: of a length within the limits
/// and made of letters only.
pub open spec fn is_word_spec(word: Seq<u8>) -> bool {
    &&& MIN_LENGH <= word.len() <= MAX_LENGTH
    &&& forall|i: int| 0 <= i < word.len() ==> is_letter(#[trigger] word[i])
}

/// Whether the bytes of `word` are a word that is replaced.
pub fn is_word(word: &[u8]) -> (r: bool)
    ensures
        r == is_word_spec(word@),
{
    let len: usize = word.len();
    if len < MIN_LENGH || len > MAX_LENGTH {
        return false;
    }
    let mut i: usize = 0;
    while i < len
        invariant
            len == word@.len(),
            MIN_LENGH <= len <= MAX_LENGTH,
            i <= len,
            forall|j: int| 0 <= j < i ==> is_letter(#[trigger] word@[j]),
        decreases len - i,
    {
        let ch: u8 = word[i];
        let small: bool = 0x61 <= ch && ch <= 0x7A;
        let capital: bool = 0x41 <= ch && ch <= 0x5A && ch != 0x57;
        if !(small || capital) {
            return false;
        }
        i = i + 1;
    }
    true
}

} // verus!
