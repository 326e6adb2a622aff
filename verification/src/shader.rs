//! Framing of SPIR-V bytecode.
//!
//! A shader module is handed to the graphics API as 32-bit words. The
//! bytecode arrives as bytes: this module checks that the bytes can be a
//! SPIR-V module at all and assembles the words, little-endian.

use vstd::prelude::*;

verus! {

/// The first word of every SPIR-V module.
pub const SPIRV_MAGIC: u32 = 0x0723_0203;

/// Why a sequence of bytes cannot be a SPIR-V module.
#[derive(Debug, Copy, Clone, Eq, PartialEq, Structural)]
pub enum SpirvError {
    /// The length is not a multiple of four bytes.
    Unaligned,
    /// There is no first word.
    MissingMagic,
    /// The first word, held here, is not the magic number.
    BadMagic(u32),
}

/// The word that four bytes spell, least significant byte first.
pub open spec fn le_word(b0: u8, b1: u8, b2: u8, b3: u8) -> u32 {
    (b0 as int + b1 as int * 0x100 + b2 as int * 0x1_0000 + b3 as int * 0x100_0000) as u32
}

/// The `i`-th word of the bytes.
pub open spec fn word_at(bytes: Seq<u8>, i: int) -> u32 {
    le_word(bytes[4 * i], bytes[4 * i + 1], bytes[4 * i + 2], bytes[4 * i + 3])
}

/// The bytes as words.
pub open spec fn words_of(bytes: Seq<u8>) -> Seq<u32> {
    Seq::new((bytes.len() / 4) as nat, |i: int| word_at(bytes, i))
}

/// The words of a SPIR-V module, or why the bytes are none. The length is
/// checked first, then the magic number.
pub open spec fn framed(bytes: Seq<u8>) -> Result<Seq<u32>, SpirvError> {
    if bytes.len() % 4 != 0 {
        Err(SpirvError::Unaligned)
    } else if bytes.len() < 4 {
        Err(SpirvError::MissingMagic)
    } else if word_at(bytes, 0) != SPIRV_MAGIC {
        Err(SpirvError::BadMagic(word_at(bytes, 0)))
    } else {
        Ok(words_of(bytes))
    }
}

/// Assembles four bytes, least significant first, into a word.
fn word(b0: u8, b1: u8, b2: u8, b3: u8) -> (r: u32)
    ensures
        r == le_word(b0, b1, b2, b3),
{
    let r = (b0 as u32) | ((b1 as u32) << 8) | ((b2 as u32) << 16) | ((b3 as u32) << 24);
    assert((b0 as u32) | ((b1 as u32) << 8) | ((b2 as u32) << 16) | ((b3 as u32) << 24) == (
    b0 as u32) + (b1 as u32) * 0x100 + (b2 as u32) * 0x1_0000 + (b3 as u32) * 0x100_0000)
        by (bit_vector);
    r
}

/// Checks that `bytes` can be a SPIR-V module and returns its words.
pub fn spirv_words(bytes: &[u8]) -> (r: Result<Vec<u32>, SpirvError>)
    ensures
        match r {
            Ok(words) => framed(bytes@) == Ok::<Seq<u32>, SpirvError>(words@),
            Err(e) => framed(bytes@) == Err::<Seq<u32>, SpirvError>(e),
        },
{
    let n = bytes.len();
    if n % 4 != 0 {
        return Err(SpirvError::Unaligned);
    }
    if n < 4 {
        return Err(SpirvError::MissingMagic);
    }
    let magic = word(bytes[0], bytes[1], bytes[2], bytes[3]);
    if magic != SPIRV_MAGIC {
        return Err(SpirvError::BadMagic(magic));
    }
    let mut words: Vec<u32> = Vec::new();
    let mut i: usize = 0;
    while i < n / 4
        invariant
            n == bytes@.len(),
            n % 4 == 0,
            i <= n / 4,
            words@.len() == i,
            forall|k: int| 0 <= k < i ==> #[trigger] words@[k] == word_at(bytes@, k),
        decreases n / 4 - i,
    {
        let at = 4 * i;
        words.push(word(bytes[at], bytes[at + 1], bytes[at + 2], bytes[at + 3]));
        i += 1;
    }
    assert(words@ =~= words_of(bytes@));
    Ok(words)
}

} // verus!
