//! Reading the arguments of the command line.

use vstd::arithmetic::power2::is_pow2;
use vstd::prelude::*;
use vstd::string::StringExecFns;
use vstd::string::StringSliceAdditionalSpecFns;

verus! {

/// Why a block size could not be read.
#[derive(Debug, Clone, Copy, PartialEq, Eq, Structural)]
pub enum BlockSizeError {
    /// The text is not a number with an optional scale.
    Malformed,
    /// The number is too large to be held.
    NotANumber,
    /// The number of bytes is too large to be held.
    TooLarge,
    /// The number of bytes is not a power of two.
    NotPowerOfTwo,
}

impl BlockSizeError {
    /// What to tell the user.
    pub fn message(&self) -> (text: String)
        ensures
            text@ == match *self {
                BlockSizeError::Malformed => "Use a number of bytes with optional scale (e.g. 4096, 128k or 2M)."@,
                BlockSizeError::NotANumber => "Not a number."@,
                BlockSizeError::TooLarge => "Not a number."@,
                BlockSizeError::NotPowerOfTwo => "Should be a power of two."@,
            },
    {
        match self {
            BlockSizeError::Malformed => String::from_str(
                "Use a number of bytes with optional scale (e.g. 4096, 128k or 2M).",
            ),
            BlockSizeError::NotANumber => String::from_str("Not a number."),
            BlockSizeError::TooLarge => String::from_str("Not a number."),
            BlockSizeError::NotPowerOfTwo => String::from_str("Should be a power of two."),
        }
    }
}

/// Whether a byte is a decimal digit.
pub open spec fn is_digit(byte: u8) -> bool {
    0x30 <= byte <= 0x39
}

/// Where the run of digits that starts at `from` ends.
pub open spec fn digits_end(text: Seq<u8>, from: int) -> int
    decreases text.len() - from,
{
    if 0 <= from < text.len() && is_digit(text[from]) {
        digits_end(text, from + 1)
    } else {
        from
    }
}

/// Where the run of spaces that starts at `from` ends.
pub open spec fn spaces_end(text: Seq<u8>, from: int) -> int
    decreases text.len() - from,
{
    if 0 <= from < text.len() && text[from] == 0x20 {
        spaces_end(text, from + 1)
    } else {
        from
    }
}

/// The number that the digits of `text` before `to` spell.
pub open spec fn number(text: Seq<u8>, to: int) -> nat
    decreases to,
{
    if to <= 0 {
        0
    } else {
        number(text, to - 1) * 10 + (text[to - 1] - 0x30) as nat
    }
}

/// The scale that the end of `text` from `from` on names, in any case of
/// letters: nothing for bytes, `k` or `kb` for 1024 bytes, `m` or `mb` for
/// 1024 times 1024 bytes.
pub open spec fn scale(text: Seq<u8>, from: int) -> Option<nat> {
    let rest = text.len() - from;
    if rest == 0 {
        Some(1)
    } else if rest == 1 || (rest == 2 && (text[from + 1] == 0x62 || text[from + 1] == 0x42)) {
        if text[from] == 0x6b || text[from] == 0x4b {
            Some(1024)
        } else if text[from] == 0x6d || text[from] == 0x4d {
            Some(1024 * 1024)
        } else {
            None
        }
    } else {
        None
    }
}

/// What a text says as a block size: a run of digits, any number of spaces,
/// and a scale, the whole of it a power of two.
pub open spec fn block_size_of(text: Seq<u8>) -> Result<usize, BlockSizeError> {
    let digits = digits_end(text, 0);
    let tail = spaces_end(text, digits);
    if digits == 0 {
        Err(BlockSizeError::Malformed)
    } else {
        match scale(text, tail) {
            None => Err(BlockSizeError::Malformed),
            Some(unit) => {
                let units = number(text, digits);
                if units > usize::MAX {
                    Err(BlockSizeError::NotANumber)
                } else if units * unit > usize::MAX {
                    Err(BlockSizeError::TooLarge)
                } else if !is_pow2((units * unit) as int) {
                    Err(BlockSizeError::NotPowerOfTwo)
                } else {
                    Ok((units * unit) as usize)
                }
            },
        }
    }
}

/// Whether a number is a power of two.
pub fn is_power_of_two(n: usize) -> (yes: bool)
    ensures
        yes == is_pow2(n as int),
{
    if n == 0 {
        reveal(is_pow2);
        return false;
    }
    let mut m = n;
    while m % 2 == 0
        invariant
            m > 0,
            is_pow2(m as int) == is_pow2(n as int),
        decreases m,
    {
        proof {
            reveal(is_pow2);
        }
        m = m / 2;
    }
    proof {
        reveal(is_pow2);
    }
    m == 1
}

/// A longer run of digits spells a number that is no smaller.
proof fn lemma_number_grows(text: Seq<u8>, shorter: int, longer: int)
    requires
        0 <= shorter <= longer <= text.len(),
        forall|i: int| 0 <= i < longer ==> is_digit(text[i]),
    ensures
        number(text, shorter) <= number(text, longer),
    decreases longer - shorter,
{
    if shorter < longer {
        lemma_number_grows(text, shorter, longer - 1);
    }
}

/// Reads a block size: a number of bytes, or of kilobytes or megabytes where
/// the number is followed by `k` or `m`. The size has to be a power of two.
pub fn parse_block_size(s: &str) -> (size: Result<usize, BlockSizeError>)
    ensures
        size == block_size_of(s.spec_bytes()),
{
    let text = s.as_bytes();
    let ghost bytes = text@;
    let mut digits: usize = 0;
    while digits < text.len() && text[digits] >= 0x30 && text[digits] <= 0x39
        invariant
            digits <= text@.len(),
            bytes == text@,
            digits_end(bytes, 0) == digits_end(bytes, digits as int),
            forall|i: int| 0 <= i < digits ==> is_digit(bytes[i]),
        decreases text@.len() - digits,
    {
        digits = digits + 1;
    }
    if digits == 0 {
        return Err(BlockSizeError::Malformed);
    }
    let mut tail: usize = digits;
    while tail < text.len() && text[tail] == 0x20
        invariant
            digits <= tail <= text@.len(),
            bytes == text@,
            spaces_end(bytes, digits as int) == spaces_end(bytes, tail as int),
        decreases text@.len() - tail,
    {
        tail = tail + 1;
    }
    let rest = text.len() - tail;
    let unit: usize = if rest == 0 {
        1
    } else if rest == 1 || (rest == 2 && (text[tail + 1] == 0x62 || text[tail + 1] == 0x42)) {
        if text[tail] == 0x6b || text[tail] == 0x4b {
            1024
        } else if text[tail] == 0x6d || text[tail] == 0x4d {
            1024 * 1024
        } else {
            return Err(BlockSizeError::Malformed);
        }
    } else {
        return Err(BlockSizeError::Malformed);
    };
    assert(scale(bytes, tail as int) == Some(unit as nat));
    let mut units: usize = 0;
    let mut i: usize = 0;
    while i < digits
        invariant
            i <= digits <= text@.len(),
            bytes == text@,
            bytes == s.spec_bytes(),
            digits > 0,
            forall|k: int| 0 <= k < digits ==> is_digit(bytes[k]),
            units == number(bytes, i as int),
            digits_end(bytes, 0) == digits,
            spaces_end(bytes, digits as int) == tail,
            scale(bytes, tail as int) == Some(unit as nat),
        decreases digits - i,
    {
        let digit = (text[i] - 0x30) as usize;
        let next = match units.checked_mul(10) {
            Some(tens) => tens.checked_add(digit),
            None => None,
        };
        match next {
            Some(value) => {
                units = value;
            },
            None => {
                proof {
                    assert(number(bytes, i as int + 1) > usize::MAX);
                    lemma_number_grows(bytes, i as int + 1, digits as int);
                }
                return Err(BlockSizeError::NotANumber);
            },
        }
        i = i + 1;
    }
    match units.checked_mul(unit) {
        Some(total) => {
            if is_power_of_two(total) {
                Ok(total)
            } else {
                Err(BlockSizeError::NotPowerOfTwo)
            }
        },
        None => Err(BlockSizeError::TooLarge),
    }
}

} // verus!
