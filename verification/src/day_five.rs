//! Reading boarding-pass style binary space partitioning strings.

use vstd::prelude::*;

verus! {

/// Why a string could not be read as a binary number.
#[derive(Clone, Copy, PartialEq, Eq, Structural, Debug)]
pub enum BinaryParseError {
    /// The string holds no characters.
    Empty,
    /// The encoded value does not fit the result type.
    TooLarge,
}

/// The value of a string read as binary, where exactly the given character
/// counts as a one bit and every other character as a zero bit.
pub open spec fn binary_value(s: Seq<char>, ones_char: char) -> int
    decreases s.len(),
{
    if s.len() == 0 {
        0
    } else {
        binary_value(s.drop_last(), ones_char) * 2 + if s.last() == ones_char {
            1int
        } else {
            0int
        }
    }
}

/// A binary reading is never negative.
pub proof fn lemma_binary_value_nonneg(s: Seq<char>, ones_char: char)
    ensures
        binary_value(s, ones_char) >= 0,
    decreases s.len(),
{
    if s.len() > 0 {
        lemma_binary_value_nonneg(s.drop_last(), ones_char);
    }
}

/// Reads a string as a binary number: characters equal to `ones_char` are
/// one bits, all others zero bits. Fails on an empty string and when the
/// value does not fit.
pub fn to_integer_from_binary_string(binary_str: &str, ones_char: char) -> (r: Result<
    u32,
    BinaryParseError,
>)
    ensures
        binary_str@.len() == 0 ==> r == Err::<u32, BinaryParseError>(BinaryParseError::Empty),
        binary_str@.len() > 0 && binary_value(binary_str@, ones_char) > u32::MAX ==> r == Err::<
            u32,
            BinaryParseError,
        >(BinaryParseError::TooLarge),
        binary_str@.len() > 0 && binary_value(binary_str@, ones_char) <= u32::MAX ==> r == Ok::<
            u32,
            BinaryParseError,
        >(binary_value(binary_str@, ones_char) as u32),
{
    let n = binary_str.unicode_len();
    if n == 0 {
        return Err(BinaryParseError::Empty);
    }
    let mut acc: u64 = 0;
    let mut over = false;
    for j in 0..n
        invariant
            n == binary_str@.len(),
            !over ==> acc == binary_value(binary_str@.take(j as int), ones_char) && acc
                <= u32::MAX,
            over ==> binary_value(binary_str@.take(j as int), ones_char) > u32::MAX,
    {
        let c = binary_str.get_char(j);
        proof {
            assert(binary_str@.take(j + 1).drop_last() =~= binary_str@.take(j as int));
            assert(binary_str@.take(j + 1).last() == binary_str@[j as int]);
        }
        if over {
            proof {
                let prev = binary_value(binary_str@.take(j as int), ones_char);
                assert(binary_value(binary_str@.take(j + 1), ones_char) == prev * 2 + if
                    binary_str@[j as int] == ones_char {
                    1int
                } else {
                    0int
                });
            }
        } else {
            let bit: u64 = if c == ones_char {
                1
            } else {
                0
            };
            let next = acc * 2 + bit;
            if next > 0xffff_ffff {
                over = true;
            } else {
                acc = next;
            }
        }
    }
    proof {
        assert(binary_str@.take(n as int) =~= binary_str@);
    }
    if over {
        return Err(BinaryParseError::TooLarge);
    }
    Ok(acc as u32)
}

} // verus!
