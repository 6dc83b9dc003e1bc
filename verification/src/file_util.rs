//! Interpretation of text lines read from puzzle input files.
//!
//! File handling itself stays with the caller: these functions turn lines
//! that were already read into numbers.

use vstd::prelude::*;

verus! {

/// Every character of `s` is a decimal digit.
pub open spec fn all_digits(s: Seq<char>) -> bool {
    forall|i: int| 0 <= i < s.len() ==> 48 <= (#[trigger] s[i]) as u32 <= 57
}

/// The decimal value of a digit sequence.
pub open spec fn decimal_value(s: Seq<char>) -> int
    decreases s.len(),
{
    if s.len() == 0 {
        0
    } else {
        decimal_value(s.drop_last()) * 10 + ((s.last() as u32) - 48)
    }
}

/// The digits of a prefix never outvalue the digits of the whole.
pub proof fn lemma_decimal_value_monotonic(s: Seq<char>, k: int)
    requires
        all_digits(s),
        0 <= k <= s.len(),
    ensures
        0 <= decimal_value(s.take(k)) <= decimal_value(s),
    decreases s.len() - k,
{
    if k == s.len() {
        assert(s.take(k) =~= s);
        lemma_decimal_value_nonneg(s);
    } else {
        lemma_decimal_value_monotonic(s, k + 1);
        assert(s.take(k + 1).drop_last() =~= s.take(k));
        assert(s.take(k + 1).last() == s[k]);
        lemma_decimal_value_nonneg(s.take(k));
    }
}

/// A digit sequence never has a negative value.
pub proof fn lemma_decimal_value_nonneg(s: Seq<char>)
    requires
        all_digits(s),
    ensures
        decimal_value(s) >= 0,
    decreases s.len(),
{
    if s.len() > 0 {
        assert(all_digits(s.drop_last())) by {
            assert(forall|i: int| 0 <= i < s.len() - 1 ==> s.drop_last()[i] == s[i]);
        }
        lemma_decimal_value_nonneg(s.drop_last());
    }
}

/// The view of a list of lines as a sequence of character sequences.
pub open spec fn lines_view(lines: Seq<String>) -> Seq<Seq<char>> {
    lines.map_values(|s: String| s@)
}

/// The value of a string of decimal digits, when it is one and fits
/// `usize`.
pub open spec fn spec_parse_usize(s: Seq<char>) -> Option<usize> {
    if s.len() > 0 && all_digits(s) && decimal_value(s) <= usize::MAX {
        Some(decimal_value(s) as usize)
    } else {
        None
    }
}

/// Reads a string of decimal digits as a `usize`.
pub fn parse_usize(s: &str) -> (r: Option<usize>)
    ensures
        r == spec_parse_usize(s@),
{
    let n = s.unicode_len();
    if n == 0 {
        return None;
    }
    let mut acc: u128 = 0;
    let mut over = false;
    for j in 0..n
        invariant
            n == s@.len(),
            forall|m: int| 0 <= m < j ==> 48 <= (#[trigger] s@[m]) as u32 <= 57,
            !over ==> acc == decimal_value(s@.take(j as int)) && acc <= usize::MAX,
            over ==> decimal_value(s@.take(j as int)) > usize::MAX,
    {
        let c = s.get_char(j);
        let b = c as u32;
        if b < 48 || b > 57 {
            return None;
        }
        proof {
            assert(s@.take(j + 1).drop_last() =~= s@.take(j as int));
            assert(s@.take(j + 1).last() == s@[j as int]);
        }
        if over {
            proof {
                let prev = decimal_value(s@.take(j as int));
                assert(decimal_value(s@.take(j + 1)) == prev * 10 + (b - 48));
            }
        } else {
            let next = acc * 10 + ((b - 48) as u128);
            if next > (usize::MAX as u128) {
                over = true;
            } else {
                acc = next;
            }
        }
    }
    proof {
        assert(s@.take(n as int) =~= s@);
    }
    if over {
        return None;
    }
    Some(acc as usize)
}

/// The value of a line of decimal digits, when it is one and fits `u32`.
pub open spec fn spec_parse_u32(s: Seq<char>) -> Option<u32> {
    if s.len() > 0 && all_digits(s) && decimal_value(s) <= u32::MAX {
        Some(decimal_value(s) as u32)
    } else {
        None
    }
}

/// Reads a line of decimal digits as a `u32`.
pub fn parse_u32(s: &str) -> (r: Option<u32>)
    ensures
        r == spec_parse_u32(s@),
{
    let n = s.unicode_len();
    if n == 0 {
        return None;
    }
    let mut acc: u64 = 0;
    let mut over = false;
    for j in 0..n
        invariant
            n == s@.len(),
            forall|m: int| 0 <= m < j ==> 48 <= (#[trigger] s@[m]) as u32 <= 57,
            !over ==> acc == decimal_value(s@.take(j as int)) && acc <= u32::MAX,
            over ==> decimal_value(s@.take(j as int)) > u32::MAX,
    {
        let c = s.get_char(j);
        let b = c as u32;
        if b < 48 || b > 57 {
            return None;
        }
        proof {
            assert(s@.take(j + 1).drop_last() =~= s@.take(j as int));
            assert(s@.take(j + 1).last() == s@[j as int]);
        }
        if over {
            proof {
                let prev = decimal_value(s@.take(j as int));
                assert(decimal_value(s@.take(j + 1)) == prev * 10 + (b - 48));
            }
        } else {
            let next = acc * 10 + ((b - 48) as u64);
            if next > 0xffff_ffff {
                over = true;
            } else {
                acc = next;
            }
        }
    }
    proof {
        assert(s@.take(n as int) =~= s@);
    }
    if over {
        return None;
    }
    Some(acc as u32)
}

/// Reads every line as a decimal `u32`. Each line must be a number: a line
/// that is not one has no value to give back.
pub fn read_lines_as_u32(lines: &Vec<String>) -> (r: Vec<u32>)
    requires
        forall|k: int|
            0 <= k < lines@.len() ==> spec_parse_u32((#[trigger] lines@[k])@) is Some,
    ensures
        r@.len() == lines@.len(),
        forall|k: int|
            0 <= k < lines@.len() ==> #[trigger] r@[k] == spec_parse_u32(lines@[k]@)->Some_0,
{
    let mut out: Vec<u32> = Vec::new();
    let n = lines.len();
    for k in 0..n
        invariant
            n == lines@.len(),
            forall|j: int|
                0 <= j < lines@.len() ==> spec_parse_u32((#[trigger] lines@[j])@) is Some,
            out@.len() == k,
            forall|j: int|
                0 <= j < k ==> #[trigger] out@[j] == spec_parse_u32(lines@[j]@)->Some_0,
    {
        match parse_u32(lines[k].as_str()) {
            Some(v) => out.push(v),
            None => {
                proof {
                    assert(false);
                }
            },
        }
    }
    out
}

/// The index of the first occurrence of `c` at or after `i`, or the
/// length.
pub open spec fn char_at_or_len(s: Seq<char>, c: char, i: int) -> int
    decreases s.len() - i,
    when 0 <= i
{
    if i >= s.len() {
        i
    } else if s[i] == c {
        i
    } else {
        char_at_or_len(s, c, i + 1)
    }
}


/// A character scan never moves backwards and stops by the end.
pub proof fn lemma_char_at_or_len_bounds(s: Seq<char>, c: char, i: int)
    requires
        0 <= i,
    ensures
        i <= char_at_or_len(s, c, i),
        i < s.len() ==> char_at_or_len(s, c, i) <= s.len(),
        i >= s.len() ==> char_at_or_len(s, c, i) == i,
    decreases s.len() - i,
{
    if i < s.len() && s[i] != c {
        lemma_char_at_or_len_bounds(s, c, i + 1);
    }
}


/// True when both strings hold the same characters.
pub fn eq_str(a: &str, b: &str) -> (r: bool)
    ensures
        r == (a@ == b@),
{
    let n = a.unicode_len();
    if n != b.unicode_len() {
        proof {
            assert(a@ != b@);
        }
        return false;
    }
    for i in 0..n
        invariant
            n == a@.len(),
            n == b@.len(),
            forall|j: int| 0 <= j < i ==> a@[j] == b@[j],
    {
        if a.get_char(i) != b.get_char(i) {
            return false;
        }
    }
    proof {
        assert(a@ =~= b@);
    }
    true
}


/// The index of the first occurrence of `c` at or after `from`, or the
/// length.
pub fn find_char_from(s: &str, from: usize, c: char) -> (r: usize)
    requires
        from <= s@.len(),
    ensures
        r == char_at_or_len(s@, c, from as int),
        from <= r <= s@.len(),
{
    let n = s.unicode_len();
    let mut i = from;
    loop
        invariant
            from <= i <= n,
            n == s@.len(),
            char_at_or_len(s@, c, from as int) == char_at_or_len(s@, c, i as int),
        ensures
            from <= i <= n,
            char_at_or_len(s@, c, from as int) == i as int,
        decreases n - i,
    {
        if i >= n {
            break ;
        }
        if s.get_char(i) == c {
            break ;
        }
        i = i + 1;
    }
    i
}


} // verus!
