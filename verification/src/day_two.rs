//! Checking password lines against their embedded policies.

use vstd::prelude::*;

use crate::file_util::all_digits;
use crate::file_util::decimal_value;
use crate::file_util::lines_view;
use crate::file_util::parse_usize;
use crate::file_util::spec_parse_usize;

verus! {

/// A password together with the policy it must satisfy: two lengths (or
/// positions), the policed letter, and the password itself.
pub struct PasswordPolicy {
    pub at_least_length: usize,
    pub at_most_length: usize,
    pub letter: char,
    pub password: String,
}

/// True for the characters that separate the fields of a policy line.
pub open spec fn is_sep(c: char) -> bool {
    c == ' ' || c == '-'
}

/// The index of the first field separator at or after `i`, or the length.
pub open spec fn find_sep(s: Seq<char>, i: int) -> int
    decreases s.len() - i,
    when 0 <= i
{
    if i >= s.len() {
        i
    } else if is_sep(s[i]) {
        i
    } else {
        find_sep(s, i + 1)
    }
}

/// The parsed fields of one policy line `low-high letter: password`: the
/// two numbers, the first character of the third field, and the whole
/// rest of the line after the third separator.
pub open spec fn spec_parse_policy(s: Seq<char>) -> Option<(usize, usize, char, Seq<char>)> {
    let e1 = find_sep(s, 0);
    if e1 >= s.len() {
        None
    } else {
        let e2 = find_sep(s, e1 + 1);
        if e2 >= s.len() {
            None
        } else {
            let e3 = find_sep(s, e2 + 1);
            if e3 >= s.len() {
                None
            } else {
                let p1 = spec_parse_usize(s.subrange(0, e1));
                let p2 = spec_parse_usize(s.subrange(e1 + 1, e2));
                let p3 = s.subrange(e2 + 1, e3);
                if p1 is Some && p2 is Some && p3.len() > 0 {
                    Some((p1->Some_0, p2->Some_0, p3[0], s.subrange(e3 + 1, s.len() as int)))
                } else {
                    None
                }
            }
        }
    }
}

/// A policy value holds the fields parsed from a line.
pub open spec fn policy_matches(p: PasswordPolicy, t: (usize, usize, char, Seq<char>)) -> bool {
    &&& p.at_least_length == t.0
    &&& p.at_most_length == t.1
    &&& p.letter == t.2
    &&& p.password@ == t.3
}

/// The parsed fields of every well-formed policy line, in input order.
pub open spec fn spec_policies(lv: Seq<Seq<char>>) -> Seq<(usize, usize, char, Seq<char>)>
    decreases lv.len(),
{
    if lv.len() == 0 {
        Seq::empty()
    } else {
        spec_policies(lv.drop_last()) + match spec_parse_policy(lv.last()) {
            Some(t) => seq![t],
            None => Seq::empty(),
        }
    }
}

/// The index of the first separator at or after `from`.
fn find_sep_from(s: &str, from: usize) -> (r: usize)
    requires
        from <= s@.len(),
    ensures
        r == find_sep(s@, from as int),
        from <= r <= s@.len(),
{
    let n = s.unicode_len();
    let mut i = from;
    loop
        invariant
            from <= i <= n,
            n == s@.len(),
            find_sep(s@, from as int) == find_sep(s@, i as int),
        ensures
            from <= i <= n,
            find_sep(s@, from as int) == i as int,
        decreases n - i,
    {
        if i >= n {
            break ;
        }
        let c = s.get_char(i);
        if c == ' ' || c == '-' {
            break ;
        }
        i = i + 1;
    }
    i
}

/// Parses every line of the form `low-high letter: password` into a
/// policy; lines of another form are dropped.
pub fn parse_password_file(lines: &Vec<String>) -> (r: Vec<PasswordPolicy>)
    ensures
        ({
            let ps = spec_policies(lines_view(lines@));
            &&& r@.len() == ps.len()
            &&& forall|k: int| 0 <= k < ps.len() ==> policy_matches(#[trigger] r@[k], ps[k])
        }),
{
    let ghost lv = lines_view(lines@);
    let mut out: Vec<PasswordPolicy> = Vec::new();
    let n = lines.len();
    for k in 0..n
        invariant
            lv == lines_view(lines@),
            n == lines@.len(),
            out@.len() == spec_policies(lv.take(k as int)).len(),
            forall|j: int|
                0 <= j < out@.len() ==> policy_matches(
                    #[trigger] out@[j],
                    spec_policies(lv.take(k as int))[j],
                ),
    {
        proof {
            assert(lv.take(k + 1).drop_last() =~= lv.take(k as int));
            assert(lv.take(k + 1).last() == lv[k as int]);
            assert(lv[k as int] == lines@[k as int]@);
        }
        let line = lines[k].as_str();
        let len = line.unicode_len();
        let e1 = find_sep_from(line, 0);
        if e1 < len {
            let e2 = find_sep_from(line, e1 + 1);
            if e2 < len {
                let e3 = find_sep_from(line, e2 + 1);
                if e3 < len {
                    let p1 = parse_usize(line.substring_char(0, e1));
                    let p2 = parse_usize(line.substring_char(e1 + 1, e2));
                    if p1.is_some() && p2.is_some() && e3 > e2 + 1 {
                        let letter = line.get_char(e2 + 1);
                        let password = line.substring_char(e3 + 1, len).to_owned();
                        let policy = PasswordPolicy {
                            at_least_length: p1.unwrap(),
                            at_most_length: p2.unwrap(),
                            letter,
                            password,
                        };
                        out.push(policy);
                    }
                }
            }
        }
    }
    proof {
        assert(lv.take(n as int) =~= lv);
    }
    out
}

/// The number of occurrences of `c` in `s`.
pub open spec fn count_char(s: Seq<char>, c: char) -> int
    decreases s.len(),
{
    if s.len() == 0 {
        0
    } else {
        count_char(s.drop_last(), c) + if s.last() == c {
            1int
        } else {
            0int
        }
    }
}

/// The policed letter must occur at least `at_least_length` and at most
/// `at_most_length` times in the password.
pub fn is_valid_for_task_one(policy: &PasswordPolicy) -> (r: bool)
    ensures
        r == (policy.at_least_length <= count_char(policy.password@, policy.letter)
            <= policy.at_most_length),
{
    let s = policy.password.as_str();
    let n = s.unicode_len();
    let mut count: usize = 0;
    for i in 0..n
        invariant
            n == s@.len(),
            s@ == policy.password@,
            count == count_char(s@.take(i as int), policy.letter),
            count <= i,
    {
        proof {
            assert(s@.take(i + 1).drop_last() =~= s@.take(i as int));
            assert(s@.take(i + 1).last() == s@[i as int]);
        }
        let c = s.get_char(i);
        if c == policy.letter {
            count = count + 1;
        }
    }
    proof {
        assert(s@.take(n as int) =~= s@);
    }
    count >= policy.at_least_length && count <= policy.at_most_length
}

/// The character at position `i` of `s` is exactly `c`.
pub open spec fn position_is(s: Seq<char>, i: int, c: char) -> bool {
    0 <= i < s.len() && s[i] == c
}

/// The policed letter must stand at exactly one of the two one-based
/// positions named by the policy.
pub fn is_valid_for_task_two(policy: &PasswordPolicy) -> (r: bool)
    requires
        1 <= policy.at_least_length < policy.at_most_length,
    ensures
        r == (position_is(policy.password@, policy.at_least_length - 1, policy.letter)
            != position_is(policy.password@, policy.at_most_length - 1, policy.letter)),
{
    let s = policy.password.as_str();
    let n = s.unicode_len();
    let first = policy.at_least_length - 1;
    let second = policy.at_most_length - 1;
    let is_first = if first < n {
        s.get_char(first) == policy.letter
    } else {
        false
    };
    let is_second = if second < n {
        s.get_char(second) == policy.letter
    } else {
        false
    };
    is_first != is_second
}

} // verus!
