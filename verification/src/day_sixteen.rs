//! Ticket rules: parsing field ranges and finding values no rule allows.

use vstd::prelude::*;

use crate::file_util::all_digits;
use crate::file_util::char_at_or_len;
use crate::file_util::decimal_value;
use crate::file_util::find_char_from;
use crate::file_util::lemma_char_at_or_len_bounds;
use crate::file_util::lines_view;

verus! {

/// A field rule: two inclusive ranges of allowed values.
pub type Rule = [[u16; 2]; 2];

/// The value of a string of decimal digits, when it is one and fits `u16`.
pub open spec fn spec_parse_u16(s: Seq<char>) -> Option<u16> {
    if s.len() > 0 && all_digits(s) && decimal_value(s) <= u16::MAX {
        Some(decimal_value(s) as u16)
    } else {
        None
    }
}

/// Reads a string of decimal digits as a `u16`.
pub fn parse_u16(s: &str) -> (r: Option<u16>)
    ensures
        r == spec_parse_u16(s@),
{
    let n = s.unicode_len();
    if n == 0 {
        return None;
    }
    let mut acc: u32 = 0;
    let mut over = false;
    for j in 0..n
        invariant
            n == s@.len(),
            forall|m: int| 0 <= m < j ==> 48 <= (#[trigger] s@[m]) as u32 <= 57,
            !over ==> acc == decimal_value(s@.take(j as int)) && acc <= u16::MAX,
            over ==> decimal_value(s@.take(j as int)) > u16::MAX,
    {
        let c = s.get_char(j);
        let b = c as u32;
        if b < 48 || b > 57 {
            return None;
        }
        proof {
            assert(s@.take(j + 1).drop_last() =~= s@.take(j as int));
            assert(s@.take(j + 1).last() == s@[j as int]);
        }
        if over {
            proof {
                let prev = decimal_value(s@.take(j as int));
                assert(decimal_value(s@.take(j + 1)) == prev * 10 + (b - 48));
            }
        } else {
            let next = acc * 10 + (b - 48);
            if next > 65535 {
                over = true;
            } else {
                acc = next;
            }
        }
    }
    proof {
        assert(s@.take(n as int) =~= s@);
    }
    if over {
        return None;
    }
    Some(acc as u16)
}

/// The value satisfies one of the rule's two inclusive ranges.
pub open spec fn spec_satisfies(v: u16, rule: Rule) -> bool {
    (rule[0][0] <= v && v <= rule[0][1]) || (rule[1][0] <= v && v <= rule[1][1])
}

/// Checks a value against a rule's two ranges.
pub fn satisfies_rule(v: u16, rule: &Rule) -> (r: bool)
    ensures
        r == spec_satisfies(v, *rule),
{
    v >= rule[0][0] && v <= rule[0][1] || v >= rule[1][0] && v <= rule[1][1]
}

/// The numbers of a comma-separated ticket line from position `i` on;
/// fields that are not plain numbers are dropped.
pub open spec fn spec_ticket_from(s: Seq<char>, i: int) -> Seq<u16>
    decreases s.len() - i,
    when 0 <= i
    via spec_ticket_from_decreases
{
    if i > s.len() {
        Seq::empty()
    } else {
        let e = char_at_or_len(s, ',', i);
        let head = match spec_parse_u16(s.subrange(i, e)) {
            Some(v) => seq![v],
            None => Seq::<u16>::empty(),
        };
        if e >= s.len() {
            head
        } else {
            head + spec_ticket_from(s, e + 1)
        }
    }
}

#[via_fn]
proof fn spec_ticket_from_decreases(s: Seq<char>, i: int) {
    if 0 <= i <= s.len() {
        lemma_char_at_or_len_bounds(s, ',', i);
    }
}

/// Reads a ticket line as its comma-separated numbers.
pub fn parse_ticket(ticket: &str) -> (r: Vec<u16>)
    ensures
        r@ == spec_ticket_from(ticket@, 0),
{
    let len = ticket.unicode_len();
    let mut out: Vec<u16> = Vec::new();
    let mut i: usize = 0;
    loop
        invariant_except_break
            spec_ticket_from(ticket@, 0) == out@ + spec_ticket_from(ticket@, i as int),
        invariant
            len == ticket@.len(),
            i <= len,
        ensures
            spec_ticket_from(ticket@, 0) == out@,
        decreases len - i,
    {
        let e = find_char_from(ticket, i, ',');
        let seg = ticket.substring_char(i, e);
        let ghost out0 = out@;
        let ghost head = match spec_parse_u16(ticket@.subrange(i as int, e as int)) {
            Some(v) => seq![v],
            None => Seq::<u16>::empty(),
        };
        match parse_u16(seg) {
            Some(v) => out.push(v),
            None => {},
        }
        proof {
            assert(out@ =~= out0 + head);
        }
        if e >= len {
            proof {
                assert(spec_ticket_from(ticket@, i as int) == head);
                assert(out0 + head =~= out@);
            }
            break ;
        }
        proof {
            assert(spec_ticket_from(ticket@, i as int) == head + spec_ticket_from(
                ticket@,
                e as int + 1,
            ));
            assert(out0 + (head + spec_ticket_from(ticket@, e + 1)) =~= out@ + spec_ticket_from(
                ticket@,
                e + 1,
            ));
        }
        i = e + 1;
    }
    out
}

/// The two bounds of a `low-high` range, split at its first dash.
pub open spec fn spec_range(s: Seq<char>) -> Option<[u16; 2]> {
    let d = char_at_or_len(s, '-', 0);
    if d >= s.len() {
        None
    } else {
        let low = spec_parse_u16(s.subrange(0, d));
        let high = spec_parse_u16(s.subrange(d + 1, s.len() as int));
        if low is Some && high is Some {
            Some([low->Some_0, high->Some_0])
        } else {
            None
        }
    }
}

/// Reads a `low-high` range into its two bounds.
pub fn range_to_arr_tuple(range: &str) -> (r: Option<[u16; 2]>)
    ensures
        r == spec_range(range@),
{
    let len = range.unicode_len();
    let d = find_char_from(range, 0, '-');
    if d >= len {
        return None;
    }
    let low = parse_u16(range.substring_char(0, d));
    let high = parse_u16(range.substring_char(d + 1, len));
    match (low, high) {
        (Some(l), Some(h)) => Some([l, h]),
        _ => None,
    }
}

/// The words of a line: its space-separated parts, empty ones included.
pub open spec fn spec_words_from(s: Seq<char>, i: int) -> Seq<Seq<char>>
    decreases s.len() - i,
    when 0 <= i
    via spec_words_from_decreases
{
    if i > s.len() {
        Seq::empty()
    } else {
        let e = char_at_or_len(s, ' ', i);
        if e >= s.len() {
            seq![s.subrange(i, s.len() as int)]
        } else {
            seq![s.subrange(i, e)] + spec_words_from(s, e + 1)
        }
    }
}

#[via_fn]
proof fn spec_words_from_decreases(s: Seq<char>, i: int) {
    if 0 <= i <= s.len() {
        lemma_char_at_or_len_bounds(s, ' ', i);
    }
}

/// The rule of one field line: the ranges read from its last and
/// third-from-last words, present only when both read as ranges.
pub open spec fn spec_rule_of(s: Seq<char>) -> Option<Rule> {
    let w = spec_words_from(s, 0);
    if w.len() < 3 {
        None
    } else {
        let first = spec_range(w[w.len() - 1]);
        let second = spec_range(w[w.len() - 3]);
        if first is Some && second is Some {
            Some([second->Some_0, first->Some_0])
        } else {
            None
        }
    }
}

/// Splits a line into its space-separated words.
fn split_words(s: &str) -> (r: Vec<String>)
    ensures
        r@.map_values(|w: String| w@) == spec_words_from(s@, 0),
        r@.len() >= 1,
{
    let len = s.unicode_len();
    let mut out: Vec<String> = Vec::new();
    let mut i: usize = 0;
    loop
        invariant_except_break
            spec_words_from(s@, 0) == out@.map_values(|w: String| w@) + spec_words_from(
                s@,
                i as int,
            ),
        invariant
            len == s@.len(),
            i <= len,
        ensures
            spec_words_from(s@, 0) == out@.map_values(|w: String| w@),
            out@.len() >= 1,
        decreases len - i,
    {
        let e = find_char_from(s, i, ' ');
        let word = s.substring_char(i, e).to_owned();
        let ghost out0 = out@;
        out.push(word);
        if e >= len {
            proof {
                assert(spec_words_from(s@, i as int) == seq![s@.subrange(i as int, s@.len() as int)]);
                assert(out@.map_values(|w: String| w@) =~= out0.map_values(|w: String| w@) + seq![
                    s@.subrange(i as int, s@.len() as int),
                ]);
                assert(out0.map_values(|w: String| w@) + spec_words_from(s@, i as int)
                    =~= out@.map_values(|w: String| w@));
            }
            break ;
        }
        proof {
            assert(spec_words_from(s@, i as int) == seq![s@.subrange(i as int, e as int)]
                + spec_words_from(s@, e + 1));
            assert(out@.map_values(|w: String| w@) =~= out0.map_values(|w: String| w@) + seq![
                s@.subrange(i as int, e as int),
            ]);
            assert(out0.map_values(|w: String| w@) + spec_words_from(s@, i as int)
                =~= out@.map_values(|w: String| w@) + spec_words_from(s@, e + 1));
        }
        i = e + 1;
    }
    out
}

/// A line opens the `your ticket:` section.
pub open spec fn has_ticket_prefix(s: Seq<char>) -> bool {
    s.len() >= "your ticket:"@.len() && s.subrange(0, "your ticket:"@.len() as int)
        == "your ticket:"@
}

/// True when `p` is a prefix of `s`.
fn is_prefix(s: &str, p: &str) -> (r: bool)
    ensures
        r == (s@.len() >= p@.len() && s@.subrange(0, p@.len() as int) == p@),
{
    let n = s.unicode_len();
    let m = p.unicode_len();
    if n < m {
        return false;
    }
    for i in 0..m
        invariant
            n == s@.len(),
            m == p@.len(),
            m <= n,
            forall|j: int| 0 <= j < i ==> s@[j] == p@[j],
    {
        if s.get_char(i) != p.get_char(i) {
            proof {
                assert(s@.subrange(0, m as int)[i as int] != p@[i as int]);
            }
            return false;
        }
    }
    proof {
        assert(s@.subrange(0, m as int) =~= p@);
    }
    true
}

/// The index of the first line of the `your ticket:` section at or after
/// `i`, or the length.
pub open spec fn first_ticket_line(lv: Seq<Seq<char>>, i: int) -> int
    decreases lv.len() - i,
    when 0 <= i
{
    if i >= lv.len() {
        i
    } else if has_ticket_prefix(lv[i]) {
        i
    } else {
        first_ticket_line(lv, i + 1)
    }
}

/// The rules of the field lines `0..e`, in order; lines that read as no
/// rule are dropped.
pub open spec fn spec_rules(lv: Seq<Seq<char>>, e: int) -> Seq<Rule>
    decreases e,
    when e <= lv.len()
{
    if e <= 0 {
        Seq::empty()
    } else {
        spec_rules(lv, e - 1) + match spec_rule_of(lv[e - 1]) {
            Some(rule) => seq![rule],
            None => Seq::<Rule>::empty(),
        }
    }
}

/// Reads the field rules from the lines before the `your ticket:` header
/// and tells where reading stopped: the line after the header, when there
/// is one.
pub fn read_rules(lines: &Vec<String>) -> (r: (Vec<Rule>, usize))
    ensures
        ({
            let lv = lines_view(lines@);
            let e = first_ticket_line(lv, 0);
            &&& r.0@ == spec_rules(lv, e)
            &&& r.1 == if e < lv.len() {
                e + 1
            } else {
                e
            }
        }),
{
    let ghost lv = lines_view(lines@);
    let n = lines.len();
    let mut rules: Vec<Rule> = Vec::new();
    let mut pos: usize = 0;
    loop
        invariant
            lv == lines_view(lines@),
            n == lines@.len(),
            pos <= n,
            first_ticket_line(lv, 0) == first_ticket_line(lv, pos as int),
            forall|j: int| 0 <= j < pos ==> !has_ticket_prefix(#[trigger] lv[j]),
            rules@ == spec_rules(lv, pos as int),
        ensures
            pos as int == first_ticket_line(lv, 0),
            rules@ == spec_rules(lv, pos as int),
            pos <= n,
        decreases n - pos,
    {
        if pos >= n {
            break ;
        }
        proof {
            assert(lv[pos as int] == lines@[pos as int]@);
        }
        let line = lines[pos].as_str();
        if is_prefix(line, "your ticket:") {
            break ;
        }
        let ghost rules0 = rules@;
        match range_and_rule(line) {
            Some(rule) => rules.push(rule),
            None => {},
        }
        proof {
            assert(rules@ =~= spec_rules(lv, pos as int + 1));
        }
        pos = pos + 1;
    }
    let next = if pos < n {
        pos + 1
    } else {
        pos
    };
    (rules, next)
}

/// Reads one field line as its rule, when its last and third-from-last
/// words are ranges.
fn range_and_rule(line: &str) -> (r: Option<Rule>)
    ensures
        r == spec_rule_of(line@),
{
    let words = split_words(line);
    let ghost w = spec_words_from(line@, 0);
    let n = words.len();
    if n < 3 {
        return None;
    }
    proof {
        assert(w[n - 1] == words@[n - 1]@);
        assert(w[n - 3] == words@[n - 3]@);
    }
    let first = range_to_arr_tuple(words[n - 1].as_str());
    let second = range_to_arr_tuple(words[n - 3].as_str());
    match (first, second) {
        (Some(f), Some(s)) => Some([s, f]),
        _ => None,
    }
}

/// The first value of a ticket that no rule allows.
pub open spec fn spec_first_bad(t: Seq<u16>, rules: Seq<Rule>, j: int) -> Option<u16>
    decreases t.len() - j,
    when 0 <= j
{
    if j >= t.len() {
        None
    } else if !(exists|k: int| 0 <= k < rules.len() && spec_satisfies(t[j], #[trigger] rules[k])) {
        Some(t[j])
    } else {
        spec_first_bad(t, rules, j + 1)
    }
}

/// The tickets that hold a value no rule allows, each with its position
/// and its first such value.
pub open spec fn spec_bad_tickets(tv: Seq<Seq<u16>>, rules: Seq<Rule>, i: int) -> Seq<(usize, u16)>
    decreases tv.len() - i,
    when 0 <= i
{
    if i >= tv.len() {
        Seq::empty()
    } else {
        (match spec_first_bad(tv[i], rules, 0) {
            Some(v) => seq![(i as usize, v)],
            None => Seq::<(usize, u16)>::empty(),
        }) + spec_bad_tickets(tv, rules, i + 1)
    }
}

/// True when some rule allows the value.
fn any_rule_satisfied(v: u16, rules: &Vec<Rule>) -> (r: bool)
    ensures
        r == exists|k: int| 0 <= k < rules@.len() && spec_satisfies(v, #[trigger] rules@[k]),
{
    let n = rules.len();
    for k in 0..n
        invariant
            n == rules@.len(),
            forall|j: int| 0 <= j < k ==> !spec_satisfies(v, #[trigger] rules@[j]),
    {
        if satisfies_rule(v, &rules[k]) {
            return true;
        }
    }
    false
}

/// Lists the tickets that hold a value no rule allows: each ticket's
/// position and its first such value.
pub fn get_bad_tickets(tickets: &Vec<Vec<u16>>, rules: &Vec<Rule>) -> (r: Vec<(usize, u16)>)
    ensures
        r@ == spec_bad_tickets(
            tickets@.map_values(|t: Vec<u16>| t@),
            rules@,
            0,
        ),
{
    let ghost tv = tickets@.map_values(|t: Vec<u16>| t@);
    let n = tickets.len();
    let mut out: Vec<(usize, u16)> = Vec::new();
    for i in 0..n
        invariant
            tv == tickets@.map_values(|t: Vec<u16>| t@),
            n == tickets@.len(),
            spec_bad_tickets(tv, rules@, 0) == out@ + spec_bad_tickets(tv, rules@, i as int),
    {
        proof {
            assert(tv[i as int] == tickets@[i as int]@);
        }
        let ticket = &tickets[i];
        let m = ticket.len();
        let mut found: Option<u16> = None;
        let mut j: usize = 0;
        loop
            invariant_except_break
                found is None,
            invariant
                j <= m,
                m == ticket@.len(),
                ticket@ == tv[i as int],
                spec_first_bad(tv[i as int], rules@, 0) == spec_first_bad(
                    tv[i as int],
                    rules@,
                    j as int,
                ),
            ensures
                ticket@ == tv[i as int],
                found == spec_first_bad(tv[i as int], rules@, 0),
            decreases m - j,
        {
            if j >= m {
                break ;
            }
            if !any_rule_satisfied(ticket[j], rules) {
                found = Some(ticket[j]);
                proof {
                    assert(spec_first_bad(tv[i as int], rules@, j as int) == Some(
                        tv[i as int][j as int],
                    ));
                }
                break ;
            }
            j = j + 1;
        }
        let ghost out0 = out@;
        match found {
            Some(v) => out.push((i, v)),
            None => {},
        }
        proof {
            assert(spec_bad_tickets(tv, rules@, i as int) == (match spec_first_bad(
                tv[i as int],
                rules@,
                0,
            ) {
                Some(v) => seq![(i as usize, v)],
                None => Seq::<(usize, u16)>::empty(),
            }) + spec_bad_tickets(tv, rules@, i + 1));
            assert(out0 + spec_bad_tickets(tv, rules@, i as int) =~= out@ + spec_bad_tickets(
                tv,
                rules@,
                i + 1,
            ));
        }
    }
    proof {
        assert(spec_bad_tickets(tv, rules@, n as int) =~= Seq::<(usize, u16)>::empty());
        assert(out@ + Seq::<(usize, u16)>::empty() =~= out@);
    }
    out
}

} // verus!
