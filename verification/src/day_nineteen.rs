//! Grammar rules compiled to a regular expression, and counting the
//! sentences the expression accepts.

use vstd::prelude::*;

use std::collections::HashMap;

use crate::file_util::char_at_or_len;
use crate::file_util::find_char_from;
use crate::file_util::spec_parse_usize;

verus! {

/// One production of the grammar: a literal character, a reference to
/// another rule, a concatenation, or an alternative.
#[derive(PartialEq, Eq, Debug)]
pub enum ProductionRule {
    TerminalSymbol(char),
    Reference(usize),
    And(Box<ProductionRule>, Box<ProductionRule>),
    Or(Box<ProductionRule>, Box<ProductionRule>),
}

/// The regular-expression text of a production: terminals stand for
/// themselves, references are expanded through the rule map, and an
/// alternative becomes a parenthesised choice. Expansion spends one unit
/// of fuel per reference, so a cyclic grammar runs out and yields nothing.
pub open spec fn spec_expand(
    r: ProductionRule,
    rules: Map<usize, ProductionRule>,
    fuel: nat,
) -> Option<Seq<char>>
    decreases fuel, r,
{
    match r {
        ProductionRule::TerminalSymbol(c) => Some(seq![c]),
        ProductionRule::Reference(x) => {
            if fuel == 0 {
                None
            } else if !rules.contains_key(x) {
                None
            } else {
                spec_expand(rules[x], rules, (fuel - 1) as nat)
            }
        },
        ProductionRule::And(a, b) => {
            match (spec_expand(*a, rules, fuel), spec_expand(*b, rules, fuel)) {
                (Some(ea), Some(eb)) => Some(ea + eb),
                _ => None,
            }
        },
        ProductionRule::Or(a, b) => {
            match (spec_expand(*a, rules, fuel), spec_expand(*b, rules, fuel)) {
                (Some(ea), Some(eb)) => Some(seq!['('] + ea + seq!['|'] + eb + seq![')']),
                _ => None,
            }
        },
    }
}

impl ProductionRule {
    /// Appends this production's regular-expression text to the buffer,
    /// expanding references through the rule map. Returns false when the
    /// fuel runs out or a referenced rule is missing; the original grammar
    /// expands references without bound, so a cyclic grammar would never
    /// finish, and the fuel puts a chosen depth on it.
    pub fn expand(
        &self,
        buffer: &mut String,
        rules: &HashMap<usize, ProductionRule>,
        fuel: u32,
    ) -> (r: bool)
        ensures
            match spec_expand(*self, rules@, fuel as nat) {
                Some(text) => r && final(buffer)@ == old(buffer)@ + text,
                None => !r,
            },
        decreases fuel, *self,
    {
        match self {
            ProductionRule::TerminalSymbol(c) => {
                push_char(buffer, *c);
                true
            },
            ProductionRule::Reference(x) => {
                if fuel == 0 {
                    return false;
                }
                match rules.get(x) {
                    None => false,
                    Some(rule) => rule.expand(buffer, rules, fuel - 1),
                }
            },
            ProductionRule::And(a, b) => {
                if !a.expand(buffer, rules, fuel) {
                    return false;
                }
                let r2 = b.expand(buffer, rules, fuel);
                proof {
                    let sa = spec_expand(**a, rules@, fuel as nat);
                    let sb = spec_expand(**b, rules@, fuel as nat);
                    if sa is Some && sb is Some {
                        assert(buffer@ =~= old(buffer)@ + (sa->Some_0 + sb->Some_0));
                    }
                }
                r2
            },
            ProductionRule::Or(a, b) => {
                proof {
                    reveal_strlit("(");
                    reveal_strlit("|");
                    reveal_strlit(")");
                }
                buffer.append("(");
                if !a.expand(buffer, rules, fuel) {
                    return false;
                }
                buffer.append("|");
                if !b.expand(buffer, rules, fuel) {
                    return false;
                }
                buffer.append(")");
                proof {
                    let sa = spec_expand(**a, rules@, fuel as nat);
                    let sb = spec_expand(**b, rules@, fuel as nat);
                    if sa is Some && sb is Some {
                        assert("("@ =~= seq!['(']);
                        assert("|"@ =~= seq!['|']);
                        assert(")"@ =~= seq![')']);
                        assert(buffer@ =~= old(buffer)@ + (seq!['('] + sa->Some_0 + seq!['|']
                            + sb->Some_0 + seq![')']));
                    }
                }
                true
            },
        }
    }
}

/// The regular expression of the whole grammar: rule zero expanded, when
/// the grammar has a rule zero and expands within the fuel.
pub open spec fn spec_grammar_regex(rules: Map<usize, ProductionRule>, fuel: nat) -> Option<
    Seq<char>,
> {
    if !rules.contains_key(0) {
        None
    } else {
        spec_expand(rules[0], rules, fuel)
    }
}

/// Expands rule zero of the grammar to its regular-expression text, when
/// the grammar has one and it expands within the fuel.
pub fn convert_grammar_rules_to_regex(rules: &HashMap<usize, ProductionRule>, fuel: u32) -> (r:
    Option<String>)
    ensures
        match spec_grammar_regex(rules@, fuel as nat) {
            Some(text) => r matches Some(s) && s@ == text,
            None => r is None,
        },
{
    let start = match rules.get(&0) {
        None => {
            return None;
        },
        Some(rule) => rule,
    };
    let mut result = String::new();
    if start.expand(&mut result, rules, fuel) {
        proof {
            assert(Seq::<char>::empty() + spec_expand(rules@[0], rules@, fuel as nat)->Some_0
                =~= spec_expand(rules@[0], rules@, fuel as nat)->Some_0);
        }
        Some(result)
    } else {
        None
    }
}

/// The rule numbers of a space-separated production body from position
/// `i` on; tokens that are not plain numbers are dropped.
pub open spec fn spec_refs_from(s: Seq<char>, i: int) -> Seq<usize>
    decreases s.len() - i,
    when 0 <= i
    via spec_refs_from_decreases
{
    if i > s.len() {
        Seq::empty()
    } else {
        let e = char_at_or_len(s, ' ', i);
        let head = match spec_parse_usize(s.subrange(i, e)) {
            Some(v) => seq![v],
            None => Seq::<usize>::empty(),
        };
        if e >= s.len() {
            head
        } else {
            head + spec_refs_from(s, e + 1)
        }
    }
}

#[via_fn]
proof fn spec_refs_from_decreases(s: Seq<char>, i: int) {
    if 0 <= i <= s.len() {
        crate::file_util::lemma_char_at_or_len_bounds(s, ' ', i);
    }
}

/// A chain of references concatenated left to right.
pub open spec fn and_chain(refs: Seq<usize>) -> ProductionRule
    decreases refs.len(),
{
    if refs.len() <= 1 {
        ProductionRule::Reference(refs[0])
    } else {
        ProductionRule::And(
            Box::new(and_chain(refs.drop_last())),
            Box::new(ProductionRule::Reference(refs.last())),
        )
    }
}

/// A chain of alternatives nested to the right.
pub open spec fn or_chain(subs: Seq<ProductionRule>) -> ProductionRule
    decreases subs.len(),
{
    if subs.len() <= 1 {
        subs[0]
    } else {
        ProductionRule::Or(Box::new(subs[0]), Box::new(or_chain(subs.drop_first())))
    }
}

/// The productions of the alternatives of a rule body from position `i`
/// on: each `|`-separated alternative with at least one number becomes a
/// concatenation chain.
pub open spec fn spec_subrules_from(s: Seq<char>, i: int) -> Seq<ProductionRule>
    decreases s.len() - i,
    when 0 <= i
    via spec_subrules_from_decreases
{
    if i > s.len() {
        Seq::empty()
    } else {
        let e = char_at_or_len(s, '|', i);
        let refs = spec_refs_from(s.subrange(i, e), 0);
        let head: Seq<ProductionRule> = if refs.len() > 0 {
            seq![and_chain(refs)]
        } else {
            Seq::empty()
        };
        if e >= s.len() {
            head
        } else {
            head + spec_subrules_from(s, e + 1)
        }
    }
}

#[via_fn]
proof fn spec_subrules_from_decreases(s: Seq<char>, i: int) {
    if 0 <= i <= s.len() {
        crate::file_util::lemma_char_at_or_len_bounds(s, '|', i);
    }
}

/// The numbered production of one grammar line, when the line has one: a
/// rule number before the first colon, then either a quoted terminal
/// character or alternatives of reference chains.
pub open spec fn spec_line_rule(s: Seq<char>) -> Option<(usize, ProductionRule)> {
    let d = char_at_or_len(s, ':', 0);
    if d >= s.len() {
        None
    } else {
        match spec_parse_usize(s.subrange(0, d)) {
            None => None,
            Some(num) => {
                let rest = s.subrange(d + 1, s.len() as int);
                let q = char_at_or_len(rest, '"', 0);
                if q < rest.len() {
                    if q + 1 < rest.len() {
                        Some((num, ProductionRule::TerminalSymbol(rest[q + 1])))
                    } else {
                        None
                    }
                } else {
                    let subs = spec_subrules_from(rest, 0);
                    if subs.len() > 0 {
                        Some((num, or_chain(subs)))
                    } else {
                        None
                    }
                }
            },
        }
    }
}

/// The grammar of the first `k` lines: each line with a production, in
/// order, with a repeated rule number keeping its last production.
pub open spec fn spec_grammar(lv: Seq<Seq<char>>, k: int) -> Map<usize, ProductionRule>
    decreases k,
    when 0 <= k
{
    if k <= 0 {
        Map::empty()
    } else {
        match spec_line_rule(lv[k - 1]) {
            Some(t) => spec_grammar(lv, k - 1).insert(t.0, t.1),
            None => spec_grammar(lv, k - 1),
        }
    }
}

/// Reads the rule numbers out of one alternative.
fn parse_refs(s: &str) -> (r: Vec<usize>)
    ensures
        r@ == spec_refs_from(s@, 0),
{
    let len = s.unicode_len();
    let mut out: Vec<usize> = Vec::new();
    let mut i: usize = 0;
    loop
        invariant_except_break
            spec_refs_from(s@, 0) == out@ + spec_refs_from(s@, i as int),
        invariant
            len == s@.len(),
            i <= len,
        ensures
            spec_refs_from(s@, 0) == out@,
        decreases len - i,
    {
        let e = find_char_from(s, i, ' ');
        let ghost out0 = out@;
        let ghost head = match spec_parse_usize(s@.subrange(i as int, e as int)) {
            Some(v) => seq![v],
            None => Seq::<usize>::empty(),
        };
        match crate::file_util::parse_usize(s.substring_char(i, e)) {
            Some(v) => out.push(v),
            None => {},
        }
        proof {
            assert(out@ =~= out0 + head);
        }
        if e >= len {
            proof {
                assert(spec_refs_from(s@, i as int) == head);
                assert(out0 + head =~= out@);
            }
            break ;
        }
        proof {
            assert(spec_refs_from(s@, i as int) == head + spec_refs_from(s@, e as int + 1));
            assert(out0 + (head + spec_refs_from(s@, e + 1)) =~= out@ + spec_refs_from(
                s@,
                e + 1,
            ));
        }
        i = e + 1;
    }
    out
}

/// Builds the concatenation chain of one alternative's rule numbers.
fn build_and_chain(refs: &Vec<usize>) -> (r: ProductionRule)
    requires
        refs@.len() > 0,
    ensures
        r == and_chain(refs@),
{
    let mut rule = ProductionRule::Reference(refs[0]);
    let n = refs.len();
    proof {
        assert(refs@.take(1) =~= seq![refs@[0]]);
    }
    for j in 1..n
        invariant
            n == refs@.len(),
            n > 0,
            rule == and_chain(refs@.take(j as int)),
    {
        proof {
            assert(refs@.take(j + 1).drop_last() =~= refs@.take(j as int));
            assert(refs@.take(j + 1).last() == refs@[j as int]);
        }
        rule = ProductionRule::And(
            Box::new(rule),
            Box::new(ProductionRule::Reference(refs[j])),
        );
    }
    proof {
        assert(refs@.take(n as int) =~= refs@);
    }
    rule
}

/// Builds the right-nested chain of a body's alternatives, consuming them
/// from the end.
fn build_or_chain(subs: Vec<ProductionRule>) -> (r: ProductionRule)
    requires
        subs@.len() > 0,
    ensures
        r == or_chain(subs@),
{
    let ghost orig = subs@;
    let mut rest = subs;
    let mut acc = match rest.pop() {
        Some(last) => last,
        None => {
            proof {
                assert(false);
            }
            ProductionRule::Reference(0)
        },
    };
    proof {
        assert(orig.skip(orig.len() - 1) =~= seq![orig.last()]);
    }
    loop
        invariant
            rest@ == orig.take(rest@.len() as int),
            rest@.len() < orig.len(),
            acc == or_chain(orig.skip(rest@.len() as int)),
        ensures
            acc == or_chain(orig),
        decreases rest@.len(),
    {
        let m = rest.len();
        if m == 0 {
            proof {
                assert(orig.skip(0) =~= orig);
            }
            break ;
        }
        let prev = match rest.pop() {
            Some(p) => p,
            None => {
                proof {
                    assert(false);
                }
                ProductionRule::Reference(0)
            },
        };
        proof {
            assert(prev == orig[m - 1]);
            assert(rest@ =~= orig.take(m - 1));
            let tail = orig.skip(m as int);
            assert(orig.skip(m - 1)[0] == orig[m - 1]);
            assert(orig.skip(m - 1).drop_first() =~= tail);
            assert(orig.skip(m - 1).len() >= 2);
        }
        acc = ProductionRule::Or(Box::new(prev), Box::new(acc));
    }
    acc
}

/// Reads the grammar lines into their numbered productions; lines without
/// a readable production are dropped, and a repeated rule number keeps its
/// last production.
pub fn parse_grammar_into_rules(lines: &Vec<String>) -> (r: HashMap<usize, ProductionRule>)
    ensures
        r@ == spec_grammar(crate::file_util::lines_view(lines@), lines@.len() as int),
{
    let ghost lv = crate::file_util::lines_view(lines@);
    let mut rules: HashMap<usize, ProductionRule> = HashMap::new();
    let n = lines.len();
    for k in 0..n
        invariant
            lv == crate::file_util::lines_view(lines@),
            n == lines@.len(),
            rules@ == spec_grammar(lv, k as int),
    {
        proof {
            assert(lv[k as int] == lines@[k as int]@);
        }
        let line = lines[k].as_str();
        let len = line.unicode_len();
        let d = find_char_from(line, 0, ':');
        if d < len {
            let num = crate::file_util::parse_usize(line.substring_char(0, d));
            if let Some(num) = num {
                let rest = line.substring_char(d + 1, len);
                let rest_len = rest.unicode_len();
                let q = find_char_from(rest, 0, '"');
                if q < rest_len {
                    if q + 1 < rest_len {
                        let c = rest.get_char(q + 1);
                        rules.insert(num, ProductionRule::TerminalSymbol(c));
                    }
                } else {
                    let mut subs: Vec<ProductionRule> = Vec::new();
                    let mut i: usize = 0;
                    loop
                        invariant_except_break
                            spec_subrules_from(rest@, 0) == subs@ + spec_subrules_from(
                                rest@,
                                i as int,
                            ),
                        invariant
                            rest_len == rest@.len(),
                            i <= rest_len,
                        ensures
                            spec_subrules_from(rest@, 0) == subs@,
                        decreases rest_len - i,
                    {
                        let e = find_char_from(rest, i, '|');
                        let seg = rest.substring_char(i, e);
                        let refs = parse_refs(seg);
                        let ghost subs0 = subs@;
                        let ghost head: Seq<ProductionRule> = if spec_refs_from(
                            rest@.subrange(i as int, e as int),
                            0,
                        ).len() > 0 {
                            seq![and_chain(spec_refs_from(rest@.subrange(i as int, e as int), 0))]
                        } else {
                            Seq::empty()
                        };
                        if refs.len() > 0 {
                            let chain = build_and_chain(&refs);
                            subs.push(chain);
                        }
                        proof {
                            assert(subs@ =~= subs0 + head);
                        }
                        if e >= rest_len {
                            proof {
                                assert(spec_subrules_from(rest@, i as int) == head);
                                assert(subs0 + head =~= subs@);
                            }
                            break ;
                        }
                        proof {
                            assert(spec_subrules_from(rest@, i as int) == head
                                + spec_subrules_from(rest@, e as int + 1));
                            assert(subs0 + (head + spec_subrules_from(rest@, e + 1)) =~= subs@
                                + spec_subrules_from(rest@, e + 1));
                        }
                        i = e + 1;
                    }
                    if subs.len() > 0 {
                        let rule = build_or_chain(subs);
                        rules.insert(num, rule);
                    }
                }
            }
        }
        proof {
            assert(rules@ =~= spec_grammar(lv, k + 1));
        }
    }
    rules
}

/// Relies on std's `String::push`: it appends exactly the one character.
#[verifier::external_body]
fn push_char(s: &mut String, c: char)
    ensures
        final(s)@ == old(s)@ + seq![c],
{
    s.push(c);
}

/// Whether a pattern is a well-formed regular expression: what the regex
/// crate's parser accepts.
pub uninterp spec fn regex_valid(pattern: Seq<char>) -> bool;

/// Whether the regular expression `pattern` matches somewhere in `text`.
pub uninterp spec fn regex_accepts(pattern: Seq<char>, text: Seq<char>) -> bool;

/// Relies on the regex crate: `Regex::new` compiles exactly the
/// well-formed patterns, and `Regex::is_match` of the compiled pattern
/// depends on the pattern and the text alone.
#[verifier::external_body]
fn regex_is_match(pattern: &str, text: &str) -> (r: Option<bool>)
    ensures
        r is Some <==> regex_valid(pattern@),
        r matches Some(b) ==> b == regex_accepts(pattern@, text@),
{
    regex::Regex::new(pattern).ok().map(|re| re.is_match(text))
}

/// The pattern anchored to whole lines.
pub open spec fn anchored(pattern: Seq<char>) -> Seq<char> {
    seq!['^'] + pattern + seq!['$']
}

/// The number of sentences that the anchored pattern matches whole.
pub open spec fn spec_match_count(pattern: Seq<char>, sentences: Seq<Seq<char>>) -> int
    decreases sentences.len(),
{
    if sentences.len() == 0 {
        0
    } else {
        spec_match_count(pattern, sentences.drop_last()) + if regex_accepts(
            anchored(pattern),
            sentences.last(),
        ) {
            1int
        } else {
            0int
        }
    }
}

/// Counts the sentences that the pattern, anchored to whole lines,
/// matches; nothing is counted when the pattern is not a well-formed
/// regular expression.
pub fn count_matching_sentences(pattern: &str, sentences: &Vec<String>) -> (r: Option<usize>)
    ensures
        r is Some <==> regex_valid(anchored(pattern@)),
        r matches Some(c) ==> c == spec_match_count(
            pattern@,
            sentences@.map_values(|s: String| s@),
        ),
{
    let anchored_pattern = "^".to_owned().concat(pattern).concat("$");
    proof {
        assert(anchored_pattern@ =~= anchored(pattern@)) by {
            reveal_strlit("^");
            reveal_strlit("$");
        }
    }
    match regex_is_match(anchored_pattern.as_str(), "") {
        None => {
            return None;
        },
        Some(_) => {},
    }
    let ghost sv = sentences@.map_values(|s: String| s@);
    let n = sentences.len();
    let mut count: usize = 0;
    for k in 0..n
        invariant
            n == sentences@.len(),
            sv == sentences@.map_values(|s: String| s@),
            anchored_pattern@ == anchored(pattern@),
            regex_valid(anchored(pattern@)),
            count == spec_match_count(pattern@, sv.take(k as int)),
            count <= k,
    {
        proof {
            assert(sv.take(k + 1).drop_last() =~= sv.take(k as int));
            assert(sv.take(k + 1).last() == sv[k as int]);
            assert(sv[k as int] == sentences@[k as int]@);
        }
        match regex_is_match(anchored_pattern.as_str(), sentences[k].as_str()) {
            Some(true) => {
                count = count + 1;
            },
            Some(false) => {},
            None => {
                proof {
                    assert(false);
                }
            },
        }
    }
    proof {
        assert(sv.take(n as int) =~= sv);
    }
    Some(count)
}

} // verus!
