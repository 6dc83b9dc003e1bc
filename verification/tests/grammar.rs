use advent_puzzles::day_nineteen::convert_grammar_rules_to_regex;
use advent_puzzles::day_nineteen::count_matching_sentences;
use advent_puzzles::day_nineteen::parse_grammar_into_rules;
use advent_puzzles::day_nineteen::ProductionRule;

#[test]
fn should_recognise_valid_strings() {
    let rule_lines = vec![
        String::from("0: 4 1 5"),
        String::from("1: 2 3 | 3 2"),
        String::from("2: 4 4 | 5 5"),
        String::from("3: 4 5 | 5 4"),
        String::from("4: \"a\""),
        String::from("5: \"b\""),
    ];
    let sentences = vec![
        String::from("ababbb"),
        String::from("bababa"),
        String::from("abbbab"),
        String::from("aaabbb"),
        String::from("aaaabbb"),
    ];
    let grammar_rules = parse_grammar_into_rules(&rule_lines);
    let regex = convert_grammar_rules_to_regex(&grammar_rules, 100).unwrap();
    let matching_sentences = count_matching_sentences(regex.as_str(), &sentences).unwrap();
    assert_eq!(matching_sentences, 2);
}

#[test]
fn should_parse_terminals_and_alternatives() {
    let grammar = parse_grammar_into_rules(&vec![
        String::from("7: \"x\""),
        String::from("2: 7 7"),
        String::from("5: 2 | 7"),
        String::from("nonsense"),
    ]);
    assert_eq!(grammar.len(), 3);
    assert_eq!(grammar.get(&7), Some(&ProductionRule::TerminalSymbol('x')));
    assert_eq!(
        grammar.get(&2),
        Some(&ProductionRule::And(
            Box::new(ProductionRule::Reference(7)),
            Box::new(ProductionRule::Reference(7))
        ))
    );
    assert_eq!(
        grammar.get(&5),
        Some(&ProductionRule::Or(
            Box::new(ProductionRule::Reference(2)),
            Box::new(ProductionRule::Reference(7))
        ))
    );
}

#[test]
fn should_reject_a_broken_pattern() {
    assert_eq!(count_matching_sentences("(unclosed", &vec![]), None);
}

#[test]
fn should_count_whole_line_matches_only() {
    let sentences = vec![String::from("ab"), String::from("abc"), String::from("ab ab")];
    assert_eq!(count_matching_sentences("ab", &sentences), Some(1));
}
