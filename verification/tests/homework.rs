use advent_puzzles::day_eighteen::solve;
use advent_puzzles::day_eighteen::to_tokens;
use advent_puzzles::day_eighteen::OperationPrecedence;
use advent_puzzles::day_eighteen::OperationType;
use advent_puzzles::day_eighteen::Token;

#[test]
fn should_tokenize_expressions() {
    assert_eq!(
        to_tokens("1 + (23 * 4)"),
        vec![
            Token::Number(1),
            Token::Operation(OperationType::Add),
            Token::LeftParen,
            Token::Number(23),
            Token::Operation(OperationType::Multiply),
            Token::Number(4),
            Token::RightParen,
        ]
    );
}

#[test]
fn should_evaluate_left_to_right() {
    let tokens = to_tokens("1 + 2 * 3 + 4 * 5 + 6");
    assert_eq!(solve(&tokens, OperationPrecedence::LeftToRight), Some(71));
    let tokens = to_tokens("2 * 3 + (4 * 5)");
    assert_eq!(solve(&tokens, OperationPrecedence::LeftToRight), Some(26));
    let tokens = to_tokens("1 + (2 * 3) + (4 * (5 + 6))");
    assert_eq!(solve(&tokens, OperationPrecedence::LeftToRight), Some(51));
}

#[test]
fn should_evaluate_addition_first() {
    let tokens = to_tokens("1 + 2 * 3 + 4 * 5 + 6");
    assert_eq!(solve(&tokens, OperationPrecedence::AddWins), Some(231));
    let tokens = to_tokens("2 * 3 + (4 * 5)");
    assert_eq!(solve(&tokens, OperationPrecedence::AddWins), Some(46));
    let tokens = to_tokens("5 + (8 * 3 + 9 + 3 * 4 * 3)");
    assert_eq!(solve(&tokens, OperationPrecedence::AddWins), Some(1445));
}

#[test]
fn should_give_nothing_for_an_empty_expression() {
    assert_eq!(solve(&to_tokens(""), OperationPrecedence::LeftToRight), None);
    assert_eq!(solve(&to_tokens("+"), OperationPrecedence::LeftToRight), None);
}
