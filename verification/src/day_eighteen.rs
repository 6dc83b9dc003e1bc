//! Homework arithmetic without the usual precedence: expressions evaluated
//! left to right, or with addition binding tighter, via a postfix rewrite.

use vstd::prelude::*;

use crate::file_util::spec_parse_usize;

verus! {

/// The two operators of the homework expressions.
#[derive(Clone, Copy, PartialEq, Eq, Structural, Debug)]
pub enum OperationType {
    Multiply,
    Add,
}

/// One token of an expression line.
#[derive(Clone, Copy, PartialEq, Eq, Structural, Debug)]
pub enum Token {
    LeftParen,
    RightParen,
    Operation(OperationType),
    Number(usize),
}

/// Which operator binds tighter: none (strict left-to-right), or addition.
#[derive(Clone, Copy, PartialEq, Eq, Structural, Debug)]
pub enum OperationPrecedence {
    LeftToRight,
    AddWins,
}

/// What an operator yields on two operands.
pub open spec fn spec_apply(op: OperationType, first: int, second: int) -> int {
    match op {
        OperationType::Multiply => first * second,
        OperationType::Add => first + second,
    }
}

impl OperationType {
    /// Applies this operator to the two operands.
    pub fn apply(&self, first: usize, second: usize) -> (r: usize)
        requires
            spec_apply(*self, first as int, second as int) <= usize::MAX,
        ensures
            r as int == spec_apply(*self, first as int, second as int),
    {
        match self {
            OperationType::Multiply => first * second,
            OperationType::Add => first + second,
        }
    }
}

/// The index of the first non-digit character at or after `i`, or the
/// length.
pub open spec fn digit_run_end(s: Seq<char>, i: int) -> int
    decreases s.len() - i,
    when 0 <= i
{
    if i >= s.len() {
        i
    } else if !(48 <= (s[i]) as u32 <= 57) {
        i
    } else {
        digit_run_end(s, i + 1)
    }
}

/// A digit scan never moves backwards and stops by the end.
proof fn lemma_digit_run_end_bounds(s: Seq<char>, i: int)
    requires
        0 <= i,
    ensures
        i <= digit_run_end(s, i),
        i < s.len() ==> digit_run_end(s, i) <= s.len(),
        i >= s.len() ==> digit_run_end(s, i) == i,
    decreases s.len() - i,
{
    if i < s.len() && 48 <= (s[i]) as u32 <= 57 {
        lemma_digit_run_end_bounds(s, i + 1);
    }
}

/// The tokens of an expression line from position `i` on: parentheses and
/// operators stand alone; a digit, or a space directly before digits,
/// starts a number; a number that does not fit, and any other character,
/// is passed over.
pub open spec fn spec_tokens(s: Seq<char>, i: int) -> Seq<Token>
    decreases s.len() - i,
    when 0 <= i
    via spec_tokens_decreases
{
    if i >= s.len() {
        Seq::empty()
    } else if s[i] == '(' {
        seq![Token::LeftParen] + spec_tokens(s, i + 1)
    } else if s[i] == ')' {
        seq![Token::RightParen] + spec_tokens(s, i + 1)
    } else if s[i] == '+' {
        seq![Token::Operation(OperationType::Add)] + spec_tokens(s, i + 1)
    } else if s[i] == '*' {
        seq![Token::Operation(OperationType::Multiply)] + spec_tokens(s, i + 1)
    } else {
        let e = digit_run_end(s, i + 1);
        let digits = if 48 <= (s[i]) as u32 <= 57 {
            s.subrange(i, e)
        } else if s[i] == ' ' {
            s.subrange(i + 1, e)
        } else {
            Seq::empty()
        };
        let head: Seq<Token> = match spec_parse_usize(digits) {
            Some(v) => seq![Token::Number(v)],
            None => Seq::empty(),
        };
        head + spec_tokens(s, e)
    }
}

#[via_fn]
proof fn spec_tokens_decreases(s: Seq<char>, i: int) {
    if 0 <= i < s.len() {
        lemma_digit_run_end_bounds(s, i + 1);
    }
}

/// The index of the first non-digit character at or after `from`.
fn digit_run_end_from(s: &str, from: usize) -> (r: usize)
    requires
        from <= s@.len(),
    ensures
        r == digit_run_end(s@, from as int),
        from <= r <= s@.len(),
{
    let n = s.unicode_len();
    let mut i = from;
    loop
        invariant
            from <= i <= n,
            n == s@.len(),
            digit_run_end(s@, from as int) == digit_run_end(s@, i as int),
        ensures
            from <= i <= n,
            digit_run_end(s@, from as int) == i as int,
        decreases n - i,
    {
        if i >= n {
            break ;
        }
        let b = s.get_char(i) as u32;
        if !(48 <= b && b <= 57) {
            break ;
        }
        i = i + 1;
    }
    i
}

/// Splits an expression line into its tokens.
pub fn to_tokens(s: &str) -> (r: Vec<Token>)
    ensures
        r@ == spec_tokens(s@, 0),
{
    let n = s.unicode_len();
    let mut out: Vec<Token> = Vec::new();
    let mut i: usize = 0;
    loop
        invariant_except_break
            spec_tokens(s@, 0) == out@ + spec_tokens(s@, i as int),
        invariant
            n == s@.len(),
            i <= n,
        ensures
            spec_tokens(s@, 0) == out@,
        decreases n - i,
    {
        if i >= n {
            proof {
                assert(spec_tokens(s@, i as int) =~= Seq::<Token>::empty());
                assert(out@ + Seq::<Token>::empty() =~= out@);
            }
            break ;
        }
        let c = s.get_char(i);
        let ghost out0 = out@;
        if c == '(' {
            out.push(Token::LeftParen);
            proof {
                assert(out0 + (seq![Token::LeftParen] + spec_tokens(s@, i + 1)) =~= out@
                    + spec_tokens(s@, i + 1));
            }
            i = i + 1;
        } else if c == ')' {
            out.push(Token::RightParen);
            proof {
                assert(out0 + (seq![Token::RightParen] + spec_tokens(s@, i + 1)) =~= out@
                    + spec_tokens(s@, i + 1));
            }
            i = i + 1;
        } else if c == '+' {
            out.push(Token::Operation(OperationType::Add));
            proof {
                assert(out0 + (seq![Token::Operation(OperationType::Add)] + spec_tokens(
                    s@,
                    i + 1,
                )) =~= out@ + spec_tokens(s@, i + 1));
            }
            i = i + 1;
        } else if c == '*' {
            out.push(Token::Operation(OperationType::Multiply));
            proof {
                assert(out0 + (seq![Token::Operation(OperationType::Multiply)] + spec_tokens(
                    s@,
                    i + 1,
                )) =~= out@ + spec_tokens(s@, i + 1));
            }
            i = i + 1;
        } else {
            let e = digit_run_end_from(s, i + 1);
            let b = c as u32;
            let digits = if 48 <= b && b <= 57 {
                s.substring_char(i, e)
            } else if c == ' ' {
                s.substring_char(i + 1, e)
            } else {
                s.substring_char(i, i)
            };
            let ghost head: Seq<Token> = match spec_parse_usize(digits@) {
                Some(v) => seq![Token::Number(v)],
                None => Seq::empty(),
            };
            proof {
                if !(48 <= b && b <= 57) && c != ' ' {
                    assert(digits@ =~= Seq::<char>::empty());
                }
            }
            match crate::file_util::parse_usize(digits) {
                Some(v) => out.push(Token::Number(v)),
                None => {},
            }
            proof {
                assert(out@ =~= out0 + head);
                assert(out0 + (head + spec_tokens(s@, e as int)) =~= out@ + spec_tokens(
                    s@,
                    e as int,
                ));
            }
            i = e;
        }
    }
    out
}

/// Pops the operator stack into the postfix text down to the matching
/// opening parenthesis, which is discarded; an unmatched closing
/// parenthesis empties the stack.
pub open spec fn pop_for_rparen(stack: Seq<Token>, post: Seq<Token>) -> (Seq<Token>, Seq<Token>)
    decreases stack.len(),
{
    if stack.len() == 0 {
        (stack, post)
    } else if stack.last() == Token::LeftParen {
        (stack.drop_last(), post)
    } else {
        pop_for_rparen(stack.drop_last(), post.push(stack.last()))
    }
}

/// Pops waiting operators into the postfix text before a new operator
/// goes on the stack; under add-first precedence an addition stops at a
/// waiting multiplication.
pub open spec fn pop_for_op(
    stack: Seq<Token>,
    post: Seq<Token>,
    precedence: OperationPrecedence,
    op: OperationType,
) -> (Seq<Token>, Seq<Token>)
    decreases stack.len(),
{
    if stack.len() == 0 {
        (stack, post)
    } else {
        match stack.last() {
            Token::Operation(prev) => {
                if precedence == OperationPrecedence::AddWins && op == OperationType::Add && prev
                    != OperationType::Add {
                    (stack, post)
                } else {
                    pop_for_op(stack.drop_last(), post.push(stack.last()), precedence, op)
                }
            },
            _ => (stack, post),
        }
    }
}

/// One token of the postfix rewrite: numbers go to the text, parentheses
/// and operators go through the stack.
pub open spec fn shunt_step(
    st: (Seq<Token>, Seq<Token>),
    t: Token,
    precedence: OperationPrecedence,
) -> (Seq<Token>, Seq<Token>) {
    match t {
        Token::Number(_) => (st.0, st.1.push(t)),
        Token::LeftParen => (st.0.push(t), st.1),
        Token::RightParen => pop_for_rparen(st.0, st.1),
        Token::Operation(op) => {
            let p = pop_for_op(st.0, st.1, precedence, op);
            (p.0.push(t), p.1)
        },
    }
}

/// The stack and postfix text after the first `k` tokens.
pub open spec fn shunt(tokens: Seq<Token>, k: int, precedence: OperationPrecedence) -> (
    Seq<Token>,
    Seq<Token>,
)
    decreases k,
    when 0 <= k
{
    if k <= 0 {
        (Seq::empty(), Seq::empty())
    } else {
        shunt_step(shunt(tokens, k - 1, precedence), tokens[k - 1], precedence)
    }
}

/// The postfix text after draining what waits on the stack.
pub open spec fn drain(stack: Seq<Token>, post: Seq<Token>) -> Seq<Token>
    decreases stack.len(),
{
    if stack.len() == 0 {
        post
    } else {
        drain(stack.drop_last(), post.push(stack.last()))
    }
}

/// The whole postfix rewrite of the token list.
pub open spec fn spec_postfix(tokens: Seq<Token>, precedence: OperationPrecedence) -> Seq<Token> {
    let st = shunt(tokens, tokens.len() as int, precedence);
    drain(st.0, st.1)
}

/// One token of the postfix evaluation: a number is kept, an operator
/// takes the two newest numbers and keeps their result, and a malformed
/// text loses what an operator cannot use.
pub open spec fn eval_step(buff: Seq<Token>, t: Token) -> Seq<Token> {
    match t {
        Token::Operation(op) => {
            if buff.len() == 0 {
                buff
            } else {
                match buff.last() {
                    Token::Number(last) => {
                        let b2 = buff.drop_last();
                        if b2.len() == 0 {
                            b2
                        } else {
                            match b2.last() {
                                Token::Number(second) => b2.drop_last().push(
                                    Token::Number(
                                        spec_apply(op, second as int, last as int) as usize,
                                    ),
                                ),
                                _ => b2.drop_last(),
                            }
                        }
                    },
                    _ => buff.drop_last(),
                }
            }
        },
        _ => buff.push(t),
    }
}

/// The evaluation buffer after the first `k` postfix tokens.
pub open spec fn eval(post: Seq<Token>, k: int) -> Seq<Token>
    decreases k,
    when 0 <= k
{
    if k <= 0 {
        Seq::empty()
    } else {
        eval_step(eval(post, k - 1), post[k - 1])
    }
}

/// Every operator application along the evaluation fits the result type.
pub open spec fn eval_fits(post: Seq<Token>, k: int) -> bool
    decreases k,
    when 0 <= k
{
    if k <= 0 {
        true
    } else {
        eval_fits(post, k - 1) && match post[k - 1] {
            Token::Operation(op) => {
                let buff = eval(post, k - 1);
                if buff.len() >= 2 && buff.last() is Number && buff.drop_last().last()
                    is Number {
                    spec_apply(
                        op,
                        buff.drop_last().last()->Number_0 as int,
                        buff.last()->Number_0 as int,
                    ) <= usize::MAX
                } else {
                    true
                }
            },
            _ => true,
        }
    }
}

/// The value of the expression: the newest number left after evaluating
/// the postfix rewrite, when one is.
pub open spec fn spec_solve(tokens: Seq<Token>, precedence: OperationPrecedence) -> Option<usize> {
    let post = spec_postfix(tokens, precedence);
    let buff = eval(post, post.len() as int);
    if buff.len() > 0 && buff.last() is Number {
        Some(buff.last()->Number_0)
    } else {
        None
    }
}

/// Evaluates the token list under the given precedence: the tokens are
/// rewritten to postfix over an operator stack and the postfix text is
/// then folded over a number buffer.
pub fn solve(tokens: &[Token], precedence: OperationPrecedence) -> (r: Option<usize>)
    requires
        eval_fits(
            spec_postfix(tokens@, precedence),
            spec_postfix(tokens@, precedence).len() as int,
        ),
    ensures
        r == spec_solve(tokens@, precedence),
{
    let n = tokens.len();
    let mut stack: Vec<Token> = Vec::new();
    let mut post_fix: Vec<Token> = Vec::new();
    for k in 0..n
        invariant
            n == tokens@.len(),
            (stack@, post_fix@) == shunt(tokens@, k as int, precedence),
    {
        let token = tokens[k];
        match token {
            Token::Number(_) => {
                post_fix.push(token);
            },
            Token::LeftParen => {
                stack.push(token);
            },
            Token::RightParen => {
                loop
                    invariant_except_break
                        pop_for_rparen(stack@, post_fix@) == pop_for_rparen(
                            shunt(tokens@, k as int, precedence).0,
                            shunt(tokens@, k as int, precedence).1,
                        ),
                    ensures
                        (stack@, post_fix@) == pop_for_rparen(
                            shunt(tokens@, k as int, precedence).0,
                            shunt(tokens@, k as int, precedence).1,
                        ),
                    decreases stack@.len(),
                {
                    let ghost s_pre = stack@;
                    let ghost p_pre = post_fix@;
                    match stack.pop() {
                        None => {
                            proof {
                                assert(pop_for_rparen(s_pre, p_pre) == (s_pre, p_pre));
                            }
                            break ;
                        },
                        Some(prev) => {
                            if prev == Token::LeftParen {
                                proof {
                                    assert(pop_for_rparen(s_pre, p_pre) == (
                                        s_pre.drop_last(),
                                        p_pre,
                                    ));
                                }
                                break ;
                            }
                            post_fix.push(prev);
                        },
                    }
                }
            },
            Token::Operation(op) => {
                loop
                    invariant
                        pop_for_op(stack@, post_fix@, precedence, op) == pop_for_op(
                            shunt(tokens@, k as int, precedence).0,
                            shunt(tokens@, k as int, precedence).1,
                            precedence,
                            op,
                        ),
                    ensures
                        (stack@, post_fix@) == pop_for_op(
                            shunt(tokens@, k as int, precedence).0,
                            shunt(tokens@, k as int, precedence).1,
                            precedence,
                            op,
                        ),
                    decreases stack@.len(),
                {
                    let top_is_op = match stack.last() {
                        Some(Token::Operation(_)) => true,
                        _ => false,
                    };
                    if !top_is_op {
                        break ;
                    }
                    let prev = match stack.last() {
                        Some(Token::Operation(p)) => *p,
                        _ => OperationType::Add,
                    };
                    if precedence == OperationPrecedence::AddWins && op == OperationType::Add
                        && prev != OperationType::Add {
                        break ;
                    }
                    match stack.pop() {
                        Some(popped) => {
                            post_fix.push(popped);
                        },
                        None => {
                            proof {
                                assert(false);
                            }
                        },
                    }
                }
                stack.push(Token::Operation(op));
            },
        }
        proof {
            assert((stack@, post_fix@) == shunt(tokens@, k + 1, precedence));
        }
    }
    loop
        invariant
            n == tokens@.len(),
            drain(stack@, post_fix@) == drain(
                shunt(tokens@, n as int, precedence).0,
                shunt(tokens@, n as int, precedence).1,
            ),
        ensures
            post_fix@ == spec_postfix(tokens@, precedence),
        decreases stack@.len(),
    {
        match stack.pop() {
            None => {
                break ;
            },
            Some(token) => {
                post_fix.push(token);
            },
        }
    }
    let ghost post = spec_postfix(tokens@, precedence);
    let m = post_fix.len();
    let mut buff: Vec<Token> = Vec::new();
    for k in 0..m
        invariant
            m == post_fix@.len(),
            post_fix@ == post,
            eval_fits(post, post.len() as int),
            buff@ == eval(post, k as int),
    {
        proof {
            lemma_eval_fits_prefix(post, k + 1, post.len() as int);
        }
        let token = post_fix[k];
        match token {
            Token::Operation(op_type) => {
                match buff.pop() {
                    Some(Token::Number(last)) => {
                        match buff.pop() {
                            Some(Token::Number(second_last)) => {
                                buff.push(Token::Number(op_type.apply(second_last, last)));
                            },
                            _ => {},
                        }
                    },
                    _ => {},
                }
            },
            _ => {
                buff.push(token);
            },
        }
        proof {
            assert(buff@ =~= eval(post, k + 1));
        }
    }
    match buff.last() {
        Some(Token::Number(x)) => Some(*x),
        _ => None,
    }
}

/// Fitting all applications of the whole text fits every prefix.
proof fn lemma_eval_fits_prefix(post: Seq<Token>, k: int, full: int)
    requires
        0 <= k <= full,
        eval_fits(post, full),
    ensures
        eval_fits(post, k),
    decreases full - k,
{
    if k < full {
        lemma_eval_fits_prefix(post, k + 1, full);
    }
}

} // verus!
