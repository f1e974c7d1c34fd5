use vstd::prelude::*;

use crate::lexer::Token;

verus! {

/// An arithmetic operator, bound one-to-one to its source symbol.
#[derive(Debug, Clone, Copy, PartialEq, Eq, Structural)]
pub enum Operator {
    /// `+`
    Add,
    /// `-`
    Sub,
    /// `/`
    Div,
    /// `*`
    Mul,
    /// `%`
    Mod,
    /// `r`
    Sqrt,
}

/// A syntax tree: a literal, or an operator applied to its ordered children.
#[derive(Debug)]
pub enum Ast {
    Literal(i64),
    Operation(Operator, Vec<Ast>),
}

/// The mathematical value of an `Ast`.
pub enum Expr {
    Lit(i64),
    Op(Operator, Seq<Expr>),
}

impl Ast {
    pub open spec fn view(self) -> Expr
        decreases self,
    {
        match self {
            Ast::Literal(n) => Expr::Lit(n),
            Ast::Operation(op, args) => Expr::Op(
                op,
                Seq::new(
                    args.len() as nat,
                    |i: int|
                        if 0 <= i < args.len() {
                            args[i].view()
                        } else {
                            Expr::Lit(0)
                        },
                ),
            ),
        }
    }
}

/// Why a token sequence does not form an expression.
#[derive(Debug, Clone, Copy, PartialEq, Eq, Structural)]
pub enum ParseError {
    /// The counts of `(` and `)` differ.
    Unbalanced,
    /// The token at `at`, just after a `(`, is not a symbol (or is missing).
    MissingOperator { at: usize },
    /// The symbol at `at` names no operator.
    UnknownSymbol { at: usize, symbol: char },
    /// The tokens ran out where an expression or a `)` was expected.
    UnexpectedEnd,
    /// The token at `at` cannot start an expression.
    UnexpectedToken { at: usize },
}

pub open spec fn operator_of(c: char) -> Option<Operator> {
    if c == '+' {
        Some(Operator::Add)
    } else if c == '-' {
        Some(Operator::Sub)
    } else if c == '/' {
        Some(Operator::Div)
    } else if c == '*' {
        Some(Operator::Mul)
    } else if c == '%' {
        Some(Operator::Mod)
    } else if c == 'r' {
        Some(Operator::Sqrt)
    } else {
        None
    }
}

pub open spec fn paren_delta(t: Token) -> int {
    match t {
        Token::LeftParen => 1,
        Token::RightParen => -1,
        _ => 0,
    }
}

/// Count of `(` minus count of `)`.
pub open spec fn paren_balance(ts: Seq<Token>) -> int
    decreases ts.len(),
{
    if ts.len() == 0 {
        0
    } else {
        paren_balance(ts.drop_last()) + paren_delta(ts.last())
    }
}

/// The expression that starts at index `p` of `ts`, with the index just
/// past it; or the first structural fault met while reading it.
pub open spec fn parse_at(ts: Seq<Token>, p: int) -> Result<(Expr, int), ParseError>
    decreases ts.len() - p, 0int,
{
    if p < 0 || p >= ts.len() {
        Err(ParseError::UnexpectedEnd)
    } else {
        match ts[p] {
            Token::Number(n) => Ok((Expr::Lit(n), p + 1)),
            Token::LeftParen => {
                if p + 1 >= ts.len() {
                    Err(ParseError::MissingOperator { at: (p + 1) as usize })
                } else {
                    match ts[p + 1] {
                        Token::Symbol(c) => match operator_of(c) {
                            Some(op) => match parse_children(ts, p + 2) {
                                Ok((cs, e)) => Ok((Expr::Op(op, cs), e)),
                                Err(x) => Err(x),
                            },
                            None => Err(ParseError::UnknownSymbol { at: (p + 1) as usize, symbol: c }),
                        },
                        _ => Err(ParseError::MissingOperator { at: (p + 1) as usize }),
                    }
                }
            },
            _ => Err(ParseError::UnexpectedToken { at: p as usize }),
        }
    }
}

/// The children that start at index `p`, up to and including the `)` that
/// closes them, with the index just past that `)`.
pub open spec fn parse_children(ts: Seq<Token>, p: int) -> Result<(Seq<Expr>, int), ParseError>
    decreases ts.len() - p, 1int,
{
    if p < 0 || p >= ts.len() {
        Err(ParseError::UnexpectedEnd)
    } else if ts[p] is RightParen {
        Ok((Seq::empty(), p + 1))
    } else {
        match parse_at(ts, p) {
            Err(x) => Err(x),
            Ok((c, e)) => {
                // A child always ends past `p` and within the tokens.
                if e <= p || e > ts.len() {
                    Err(ParseError::UnexpectedEnd)
                } else {
                    match parse_children(ts, e) {
                        Ok((cs, end)) => Ok((seq![c] + cs, end)),
                        Err(x) => Err(x),
                    }
                }
            },
        }
    }
}

/// The whole structural check: the count pre-pass, then one expression read
/// from the front. Tokens after that expression are left unread.
pub open spec fn parse_tokens(ts: Seq<Token>) -> Result<(Expr, int), ParseError> {
    if paren_balance(ts) != 0 {
        Err(ParseError::Unbalanced)
    } else {
        parse_at(ts, 0)
    }
}

/// An expression or a child list always ends after where it starts, and
/// within the tokens.
pub proof fn lemma_parse_advances(ts: Seq<Token>, p: int)
    ensures
        parse_at(ts, p) matches Ok((_, e)) ==> p < e <= ts.len(),
        parse_children(ts, p) matches Ok((_, e)) ==> p < e <= ts.len(),
    decreases ts.len() - p,
{
    if 0 <= p < ts.len() {
        if p + 2 <= ts.len() {
            lemma_parse_advances(ts, p + 2);
        }
        if let Ok((_, e)) = parse_at(ts, p) {
            if p < e <= ts.len() {
                lemma_parse_advances(ts, e);
            }
        }
    }
}

/// The mathematical view of a parse result.
pub open spec fn parsed_view(r: Result<(Ast, usize), ParseError>) -> Result<(Expr, int), ParseError> {
    match r {
        Ok((a, n)) => Ok((a@, n as int)),
        Err(x) => Err(x),
    }
}

/// Checks that the counts of `(` and `)` agree. Their order is not checked
/// here: `parse_expr` rejects a `)` where an expression must start.
pub fn check_parens(tokens: &[Token]) -> (r: Result<(), ParseError>)
    ensures
        r is Ok <==> paren_balance(tokens@) == 0,
        r is Err ==> r == Err::<(), ParseError>(ParseError::Unbalanced),
{
    let mut opens: usize = 0;
    let mut closes: usize = 0;
    let mut i: usize = 0;
    while i < tokens.len()
        invariant
            i <= tokens.len(),
            opens <= i,
            closes <= i,
            paren_balance(tokens@.take(i as int)) == opens - closes,
        decreases tokens.len() - i,
    {
        assert(tokens@.take(i + 1).drop_last() =~= tokens@.take(i as int));
        match tokens[i] {
            Token::LeftParen => opens = opens + 1,
            Token::RightParen => closes = closes + 1,
            _ => {},
        }
        i = i + 1;
    }
    assert(tokens@.take(i as int) =~= tokens@);
    if opens == closes {
        Ok(())
    } else {
        Err(ParseError::Unbalanced)
    }
}

/// The operator a symbol stands for, if any.
pub fn operator_for(c: char) -> (r: Option<Operator>)
    ensures
        r == operator_of(c),
{
    match c {
        '+' => Some(Operator::Add),
        '-' => Some(Operator::Sub),
        '/' => Some(Operator::Div),
        '*' => Some(Operator::Mul),
        '%' => Some(Operator::Mod),
        'r' => Some(Operator::Sqrt),
        _ => None,
    }
}

/// Reads one expression starting at index `pos` by recursive descent, and
/// returns it with the index just past it.
pub fn parse_expr(tokens: &[Token], pos: usize) -> (r: Result<(Ast, usize), ParseError>)
    requires
        pos <= tokens.len(),
    ensures
        parsed_view(r) == parse_at(tokens@, pos as int),
    decreases tokens.len() - pos,
{
    let ghost ts = tokens@;
    if pos >= tokens.len() {
        return Err(ParseError::UnexpectedEnd);
    }
    match tokens[pos] {
        Token::Number(n) => Ok((Ast::Literal(n), pos + 1)),
        Token::LeftParen => {
            if pos + 1 >= tokens.len() {
                return Err(ParseError::MissingOperator { at: pos + 1 });
            }
            let op = match tokens[pos + 1] {
                Token::Symbol(c) => match operator_for(c) {
                    Some(op) => op,
                    None => {
                        return Err(ParseError::UnknownSymbol { at: pos + 1, symbol: c });
                    },
                },
                _ => {
                    return Err(ParseError::MissingOperator { at: pos + 1 });
                },
            };
            let mut args: Vec<Ast> = Vec::new();
            let mut p: usize = pos + 2;
            loop
                invariant
                    pos + 2 <= p <= tokens.len(),
                    ts == tokens@,
                    parse_at(ts, pos as int) == match parse_children(ts, pos + 2) {
                        Ok((cs, e)) => Ok((Expr::Op(op, cs), e)),
                        Err(x) => Err::<(Expr, int), ParseError>(x),
                    },
                    parse_children(ts, pos + 2) == match parse_children(ts, p as int) {
                        Ok((cs, e)) => Ok((Seq::new(args.len() as nat, |i: int| args[i]@) + cs, e)),
                        Err(x) => Err::<(Seq<Expr>, int), ParseError>(x),
                    },
                decreases tokens.len() - p,
            {
                if p >= tokens.len() {
                    return Err(ParseError::UnexpectedEnd);
                }
                if let Token::RightParen = tokens[p] {
                    let ghost done = Seq::new(args.len() as nat, |i: int| args[i]@);
                    assert(done + Seq::<Expr>::empty() =~= done);
                    let node = Ast::Operation(op, args);
                    assert(node@ == Expr::Op(op, done)) by {
                        if let Expr::Op(_, cs) = node@ {
                            assert(cs =~= done);
                        }
                    }
                    return Ok((node, p + 1));
                }
                match parse_expr(tokens, p) {
                    Err(x) => {
                        return Err(x);
                    },
                    Ok((child, e)) => {
                        proof {
                            lemma_parse_advances(ts, p as int);
                        }
                        let ghost before = Seq::new(args.len() as nat, |i: int| args[i]@);
                        args.push(child);
                        proof {
                            let after = Seq::new(args.len() as nat, |i: int| args[i]@);
                            assert(after =~= before.push(child@));
                            if let Ok((cs, e2)) = parse_children(ts, e as int) {
                                assert(before + (seq![child@] + cs) =~= after + cs);
                            }
                        }
                        p = e;
                    },
                }
            }
        },
        _ => Err(ParseError::UnexpectedToken { at: pos }),
    }
}

/// Checks the parenthesis counts, then reads one expression from the front
/// of `tokens`. Returns it with the number of tokens it took; any tokens
/// after it are ignored.
pub fn parse(tokens: &[Token]) -> (r: Result<(Ast, usize), ParseError>)
    ensures
        parsed_view(r) == parse_tokens(tokens@),
        r matches Ok((_, n)) ==> 0 < n <= tokens.len(),
{
    match check_parens(tokens) {
        Err(x) => Err(x),
        Ok(()) => {
            proof {
                lemma_parse_advances(tokens@, 0);
            }
            parse_expr(tokens, 0)
        },
    }
}

} // verus!
