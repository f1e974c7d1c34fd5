use vstd::prelude::*;
use vstd::std_specs::iter::IteratorSpec;
use vstd::string::*;

verus! {

/// A lexical unit of a prefix-notation expression.
#[derive(Debug, Clone, Copy, PartialEq, Eq, Structural)]
pub enum Token {
    /// One of the operator characters `+ - / * % r`.
    Symbol(char),
    /// A non-negative literal written as a run of ASCII digits.
    Number(i64),
    LeftParen,
    RightParen,
}

/// Why a source text could not be split into tokens.
#[derive(Debug, Clone, PartialEq, Eq)]
pub enum LexError {
    /// A character that starts no token, at char index `at`; `rest` is the
    /// input from that character on.
    InvalidChar { at: usize, rest: String },
    /// A digit run starting at char index `at` whose value exceeds `i64::MAX`.
    Overflow { at: usize, digits: String },
}

pub open spec fn is_digit(c: char) -> bool {
    '0' <= c <= '9'
}

pub open spec fn is_operator_char(c: char) -> bool {
    c == '+' || c == '-' || c == '/' || c == '*' || c == '%' || c == 'r'
}

/// The characters with the Unicode `White_Space` property.
pub open spec fn is_space(c: char) -> bool {
    ('\u{9}' <= c <= '\u{d}') || c == ' ' || c == '\u{85}' || c == '\u{a0}' || c == '\u{1680}'
        || ('\u{2000}' <= c <= '\u{200a}') || c == '\u{2028}' || c == '\u{2029}'
        || c == '\u{202f}' || c == '\u{205f}' || c == '\u{3000}'
}

pub open spec fn digit_value(c: char) -> int {
    c as int - '0' as int
}

/// Number of digits at the front of `s`.
pub open spec fn digit_run(s: Seq<char>) -> nat
    decreases s.len(),
{
    if s.len() > 0 && is_digit(s[0]) {
        1 + digit_run(s.drop_first())
    } else {
        0
    }
}

pub proof fn lemma_digit_run_bounds(s: Seq<char>)
    ensures
        digit_run(s) <= s.len(),
        s.len() > 0 && is_digit(s[0]) ==> digit_run(s) >= 1,
        forall|i: int| 0 <= i < digit_run(s) ==> is_digit(#[trigger] s[i]),
        digit_run(s) < s.len() ==> !is_digit(s[digit_run(s) as int]),
    decreases s.len(),
{
    if s.len() > 0 && is_digit(s[0]) {
        lemma_digit_run_bounds(s.drop_first());
        assert forall|i: int| 0 <= i < digit_run(s) implies is_digit(#[trigger] s[i]) by {
            if i > 0 {
                assert(s[i] == s.drop_first()[i - 1]);
            }
        }
    }
}

pub proof fn lemma_digit_run_exact(s: Seq<char>, m: int)
    requires
        0 <= m <= s.len(),
        forall|i: int| 0 <= i < m ==> is_digit(#[trigger] s[i]),
        m == s.len() || !is_digit(s[m]),
    ensures
        digit_run(s) == m,
    decreases m,
{
    if m > 0 {
        assert(is_digit(s[0]));
        assert forall|i: int| 0 <= i < m - 1 implies is_digit(#[trigger] s.drop_first()[i]) by {
            assert(s.drop_first()[i] == s[i + 1]);
        }
        lemma_digit_run_exact(s.drop_first(), m - 1);
    }
}

/// The base-10 value of a sequence of digits.
pub open spec fn digits_value(s: Seq<char>) -> int
    decreases s.len(),
{
    if s.len() == 0 {
        0
    } else {
        digits_value(s.drop_last()) * 10 + digit_value(s.last())
    }
}

/// Each digit appended to a run multiplies what came before by ten; the
/// value of a prefix never exceeds that of the whole run.
pub proof fn lemma_digits_value_prefix(s: Seq<char>, m: int)
    requires
        0 <= m <= s.len(),
        forall|i: int| 0 <= i < s.len() ==> is_digit(#[trigger] s[i]),
    ensures
        0 <= digits_value(s.take(m)) <= digits_value(s),
    decreases s.len(),
{
    if s.len() > 0 {
        let t = s.drop_last();
        assert forall|i: int| 0 <= i < t.len() implies is_digit(#[trigger] t[i]) by {
            assert(t[i] == s[i]);
        }
        if m == s.len() {
            assert(s.take(m) =~= s);
            lemma_digits_value_prefix(t, t.len() as int);
            assert(t.take(t.len() as int) =~= t);
        } else {
            lemma_digits_value_prefix(t, m);
            assert(t.take(m) =~= s.take(m));
            lemma_digits_value_prefix(t, t.len() as int);
            assert(t.take(t.len() as int) =~= t);
        }
        assert(is_digit(s.last()));
    } else {
        assert(s.take(m) =~= s);
    }
}

/// Tokens of `s`, or the char index of the first fault: a character that
/// starts no token, or the start of a literal too large for `i64`.
pub open spec fn lex(s: Seq<char>) -> Result<Seq<Token>, nat>
    decreases s.len(),
{
    if s.len() == 0 {
        Ok(Seq::empty())
    } else {
        let c = s[0];
        if is_digit(c) {
            let n = digit_run(s);
            proof {
                lemma_digit_run_bounds(s);
            }
            let v = digits_value(s.take(n as int));
            if v > i64::MAX {
                Err(0)
            } else {
                prepend_token(Token::Number(v as i64), lex(s.skip(n as int)), n)
            }
        } else if c == '(' {
            prepend_token(Token::LeftParen, lex(s.drop_first()), 1)
        } else if c == ')' {
            prepend_token(Token::RightParen, lex(s.drop_first()), 1)
        } else if is_operator_char(c) {
            prepend_token(Token::Symbol(c), lex(s.drop_first()), 1)
        } else if is_space(c) {
            shift_fault(lex(s.drop_first()), 1)
        } else {
            Err(0)
        }
    }
}

/// Tokens `ts` already read, followed by the outcome `r` for the text after
/// the first `k` chars.
pub open spec fn prefix_with(ts: Seq<Token>, r: Result<Seq<Token>, nat>, k: nat) -> Result<
    Seq<Token>,
    nat,
> {
    match r {
        Ok(rest) => Ok(ts + rest),
        Err(p) => Err(p + k),
    }
}

proof fn lemma_prefix_token(ts: Seq<Token>, t: Token, r: Result<Seq<Token>, nat>, i: nat, m: nat)
    ensures
        prefix_with(ts, prepend_token(t, r, m), i) == prefix_with(ts.push(t), r, i + m),
{
    if let Ok(rest) = r {
        assert(ts + (seq![t] + rest) =~= ts.push(t) + rest);
    }
}

proof fn lemma_prefix_skip(ts: Seq<Token>, r: Result<Seq<Token>, nat>, i: nat, m: nat)
    ensures
        prefix_with(ts, shift_fault(r, m), i) == prefix_with(ts, r, i + m),
{
}

/// `t` followed by the tokens of the text after it, which starts `k` chars in.
pub open spec fn prepend_token(t: Token, r: Result<Seq<Token>, nat>, k: nat) -> Result<
    Seq<Token>,
    nat,
> {
    match r {
        Ok(ts) => Ok(seq![t] + ts),
        Err(p) => Err(p + k),
    }
}

/// The outcome for a text that starts with `k` skipped chars.
pub open spec fn shift_fault(r: Result<Seq<Token>, nat>, k: nat) -> Result<Seq<Token>, nat> {
    match r {
        Ok(ts) => Ok(ts),
        Err(p) => Err(p + k),
    }
}

/// The characters of `s`, in order.
fn chars_of(s: &str) -> (r: Vec<char>)
    ensures
        r@ == s@,
{
    broadcast use vstd::string::group_string_axioms;

    let mut it = s.chars();
    let mut out: Vec<char> = Vec::new();
    loop
        invariant
            out@ + it.remaining() == s@,
            it.decrease() is Some,
        ensures
            out@ == s@,
        decreases it.decrease()->0,
    {
        match it.next() {
            Some(c) => {
                out.push(c);
            },
            None => {
                assert(out@ + it.remaining() =~= out@);
                break ;
            },
        }
    }
    out
}

/// Whether `c` has the Unicode `White_Space` property.
fn is_space_char(c: char) -> (r: bool)
    ensures
        r == is_space(c),
{
    ('\u{9}' <= c && c <= '\u{d}') || c == ' ' || c == '\u{85}' || c == '\u{a0}' || c
        == '\u{1680}' || ('\u{2000}' <= c && c <= '\u{200a}') || c == '\u{2028}' || c
        == '\u{2029}' || c == '\u{202f}' || c == '\u{205f}' || c == '\u{3000}'
}

/// Splits `src` into tokens, left to right. Whitespace separates tokens and
/// is dropped; a digit run is one `Number`; `-` is always an operator.
pub fn tokenize(src: String) -> (r: Result<Vec<Token>, LexError>)
    ensures
        match r {
            Ok(ts) => lex(src@) == Ok::<Seq<Token>, nat>(ts@),
            Err(LexError::InvalidChar { at, rest }) => {
                &&& lex(src@) == Err::<Seq<Token>, nat>(at as nat)
                &&& at < src@.len()
                &&& !is_digit(src@[at as int])
                &&& rest@ == src@.skip(at as int)
            },
            Err(LexError::Overflow { at, digits }) => {
                &&& lex(src@) == Err::<Seq<Token>, nat>(at as nat)
                &&& at < src@.len()
                &&& is_digit(src@[at as int])
                &&& digits@ == src@.skip(at as int).take(digit_run(src@.skip(at as int)) as int)
            },
        },
{
    let chars = chars_of(src.as_str());
    let n = chars.len();
    let mut tokens: Vec<Token> = Vec::new();
    let mut i: usize = 0;
    proof {
        assert(src@.skip(0) =~= src@);
        if let Ok(all) = lex(src@) {
            assert(Seq::<Token>::empty() + all =~= all);
        }
    }
    while i < n
        invariant
            chars@ == src@,
            n == chars.len(),
            i <= n,
            lex(src@) == prefix_with(tokens@, lex(src@.skip(i as int)), i as nat),
        decreases n - i,
    {
        let c = chars[i];
        let ghost s = src@.skip(i as int);
        assert(s[0] == c);
        assert(s.drop_first() =~= src@.skip(i + 1));
        if '0' <= c && c <= '9' {
            let mut j: usize = i + 1;
            while j < n && '0' <= chars[j] && chars[j] <= '9'
                invariant
                    chars@ == src@,
                    n == chars.len(),
                    i < j <= n,
                    s == src@.skip(i as int),
                    forall|k: int| 0 <= k < j - i ==> is_digit(#[trigger] s[k]),
                decreases n - j,
            {
                assert(s[j - i] == chars[j as int]);
                j = j + 1;
            }
            proof {
                if j < n {
                    assert(s[j - i] == chars[j as int]);
                }
                lemma_digit_run_exact(s, j - i);
            }
            let ghost run = s.take(j - i);
            assert forall|k: int| 0 <= k < run.len() implies is_digit(#[trigger] run[k]) by {
                assert(run[k] == s[k]);
            }
            let mut v: i64 = 0;
            let mut k: usize = i;
            while k < j
                invariant
                    chars@ == src@,
                    n == chars.len(),
                    i <= k <= j <= n,
                    s == src@.skip(i as int),
                    run == s.take(j - i),
                    digit_run(s) == j - i,
                    is_digit(s[0]),
                    lex(src@) == prefix_with(tokens@, lex(s), i as nat),
                    forall|q: int| 0 <= q < run.len() ==> is_digit(#[trigger] run[q]),
                    v == digits_value(run.take(k - i)),
                decreases j - k,
            {
                assert(run[k - i] == chars[k as int]);
                let d = (chars[k] as u32 - '0' as u32) as i64;
                let ghost pre = run.take(k - i + 1);
                assert(pre.drop_last() =~= run.take(k - i));
                assert(pre.last() == chars[k as int]);
                match v.checked_mul(10) {
                    Some(m) => match m.checked_add(d) {
                        Some(w) => {
                            v = w;
                        },
                        None => {
                            proof {
                                lemma_digits_value_prefix(run, k - i);
                                assert(digits_value(pre) == v * 10 + d);
                                lemma_digits_value_prefix(run, k - i + 1);
                                assert(run.take(j - i) =~= run);
                                assert(src@.subrange(i as int, j as int) =~= run);
                                assert(lex(s) == Err::<Seq<Token>, nat>(0));
                            }
                            let digits = src.as_str().substring_char(i, j).to_owned();
                            return Err(LexError::Overflow { at: i, digits });
                        },
                    },
                    None => {
                        proof {
                            lemma_digits_value_prefix(run, k - i);
                            assert(digits_value(pre) == v * 10 + d);
                            lemma_digits_value_prefix(run, k - i + 1);
                            assert(run.take(j - i) =~= run);
                            assert(src@.subrange(i as int, j as int) =~= run);
                            assert(lex(s) == Err::<Seq<Token>, nat>(0));
                        }
                        let digits = src.as_str().substring_char(i, j).to_owned();
                        return Err(LexError::Overflow { at: i, digits });
                    },
                }
                k = k + 1;
            }
            assert(run.take(j - i) =~= run);
            assert(s.skip(j - i) =~= src@.skip(j as int));
            proof {
                lemma_prefix_token(tokens@, Token::Number(v), lex(src@.skip(j as int)), i as nat, (j - i) as nat);
            }
            tokens.push(Token::Number(v));
            i = j;
        } else if c == '(' {
            proof {
                lemma_prefix_token(tokens@, Token::LeftParen, lex(src@.skip(i + 1)), i as nat, 1);
            }
            tokens.push(Token::LeftParen);
            i = i + 1;
        } else if c == ')' {
            proof {
                lemma_prefix_token(tokens@, Token::RightParen, lex(src@.skip(i + 1)), i as nat, 1);
            }
            tokens.push(Token::RightParen);
            i = i + 1;
        } else if c == '+' || c == '-' || c == '/' || c == '*' || c == '%' || c == 'r' {
            proof {
                lemma_prefix_token(tokens@, Token::Symbol(c), lex(src@.skip(i + 1)), i as nat, 1);
            }
            tokens.push(Token::Symbol(c));
            i = i + 1;
        } else if is_space_char(c) {
            proof {
                lemma_prefix_skip(tokens@, lex(src@.skip(i + 1)), i as nat, 1);
            }
            i = i + 1;
        } else {
            let rest = src.as_str().substring_char(i, n).to_owned();
            assert(src@.subrange(i as int, n as int) =~= src@.skip(i as int));
            return Err(LexError::InvalidChar { at: i, rest });
        }
    }
    assert(src@.skip(i as int) =~= Seq::<char>::empty());
    assert(tokens@ + Seq::<Token>::empty() =~= tokens@);
    Ok(tokens)
}

} // verus!
