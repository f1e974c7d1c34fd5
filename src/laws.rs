use vstd::prelude::*;

use crate::lexer::{
    digit_run, is_digit, is_space, lemma_digit_run_bounds, lemma_digit_run_exact, lex,
};
use crate::lexer::Token;
use crate::parser::{
    lemma_parse_advances, paren_balance, parse_at, parse_children, parse_tokens,
};
use crate::{lexed_tokens, source_value};


verus! {

/// A single top-level parse never reads more tokens than the lexer made
/// from the same text.
pub proof fn parse_within_tokens(src: Seq<char>)
    ensures
        lex(src) matches Ok(ts) ==> (parse_tokens(ts) matches Ok((_, n)) ==> 0 < n <= ts.len()),
{
    if let Ok(ts) = lex(src) {
        lemma_parse_advances(ts, 0);
    }
}

/// A run of whitespace in front of a text adds no tokens.
proof fn lemma_leading_space(w: Seq<char>, b: Seq<char>)
    requires
        forall|i: int| 0 <= i < w.len() ==> is_space(#[trigger] w[i]),
    ensures
        lexed_tokens(lex(w + b)) == lexed_tokens(lex(b)),
    decreases w.len(),
{
    if w.len() == 0 {
        assert(w + b =~= b);
    } else {
        let s = w + b;
        assert(s[0] == w[0]);
        assert(s.drop_first() =~= w.drop_first() + b);
        assert forall|i: int| 0 <= i < w.drop_first().len() implies is_space(
            #[trigger] w.drop_first()[i],
        ) by {
            assert(w.drop_first()[i] == w[i + 1]);
        }
        lemma_leading_space(w.drop_first(), b);
    }
}

/// Inserting a run of whitespace between `a` and `b` leaves the tokens,
/// and so the value, unchanged, as long as it does not split a literal (a
/// digit on both sides).
pub proof fn whitespace_insensitive(a: Seq<char>, w: Seq<char>, b: Seq<char>)
    requires
        forall|i: int| 0 <= i < w.len() ==> is_space(#[trigger] w[i]),
        !(a.len() > 0 && b.len() > 0 && is_digit(a.last()) && is_digit(b[0])),
    ensures
        lexed_tokens(lex(a + w + b)) == lexed_tokens(lex(a + b)),
        source_value(a + w + b) == source_value(a + b),
    decreases a.len(),
{
    let s1 = a + w + b;
    let s2 = a + b;
    if w.len() == 0 {
        assert(s1 =~= s2);
    } else if a.len() == 0 {
        assert(s1 =~= w + b);
        assert(s2 =~= b);
        lemma_leading_space(w, b);
    } else {
        let c = a[0];
        assert(s1[0] == c && s2[0] == c);
        if is_digit(c) {
            lemma_digit_run_bounds(a);
            let m = digit_run(a) as int;
            assert forall|i: int| 0 <= i < m implies is_digit(#[trigger] s1[i]) && is_digit(
                s2[i],
            ) by {
                assert(s1[i] == a[i] && s2[i] == a[i]);
            }
            if m < a.len() {
                assert(s1[m] == a[m] && s2[m] == a[m]);
            } else {
                assert(s1[m] == w[0]);
                if b.len() > 0 {
                    assert(s2[m] == b[0]);
                    assert(a.last() == a[m - 1]);
                }
            }
            lemma_digit_run_exact(s1, m);
            lemma_digit_run_exact(s2, m);
            assert(s1.take(m) =~= s2.take(m));
            let a2 = a.skip(m);
            assert(s1.skip(m) =~= a2 + w + b);
            assert(s2.skip(m) =~= a2 + b);
            if a2.len() > 0 {
                assert(a2.last() == a.last());
            }
            whitespace_insensitive(a2, w, b);
        } else {
            let a2 = a.drop_first();
            assert(s1.drop_first() =~= a2 + w + b);
            assert(s2.drop_first() =~= a2 + b);
            if a2.len() > 0 {
                assert(a2.last() == a.last());
            }
            whitespace_insensitive(a2, w, b);
        }
    }
}

proof fn lemma_balance_concat(x: Seq<Token>, y: Seq<Token>)
    ensures
        paren_balance(x + y) == paren_balance(x) + paren_balance(y),
    decreases y.len(),
{
    if y.len() == 0 {
        assert(x + y =~= x);
    } else {
        assert((x + y).drop_last() =~= x + y.drop_last());
        assert((x + y).last() == y.last());
        lemma_balance_concat(x, y.drop_last());
    }
}

proof fn lemma_balance_split(ts: Seq<Token>, p: int, m: int, j: int)
    requires
        0 <= p <= m <= j <= ts.len(),
    ensures
        paren_balance(ts.subrange(p, j)) == paren_balance(ts.subrange(p, m)) + paren_balance(
            ts.subrange(m, j),
        ),
{
    assert(ts.subrange(p, j) =~= ts.subrange(p, m) + ts.subrange(m, j));
    lemma_balance_concat(ts.subrange(p, m), ts.subrange(m, j));
}

proof fn lemma_balance_one(ts: Seq<Token>, p: int)
    requires
        0 <= p < ts.len(),
    ensures
        paren_balance(ts.subrange(p, p)) == 0,
        paren_balance(ts.subrange(p, p + 1)) == match ts[p] {
            Token::LeftParen => 1int,
            Token::RightParen => -1int,
            _ => 0int,
        },
{
    assert(ts.subrange(p, p + 1).drop_last() =~= ts.subrange(p, p));
    assert(ts.subrange(p, p) =~= Seq::<Token>::empty());
}

/// What an expression reads is well nested: no prefix of it closes more
/// than it opened, and it closes all it opens. A child list read up to its
/// `)` closes exactly one more than it opens, and only at its end.
proof fn lemma_parse_nested(ts: Seq<Token>, p: int)
    ensures
        parse_at(ts, p) matches Ok((_, e)) ==> {
            &&& forall|j: int| p <= j <= e ==> paren_balance(#[trigger] ts.subrange(p, j)) >= 0
            &&& paren_balance(ts.subrange(p, e)) == 0
        },
        parse_children(ts, p) matches Ok((_, e)) ==> {
            &&& forall|j: int| p <= j < e ==> paren_balance(#[trigger] ts.subrange(p, j)) >= 0
            &&& paren_balance(ts.subrange(p, e)) == -1
        },
    decreases ts.len() - p,
{
    lemma_parse_advances(ts, p);
    if 0 <= p < ts.len() {
        lemma_balance_one(ts, p);
        if p + 2 <= ts.len() {
            lemma_parse_nested(ts, p + 2);
            lemma_parse_advances(ts, p + 2);
        }
        if let Ok((_, e)) = parse_at(ts, p) {
            if ts[p] is LeftParen {
                lemma_balance_one(ts, p + 1);
                lemma_balance_split(ts, p, p + 1, p + 2);
                assert forall|j: int| p <= j <= e implies paren_balance(
                    #[trigger] ts.subrange(p, j),
                ) >= 0 by {
                    if j == p + 1 {
                    } else if j >= p + 2 {
                        lemma_balance_split(ts, p, p + 2, j);
                    }
                }
                lemma_balance_split(ts, p, p + 2, e);
            } else {
                assert forall|j: int| p <= j <= e implies paren_balance(
                    #[trigger] ts.subrange(p, j),
                ) >= 0 by {}
            }
            if !(ts[p] is RightParen) && p < e <= ts.len() {
                lemma_parse_nested(ts, e);
                lemma_parse_advances(ts, e);
                if let Ok((_, end)) = parse_children(ts, e) {
                    assert forall|j: int| p <= j < end implies paren_balance(
                        #[trigger] ts.subrange(p, j),
                    ) >= 0 by {
                        if j > e {
                            lemma_balance_split(ts, p, e, j);
                        }
                    }
                    lemma_balance_split(ts, p, e, end);
                }
            }
        }
        if ts[p] is RightParen {
            assert forall|j: int| p <= j < p + 1 implies paren_balance(
                #[trigger] ts.subrange(p, j),
            ) >= 0 by {}
        }
    }
}

/// A stream whose parenthesis counts agree but which, somewhere in its
/// first `k` tokens, closes more than it opened, is rejected by the
/// structural parse unless the expression it reads ends before that point
/// (tokens after the first expression are never read).
pub proof fn misordered_parens_rejected(ts: Seq<Token>, k: int)
    requires
        0 <= k <= ts.len(),
        paren_balance(ts.take(k)) < 0,
    ensures
        parse_tokens(ts) matches Ok((_, n)) ==> n < k,
{
    lemma_parse_nested(ts, 0);
    lemma_parse_advances(ts, 0);
    assert(ts.take(k) =~= ts.subrange(0, k));
}

} // verus!
