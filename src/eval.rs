use vstd::prelude::*;

use crate::parser::{Ast, Expr, Operator};

verus! {

/// Why an expression has no value.
#[derive(Debug, Clone, Copy, PartialEq, Eq, Structural)]
pub enum EvalError {
    /// A `/` or `%` whose divisor evaluated to zero.
    DivisionByZero,
    /// An operation with no children.
    NoOperands,
    /// An intermediate result outside the range of `i64`.
    Overflow,
}

/// The greatest `r` with `r * r <= n`.
pub open spec fn isqrt(n: nat) -> nat
    decreases n,
{
    if n == 0 {
        0
    } else {
        let r = isqrt((n - 1) as nat);
        if (r + 1) * (r + 1) <= n {
            r + 1
        } else {
            r
        }
    }
}

/// The principal square root truncated toward zero, computed exactly on
/// integers; a negative value gives 0.
pub open spec fn sqrt_of(a: i64) -> i64 {
    if a < 0 {
        0
    } else {
        isqrt(a as nat) as i64
    }
}

pub open spec fn checked(v: Option<i64>) -> Result<i64, EvalError> {
    match v {
        Some(x) => Ok(x),
        None => Err(EvalError::Overflow),
    }
}

/// One folding step `a op b`. Division truncates toward zero, and a
/// remainder takes the sign of the dividend; a result out of range is an
/// `Overflow`. `Sqrt` is unary and never folds, so it leaves `a` as it is.
pub open spec fn apply(op: Operator, a: i64, b: i64) -> Result<i64, EvalError> {
    match op {
        Operator::Add => checked(a.checked_add(b)),
        Operator::Sub => checked(a.checked_sub(b)),
        Operator::Mul => checked(a.checked_mul(b)),
        Operator::Div => if b == 0 {
            Err(EvalError::DivisionByZero)
        } else {
            checked(a.checked_div(b))
        },
        Operator::Mod => if b == 0 {
            Err(EvalError::DivisionByZero)
        } else {
            checked(a.checked_rem(b))
        },
        Operator::Sqrt => Ok(a),
    }
}

/// Left fold of `op` over the values of the first `k` children: the first
/// child is the start, and the first fault met, left to right, is the
/// outcome.
pub open spec fn eval_fold(op: Operator, args: Seq<Expr>, k: int) -> Result<i64, EvalError>
    decreases args, k,
{
    if k <= 0 || k > args.len() {
        Err(EvalError::NoOperands)
    } else if k == 1 {
        eval_expr(args[0])
    } else {
        match eval_fold(op, args, k - 1) {
            Err(x) => Err(x),
            Ok(acc) => match eval_expr(args[k - 1]) {
                Err(x) => Err(x),
                Ok(v) => apply(op, acc, v),
            },
        }
    }
}

/// The value of an expression.
pub open spec fn eval_expr(e: Expr) -> Result<i64, EvalError>
    decreases e, 0int,
{
    match e {
        Expr::Lit(n) => Ok(n),
        Expr::Op(op, args) => {
            if args.len() == 0 {
                Err(EvalError::NoOperands)
            } else if op is Sqrt {
                match eval_expr(args[0]) {
                    Ok(v) => Ok(sqrt_of(v)),
                    Err(x) => Err(x),
                }
            } else {
                eval_fold(op, args, args.len() as int)
            }
        },
    }
}

pub proof fn lemma_isqrt(n: nat)
    ensures
        isqrt(n) * isqrt(n) <= n < (isqrt(n) + 1) * (isqrt(n) + 1),
    decreases n,
{
    if n > 0 {
        lemma_isqrt((n - 1) as nat);
        let r = isqrt((n - 1) as nat);
        if (r + 1) * (r + 1) <= n {
            assert(isqrt(n) == r + 1);
            assert(n < (r + 2) * (r + 2)) by (nonlinear_arith)
                requires
                    n - 1 < (r + 1) * (r + 1),
            ;
        } else {
            assert(isqrt(n) == r);
        }
        let q = isqrt(n);
        assert(q * q <= n && n < (q + 1) * (q + 1));
    } else {
        assert(isqrt(0) == 0);
        assert(0 * 0 <= 0 < (0 + 1) * (0 + 1)) by (nonlinear_arith);
    }
}

proof fn lemma_isqrt_unique(n: nat, r: int)
    requires
        0 <= r,
        r * r <= n < (r + 1) * (r + 1),
    ensures
        r == isqrt(n),
{
    lemma_isqrt(n);
    let s = isqrt(n) as int;
    if r < s {
        assert((r + 1) * (r + 1) <= s * s) by (nonlinear_arith)
            requires
                0 <= r < s,
        ;
    } else if s < r {
        assert((s + 1) * (s + 1) <= r * r) by (nonlinear_arith)
            requires
                0 <= s < r,
        ;
    }
}

/// Integer square root by bisection.
fn int_sqrt(n: i64) -> (r: i64)
    requires
        n >= 0,
    ensures
        r == isqrt(n as nat),
{
    let mut lo: i64 = 0;
    let mut hi: i64 = 3037000500;
    assert(n < hi * hi) by (nonlinear_arith)
        requires
            hi == 3037000500,
            n <= i64::MAX,
    ;
    while hi - lo > 1
        invariant
            0 <= lo < hi <= 3037000500,
            lo * lo <= n < hi * hi,
        decreases hi - lo,
    {
        let mid = lo + (hi - lo) / 2;
        assert(mid * mid <= 3037000499 * 3037000499) by (nonlinear_arith)
            requires
                0 <= mid < 3037000500,
        ;
        if mid * mid <= n {
            lo = mid;
        } else {
            hi = mid;
        }
    }
    proof {
        lemma_isqrt_unique(n as nat, lo as int);
    }
    lo
}

/// One folding step, executed.
fn apply_op(op: Operator, a: i64, b: i64) -> (r: Result<i64, EvalError>)
    ensures
        r == apply(op, a, b),
{
    let v = match op {
        Operator::Add => a.checked_add(b),
        Operator::Sub => a.checked_sub(b),
        Operator::Mul => a.checked_mul(b),
        Operator::Div => {
            if b == 0 {
                return Err(EvalError::DivisionByZero);
            }
            a.checked_div(b)
        },
        Operator::Mod => {
            if b == 0 {
                return Err(EvalError::DivisionByZero);
            }
            a.checked_rem(b)
        },
        Operator::Sqrt => Some(a),
    };
    match v {
        Some(x) => Ok(x),
        None => Err(EvalError::Overflow),
    }
}

/// A fault in the first `k` children ends the fold there.
proof fn lemma_fold_fault(op: Operator, args: Seq<Expr>, k: int, m: int)
    requires
        1 <= k <= m <= args.len(),
        eval_fold(op, args, k) is Err,
    ensures
        eval_fold(op, args, m) == eval_fold(op, args, k),
    decreases m - k,
{
    if m > k {
        lemma_fold_fault(op, args, k, m - 1);
    }
}

/// Evaluates a tree: children left to right, folded into the first.
pub fn eval_node(ast: &Ast) -> (r: Result<i64, EvalError>)
    ensures
        r == eval_expr(ast@),
    decreases ast,
{
    match ast {
        Ast::Literal(n) => {
            assert(ast@ == Expr::Lit(*n));
            Ok(*n)
        },
        Ast::Operation(op, args) => {
            let ghost cs = Seq::new(args.len() as nat, |i: int| args[i]@);
            assert(ast@ == Expr::Op(*op, cs)) by {
                if let Expr::Op(_, vs) = ast@ {
                    assert(vs =~= cs);
                }
            }
            if args.len() == 0 {
                return Err(EvalError::NoOperands);
            }
            assert(cs[0] == args[0]@);
            let first = match eval_node(&args[0]) {
                Ok(v) => v,
                Err(x) => {
                    proof {
                        if !(*op is Sqrt) {
                            lemma_fold_fault(*op, cs, 1, cs.len() as int);
                        }
                    }
                    return Err(x);
                },
            };
            if let Operator::Sqrt = op {
                if first < 0 {
                    return Ok(0);
                }
                return Ok(int_sqrt(first));
            }
            let mut acc = first;
            let mut i: usize = 1;
            while i < args.len()
                invariant
                    1 <= i <= args.len(),
                    *ast == Ast::Operation(*op, *args),
                    ast@ == Expr::Op(*op, cs),
                    !(*op is Sqrt),
                    cs.len() == args.len(),
                    forall|j: int| 0 <= j < args.len() ==> cs[j] == #[trigger] args[j]@,
                    eval_fold(*op, cs, i as int) == Ok::<i64, EvalError>(acc),
                decreases args.len() - i,
            {
                assert(cs[i as int] == args[i as int]@);
                let v = match eval_node(&args[i]) {
                    Ok(v) => v,
                    Err(x) => {
                        proof {
                            lemma_fold_fault(*op, cs, i + 1, cs.len() as int);
                        }
                        return Err(x);
                    },
                };
                match apply_op(*op, acc, v) {
                    Ok(w) => {
                        acc = w;
                    },
                    Err(x) => {
                        proof {
                            lemma_fold_fault(*op, cs, i + 1, cs.len() as int);
                        }
                        return Err(x);
                    },
                }
                i = i + 1;
            }
            Ok(acc)
        },
    }
}

/// Evaluates a tree, consuming it.
pub fn eval(ast: Ast) -> (r: Result<i64, EvalError>)
    ensures
        r == eval_expr(ast@),
{
    eval_node(&ast)
}

} // verus!
