//! Expression construction: a token list becomes an expression tree, and a
//! whole line becomes an expression via trimming, assignment splitting and
//! tokenization.
//!
//! Token lists are split by a two-pass scan over the tokens that stand at
//! parenthesis depth zero: the first pass looks for `+` and `-` tokens,
//! the second for `*` and `/`, and each pass splits at the last occurrence
//! it finds, so addition binds loosest and chains group left. Depth is
//! counted over the exact one-character tokens `(` and `)`; an unspaced
//! run such as `(2+3)` is one opaque token and contributes nothing. When
//! neither pass finds an operator, a list bracketed by `(` and `)` is
//! stripped and rebuilt; anything else is an invalid expression.

use vstd::prelude::*;
use crate::atom::{spec_atom, parse_atom, char_pos, lemma_char_pos};
use crate::errors::{CalculatorError, ErrV};
use crate::expr::{Expr, ExprV, view_expr, wf_expr};
use crate::token::{
    spec_trim, spec_tokenize, tokens_view, tokenize, trim_chars, str_to_chars, sub_chars,
};
use crate::eval::Calculator;

verus! {

/// Is `t` one of the operator tokens of a pass: `*` or `/` for the
/// multiplicative pass, `+` or `-` for the additive one?
pub open spec fn is_op_tok(t: Seq<char>, muldiv: bool) -> bool {
    t.len() == 1 && (if muldiv {
        t[0] == '*' || t[0] == '/'
    } else {
        t[0] == '+' || t[0] == '-'
    })
}

/// The parenthesis-depth contribution of one token: only the exact
/// one-character tokens `(` and `)` count.
pub open spec fn tok_delta(t: Seq<char>) -> int {
    if t.len() == 1 && t[0] == '(' {
        1
    } else if t.len() == 1 && t[0] == ')' {
        -1
    } else {
        0
    }
}

/// The parenthesis depth in front of position `i`: the sum of the deltas
/// of the tokens before it.
pub open spec fn depth_before(ts: Seq<Seq<char>>, i: int) -> int
    decreases i,
{
    if i <= 0 {
        0
    } else {
        depth_before(ts, i - 1) + tok_delta(ts[i - 1])
    }
}

/// Is position `i` a split point of the pass: an operator token standing
/// at parenthesis depth zero?
pub open spec fn is_split_at(ts: Seq<Seq<char>>, i: int, muldiv: bool) -> bool {
    is_op_tok(ts[i], muldiv) && depth_before(ts, i) == 0
}

/// The last split point of the pass at or before position `i`, if any.
pub open spec fn find_last_op_from(ts: Seq<Seq<char>>, i: int, muldiv: bool) -> Option<int>
    decreases i + 1,
{
    if i < 0 || i >= ts.len() {
        None
    } else if is_split_at(ts, i, muldiv) {
        Some(i)
    } else {
        find_last_op_from(ts, i - 1, muldiv)
    }
}

/// The last split point of the pass, if any.
pub open spec fn find_last_op(ts: Seq<Seq<char>>, muldiv: bool) -> Option<int> {
    find_last_op_from(ts, ts.len() - 1, muldiv)
}

/// A found split point lies at or before `i` and is a split point, and
/// nothing between it and `i` is one; `None` means no split point up to
/// `i` at all.
proof fn lemma_find_from_props(ts: Seq<Seq<char>>, i: int, muldiv: bool)
    requires
        i < ts.len(),
    ensures
        match find_last_op_from(ts, i, muldiv) {
            Some(j) => 0 <= j <= i && is_split_at(ts, j, muldiv) && forall|q: int|
                j < q <= i ==> !is_split_at(ts, q, muldiv),
            None => forall|q: int| 0 <= q <= i ==> !is_split_at(ts, q, muldiv),
        },
    decreases i + 1,
{
    if i >= 0 && !is_split_at(ts, i, muldiv) {
        lemma_find_from_props(ts, i - 1, muldiv);
    }
}

/// A found split point lies in the list, is an operator token, and stands
/// at depth zero.
pub proof fn lemma_find_last_op_range(ts: Seq<Seq<char>>, muldiv: bool)
    ensures
        match find_last_op(ts, muldiv) {
            Some(i) => 0 <= i < ts.len() && is_op_tok(ts[i], muldiv) && depth_before(ts, i) == 0,
            None => true,
        },
{
    lemma_find_from_props(ts, ts.len() - 1, muldiv);
}

/// The node an operator token builds from its two sides.
pub open spec fn op_node(t: Seq<char>, l: ExprV, r: ExprV) -> Result<ExprV, ErrV> {
    if t.len() == 1 && t[0] == '+' {
        Ok(ExprV::Add(Box::new(l), Box::new(r)))
    } else if t.len() == 1 && t[0] == '-' {
        Ok(ExprV::Subtract(Box::new(l), Box::new(r)))
    } else if t.len() == 1 && t[0] == '*' {
        Ok(ExprV::Multiply(Box::new(l), Box::new(r)))
    } else if t.len() == 1 && t[0] == '/' {
        Ok(ExprV::Divide(Box::new(l), Box::new(r)))
    } else {
        Err(ErrV::InvalidExpression)
    }
}

/// What a token list builds to. An empty list is a missing operand; a
/// single token is an atom; otherwise the list is split at the last
/// depth-zero additive operator, else the last depth-zero multiplicative
/// one — so multiplication binds tighter than addition and chains group
/// left — else stripped of surrounding brackets, else invalid. The left
/// side is built before the right one, so the left side's error wins.
pub open spec fn spec_build(ts: Seq<Seq<char>>) -> Result<ExprV, ErrV>
    decreases ts.len(),
{
    if ts.len() == 0 {
        Err(ErrV::MissingOperand)
    } else if ts.len() == 1 {
        spec_atom(ts[0])
    } else {
        let am = find_last_op(ts, false);
        let split = if am is Some {
            am
        } else {
            find_last_op(ts, true)
        };
        match split {
            Some(i) => if 0 <= i < ts.len() {
                match spec_build(ts.subrange(0, i)) {
                    Err(e) => Err(e),
                    Ok(le) => match spec_build(ts.subrange(i + 1, ts.len() as int)) {
                        Err(e) => Err(e),
                        Ok(re) => op_node(ts[i], le, re),
                    },
                }
            } else {
                // find_last_op never returns an index out of range
                // (lemma_find_last_op_range); this arm keeps the
                // recursion visibly bounded.
                Err(ErrV::InvalidExpression)
            },
            None => {
                if ts[0].len() == 1 && ts[0][0] == '(' && ts.last().len() == 1 && ts.last()[0]
                    == ')' {
                    spec_build(ts.subrange(1, ts.len() - 1))
                } else {
                    Err(ErrV::InvalidExpression)
                }
            },
        }
    }
}

/// Scans `tokens[lo..hi]` for the pass's last operator token at
/// parenthesis depth zero.
fn find_op(tokens: &Vec<Vec<char>>, lo: usize, hi: usize, muldiv: bool) -> (r: Option<usize>)
    requires
        lo <= hi <= tokens@.len(),
    ensures
        ({
            let sub = tokens_view(tokens@).subrange(lo as int, hi as int);
            match r {
                Some(i) => lo <= i < hi && find_last_op(sub, muldiv) == Some(i - lo),
                None => find_last_op(sub, muldiv) is None,
            }
        }),
{
    let ghost sub = tokens_view(tokens@).subrange(lo as int, hi as int);
    let mut best: usize = hi;
    let mut depth: i128 = 0;
    let mut j: usize = lo;
    while j < hi
        invariant
            lo <= j <= hi <= tokens@.len(),
            sub == tokens_view(tokens@).subrange(lo as int, hi as int),
            depth == depth_before(sub, j - lo),
            -((j - lo) as int) <= depth <= (j - lo) as int,
            best == hi || (lo <= best < j && is_split_at(sub, best - lo, muldiv) && forall|q: int|
                best - lo < q < j - lo ==> !is_split_at(sub, q, muldiv)),
            best == hi ==> forall|q: int| 0 <= q < j - lo ==> !is_split_at(sub, q, muldiv),
        decreases hi - j,
    {
        let t = &tokens[j];
        proof {
            assert(sub[j - lo] == tokens@[j as int]@);
        }
        let single = t.len() == 1;
        let hit = depth == 0 && single && (if muldiv {
            t[0] == '*' || t[0] == '/'
        } else {
            t[0] == '+' || t[0] == '-'
        });
        if hit {
            best = j;
        }
        if single && t[0] == '(' {
            depth += 1;
        } else if single && t[0] == ')' {
            depth -= 1;
        }
        j += 1;
    }
    proof {
        if best < hi {
            lemma_find_from_props(sub, sub.len() - 1, muldiv);
            assert(find_last_op(sub, muldiv) == Some(best - lo));
        } else {
            lemma_find_from_props(sub, sub.len() - 1, muldiv);
        }
    }
    if best < hi {
        Some(best)
    } else {
        None
    }
}

/// Builds the expression for `tokens[lo..hi]` as `spec_build` says.
pub fn build_expression(tokens: &Vec<Vec<char>>, lo: usize, hi: usize) -> (r: Result<
    Expr,
    CalculatorError,
>)
    requires
        lo <= hi <= tokens@.len(),
    ensures
        ({
            let sb = spec_build(tokens_view(tokens@).subrange(lo as int, hi as int));
            match r {
                Ok(e) => sb == Ok::<ExprV, ErrV>(view_expr(e)) && wf_expr(e),
                Err(er) => sb == Err::<ExprV, ErrV>(er@),
            }
        }),
    decreases hi - lo,
{
    let ghost sub = tokens_view(tokens@).subrange(lo as int, hi as int);
    if lo == hi {
        return Err(CalculatorError::MissingOperand);
    }
    if hi - lo == 1 {
        proof {
            assert(sub[0] == tokens@[lo as int]@);
        }
        return parse_atom(&tokens[lo]);
    }
    let split = match find_op(tokens, lo, hi, false) {
        Some(i) => Some(i),
        None => find_op(tokens, lo, hi, true),
    };
    match split {
        Some(i) => {
            proof {
                assert(sub.subrange(0, i - lo) =~= tokens_view(tokens@).subrange(
                    lo as int,
                    i as int,
                ));
                assert(sub.subrange(i - lo + 1, sub.len() as int) =~= tokens_view(
                    tokens@,
                ).subrange(i as int + 1, hi as int));
                assert(sub[i - lo] == tokens@[i as int]@);
            }
            let left = match build_expression(tokens, lo, i) {
                Ok(e) => e,
                Err(e) => {
                    return Err(e);
                },
            };
            let right = match build_expression(tokens, i + 1, hi) {
                Ok(e) => e,
                Err(e) => {
                    return Err(e);
                },
            };
            let t = &tokens[i];
            if t.len() == 1 && t[0] == '+' {
                Ok(Expr::Add(Box::new(left), Box::new(right)))
            } else if t.len() == 1 && t[0] == '-' {
                Ok(Expr::Subtract(Box::new(left), Box::new(right)))
            } else if t.len() == 1 && t[0] == '*' {
                Ok(Expr::Multiply(Box::new(left), Box::new(right)))
            } else if t.len() == 1 && t[0] == '/' {
                Ok(Expr::Divide(Box::new(left), Box::new(right)))
            } else {
                Err(CalculatorError::InvalidExpression)
            }
        },
        None => {
            let first = &tokens[lo];
            let last = &tokens[hi - 1];
            proof {
                assert(sub[0] == tokens@[lo as int]@);
                assert(sub.last() == tokens@[hi - 1]@);
            }
            if first.len() == 1 && first[0] == '(' && last.len() == 1 && last[0] == ')' {
                proof {
                    assert(sub.subrange(1, sub.len() - 1) =~= tokens_view(tokens@).subrange(
                        lo as int + 1,
                        hi as int - 1,
                    ));
                }
                build_expression(tokens, lo + 1, hi - 1)
            } else {
                Err(CalculatorError::InvalidExpression)
            }
        },
    }
}

/// What a stretch of characters parses to: its tokens, built.
pub open spec fn spec_parse_expression(s: Seq<char>) -> Result<ExprV, ErrV> {
    match spec_tokenize(s) {
        Err(e) => Err(e),
        Ok(ts) => spec_build(ts),
    }
}

/// Tokenizes and builds `chars` as `spec_parse_expression` says.
pub fn parse_expression(chars: &Vec<char>) -> (r: Result<Expr, CalculatorError>)
    ensures
        ({
            let sp = spec_parse_expression(chars@);
            match r {
                Ok(e) => sp == Ok::<ExprV, ErrV>(view_expr(e)) && wf_expr(e),
                Err(er) => sp == Err::<ExprV, ErrV>(er@),
            }
        }),
{
    let ts = match tokenize(chars) {
        Ok(ts) => ts,
        Err(e) => {
            return Err(e);
        },
    };
    proof {
        assert(tokens_view(ts@).subrange(0, tokens_view(ts@).len() as int) =~= tokens_view(ts@));
    }
    build_expression(&ts, 0, ts.len())
}

/// What a whole line parses to. The line is trimmed; an empty line is an
/// invalid expression. The first `=` splits an assignment: its left side,
/// trimmed, is the target and must be non-empty; its right side, trimmed,
/// must be non-empty and parses as the assigned expression. A line
/// without `=` parses as an expression.
pub open spec fn spec_parse(s: Seq<char>) -> Result<ExprV, ErrV> {
    let t = spec_trim(s);
    if t.len() == 0 {
        Err(ErrV::InvalidExpression)
    } else {
        let ep = char_pos(t, '=');
        if ep < t.len() {
            let var = spec_trim(t.subrange(0, ep));
            if var.len() == 0 {
                Err(ErrV::InvalidExpression)
            } else {
                let rhs = spec_trim(t.subrange(ep + 1, t.len() as int));
                if rhs.len() == 0 {
                    Err(ErrV::MissingOperand)
                } else {
                    match spec_parse_expression(rhs) {
                        Ok(e) => Ok(ExprV::Assign(var, Box::new(e))),
                        Err(er) => Err(er),
                    }
                }
            }
        } else {
            spec_parse_expression(t)
        }
    }
}

impl Calculator {
    /// Parses one line of input as `spec_parse` says: into a well-formed
    /// expression tree, or the error the line deserves.
    pub fn parse(&self, input: &str) -> (r: Result<Expr, CalculatorError>)
        ensures
            ({
                let sp = spec_parse(input@);
                match r {
                    Ok(e) => sp == Ok::<ExprV, ErrV>(view_expr(e)) && wf_expr(e),
                    Err(er) => sp == Err::<ExprV, ErrV>(er@),
                }
            }),
    {
        let raw = str_to_chars(input);
        let trimmed = trim_chars(&raw);
        if trimmed.len() == 0 {
            return Err(CalculatorError::InvalidExpression);
        }
        // Find the first `=`, if any.
        let n = trimmed.len();
        let mut eq: usize = n;
        let mut j: usize = 0;
        while j < n
            invariant
                j <= n,
                n == trimmed@.len(),
                eq == n || (eq < j && trimmed@[eq as int] == '='),
                forall|m: int| 0 <= m < j && m < eq ==> trimmed@[m] != '=',
            decreases n - j,
        {
            if eq == n && trimmed[j] == '=' {
                eq = j;
            }
            j += 1;
        }
        proof {
            if eq < n {
                lemma_char_pos(trimmed@, '=', eq as int);
            } else {
                lemma_char_pos(trimmed@, '=', n as int);
            }
        }
        if eq < n {
            let lhs = sub_chars(&trimmed, 0, eq);
            let var = trim_chars(&lhs);
            if var.len() == 0 {
                return Err(CalculatorError::InvalidExpression);
            }
            let rhs_raw = sub_chars(&trimmed, eq + 1, n);
            let rhs = trim_chars(&rhs_raw);
            if rhs.len() == 0 {
                return Err(CalculatorError::MissingOperand);
            }
            match parse_expression(&rhs) {
                Ok(e) => Ok(Expr::Assign(var, Box::new(e))),
                Err(e) => Err(e),
            }
        } else {
            parse_expression(&trimmed)
        }
    }
}

} // verus!
