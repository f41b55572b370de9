//! The evaluator: walks an expression tree against a mutable variable
//! store, producing a rational result or a runtime error.
//!
//! The spec function `spec_eval` is the semantics: it fixes, for every
//! expression and store, both the outcome and the store afterwards, down to
//! the order errors are raised in (left operand first, except that division
//! checks its right operand before its left one).

use vstd::prelude::*;
use crate::errors::{CalculatorError, ErrV};
use crate::expr::{Expr, ExprV, view_expr, wf_expr};
use crate::value::{
    Value, valid_value, fits, rat_add, rat_sub, rat_mul, rat_div, value_add, value_sub, value_mul,
    value_div,
};

verus! {

/// The spec-level variable store: the history of assignments, later
/// entries overriding earlier ones with the same name.
pub type StoreV = Seq<(Seq<char>, (int, int))>;

/// The value last assigned to `name`, if any.
pub open spec fn spec_find(m: StoreV, name: Seq<char>) -> Option<(int, int)>
    decreases m.len(),
{
    if m.len() == 0 {
        None
    } else if m.last().0 == name {
        Some(m.last().1)
    } else {
        spec_find(m.drop_last(), name)
    }
}

/// A fitting pair is a value; one out of bounds is an overflow.
pub open spec fn spec_pack(p: (int, int)) -> Result<(int, int), ErrV> {
    if fits(p.0, p.1) {
        Ok(p)
    } else {
        Err(ErrV::Overflow)
    }
}

/// The semantics of evaluation: the outcome (a rational pair or an error)
/// and the store after the walk, which keeps every assignment made before
/// the first error.
pub open spec fn spec_eval(e: ExprV, m: StoreV) -> (Result<(int, int), ErrV>, StoreV)
    decreases e,
{
    match e {
        ExprV::Number { n, d } => (Ok((n, d)), m),
        ExprV::Identifier(name) => match spec_find(m, name) {
            Some(p) => (Ok(p), m),
            None => (Err(ErrV::VariableNotFound(name)), m),
        },
        ExprV::Add(l, r) => {
            let (rl, m1) = spec_eval(*l, m);
            match rl {
                Err(e) => (Err(e), m1),
                Ok(p1) => {
                    let (rr, m2) = spec_eval(*r, m1);
                    match rr {
                        Err(e) => (Err(e), m2),
                        Ok(p2) => (spec_pack(rat_add(p1.0, p1.1, p2.0, p2.1)), m2),
                    }
                },
            }
        },
        ExprV::Subtract(l, r) => {
            let (rl, m1) = spec_eval(*l, m);
            match rl {
                Err(e) => (Err(e), m1),
                Ok(p1) => {
                    let (rr, m2) = spec_eval(*r, m1);
                    match rr {
                        Err(e) => (Err(e), m2),
                        Ok(p2) => (spec_pack(rat_sub(p1.0, p1.1, p2.0, p2.1)), m2),
                    }
                },
            }
        },
        ExprV::Multiply(l, r) => {
            let (rl, m1) = spec_eval(*l, m);
            match rl {
                Err(e) => (Err(e), m1),
                Ok(p1) => {
                    let (rr, m2) = spec_eval(*r, m1);
                    match rr {
                        Err(e) => (Err(e), m2),
                        Ok(p2) => (spec_pack(rat_mul(p1.0, p1.1, p2.0, p2.1)), m2),
                    }
                },
            }
        },
        ExprV::Divide(l, r) => {
            let (rr, m1) = spec_eval(*r, m);
            match rr {
                Err(e) => (Err(e), m1),
                Ok(p2) => if p2.0 == 0 {
                    (Err(ErrV::DivisionByZero), m1)
                } else {
                    let (rl, m2) = spec_eval(*l, m1);
                    match rl {
                        Err(e) => (Err(e), m2),
                        Ok(p1) => (spec_pack(rat_div(p1.0, p1.1, p2.0, p2.1)), m2),
                    }
                },
            }
        },
        ExprV::Assign(name, inner) => {
            let (ri, m1) = spec_eval(*inner, m);
            match ri {
                Err(e) => (Err(e), m1),
                Ok(p) => (Ok(p), m1.push((name, p))),
            }
        },
    }
}

/// The calculator: the variable store, as the sequence of assignments
/// made so far.
pub struct Calculator {
    pub entries: Vec<(Vec<char>, Value)>,
}

/// The spec-level store an entry sequence stands for.
pub open spec fn store_view(entries: Seq<(Vec<char>, Value)>) -> StoreV {
    entries.map_values(|p: (Vec<char>, Value)| (p.0@, (p.1.num as int, p.1.den as int)))
}

/// Every stored value satisfies the value invariant.
pub open spec fn wf_store(entries: Seq<(Vec<char>, Value)>) -> bool {
    forall|i: int| 0 <= i < entries.len() ==> valid_value(#[trigger] entries[i].1)
}

impl View for Calculator {
    type V = StoreV;

    open spec fn view(&self) -> StoreV {
        store_view(self.entries@)
    }
}

/// Character-by-character equality of two names.
fn chars_eq(a: &Vec<char>, b: &Vec<char>) -> (r: bool)
    ensures
        r == (a@ == b@),
{
    if a.len() != b.len() {
        return false;
    }
    let mut i: usize = 0;
    while i < a.len()
        invariant
            i <= a.len(),
            a.len() == b.len(),
            forall|j: int| 0 <= j < i ==> a@[j] == b@[j],
        decreases a.len() - i,
    {
        if a[i] != b[i] {
            return false;
        }
        i += 1;
    }
    proof {
        assert(a@ =~= b@);
    }
    true
}

/// The value last assigned under `name`, if any.
fn find_var(entries: &Vec<(Vec<char>, Value)>, name: &Vec<char>) -> (r: Option<Value>)
    requires
        wf_store(entries@),
    ensures
        match r {
            Some(v) => valid_value(v) && spec_find(store_view(entries@), name@) == Some(
                (v.num as int, v.den as int),
            ),
            None => spec_find(store_view(entries@), name@) is None,
        },
{
    let ghost sv = store_view(entries@);
    let mut i: usize = entries.len();
    proof {
        assert(sv.take(i as int) =~= sv);
    }
    while i > 0
        invariant
            i <= entries.len(),
            wf_store(entries@),
            sv == store_view(entries@),
            spec_find(sv.take(i as int), name@) == spec_find(sv, name@),
        decreases i,
    {
        i -= 1;
        if chars_eq(&entries[i].0, name) {
            proof {
                assert(sv.take(i as int + 1).last() == sv[i as int]);
            }
            return Some(entries[i].1);
        }
        proof {
            assert(sv.take(i as int + 1).drop_last() =~= sv.take(i as int));
        }
    }
    proof {
        assert(sv.take(0) =~= Seq::<(Seq<char>, (int, int))>::empty());
    }
    None
}

impl Calculator {
    /// A calculator with an empty variable store.
    pub fn new() -> (r: Calculator)
        ensures
            r@ =~= Seq::<(Seq<char>, (int, int))>::empty(),
            wf_store(r.entries@),
    {
        let r = Calculator { entries: Vec::new() };
        proof {
            assert(r@ =~= Seq::<(Seq<char>, (int, int))>::empty());
        }
        r
    }

    /// Evaluates `expr` against the store. The result and the store
    /// afterwards are exactly what `spec_eval` says; in particular a failed
    /// assignment performs no mutation of its own, and every assignment
    /// made before the first error is kept.
    pub fn evaluate(&mut self, expr: &Expr) -> (r: Result<Value, CalculatorError>)
        requires
            wf_expr(*expr),
            wf_store(old(self).entries@),
        ensures
            wf_store(final(self).entries@),
            ({
                let (sr, sm) = spec_eval(view_expr(*expr), old(self)@);
                final(self)@ == sm && (match (r, sr) {
                    (Ok(v), Ok(p)) => valid_value(v) && v.num as int == p.0 && v.den as int == p.1,
                    (Err(e), Err(se)) => e@ == se,
                    _ => false,
                })
            }),
        decreases *expr,
    {
        match expr {
            Expr::Number(v) => Ok(*v),
            Expr::Identifier(name) => match find_var(&self.entries, name) {
                Some(v) => Ok(v),
                None => Err(CalculatorError::VariableNotFound(name.clone())),
            },
            Expr::Add(lhs, rhs) => {
                let lv = match self.evaluate(lhs) {
                    Ok(v) => v,
                    Err(e) => {
                        return Err(e);
                    },
                };
                let rv = match self.evaluate(rhs) {
                    Ok(v) => v,
                    Err(e) => {
                        return Err(e);
                    },
                };
                value_add(&lv, &rv)
            },
            Expr::Subtract(lhs, rhs) => {
                let lv = match self.evaluate(lhs) {
                    Ok(v) => v,
                    Err(e) => {
                        return Err(e);
                    },
                };
                let rv = match self.evaluate(rhs) {
                    Ok(v) => v,
                    Err(e) => {
                        return Err(e);
                    },
                };
                value_sub(&lv, &rv)
            },
            Expr::Multiply(lhs, rhs) => {
                let lv = match self.evaluate(lhs) {
                    Ok(v) => v,
                    Err(e) => {
                        return Err(e);
                    },
                };
                let rv = match self.evaluate(rhs) {
                    Ok(v) => v,
                    Err(e) => {
                        return Err(e);
                    },
                };
                value_mul(&lv, &rv)
            },
            Expr::Divide(lhs, rhs) => {
                let rv = match self.evaluate(rhs) {
                    Ok(v) => v,
                    Err(e) => {
                        return Err(e);
                    },
                };
                if rv.is_zero() {
                    return Err(CalculatorError::DivisionByZero);
                }
                let lv = match self.evaluate(lhs) {
                    Ok(v) => v,
                    Err(e) => {
                        return Err(e);
                    },
                };
                value_div(&lv, &rv)
            },
            Expr::Assign(name, inner) => {
                let v = match self.evaluate(inner) {
                    Ok(v) => v,
                    Err(e) => {
                        return Err(e);
                    },
                };
                let ghost before = self.entries@;
                self.entries.push((name.clone(), v));
                proof {
                    assert(store_view(self.entries@) =~= store_view(before).push(
                        (name@, (v.num as int, v.den as int)),
                    ));
                }
                Ok(v)
            },
        }
    }
}

} // verus!
