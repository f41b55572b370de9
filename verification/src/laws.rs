//! The laws of the library, proved once and for all inputs: what holds of
//! parsing and evaluating whole lines, not just of single calls.

use vstd::prelude::*;
use crate::atom::{
    is_literal, lit_num, lit_den, lit_body, lit_mant, lit_int_part, lit_frac_part, lit_exp_str,
    lit_exp_digits, exp_pos, exp_sign_len, sign_len, is_digit, is_exp_char, char_pos,
    lemma_char_pos, lemma_char_pos_props, lemma_exp_pos_props,
};
use crate::errors::ErrV;
use crate::eval::{StoreV, spec_eval, spec_find};
use crate::expr::ExprV;
use crate::parse::{spec_parse, spec_build};
use crate::token::{spec_trim, spec_tokenize, spec_tokenize_from, is_space_char};
use crate::value::fits;

verus! {

/// Every character of a literal is a sign, a digit, the decimal point,
/// or an exponent marker.
proof fn lemma_literal_chars(s: Seq<char>)
    requires
        is_literal(s),
    ensures
        forall|j: int|
            0 <= j < s.len() ==> (s[j] == '+' || s[j] == '-' || s[j] == '.' || s[j] == 'e' || s[j]
                == 'E' || is_digit(#[trigger] s[j])),
{
    let b = lit_body(s);
    let sl = sign_len(s);
    let mant = lit_mant(s);
    let ei = exp_pos(b);
    let k = char_pos(mant, '.');
    lemma_exp_pos_props(b);
    lemma_char_pos_props(mant, '.');
    assert forall|j: int|
        0 <= j < s.len() implies (s[j] == '+' || s[j] == '-' || s[j] == '.' || s[j] == 'e' || s[j]
        == 'E' || is_digit(#[trigger] s[j])) by {
        if j >= sl {
            let m = j - sl;
            assert(b[m] == s[j]);
            if m < ei {
                assert(mant[m] == b[m]);
                if m < k {
                    assert(lit_int_part(s)[m] == mant[m]);
                    assert(is_digit(mant[m]));
                } else if m == k {
                    assert(mant[k] == '.');
                } else {
                    assert(lit_frac_part(s)[m - k - 1] == mant[m]);
                    assert(is_digit(mant[m]));
                }
            } else if m == ei {
                assert(is_exp_char(b[ei]));
            } else {
                let es = lit_exp_str(s);
                let esl = exp_sign_len(s);
                let p = m - ei - 1;
                assert(es[p] == b[m]);
                if p >= esl {
                    assert(lit_exp_digits(s)[p - esl] == es[p]);
                    assert(is_digit(es[p]));
                }
            }
        }
    }
}

/// Tokenizing a stretch with no spaces and no parentheses yields the one
/// token that is the stretch itself, appended to whatever was pending.
proof fn lemma_tokenize_plain(s: Seq<char>, i: int, cur: Seq<char>, acc: Seq<Seq<char>>)
    requires
        0 <= i <= s.len(),
        forall|j: int| i <= j < s.len() ==> s[j] != ' ' && s[j] != '(' && s[j] != ')',
    ensures
        spec_tokenize_from(s, i, cur, 0, acc) == (if cur.len() + (s.len() - i) > 0 {
            Ok::<Seq<Seq<char>>, ErrV>(acc.push(cur + s.subrange(i, s.len() as int)))
        } else {
            Ok::<Seq<Seq<char>>, ErrV>(acc)
        }),
    decreases s.len() - i,
{
    if i == s.len() {
        assert(cur + s.subrange(i, s.len() as int) =~= cur);
    } else {
        lemma_tokenize_plain(s, i + 1, cur.push(s[i]), acc);
        assert(cur.push(s[i]) + s.subrange(i + 1, s.len() as int) =~= cur + s.subrange(
            i,
            s.len() as int,
        ));
    }
}

/// For all valid numeric literals that fit the value bound: parsing the
/// literal as a line yields the number node with the literal's exact
/// rational value, and evaluating it yields that value and leaves any
/// store unchanged.
pub proof fn lemma_literal_round_trip(s: Seq<char>, m: StoreV)
    requires
        is_literal(s),
        fits(lit_num(s), lit_den(s)),
    ensures
        spec_parse(s) == Ok::<ExprV, ErrV>(ExprV::Number { n: lit_num(s), d: lit_den(s) }),
        spec_eval(ExprV::Number { n: lit_num(s), d: lit_den(s) }, m) == (
            Ok::<(int, int), ErrV>((lit_num(s), lit_den(s))),
            m,
        ),
{
    lemma_literal_chars(s);
    assert(s.len() > 0);
    // No character of a literal is a space, so trimming keeps it whole.
    assert(!is_space_char(s[0]));
    assert(!is_space_char(s.last()));
    assert(spec_trim(s) == s);
    // No character of a literal is `=`, so the line is no assignment.
    lemma_char_pos(s, '=', s.len() as int);
    // No character is a space or a parenthesis, so the line is one token.
    lemma_tokenize_plain(s, 0, Seq::empty(), Seq::empty());
    let ts = Seq::<Seq<char>>::empty().push(Seq::<char>::empty() + s);
    assert(s.subrange(0, s.len() as int) =~= s);
    assert(Seq::<char>::empty() + s =~= s);
    assert(spec_tokenize(s) == Ok::<Seq<Seq<char>>, ErrV>(ts));
    assert(ts.len() == 1);
    assert(ts[0] == s);
    assert(spec_build(ts) == Ok::<ExprV, ErrV>(ExprV::Number { n: lit_num(s), d: lit_den(s) }));
}

/// Assignment round-trip: when an assignment to `name` succeeds, reading
/// `name` right afterwards yields the assigned value and changes nothing.
pub proof fn lemma_assign_then_lookup(name: Seq<char>, e: ExprV, m: StoreV)
    requires
        spec_eval(ExprV::Assign(name, Box::new(e)), m).0 is Ok,
    ensures
        ({
            let (r, m1) = spec_eval(ExprV::Assign(name, Box::new(e)), m);
            spec_eval(ExprV::Identifier(name), m1) == (r, m1)
        }),
{
}

/// Re-assignment overwrites: after a second successful assignment to the
/// same name, reading the name yields the second value.
pub proof fn lemma_reassign_overwrites(name: Seq<char>, e1: ExprV, e2: ExprV, m: StoreV)
    requires
        spec_eval(ExprV::Assign(name, Box::new(e1)), m).0 is Ok,
        ({
            let m1 = spec_eval(ExprV::Assign(name, Box::new(e1)), m).1;
            spec_eval(ExprV::Assign(name, Box::new(e2)), m1).0 is Ok
        }),
    ensures
        ({
            let m1 = spec_eval(ExprV::Assign(name, Box::new(e1)), m).1;
            let (r2, m2) = spec_eval(ExprV::Assign(name, Box::new(e2)), m1);
            spec_eval(ExprV::Identifier(name), m2) == (r2, m2)
        }),
{
}

/// An identifier never assigned to fails with `VariableNotFound` carrying
/// that very name, and nothing else; the store is untouched.
pub proof fn lemma_unknown_identifier(name: Seq<char>, m: StoreV)
    requires
        spec_find(m, name) is None,
    ensures
        spec_eval(ExprV::Identifier(name), m) == (
            Err::<(int, int), ErrV>(ErrV::VariableNotFound(name)),
            m,
        ),
{
}

/// A division whose right operand evaluates to zero fails with
/// `DivisionByZero` and no other error, without evaluating the left
/// operand: the store is the one the right operand left behind.
pub proof fn lemma_division_by_zero(l: ExprV, r: ExprV, m: StoreV, d: int)
    requires
        spec_eval(r, m).0 == Ok::<(int, int), ErrV>((0, d)),
    ensures
        spec_eval(ExprV::Divide(Box::new(l), Box::new(r)), m) == (
            Err::<(int, int), ErrV>(ErrV::DivisionByZero),
            spec_eval(r, m).1,
        ),
{
}

/// A line that trims to nothing fails with `InvalidExpression`.
pub proof fn lemma_empty_input(s: Seq<char>)
    requires
        spec_trim(s).len() == 0,
    ensures
        spec_parse(s) == Err::<ExprV, ErrV>(ErrV::InvalidExpression),
{
}

} // verus!
