//! Atom parsing: a single token becomes a number or an identifier.
//!
//! A token is a number when it is a decimal literal: an optional sign,
//! digits with at most one decimal point and at least one digit, and an
//! optional exponent (`e` or `E`, an optional sign, and digits). Its value
//! is the exact rational `digits * 10^(exponent - fractional digits)`; a
//! literal whose numerator or denominator would leave the value bound is
//! rejected as a malformed token. A token of alphabetic characters is an
//! identifier — so `inf` and `nan`, having no digits, are identifiers, not
//! numbers. Anything else is a parse error carrying the token text.

use vstd::prelude::*;
use crate::errors::{CalculatorError, ErrV};
use crate::expr::{Expr, ExprV, view_expr, wf_expr};
use crate::value::{Value, BOUND, fits, valid_value};

verus! {

/// Is `c` a decimal digit?
pub open spec fn is_digit(c: char) -> bool {
    ('0' as u32) <= (c as u32) && (c as u32) <= ('9' as u32)
}

/// The numeric value of a digit.
pub open spec fn digit_val(c: char) -> int {
    (c as u32) - ('0' as u32)
}

/// Every character of `s` is a digit.
pub open spec fn all_digits(s: Seq<char>) -> bool {
    forall|i: int| 0 <= i < s.len() ==> is_digit(#[trigger] s[i])
}

/// Whether `c` has the Unicode Alphabetic property. What that property
/// holds of takes pages to state; the name stands for it, and the trusted
/// wrapper below ties it to the standard library.
pub uninterp spec fn is_alphabetic_char(c: char) -> bool;

/// Relies on char::is_alphabetic: whether `c` has the Unicode Alphabetic
/// property, a function of the character alone.
#[verifier::external_body]
fn is_alpha_exec(c: char) -> (r: bool)
    ensures
        r == is_alphabetic_char(c),
{
    c.is_alphabetic()
}

/// Every character of `s` is alphabetic. Vacuously true of the empty
/// token.
pub open spec fn all_alpha(s: Seq<char>) -> bool {
    forall|i: int| 0 <= i < s.len() ==> is_alphabetic_char(#[trigger] s[i])
}

/// The value of a digit string, most significant digit first.
pub open spec fn digits_value(s: Seq<char>) -> int
    decreases s.len(),
{
    if s.len() == 0 {
        0
    } else {
        digits_value(s.drop_last()) * 10 + digit_val(s.last())
    }
}

/// `10^k`.
pub open spec fn pow10(k: nat) -> int
    decreases k,
{
    if k == 0 {
        1
    } else {
        pow10((k - 1) as nat) * 10
    }
}

/// The position of the first occurrence of `c` in `s`, or `s.len()` when
/// there is none.
pub open spec fn char_pos(s: Seq<char>, c: char) -> int
    decreases s.len(),
{
    if s.len() == 0 {
        0
    } else if s[0] == c {
        0
    } else {
        1 + char_pos(s.drop_first(), c)
    }
}

/// Pins `char_pos` down: a position whose prefix is free of `c`, and which
/// holds `c` unless it is the end, is the first occurrence.
pub proof fn lemma_char_pos(s: Seq<char>, c: char, k: int)
    requires
        0 <= k <= s.len(),
        forall|j: int| 0 <= j < k ==> s[j] != c,
        k < s.len() ==> s[k] == c,
    ensures
        char_pos(s, c) == k,
    decreases s.len(),
{
    if s.len() > 0 && s[0] != c {
        lemma_char_pos(s.drop_first(), c, k - 1);
    }
}

/// What `char_pos` guarantees of itself: it lies in `[0, len]`, it points
/// at `c` when it is not the end, and nothing before it is `c`.
pub proof fn lemma_char_pos_props(s: Seq<char>, c: char)
    ensures
        0 <= char_pos(s, c) <= s.len(),
        char_pos(s, c) < s.len() ==> s[char_pos(s, c)] == c,
        forall|j: int| 0 <= j < char_pos(s, c) ==> s[j] != c,
    decreases s.len(),
{
    if s.len() > 0 && s[0] != c {
        lemma_char_pos_props(s.drop_first(), c);
        assert forall|j: int| 0 <= j < char_pos(s, c) implies s[j] != c by {
            if j > 0 {
                assert(s.drop_first()[j - 1] == s[j]);
            }
        }
    }
}

/// Is `c` an exponent marker?
pub open spec fn is_exp_char(c: char) -> bool {
    c == 'e' || c == 'E'
}

/// The position of the first exponent marker in `s`, or `s.len()` when
/// there is none.
pub open spec fn exp_pos(s: Seq<char>) -> int
    decreases s.len(),
{
    if s.len() == 0 {
        0
    } else if is_exp_char(s[0]) {
        0
    } else {
        1 + exp_pos(s.drop_first())
    }
}

/// Pins `exp_pos` down, as `lemma_char_pos` does for `char_pos`.
pub proof fn lemma_exp_pos(s: Seq<char>, k: int)
    requires
        0 <= k <= s.len(),
        forall|j: int| 0 <= j < k ==> !is_exp_char(#[trigger] s[j]),
        k < s.len() ==> is_exp_char(s[k]),
    ensures
        exp_pos(s) == k,
    decreases s.len(),
{
    if s.len() > 0 && !is_exp_char(s[0]) {
        lemma_exp_pos(s.drop_first(), k - 1);
    }
}

/// What `exp_pos` guarantees of itself.
pub proof fn lemma_exp_pos_props(s: Seq<char>)
    ensures
        0 <= exp_pos(s) <= s.len(),
        exp_pos(s) < s.len() ==> is_exp_char(s[exp_pos(s)]),
        forall|j: int| 0 <= j < exp_pos(s) ==> !is_exp_char(#[trigger] s[j]),
    decreases s.len(),
{
    if s.len() > 0 && !is_exp_char(s[0]) {
        lemma_exp_pos_props(s.drop_first());
        assert forall|j: int| 0 <= j < exp_pos(s) implies !is_exp_char(#[trigger] s[j]) by {
            if j > 0 {
                assert(s.drop_first()[j - 1] == s[j]);
            }
        }
    }
}

/// A digit string has a non-negative value.
proof fn lemma_digits_nonneg(s: Seq<char>)
    requires
        all_digits(s),
    ensures
        digits_value(s) >= 0,
    decreases s.len(),
{
    if s.len() > 0 {
        assert(all_digits(s.drop_last()));
        lemma_digits_nonneg(s.drop_last());
    }
}

/// `pow10` is positive and monotone.
pub proof fn lemma_pow10_mono(i: nat, j: nat)
    requires
        i <= j,
    ensures
        1 <= pow10(i) <= pow10(j),
    decreases j,
{
    if j > 0 {
        if i == j {
            lemma_pow10_mono(0, (j - 1) as nat);
        } else {
            lemma_pow10_mono(i, (j - 1) as nat);
        }
    }
}

/// The length of the sign prefix of a token: 1 when it starts with `+`
/// or `-`, else 0.
pub open spec fn sign_len(s: Seq<char>) -> int {
    if s.len() > 0 && (s[0] == '+' || s[0] == '-') {
        1
    } else {
        0
    }
}

/// The token without its sign.
pub open spec fn lit_body(s: Seq<char>) -> Seq<char> {
    s.subrange(sign_len(s), s.len() as int)
}

/// The mantissa: what stands before the first exponent marker.
pub open spec fn lit_mant(s: Seq<char>) -> Seq<char> {
    let b = lit_body(s);
    b.subrange(0, exp_pos(b))
}

/// Does the body hold an exponent marker?
pub open spec fn has_exp(s: Seq<char>) -> bool {
    exp_pos(lit_body(s)) < lit_body(s).len()
}

/// What follows the exponent marker; empty when there is none.
pub open spec fn lit_exp_str(s: Seq<char>) -> Seq<char> {
    let b = lit_body(s);
    let ei = exp_pos(b);
    if ei < b.len() {
        b.subrange(ei + 1, b.len() as int)
    } else {
        Seq::empty()
    }
}

/// The length of the exponent's own sign prefix.
pub open spec fn exp_sign_len(s: Seq<char>) -> int {
    let es = lit_exp_str(s);
    if es.len() > 0 && (es[0] == '+' || es[0] == '-') {
        1
    } else {
        0
    }
}

/// Is the exponent negative?
pub open spec fn exp_negative(s: Seq<char>) -> bool {
    let es = lit_exp_str(s);
    es.len() > 0 && es[0] == '-'
}

/// The exponent's digits.
pub open spec fn lit_exp_digits(s: Seq<char>) -> Seq<char> {
    let es = lit_exp_str(s);
    es.subrange(exp_sign_len(s), es.len() as int)
}

/// The digits before the decimal point.
pub open spec fn lit_int_part(s: Seq<char>) -> Seq<char> {
    let m = lit_mant(s);
    m.subrange(0, char_pos(m, '.'))
}

/// The digits after the decimal point, empty when there is none.
pub open spec fn lit_frac_part(s: Seq<char>) -> Seq<char> {
    let m = lit_mant(s);
    let k = char_pos(m, '.');
    if k < m.len() {
        m.subrange(k + 1, m.len() as int)
    } else {
        Seq::empty()
    }
}

/// Is `s` a decimal literal?
pub open spec fn is_literal(s: Seq<char>) -> bool {
    lit_mant(s).len() > 0 && all_digits(lit_int_part(s)) && all_digits(lit_frac_part(s))
        && lit_int_part(s).len() + lit_frac_part(s).len() > 0 && (!has_exp(s) || (lit_exp_digits(
        s,
    ).len() > 0 && all_digits(lit_exp_digits(s))))
}

/// The signed value of the exponent; zero when there is none.
pub open spec fn lit_exp_val(s: Seq<char>) -> int {
    let v = digits_value(lit_exp_digits(s));
    if exp_negative(s) {
        -v
    } else {
        v
    }
}

/// The power-of-ten shift of the literal: its exponent minus the number
/// of fractional digits.
pub open spec fn lit_eff(s: Seq<char>) -> int {
    lit_exp_val(s) - lit_frac_part(s).len()
}

/// The numerator of a literal: its mantissa digits, shifted left by the
/// shift when it is positive, and signed.
pub open spec fn lit_num(s: Seq<char>) -> int {
    let m = digits_value(lit_int_part(s) + lit_frac_part(s));
    let sh = if lit_eff(s) >= 0 {
        m * pow10(lit_eff(s) as nat)
    } else {
        m
    };
    if s.len() > 0 && s[0] == '-' {
        -sh
    } else {
        sh
    }
}

/// The denominator of a literal: one, or ten to the negated shift.
pub open spec fn lit_den(s: Seq<char>) -> int {
    if lit_eff(s) >= 0 {
        1
    } else {
        pow10((-lit_eff(s)) as nat)
    }
}

/// The message carried by a malformed-token parse error.
pub open spec fn invalid_token_msg(tok: Seq<char>) -> Seq<char> {
    "Invalid token: '"@ + tok + "'"@
}

/// What a single token parses to: a number when it is a literal whose
/// value fits, an identifier when it is alphabetic, else a parse error
/// carrying the token.
pub open spec fn spec_atom(tok: Seq<char>) -> Result<ExprV, ErrV> {
    if is_literal(tok) {
        if fits(lit_num(tok), lit_den(tok)) {
            Ok(ExprV::Number { n: lit_num(tok), d: lit_den(tok) })
        } else {
            Err(ErrV::ParseError(invalid_token_msg(tok)))
        }
    } else if all_alpha(tok) {
        Ok(ExprV::Identifier(tok))
    } else {
        Err(ErrV::ParseError(invalid_token_msg(tok)))
    }
}

/// Appends the characters of `src` to `dst`.
pub fn append_chars(dst: &mut Vec<char>, src: &Vec<char>)
    ensures
        final(dst)@ =~= old(dst)@ + src@,
{
    let mut i: usize = 0;
    while i < src.len()
        invariant
            i <= src.len(),
            dst@ =~= old(dst)@ + src@.take(i as int),
        decreases src.len() - i,
    {
        dst.push(src[i]);
        proof {
            assert(old(dst)@ + src@.take(i as int + 1) =~= (old(dst)@ + src@.take(i as int)).push(
                src@[i as int],
            ));
        }
        i += 1;
    }
    proof {
        assert(src@.take(src@.len() as int) =~= src@);
    }
}

/// Copies a vector of characters.
pub fn copy_chars(src: &Vec<char>) -> (r: Vec<char>)
    ensures
        r@ =~= src@,
{
    let mut out: Vec<char> = Vec::new();
    proof {
        assert(out@ + src@ =~= src@);
    }
    append_chars(&mut out, src);
    out
}

/// The malformed-token error for `tok`.
pub fn make_invalid_token_err(tok: &Vec<char>) -> (r: CalculatorError)
    ensures
        r@ == ErrV::ParseError(invalid_token_msg(tok@)),
{
    let mut msg = crate::token::str_to_chars("Invalid token: '");
    append_chars(&mut msg, tok);
    let close = crate::token::str_to_chars("'");
    append_chars(&mut msg, &close);
    proof {
        assert(msg@ =~= invalid_token_msg(tok@));
    }
    CalculatorError::ParseError(msg)
}

/// Exec mirror of `is_digit`.
fn is_digit_exec(c: char) -> (r: bool)
    ensures
        r == is_digit(c),
{
    let u = c as u32;
    ('0' as u32) <= u && u <= ('9' as u32)
}

/// `10^k` as a machine integer, for small `k`.
fn pow10_exec(k: usize) -> (r: i64)
    requires
        k <= 17,
    ensures
        r as int == pow10(k as nat),
        1 <= r,
{
    let mut d: i64 = 1;
    let mut q: usize = 0;
    while q < k
        invariant
            q <= k <= 17,
            d as int == pow10(q as nat),
            1 <= d,
        decreases k - q,
    {
        proof {
            lemma_pow10_mono(q as nat, 16);
            reveal_with_fuel(pow10, 18);
            assert(pow10(16) == 10000000000000000);
        }
        d = d * 10;
        q += 1;
    }
    d
}

/// The identifier-or-error half of atom parsing, for a token that is not
/// a literal.
fn parse_atom_word(tok: &Vec<char>) -> (r: Result<Expr, CalculatorError>)
    requires
        !is_literal(tok@),
    ensures
        match r {
            Ok(e) => spec_atom(tok@) == Ok::<ExprV, ErrV>(view_expr(e)) && wf_expr(e),
            Err(e) => spec_atom(tok@) == Err::<ExprV, ErrV>(e@),
        },
{
    let mut i: usize = 0;
    while i < tok.len()
        invariant
            i <= tok.len(),
            !is_literal(tok@),
            forall|j: int| 0 <= j < i ==> is_alphabetic_char(#[trigger] tok@[j]),
        decreases tok.len() - i,
    {
        if !is_alpha_exec(tok[i]) {
            assert(!all_alpha(tok@));
            return Err(make_invalid_token_err(tok));
        }
        i += 1;
    }
    assert(all_alpha(tok@));
    Ok(Expr::Identifier(copy_chars(tok)))
}

/// Parses a single token as `spec_atom` says: a number if it is a fitting
/// decimal literal, an identifier if it is alphabetic, else the
/// malformed-token error.
#[verifier::rlimit(100)]
pub fn parse_atom(tok: &Vec<char>) -> (r: Result<Expr, CalculatorError>)
    ensures
        match r {
            Ok(e) => spec_atom(tok@) == Ok::<ExprV, ErrV>(view_expr(e)) && wf_expr(e),
            Err(e) => spec_atom(tok@) == Err::<ExprV, ErrV>(e@),
        },
{
    let n = tok.len();
    let sl: usize = if n > 0 && (tok[0] == '+' || tok[0] == '-') {
        1
    } else {
        0
    };
    let neg = n > 0 && tok[0] == '-';
    proof {
        assert(sign_len(tok@) == sl as int);
    }
    if n == sl {
        // No body at all: not a literal.
        assert(lit_body(tok@).len() == 0);
        assert(lit_mant(tok@).len() == 0);
        return parse_atom_word(tok);
    }
    let ghost body = lit_body(tok@);
    proof {
        assert(body.len() == n - sl);
    }
    // Find the first exponent marker of the body.
    let mut ee: usize = n;
    let mut j: usize = sl;
    while j < n
        invariant
            sl <= j <= n,
            n == tok@.len(),
            ee == n || (sl <= ee < j && (tok@[ee as int] == 'e' || tok@[ee as int] == 'E')),
            forall|m: int| sl <= m < j && m < ee ==> !is_exp_char(#[trigger] tok@[m]),
        decreases n - j,
    {
        if ee == n && (tok[j] == 'e' || tok[j] == 'E') {
            ee = j;
        }
        j += 1;
    }
    proof {
        if ee < n {
            assert(forall|m: int| 0 <= m < ee - sl ==> !is_exp_char(#[trigger] body[m]));
            lemma_exp_pos(body, ee - sl);
        } else {
            assert(forall|m: int| 0 <= m < body.len() ==> !is_exp_char(#[trigger] body[m]));
            lemma_exp_pos(body, body.len() as int);
        }
    }
    let ghost mant = lit_mant(tok@);
    proof {
        assert(mant =~= tok@.subrange(sl as int, ee as int));
    }
    if ee == sl {
        // Empty mantissa (the token starts with `e`): not a literal.
        assert(lit_mant(tok@).len() == 0);
        return parse_atom_word(tok);
    }
    // Check the exponent part: an optional sign, then at least one digit.
    let ghost estr = lit_exp_str(tok@);
    let mut eneg = false;
    let mut ed_lo: usize = n;
    if ee < n {
        proof {
            assert(estr =~= tok@.subrange(ee as int + 1, n as int));
        }
        let esl: usize = if ee + 1 < n && (tok[ee + 1] == '+' || tok[ee + 1] == '-') {
            1
        } else {
            0
        };
        eneg = ee + 1 < n && tok[ee + 1] == '-';
        ed_lo = ee + 1 + esl;
        proof {
            assert(exp_sign_len(tok@) == esl as int);
            assert(exp_negative(tok@) == eneg);
        }
        if ed_lo == n {
            // An exponent marker without digits: not a literal.
            assert(lit_exp_digits(tok@).len() == 0);
            return parse_atom_word(tok);
        }
        let mut p: usize = ed_lo;
        while p < n
            invariant
                ed_lo <= p <= n,
                n == tok@.len(),
                sl <= ee < ed_lo,
                lit_exp_digits(tok@) =~= tok@.subrange(ed_lo as int, n as int),
                forall|m: int| ed_lo <= m < p ==> is_digit(#[trigger] tok@[m]),
            decreases n - p,
        {
            if !is_digit_exec(tok[p]) {
                proof {
                    assert(lit_exp_digits(tok@)[p - ed_lo] == tok@[p as int]);
                    assert(!all_digits(lit_exp_digits(tok@)));
                }
                return parse_atom_word(tok);
            }
            p += 1;
        }
        proof {
            assert(forall|m: int|
                0 <= m < lit_exp_digits(tok@).len() ==> is_digit(#[trigger] lit_exp_digits(tok@)[m]));
        }
    } else {
        proof {
            assert(estr =~= Seq::<char>::empty());
            assert(lit_exp_digits(tok@) =~= Seq::<char>::empty());
            assert(exp_negative(tok@) == false);
        }
    }
    let ghost edigits = lit_exp_digits(tok@);
    // Find the first decimal point of the mantissa.
    let mut dot: usize = ee;
    let mut j2: usize = sl;
    while j2 < ee
        invariant
            sl <= j2 <= ee <= n,
            n == tok@.len(),
            dot == ee || (sl <= dot < j2 && tok@[dot as int] == '.'),
            forall|m: int| sl <= m < j2 && m < dot ==> tok@[m] != '.',
        decreases ee - j2,
    {
        if dot == ee && tok[j2] == '.' {
            dot = j2;
        }
        j2 += 1;
    }
    proof {
        if dot < ee {
            assert(forall|m: int| 0 <= m < dot - sl ==> mant[m] != '.');
            lemma_char_pos(mant, '.', dot - sl);
        } else {
            assert(forall|m: int| 0 <= m < mant.len() ==> mant[m] != '.');
            lemma_char_pos(mant, '.', mant.len() as int);
        }
    }
    let ghost intp = lit_int_part(tok@);
    let ghost frac = lit_frac_part(tok@);
    proof {
        assert(intp =~= tok@.subrange(sl as int, dot as int));
        if dot < ee {
            assert(frac =~= tok@.subrange(dot as int + 1, ee as int));
        } else {
            assert(frac =~= Seq::<char>::empty());
        }
    }
    let fl: usize = if dot < ee {
        ee - dot - 1
    } else {
        0
    };
    proof {
        assert(intp.len() == dot - sl);
        assert(frac.len() == fl as int);
    }
    // Check that every mantissa character apart from the dot is a digit.
    let mut p2: usize = sl;
    while p2 < ee
        invariant
            sl <= p2 <= ee <= n,
            n == tok@.len(),
            sl as int == sign_len(tok@),
            intp == lit_int_part(tok@),
            frac == lit_frac_part(tok@),
            intp =~= tok@.subrange(sl as int, dot as int),
            dot < ee ==> frac =~= tok@.subrange(dot as int + 1, ee as int),
            dot == ee ==> frac =~= Seq::<char>::empty(),
            sl <= dot <= ee,
            forall|m: int| sl <= m < p2 && m != dot ==> is_digit(#[trigger] tok@[m]),
        decreases ee - p2,
    {
        if p2 != dot {
            if !is_digit_exec(tok[p2]) {
                proof {
                    if p2 < dot {
                        assert(intp[p2 - sl] == tok@[p2 as int]);
                        assert(!all_digits(intp));
                    } else {
                        assert(frac[p2 - dot - 1] == tok@[p2 as int]);
                        assert(!all_digits(frac));
                    }
                    assert(!is_literal(tok@));
                }
                return parse_atom_word(tok);
            }
        }
        p2 += 1;
    }
    proof {
        assert(forall|m: int| 0 <= m < intp.len() ==> is_digit(#[trigger] intp[m]));
        assert(forall|m: int| 0 <= m < frac.len() ==> is_digit(#[trigger] frac[m]));
    }
    if dot == sl && fl == 0 {
        // A lone dot, possibly signed: no mantissa digit anywhere.
        assert(!is_literal(tok@));
        return parse_atom_word(tok);
    }
    assert(is_literal(tok@));
    parse_literal_value(tok, sl, neg, ee, ed_lo, eneg, dot, fl)
}

/// The numeric half of atom parsing: given the decomposition of a token
/// that is a literal, computes its exact rational value, or reports the
/// malformed-token error when the value leaves the bound.
#[verifier::rlimit(100)]
fn parse_literal_value(
    tok: &Vec<char>,
    sl: usize,
    neg: bool,
    ee: usize,
    ed_lo: usize,
    eneg: bool,
    dot: usize,
    fl: usize,
) -> (r: Result<Expr, CalculatorError>)
    requires
        is_literal(tok@),
        sl as int == sign_len(tok@),
        neg == (tok@.len() > 0 && tok@[0] == '-'),
        sl <= dot <= ee <= tok@.len(),
        lit_int_part(tok@) == tok@.subrange(sl as int, dot as int),
        dot < ee ==> lit_frac_part(tok@) == tok@.subrange(dot as int + 1, ee as int),
        dot == ee ==> lit_frac_part(tok@) == Seq::<char>::empty(),
        fl as int == lit_frac_part(tok@).len(),
        dot < ee ==> fl == ee - dot - 1,
        dot == ee ==> fl == 0,
        ee < tok@.len() ==> ee < ed_lo <= tok@.len() && lit_exp_digits(tok@) == tok@.subrange(
            ed_lo as int,
            tok@.len() as int,
        ),
        ee == tok@.len() ==> lit_exp_digits(tok@) == Seq::<char>::empty(),
        exp_negative(tok@) == eneg,
    ensures
        match r {
            Ok(e) => spec_atom(tok@) == Ok::<ExprV, ErrV>(view_expr(e)) && wf_expr(e),
            Err(e) => spec_atom(tok@) == Err::<ExprV, ErrV>(e@),
        },
{
    let n = tok.len();
    let ghost intp = lit_int_part(tok@);
    let ghost frac = lit_frac_part(tok@);
    let ghost edigits = lit_exp_digits(tok@);
    proof {
        assert(intp.len() == dot - sl);
        assert(all_digits(intp));
        assert(all_digits(frac));
        assert(all_digits(edigits));
    }
    let ghost cat = intp + frac;
    let digits: usize = (dot - sl) + fl;
    proof {
        assert(cat.len() == digits as int);
    }
    let mut m: i128 = 0;
    let mut too_big = false;
    let mut cnt: usize = 0;
    while cnt < digits
        invariant
            cnt <= digits,
            n == tok@.len(),
            sl <= dot <= ee <= n,
            digits as int == (dot - sl) + fl,
            fl as int == frac.len(),
            dot < ee ==> fl == ee - dot - 1,
            dot == ee ==> fl == 0,
            intp =~= tok@.subrange(sl as int, dot as int),
            dot < ee ==> frac =~= tok@.subrange(dot as int + 1, ee as int),
            dot == ee ==> frac =~= Seq::<char>::empty(),
            cat == intp + frac,
            all_digits(cat),
            !too_big ==> m == digits_value(cat.subrange(0, cnt as int)) && 0 <= m < (BOUND as i128),
            too_big ==> digits_value(cat.subrange(0, cnt as int)) >= BOUND as int,
        decreases digits - cnt,
    {
        let c = if cnt < dot - sl {
            proof {
                assert(cat[cnt as int] == intp[cnt as int]);
            }
            tok[sl + cnt]
        } else {
            proof {
                assert(cat[cnt as int] == frac[cnt as int - (dot - sl)]);
            }
            tok[sl + cnt + 1]
        };
        proof {
            assert(c == cat[cnt as int]);
            assert(is_digit(cat[cnt as int]));
            assert(cat.subrange(0, cnt as int + 1).drop_last() =~= cat.subrange(0, cnt as int));
            assert(cat.subrange(0, cnt as int + 1).last() == cat[cnt as int]);
        }
        let dv: i128 = (c as u32 - '0' as u32) as i128;
        if too_big {
            proof {
                lemma_digits_nonneg(cat.subrange(0, cnt as int));
            }
        } else {
            let m2: i128 = m * 10 + dv;
            if m2 >= BOUND as i128 {
                too_big = true;
            } else {
                m = m2;
            }
        }
        cnt += 1;
    }
    proof {
        assert(cat.subrange(0, digits as int) =~= cat);
    }
    let ghost effv = lit_eff(tok@);
    if too_big {
        // The mantissa digits alone reach the bound; no shift can make
        // the numerator smaller.
        proof {
            let mt = digits_value(cat);
            if effv >= 0 {
                lemma_pow10_mono(0, effv as nat);
                assert(mt * pow10(effv as nat) >= mt) by (nonlinear_arith)
                    requires
                        mt >= 0,
                        pow10(effv as nat) >= 1,
                ;
            }
            assert(!fits(lit_num(tok@), lit_den(tok@)));
        }
        return Err(make_invalid_token_err(tok));
    }
    // The mantissa value is exact. Compute the exponent value, saturating
    // far past any shift that could still fit.
    let mut ev: i128 = 0;
    let mut ebig = false;
    if ee < n {
        let mut q: usize = ed_lo;
        while q < n
            invariant
                ed_lo <= q <= n,
                n == tok@.len(),
                ee < ed_lo <= n,
                edigits =~= tok@.subrange(ed_lo as int, n as int),
                all_digits(edigits),
                !ebig ==> ev == digits_value(edigits.subrange(0, q - ed_lo)) && 0 <= ev
                    < 100000000000000000000i128,
                ebig ==> digits_value(edigits.subrange(0, q - ed_lo))
                    >= 100000000000000000000i128 as int,
            decreases n - q,
        {
            let c = tok[q];
            proof {
                assert(c == edigits[q - ed_lo]);
                assert(is_digit(edigits[q - ed_lo]));
                assert(edigits.subrange(0, q - ed_lo + 1).drop_last() =~= edigits.subrange(
                    0,
                    q - ed_lo,
                ));
                assert(edigits.subrange(0, q - ed_lo + 1).last() == edigits[q - ed_lo]);
            }
            let dv: i128 = (c as u32 - '0' as u32) as i128;
            if ebig {
                proof {
                    lemma_digits_nonneg(edigits.subrange(0, q - ed_lo));
                }
            } else {
                let e2: i128 = ev * 10 + dv;
                if e2 >= 100000000000000000000i128 {
                    ebig = true;
                } else {
                    ev = e2;
                }
            }
            q += 1;
        }
        proof {
            assert(edigits.subrange(0, edigits.len() as int) =~= edigits);
        }
    } else {
        proof {
            assert(digits_value(edigits) == 0);
        }
    }
    // From here, lit_exp_val is +-digits_value(edigits); ev is that
    // magnitude, exact unless ebig.
    if ebig {
        if eneg {
            // The shift is below -(10^20): the denominator would be
            // astronomically large.
            proof {
                assert(effv <= -(100000000000000000000i128 as int));
                lemma_pow10_mono(18, (-effv) as nat);
                reveal_with_fuel(pow10, 20);
                assert(pow10(18) == 1000000000000000000);
                assert(!fits(lit_num(tok@), lit_den(tok@)));
            }
            return Err(make_invalid_token_err(tok));
        }
        // The shift is above 10^20 - 2^64 > 18.
        proof {
            assert(fl as int <= n as int);
            assert(effv >= 100000000000000000000i128 as int - n as int);
            assert(effv >= 19);
        }
        if m == 0 {
            // Zero shifted by anything is still exactly zero.
            proof {
                assert(digits_value(cat) == 0);
                assert(0 * pow10(effv as nat) == 0) by (nonlinear_arith);
                assert(lit_num(tok@) == 0);
                assert(lit_den(tok@) == 1);
            }
            return Ok(Expr::Number(Value { num: 0, den: 1 }));
        }
        proof {
            let mt = digits_value(cat);
            lemma_pow10_mono(19, effv as nat);
            reveal_with_fuel(pow10, 21);
            assert(pow10(19) == 10000000000000000000);
            assert(mt * pow10(effv as nat) >= pow10(effv as nat)) by (nonlinear_arith)
                requires
                    mt >= 1,
                    pow10(effv as nat) >= 0,
            ;
            assert(!fits(lit_num(tok@), lit_den(tok@)));
        }
        return Err(make_invalid_token_err(tok));
    }
    // The exponent magnitude is exact in ev.
    let eff: i128 = if eneg {
        -ev - (fl as i128)
    } else {
        ev - (fl as i128)
    };
    proof {
        assert(effv == eff as int);
    }
    if eff >= 0 {
        if m == 0 {
            proof {
                assert(digits_value(cat) == 0);
                assert(0 * pow10(effv as nat) == 0) by (nonlinear_arith);
                assert(lit_num(tok@) == 0);
                assert(lit_den(tok@) == 1);
            }
            return Ok(Expr::Number(Value { num: 0, den: 1 }));
        }
        if eff > 17 {
            // Shifting at least one digit by 10^18 leaves the bound.
            proof {
                let mt = digits_value(cat);
                lemma_pow10_mono(18, effv as nat);
                reveal_with_fuel(pow10, 20);
                assert(pow10(18) == 1000000000000000000);
                assert(mt * pow10(effv as nat) >= pow10(effv as nat)) by (nonlinear_arith)
                    requires
                        mt >= 1,
                        pow10(effv as nat) >= 0,
                ;
                assert(!fits(lit_num(tok@), lit_den(tok@)));
            }
            return Err(make_invalid_token_err(tok));
        }
        let p10 = pow10_exec(eff as usize);
        proof {
            lemma_pow10_mono(eff as nat, 17);
            reveal_with_fuel(pow10, 19);
            assert(pow10(17) == 100000000000000000);
        }
        proof {
            assert(0 <= m * (p10 as i128) < 1000000000000000000000000000000000000i128)
                by (nonlinear_arith)
                requires
                    0 <= m < 1000000000000000000i128,
                    1 <= (p10 as i128) <= 100000000000000000i128,
            ;
        }
        let nn: i128 = m * (p10 as i128);
        if nn >= BOUND as i128 {
            proof {
                assert(!fits(lit_num(tok@), lit_den(tok@)));
            }
            return Err(make_invalid_token_err(tok));
        }
        let num: i64 = if neg {
            -(nn as i64)
        } else {
            nn as i64
        };
        let v = Value { num, den: 1 };
        proof {
            assert(lit_num(tok@) == num as int);
            assert(lit_den(tok@) == 1);
            assert(fits(lit_num(tok@), lit_den(tok@)));
            assert(valid_value(v));
        }
        Ok(Expr::Number(v))
    } else {
        let g: i128 = -eff;
        if g > 17 {
            // The denominator 10^g leaves the bound.
            proof {
                lemma_pow10_mono(18, g as nat);
                reveal_with_fuel(pow10, 20);
                assert(pow10(18) == 1000000000000000000);
                assert(!fits(lit_num(tok@), lit_den(tok@)));
            }
            return Err(make_invalid_token_err(tok));
        }
        let den = pow10_exec(g as usize);
        proof {
            lemma_pow10_mono(g as nat, 17);
            reveal_with_fuel(pow10, 19);
            assert(pow10(17) == 100000000000000000);
        }
        let num: i64 = if neg {
            -(m as i64)
        } else {
            m as i64
        };
        let v = Value { num, den };
        proof {
            assert(lit_num(tok@) == num as int);
            assert(lit_den(tok@) == den as int);
            assert(fits(lit_num(tok@), lit_den(tok@)));
            assert(valid_value(v));
        }
        Ok(Expr::Number(v))
    }
}

} // verus!
