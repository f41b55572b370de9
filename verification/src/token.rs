//! Tokenization: a line of characters becomes a list of tokens.
//!
//! Space characters separate tokens and are dropped. Parentheses are not
//! tokens of their own: each `(` or `)` is glued onto the token being
//! built, so a space-separated `(` stands alone while an unspaced `(2+3)`
//! stays one opaque run. A nesting counter follows the parentheses: a `)`
//! with the counter at zero, or a counter left positive at the end, is a
//! mismatched-parentheses parse error. The spec function `spec_tokenize`
//! fixes the outcome for every input.

use vstd::prelude::*;
use crate::errors::{CalculatorError, ErrV};

verus! {

/// The characters that trimming strips from either end of a line: the
/// Unicode White_Space set, written out.
pub open spec fn is_space_char(c: char) -> bool {
    c == ' ' || (0x9 <= (c as u32) && (c as u32) <= 0xd) || c == '\u{85}' || c == '\u{a0}' || c
        == '\u{1680}' || (0x2000 <= (c as u32) && (c as u32) <= 0x200a) || c == '\u{2028}' || c
        == '\u{2029}' || c == '\u{202f}' || c == '\u{205f}' || c == '\u{3000}'
}

/// Exec mirror of `is_space_char`.
pub fn is_space_exec(c: char) -> (r: bool)
    ensures
        r == is_space_char(c),
{
    c == ' ' || (0x9 <= (c as u32) && (c as u32) <= 0xd) || c == '\u{85}' || c == '\u{a0}' || c
        == '\u{1680}' || (0x2000 <= (c as u32) && (c as u32) <= 0x200a) || c == '\u{2028}' || c
        == '\u{2029}' || c == '\u{202f}' || c == '\u{205f}' || c == '\u{3000}'
}

/// `s` with leading and trailing space characters removed.
pub open spec fn spec_trim(s: Seq<char>) -> Seq<char>
    decreases s.len(),
{
    if s.len() == 0 {
        s
    } else if is_space_char(s[0]) {
        spec_trim(s.drop_first())
    } else if is_space_char(s.last()) {
        spec_trim(s.drop_last())
    } else {
        s
    }
}

/// A sequence of spaces trims to the empty sequence.
proof fn lemma_trim_all_spaces(s: Seq<char>)
    requires
        forall|j: int| 0 <= j < s.len() ==> is_space_char(s[j]),
    ensures
        spec_trim(s) =~= Seq::<char>::empty(),
    decreases s.len(),
{
    if s.len() > 0 {
        lemma_trim_all_spaces(s.drop_first());
    }
}

/// Trimming keeps exactly the range `[lo, hi)` when everything outside it
/// is a space and its ends are not.
proof fn lemma_trim_range(s: Seq<char>, lo: int, hi: int)
    requires
        0 <= lo < hi <= s.len(),
        forall|j: int| 0 <= j < lo ==> is_space_char(s[j]),
        forall|j: int| hi <= j < s.len() ==> is_space_char(s[j]),
        !is_space_char(s[lo]),
        !is_space_char(s[hi - 1]),
    ensures
        spec_trim(s) =~= s.subrange(lo, hi),
    decreases s.len(),
{
    if lo > 0 {
        lemma_trim_range(s.drop_first(), lo - 1, hi - 1);
        assert(s.drop_first().subrange(lo - 1, hi - 1) =~= s.subrange(lo, hi));
    } else if hi < s.len() {
        lemma_trim_range(s.drop_last(), lo, hi);
    } else {
        assert(s.subrange(0, s.len() as int) =~= s);
    }
}

/// Copies the characters of `s` into a vector.
pub fn str_to_chars(s: &str) -> (r: Vec<char>)
    ensures
        r@ =~= s@,
{
    let n = s.unicode_len();
    let mut out: Vec<char> = Vec::new();
    let mut i: usize = 0;
    while i < n
        invariant
            i <= n,
            n == s@.len(),
            out@ =~= s@.take(i as int),
        decreases n - i,
    {
        out.push(s.get_char(i));
        proof {
            assert(out@ =~= s@.take(i as int + 1));
        }
        i += 1;
    }
    proof {
        assert(s@.take(n as int) =~= s@);
    }
    out
}

/// `s` with leading and trailing space characters removed.
pub fn trim_chars(s: &Vec<char>) -> (r: Vec<char>)
    ensures
        r@ =~= spec_trim(s@),
{
    let mut lo: usize = 0;
    while lo < s.len() && is_space_exec(s[lo])
        invariant
            lo <= s.len(),
            forall|j: int| 0 <= j < lo ==> is_space_char(s@[j]),
        decreases s.len() - lo,
    {
        lo += 1;
    }
    let mut hi: usize = s.len();
    while hi > lo && is_space_exec(s[hi - 1])
        invariant
            lo <= hi <= s.len(),
            forall|j: int| hi <= j < s.len() ==> is_space_char(s@[j]),
        decreases hi,
    {
        hi -= 1;
    }
    let mut out: Vec<char> = Vec::new();
    let mut k: usize = lo;
    while k < hi
        invariant
            lo <= k <= hi <= s.len(),
            out@ =~= s@.subrange(lo as int, k as int),
        decreases hi - k,
    {
        out.push(s[k]);
        proof {
            assert(out@ =~= s@.subrange(lo as int, k as int + 1));
        }
        k += 1;
    }
    proof {
        if lo == hi {
            lemma_trim_all_spaces(s@);
        } else {
            lemma_trim_range(s@, lo as int, hi as int);
        }
    }
    out
}

/// Copies the range `[lo, hi)` of `s` into a vector.
pub fn sub_chars(s: &Vec<char>, lo: usize, hi: usize) -> (r: Vec<char>)
    requires
        lo <= hi <= s@.len(),
    ensures
        r@ =~= s@.subrange(lo as int, hi as int),
{
    let mut out: Vec<char> = Vec::new();
    let mut k: usize = lo;
    while k < hi
        invariant
            lo <= k <= hi <= s@.len(),
            out@ =~= s@.subrange(lo as int, k as int),
        decreases hi - k,
    {
        out.push(s[k]);
        proof {
            assert(out@ =~= s@.subrange(lo as int, k as int + 1));
        }
        k += 1;
    }
    out
}

/// The message carried by a mismatched-parentheses parse error.
pub open spec fn mismatched_msg() -> Seq<char> {
    "Mismatched parentheses"@
}

/// The view of a token list.
pub open spec fn tokens_view(ts: Seq<Vec<char>>) -> Seq<Seq<char>> {
    ts.map_values(|t: Vec<char>| t@)
}

/// One pass of the tokenizer from position `i`, with the token built so
/// far, the nesting counter, and the tokens already flushed.
pub open spec fn spec_tokenize_from(
    s: Seq<char>,
    i: int,
    cur: Seq<char>,
    level: int,
    acc: Seq<Seq<char>>,
) -> Result<Seq<Seq<char>>, ErrV>
    decreases s.len() - i,
{
    if i < 0 || i >= s.len() {
        let acc2 = if cur.len() > 0 {
            acc.push(cur)
        } else {
            acc
        };
        if level != 0 {
            Err(ErrV::ParseError(mismatched_msg()))
        } else {
            Ok(acc2)
        }
    } else {
        let c = s[i];
        if c == ' ' {
            if cur.len() > 0 {
                spec_tokenize_from(s, i + 1, Seq::empty(), level, acc.push(cur))
            } else {
                spec_tokenize_from(s, i + 1, cur, level, acc)
            }
        } else if c == '(' {
            spec_tokenize_from(s, i + 1, cur.push(c), level + 1, acc)
        } else if c == ')' {
            if level == 0 {
                Err(ErrV::ParseError(mismatched_msg()))
            } else {
                spec_tokenize_from(s, i + 1, cur.push(c), level - 1, acc)
            }
        } else {
            spec_tokenize_from(s, i + 1, cur.push(c), level, acc)
        }
    }
}

/// What tokenizing `s` produces: the token list, or the mismatched-
/// parentheses error.
pub open spec fn spec_tokenize(s: Seq<char>) -> Result<Seq<Seq<char>>, ErrV> {
    spec_tokenize_from(s, 0, Seq::empty(), 0, Seq::empty())
}

/// Splits `s` into tokens as `spec_tokenize` says.
pub fn tokenize(s: &Vec<char>) -> (r: Result<Vec<Vec<char>>, CalculatorError>)
    ensures
        match r {
            Ok(ts) => spec_tokenize(s@) == Ok::<Seq<Seq<char>>, ErrV>(tokens_view(ts@)),
            Err(e) => spec_tokenize(s@) == Err::<Seq<Seq<char>>, ErrV>(e@),
        },
{
    let mut acc: Vec<Vec<char>> = Vec::new();
    let mut cur: Vec<char> = Vec::new();
    let mut level: usize = 0;
    let mut i: usize = 0;
    proof {
        assert(tokens_view(acc@) =~= Seq::<Seq<char>>::empty());
        assert(cur@ =~= Seq::<char>::empty());
    }
    while i < s.len()
        invariant
            i <= s.len(),
            level <= i,
            spec_tokenize_from(s@, i as int, cur@, level as int, tokens_view(acc@))
                == spec_tokenize(s@),
        decreases s.len() - i,
    {
        let c = s[i];
        if c == ' ' {
            if cur.len() > 0 {
                let ghost old_acc = acc@;
                let ghost old_cur = cur@;
                acc.push(cur);
                cur = Vec::new();
                proof {
                    assert(tokens_view(acc@) =~= tokens_view(old_acc).push(old_cur));
                    assert(cur@ =~= Seq::<char>::empty());
                }
            }
        } else if c == '(' {
            level += 1;
            cur.push(c);
        } else if c == ')' {
            if level == 0 {
                return Err(CalculatorError::ParseError(str_to_chars("Mismatched parentheses")));
            }
            level -= 1;
            cur.push(c);
        } else {
            cur.push(c);
        }
        i += 1;
    }
    if cur.len() > 0 {
        let ghost old_acc = acc@;
        let ghost old_cur = cur@;
        acc.push(cur);
        proof {
            assert(tokens_view(acc@) =~= tokens_view(old_acc).push(old_cur));
        }
    }
    if level != 0 {
        return Err(CalculatorError::ParseError(str_to_chars("Mismatched parentheses")));
    }
    Ok(acc)
}

} // verus!
