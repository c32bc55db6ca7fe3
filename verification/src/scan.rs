//! The mathematical model of scanning: character classes, cursor motion
//! over whitespace and over identifier and number runs, the value of a
//! digit run, and [`token_at`], which states what one scan step yields.

use vstd::prelude::*;

use crate::token::LexError;
use crate::token::TokenView;

verus! {

/// True of the bytes Rust's `is_ascii_whitespace` accepts:
/// space, tab, line feed, form feed, carriage return.
pub open spec fn is_ws(b: u8) -> bool {
    b == 32 || b == 9 || b == 10 || b == 12 || b == 13
}

/// True of ASCII letters `a`-`z` and `A`-`Z`.
pub open spec fn is_letter(b: u8) -> bool {
    (65 <= b && b <= 90) || (97 <= b && b <= 122)
}

/// True of ASCII decimal digits `0`-`9`.
pub open spec fn is_digit(b: u8) -> bool {
    48 <= b && b <= 57
}

/// True of ASCII letters and digits: the characters an identifier may
/// continue with.
pub open spec fn is_alnum(b: u8) -> bool {
    is_letter(b) || is_digit(b)
}

/// The cursor after skipping the whitespace run that starts at `i`:
/// the first position at or after `i` that is past the end of `s` or
/// holds a non-whitespace byte.
pub open spec fn skip_ws(s: Seq<u8>, i: nat) -> nat
    decreases s.len() - i,
{
    if i < s.len() && is_ws(s[i as int]) {
        skip_ws(s, i + 1)
    } else {
        i
    }
}

/// The cursor after the maximal run of letters and digits that starts
/// at `i`.
pub open spec fn alnum_end(s: Seq<u8>, i: nat) -> nat
    decreases s.len() - i,
{
    if i < s.len() && is_alnum(s[i as int]) {
        alnum_end(s, i + 1)
    } else {
        i
    }
}

/// The cursor after the maximal run of decimal digits that starts at `i`.
pub open spec fn digit_end(s: Seq<u8>, i: nat) -> nat
    decreases s.len() - i,
{
    if i < s.len() && is_digit(s[i as int]) {
        digit_end(s, i + 1)
    } else {
        i
    }
}

/// The value of a sequence of decimal digit bytes, most significant
/// first: `digits_val(s)` of `"123"`'s bytes is `123`.
pub open spec fn digits_val(s: Seq<u8>) -> int
    decreases s.len(),
{
    if s.len() == 0 {
        0
    } else {
        digits_val(s.drop_last()) * 10 + s.last() - 48
    }
}

/// The canonical decimal digit string of a non-negative integer, most
/// significant digit first and without leading zeros (except for the
/// single digit of zero itself).
pub open spec fn decimal_digits(n: nat) -> Seq<u8>
    decreases n,
{
    if n < 10 {
        seq![(48 + n) as u8]
    } else {
        decimal_digits(n / 10).push((48 + n % 10) as u8)
    }
}

/// The bytes of an ASCII run read as a character sequence, one character
/// per byte.
pub open spec fn chars_of(s: Seq<u8>) -> Seq<char> {
    Seq::new(s.len(), |i: int| s[i] as char)
}

/// A character sequence read as one byte per character: the byte
/// sequence an ASCII text is scanned as.
pub open spec fn bytes_of(cs: Seq<char>) -> Seq<u8> {
    Seq::new(cs.len(), |i: int| cs[i] as u8)
}

/// The bytes of the reserved keyword `var`.
pub open spec fn keyword_var() -> Seq<u8> {
    seq![118u8, 97u8, 114u8]
}

/// The bytes of the reserved keyword `computation`.
pub open spec fn keyword_computation() -> Seq<u8> {
    seq![99u8, 111u8, 109u8, 112u8, 117u8, 116u8, 97u8, 116u8, 105u8, 111u8, 110u8]
}

/// The token a maximal letter-and-digit run stands for: one of the two
/// reserved keywords when it equals their text exactly, otherwise an
/// identifier named by the run itself.
pub open spec fn classify_word(w: Seq<u8>) -> TokenView {
    if w == keyword_var() {
        TokenView::Variable
    } else if w == keyword_computation() {
        TokenView::Computation
    } else {
        TokenView::Identifier(chars_of(w))
    }
}

/// The token a single symbol character stands for, or `None` for a byte
/// that starts no token. `<` is not here: it only opens the two-character
/// arrow `<-`.
pub open spec fn symbol_token(b: u8) -> Option<TokenView> {
    if b == 43 {
        Some(TokenView::Plus)
    } else if b == 45 {
        Some(TokenView::Minus)
    } else if b == 42 {
        Some(TokenView::Times)
    } else if b == 47 {
        Some(TokenView::Divide)
    } else if b == 37 {
        Some(TokenView::Remainder)
    } else if b == 40 {
        Some(TokenView::Openpar)
    } else if b == 41 {
        Some(TokenView::Closepar)
    } else if b == 59 {
        Some(TokenView::Semicolon)
    } else if b == 46 {
        Some(TokenView::EOC)
    } else {
        None
    }
}

/// What one scan step yields on the input `s` with the cursor at `i`:
/// after skipping whitespace, either the next token together with the
/// cursor position just past it, or the lexical error that position
/// raises. Scanning at or past the end of the input is `OutOfBounds`.
pub open spec fn token_at(s: Seq<u8>, i: nat) -> Result<(TokenView, nat), LexError> {
    let j = skip_ws(s, i);
    if j >= s.len() {
        Err(LexError::OutOfBounds)
    } else {
        let b = s[j as int];
        if is_letter(b) {
            Ok((classify_word(s.subrange(j as int, alnum_end(s, j) as int)), alnum_end(s, j)))
        } else if is_digit(b) {
            let v = digits_val(s.subrange(j as int, digit_end(s, j) as int));
            if v <= i32::MAX {
                Ok((TokenView::Number(v), digit_end(s, j)))
            } else {
                Err(LexError::NumberOverflow)
            }
        } else if b == 60 {
            if j + 1 >= s.len() {
                Err(LexError::OutOfBounds)
            } else if s[j as int + 1] == 45 {
                Ok((TokenView::Assignment, j + 2))
            } else {
                Err(LexError::MalformedAssignment)
            }
        } else {
            match symbol_token(b) {
                Some(t) => Ok((t, j + 1)),
                None => Err(LexError::UnexpectedCharacter),
            }
        }
    }
}

/// The cursor never moves backward while skipping whitespace, and never
/// past the end of the input.
pub proof fn lemma_skip_ws_bounds(s: Seq<u8>, i: nat)
    ensures
        i <= skip_ws(s, i),
        i <= s.len() ==> skip_ws(s, i) <= s.len(),
    decreases s.len() - i,
{
    if i < s.len() && is_ws(s[i as int]) {
        lemma_skip_ws_bounds(s, i + 1);
    }
}

/// An identifier run reaches from its start to its end and holds letters
/// and digits only.
pub proof fn lemma_alnum_end_bounds(s: Seq<u8>, i: nat)
    requires
        i <= s.len(),
    ensures
        i <= alnum_end(s, i) <= s.len(),
        forall|m: int| i <= m < alnum_end(s, i) ==> is_alnum(s[m]),
    decreases s.len() - i,
{
    if i < s.len() && is_alnum(s[i as int]) {
        lemma_alnum_end_bounds(s, i + 1);
    }
}

/// A digit run reaches from its start to its end and holds digits only.
pub proof fn lemma_digit_end_bounds(s: Seq<u8>, i: nat)
    requires
        i <= s.len(),
    ensures
        i <= digit_end(s, i) <= s.len(),
        forall|m: int| i <= m < digit_end(s, i) ==> is_digit(s[m]),
    decreases s.len() - i,
{
    if i < s.len() && is_digit(s[i as int]) {
        lemma_digit_end_bounds(s, i + 1);
    }
}

/// The value of a digit sequence is never negative.
pub proof fn lemma_digits_val_nonneg(s: Seq<u8>)
    requires
        forall|m: int| 0 <= m < s.len() ==> is_digit(s[m]),
    ensures
        digits_val(s) >= 0,
    decreases s.len(),
{
    if s.len() > 0 {
        lemma_digits_val_nonneg(s.drop_last());
    }
}

/// Dropping digits from the end of a digit sequence never increases its
/// value: the value of a prefix bounds the value of the whole run from
/// below.
pub proof fn lemma_digits_val_prefix(s: Seq<u8>, k: int)
    requires
        0 <= k <= s.len(),
        forall|m: int| 0 <= m < s.len() ==> is_digit(s[m]),
    ensures
        digits_val(s.subrange(0, k)) <= digits_val(s),
    decreases s.len(),
{
    if k == s.len() {
        assert(s.subrange(0, k) =~= s);
    } else {
        let t = s.drop_last();
        lemma_digits_val_nonneg(t);
        lemma_digits_val_prefix(t, k);
        assert(s.subrange(0, k) =~= t.subrange(0, k));
    }
}

/// Reading bytes as characters loses nothing: equal character sequences
/// come only from equal byte sequences.
pub proof fn lemma_chars_of_injective(a: Seq<u8>, b: Seq<u8>)
    requires
        chars_of(a) == chars_of(b),
    ensures
        a == b,
{
    let ca = chars_of(a);
    let cb = chars_of(b);
    assert(ca.len() == a.len());
    assert(cb.len() == b.len());
    assert forall|k: int| 0 <= k < a.len() implies a[k] == b[k] by {
        assert(ca[k] == a[k] as char);
        assert(cb[k] == b[k] as char);
    }
    assert(a =~= b);
}

} // verus!
