//! Laws of the scanner, stated over the model in [`crate::scan`] and
//! proved once for all inputs.

use vstd::prelude::*;

use crate::scan::chars_of;
use crate::scan::classify_word;
use crate::scan::decimal_digits;
use crate::scan::digit_end;
use crate::scan::digits_val;
use crate::scan::is_digit;
use crate::scan::is_letter;
use crate::scan::is_ws;
use crate::scan::keyword_computation;
use crate::scan::keyword_var;
use crate::scan::skip_ws;
use crate::scan::token_at;
use crate::token::LexError;
use crate::token::TokenView;

verus! {

/// A whitespace-only stretch before a token is immaterial: whatever mix
/// of spaces, tabs, newlines and carriage returns stands between `i` and
/// `j`, and however long it is, scanning from `i` yields the very token
/// (or error) that scanning from `j` yields.
pub proof fn lemma_whitespace_prefix_ignored(s: Seq<u8>, i: nat, j: nat)
    requires
        i <= j <= s.len(),
        forall|k: int| i <= k < j ==> is_ws(s[k]),
    ensures
        token_at(s, i) == token_at(s, j),
{
    lemma_skip_ws_joins(s, i, j);
}

/// Skipping whitespace from anywhere inside a whitespace run lands on
/// the same spot.
proof fn lemma_skip_ws_joins(s: Seq<u8>, i: nat, j: nat)
    requires
        i <= j <= s.len(),
        forall|k: int| i <= k < j ==> is_ws(s[k]),
    ensures
        skip_ws(s, i) == skip_ws(s, j),
    decreases j - i,
{
    if i < j {
        assert(is_ws(s[i as int]));
        lemma_skip_ws_joins(s, i + 1, j);
    }
}

/// Numeric round trip: scanning the decimal digit string of any value a
/// number token can carry yields exactly that number, and consumes the
/// whole string.
pub proof fn lemma_number_round_trip(n: nat)
    requires
        n <= i32::MAX as nat,
    ensures
        token_at(decimal_digits(n), 0) == Ok::<(TokenView, nat), LexError>(
            (TokenView::Number(n as int), decimal_digits(n).len()),
        ),
{
    let s = decimal_digits(n);
    lemma_decimal_digits_spell(n);
    assert(is_digit(s[0]));
    assert(!is_ws(s[0]) && !is_letter(s[0]));
    assert(skip_ws(s, 0) == 0);
    lemma_digit_end_full(s, 0);
    assert(s.subrange(0, s.len() as int) =~= s);
}

/// The arrow `<-` scans as the single assignment token, with the cursor
/// landing just past the `-`. A `<` followed by any other character is
/// the malformed-assignment error, and a `<` that ends the input is the
/// out-of-bounds error: `<` alone is never a token.
pub proof fn lemma_assignment_arrow(s: Seq<u8>, i: nat)
    requires
        skip_ws(s, i) < s.len(),
        s[skip_ws(s, i) as int] == 60,
    ensures
        skip_ws(s, i) + 1 < s.len() && s[skip_ws(s, i) as int + 1] == 45 ==> token_at(s, i)
            == Ok::<(TokenView, nat), LexError>((TokenView::Assignment, skip_ws(s, i) + 2)),
        skip_ws(s, i) + 1 < s.len() && s[skip_ws(s, i) as int + 1] != 45 ==> token_at(s, i)
            == Err::<(TokenView, nat), LexError>(LexError::MalformedAssignment),
        skip_ws(s, i) + 1 == s.len() ==> token_at(s, i) == Err::<(TokenView, nat), LexError>(
            LexError::OutOfBounds,
        ),
{
}

/// Keyword exactness: a scanned letter-and-digit run is a keyword token
/// exactly when it equals the keyword's whole text, byte for byte; every
/// other run — including one that merely begins with or extends a
/// keyword, such as `variable` — names an identifier.
pub proof fn lemma_keyword_exactness(w: Seq<u8>)
    ensures
        classify_word(w) is Variable <==> w == keyword_var(),
        classify_word(w) is Computation <==> w == keyword_computation(),
        w != keyword_var() && w != keyword_computation() ==> classify_word(w)
            == TokenView::Identifier(chars_of(w)),
{
}

/// The decimal digit string of `n` is non-empty, all digits, and reads
/// back as `n`.
proof fn lemma_decimal_digits_spell(n: nat)
    ensures
        decimal_digits(n).len() >= 1,
        forall|k: int| 0 <= k < decimal_digits(n).len() ==> is_digit(decimal_digits(n)[k]),
        digits_val(decimal_digits(n)) == n,
    decreases n,
{
    let s = decimal_digits(n);
    if n < 10 {
        assert(s.drop_last() =~= Seq::<u8>::empty());
        assert(digits_val(Seq::<u8>::empty()) == 0);
        assert(digits_val(s) == n);
    } else {
        lemma_decimal_digits_spell(n / 10);
        assert(s.drop_last() =~= decimal_digits(n / 10));
        assert(digits_val(s) == (n / 10) * 10 + n % 10);
        assert((n / 10) * 10 + n % 10 == n);
    }
}

/// A scan that starts inside an all-digit tail consumes it to the end.
proof fn lemma_digit_end_full(s: Seq<u8>, i: nat)
    requires
        i <= s.len(),
        forall|m: int| i <= m < s.len() ==> is_digit(s[m]),
    ensures
        digit_end(s, i) == s.len(),
    decreases s.len() - i,
{
    if i < s.len() {
        lemma_digit_end_full(s, i + 1);
    }
}

} // verus!
