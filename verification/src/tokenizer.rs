//! The tokenizer: a scan cursor over an immutable byte sequence, with
//! consuming and non-consuming single-token lookahead.

use vstd::prelude::*;

use vstd::string::StrSliceExecFns;
use vstd::utf8::encode_utf8;
use vstd::utf8::is_ascii_chars;
use vstd::utf8::is_ascii_chars_encode_utf8;

use crate::scan::alnum_end;
use crate::scan::bytes_of;
use crate::scan::chars_of;
use crate::scan::classify_word;
use crate::scan::digit_end;
use crate::scan::digits_val;
use crate::scan::is_alnum;
use crate::scan::is_digit;
use crate::scan::is_ws;
use crate::scan::keyword_computation;
use crate::scan::keyword_var;
use crate::scan::lemma_alnum_end_bounds;
use crate::scan::lemma_chars_of_injective;
use crate::scan::lemma_digit_end_bounds;
use crate::scan::lemma_skip_ws_bounds;
use crate::scan::lemma_digits_val_prefix;
use crate::scan::skip_ws;
use crate::scan::token_at;
use crate::token::LexError;
use crate::token::Token;
use crate::token::TokenView;

verus! {

/// Appends one character to a string.
///
/// Relies on `String::push` of std: it pushes the given character onto
/// the end of the string. vstd gives `push` no specification of its own.
#[verifier::external_body]
fn push_char(s: &mut String, c: char)
    ensures
        final(s)@ == old(s)@.push(c),
{
    s.push(c);
}

/// Scanner state: the whole source text as an immutable byte sequence,
/// and one mutable cursor into it. The cursor only ever moves forward;
/// a failing scan leaves it where it stood, and [`Tokenizer::peek_token`]
/// restores it.
pub struct Tokenizer {
    input: Vec<u8>,
    index: usize,
}

impl Tokenizer {
    /// The input text being scanned, as its byte sequence.
    pub closed spec fn bytes(self) -> Seq<u8> {
        self.input@
    }

    /// The scan cursor: a byte offset into the input.
    pub closed spec fn cursor(self) -> nat {
        self.index as nat
    }

    /// Creates a tokenizer over the whole source text, with the cursor at
    /// the start. The text is held as its UTF-8 bytes and scanned one
    /// byte at a time; a byte outside the ASCII token alphabet is an
    /// unexpected character, never part of a token.
    pub fn new(input: String) -> (t: Tokenizer)
        ensures
            t.bytes() == encode_utf8(input@),
            is_ascii_chars(input@) ==> t.bytes() == bytes_of(input@),
            t.cursor() == 0,
    {
        let t = Tokenizer { input: input.as_str().as_bytes_vec(), index: 0 };
        proof {
            if is_ascii_chars(input@) {
                is_ascii_chars_encode_utf8(input@);
                assert(t.input@ =~= bytes_of(input@));
            }
        }
        t
    }

    /// Consumes and returns the next token of the input, or reports the
    /// lexical error the scan ran into. [`token_at`] states the result
    /// exactly: on success the cursor lands just past the token, on an
    /// error it stays where it was, so a failed scan can be retried or
    /// given up without hidden state.
    pub fn next_token(&mut self) -> (r: Result<Token, LexError>)
        ensures
            final(self).bytes() == old(self).bytes(),
            (match token_at(old(self).bytes(), old(self).cursor()) {
                Ok((tv, end)) => {
                    &&& r matches Ok(t) && t@ == tv
                    &&& final(self).cursor() == end
                },
                Err(e) => {
                    &&& r == Err::<Token, LexError>(e)
                    &&& final(self).cursor() == old(self).cursor()
                },
            }),
            r is Ok ==> old(self).cursor() < final(self).cursor(),
    {
        let ghost s = self.input@;
        let start = self.index;
        proof {
            lemma_skip_ws_bounds(s, self.index as nat);
        }
        self.skip_whitespace();
        if self.index >= self.input.len() {
            self.index = start;
            return Err(LexError::OutOfBounds);
        }
        proof {
            lemma_alnum_end_bounds(s, self.index as nat);
            lemma_digit_end_bounds(s, self.index as nat);
        }
        let c = self.peek_char();
        if ('a' <= c && c <= 'z') || ('A' <= c && c <= 'Z') {
            proof {
                lemma_alnum_end_bounds(s, self.index as nat + 1);
            }
            return Ok(self.get_identifier());
        }
        if '0' <= c && c <= '9' {
            proof {
                lemma_digit_end_bounds(s, self.index as nat + 1);
            }
            let r = self.get_number();
            if r.is_err() {
                self.index = start;
            }
            return r;
        }
        let token = if c == '+' {
            Token::Plus
        } else if c == '-' {
            Token::Minus
        } else if c == '*' {
            Token::Times
        } else if c == '%' {
            Token::Remainder
        } else if c == '/' {
            Token::Divide
        } else if c == '(' {
            Token::Openpar
        } else if c == ')' {
            Token::Closepar
        } else if c == ';' {
            Token::Semicolon
        } else if c == '.' {
            Token::EOC
        } else if c == '<' {
            self.next_char();
            if self.index >= self.input.len() {
                self.index = start;
                return Err(LexError::OutOfBounds);
            }
            if self.peek_char() == '-' {
                Token::Assignment
            } else {
                self.index = start;
                return Err(LexError::MalformedAssignment);
            }
        } else {
            self.index = start;
            return Err(LexError::UnexpectedCharacter);
        };
        self.next_char();
        Ok(token)
    }

    /// Returns the token [`Tokenizer::next_token`] would produce, or the
    /// error it would report, without consuming anything: the input and
    /// the cursor are exactly as before the call, so a following
    /// `next_token` yields this very result and lands the cursor where a
    /// single `next_token` alone would have.
    pub fn peek_token(&mut self) -> (r: Result<Token, LexError>)
        ensures
            final(self).bytes() == old(self).bytes(),
            final(self).cursor() == old(self).cursor(),
            (match token_at(old(self).bytes(), old(self).cursor()) {
                Ok((tv, end)) => r matches Ok(t) && t@ == tv,
                Err(e) => r == Err::<Token, LexError>(e),
            }),
    {
        let previous_index = self.index;
        let token = self.next_token();
        self.index = previous_index;
        token
    }

    /// The character under the cursor, read without consuming it.
    fn peek_char(&self) -> (c: char)
        requires
            self.cursor() < self.bytes().len(),
        ensures
            c == self.bytes()[self.cursor() as int] as char,
    {
        self.input[self.index] as char
    }

    /// Consumes the character under the cursor: returns it and moves the
    /// cursor one byte forward.
    fn next_char(&mut self) -> (c: char)
        requires
            old(self).cursor() < old(self).bytes().len(),
        ensures
            final(self).bytes() == old(self).bytes(),
            final(self).cursor() == old(self).cursor() + 1,
            c == old(self).bytes()[old(self).cursor() as int] as char,
    {
        let c = self.peek_char();
        proof {
            assert(self.index < self.input.len());
        }
        self.index = self.index + 1;
        c
    }

    /// Consumes the maximal run of letters and digits at the cursor and
    /// returns its text.
    fn consume_identifier(&mut self) -> (name: String)
        requires
            old(self).cursor() <= old(self).bytes().len(),
        ensures
            final(self).bytes() == old(self).bytes(),
            final(self).cursor() == alnum_end(old(self).bytes(), old(self).cursor()),
            name@ == chars_of(
                old(self).bytes().subrange(
                    old(self).cursor() as int,
                    final(self).cursor() as int,
                ),
            ),
    {
        let ghost s = self.input@;
        let ghost start = self.index as nat;
        let mut name = String::new();
        proof {
            assert(name@ =~= chars_of(s.subrange(start as int, start as int)));
        }
        while self.index < self.input.len() && is_alnum_byte(self.input[self.index])
            invariant
                self.input@ == s,
                start <= self.index as nat <= s.len(),
                alnum_end(s, self.index as nat) == alnum_end(s, start),
                name@ == chars_of(s.subrange(start as int, self.index as int)),
            decreases s.len() - self.index,
        {
            let c = self.next_char();
            push_char(&mut name, c);
            proof {
                let i = self.index as int;
                assert(s.subrange(start as int, i).drop_last() =~= s.subrange(start as int, i - 1));
                assert(name@ =~= chars_of(s.subrange(start as int, i)));
            }
        }
        name
    }

    /// Scans the identifier-or-keyword token at the cursor: consumes the
    /// maximal letter-and-digit run, then produces the keyword token when
    /// the run equals `var` or `computation` exactly, and an identifier
    /// named by the run otherwise.
    fn get_identifier(&mut self) -> (t: Token)
        requires
            old(self).cursor() <= old(self).bytes().len(),
        ensures
            final(self).bytes() == old(self).bytes(),
            final(self).cursor() == alnum_end(old(self).bytes(), old(self).cursor()),
            t@ == classify_word(
                old(self).bytes().subrange(
                    old(self).cursor() as int,
                    final(self).cursor() as int,
                ),
            ),
    {
        let ghost s = self.input@;
        let ghost start = self.index as nat;
        let name = self.consume_identifier();
        let ghost w = s.subrange(start as int, self.index as int);
        proof {
            reveal_strlit("var");
            reveal_strlit("computation");
            assert(chars_of(keyword_var()) =~= "var"@);
            assert(chars_of(keyword_computation()) =~= "computation"@);
        }
        if name.eq(&"var".to_owned()) {
            proof {
                lemma_chars_of_injective(w, keyword_var());
            }
            Token::Variable
        } else if name.eq(&"computation".to_owned()) {
            proof {
                lemma_chars_of_injective(w, keyword_computation());
            }
            Token::Computation
        } else {
            Token::Identifier(name)
        }
    }

    /// Scans the number token at the cursor: consumes the maximal run of
    /// decimal digits and returns its value, or the overflow error when
    /// that value does not fit an `i32`. The cursor ends just past the
    /// run either way.
    fn get_number(&mut self) -> (r: Result<Token, LexError>)
        requires
            old(self).cursor() <= old(self).bytes().len(),
        ensures
            final(self).bytes() == old(self).bytes(),
            final(self).cursor() == digit_end(old(self).bytes(), old(self).cursor()),
            ({
                let v = digits_val(
                    old(self).bytes().subrange(
                        old(self).cursor() as int,
                        final(self).cursor() as int,
                    ),
                );
                if v <= i32::MAX {
                    r matches Ok(t) && t@ == TokenView::Number(v)
                } else {
                    r == Err::<Token, LexError>(LexError::NumberOverflow)
                }
            }),
    {
        let ghost s = self.input@;
        let start = self.index;
        self.consume_number();
        let end = self.index;
        let ghost run = s.subrange(start as int, end as int);
        proof {
            lemma_digit_end_bounds(s, start as nat);
        }
        let mut acc: u64 = 0;
        let mut k = start;
        while k < end && acc <= 2147483647
            invariant
                self.input@ == s,
                start <= k <= end <= s.len(),
                end == digit_end(s, start as nat),
                forall|m: int| start <= m < end ==> is_digit(s[m]),
                acc == digits_val(s.subrange(start as int, k as int)),
                acc <= 21474836479,
            decreases end - k,
        {
            let d = self.input[k] - 48;
            acc = acc * 10 + (d as u64);
            k = k + 1;
            proof {
                let i = k as int;
                assert(s.subrange(start as int, i).drop_last() =~= s.subrange(start as int, i - 1));
            }
        }
        if acc <= 2147483647 {
            proof {
                assert(k == end);
                assert(run =~= s.subrange(start as int, k as int));
            }
            Ok(Token::Number(acc as i32))
        } else {
            proof {
                assert forall|m: int| 0 <= m < run.len() implies is_digit(run[m]) by {
                    assert(run[m] == s[start + m]);
                }
                lemma_digits_val_prefix(run, k as int - start as int);
                assert(run.subrange(0, k as int - start as int) =~= s.subrange(
                    start as int,
                    k as int,
                ));
            }
            Err(LexError::NumberOverflow)
        }
    }

    /// Moves the cursor past the maximal run of decimal digits it stands
    /// on.
    fn consume_number(&mut self)
        requires
            old(self).cursor() <= old(self).bytes().len(),
        ensures
            final(self).bytes() == old(self).bytes(),
            final(self).cursor() == digit_end(old(self).bytes(), old(self).cursor()),
    {
        let ghost s = self.input@;
        let ghost start = self.index as nat;
        while self.index < self.input.len() && is_digit_byte(self.input[self.index])
            invariant
                self.input@ == s,
                start <= self.index as nat <= s.len(),
                digit_end(s, self.index as nat) == digit_end(s, start),
            decreases s.len() - self.index,
        {
            self.index = self.index + 1;
        }
    }

    /// Moves the cursor past the run of whitespace it stands on, leaving
    /// it at the first non-whitespace byte or at the end of the input.
    fn skip_whitespace(&mut self)
        ensures
            final(self).bytes() == old(self).bytes(),
            final(self).cursor() == skip_ws(old(self).bytes(), old(self).cursor()),
    {
        let ghost s = self.input@;
        let ghost start = self.index as nat;
        while self.index < self.input.len() && is_ws_byte(self.input[self.index])
            invariant
                self.input@ == s,
                skip_ws(s, self.index as nat) == skip_ws(s, start),
            decreases s.len() - self.index,
        {
            self.index = self.index + 1;
        }
    }
}

/// The executable form of [`is_ws`]: ASCII whitespace.
fn is_ws_byte(b: u8) -> (r: bool)
    ensures
        r == is_ws(b),
{
    b == ' ' as u8 || b == '\t' as u8 || b == '\n' as u8 || b == '\u{000C}' as u8 || b == '\r'
        as u8
}

/// The executable form of [`is_digit`]: an ASCII decimal digit.
fn is_digit_byte(b: u8) -> (r: bool)
    ensures
        r == is_digit(b),
{
    '0' as u8 <= b && b <= '9' as u8
}

/// The executable form of [`is_alnum`]: an ASCII letter or digit.
fn is_alnum_byte(b: u8) -> (r: bool)
    ensures
        r == is_alnum(b),
{
    ('a' as u8 <= b && b <= 'z' as u8) || ('A' as u8 <= b && b <= 'Z' as u8) || ('0' as u8 <= b
        && b <= '9' as u8)
}

} // verus!
