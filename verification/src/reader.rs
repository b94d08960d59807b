//! The lexer: turns a line of raw text into an ordered sequence of tokens.
//!
//! Scanning runs left to right. Runs of whitespace separate tokens; a token
//! starting with a decimal digit, or with `-` immediately followed by one,
//! is a number; the braces are structural and come out as one-character
//! identifiers; every other token is an identifier drawn from a fixed
//! legal character set.
//!
//! The whole scan is mirrored, step for step, by spec functions over the
//! character sequence, and every method's contract ties the executable
//! scan to that model.

use crate::double;
use vstd::prelude::*;

verus! {

/// A lexical token. A float constant carries the bit pattern of its IEEE
/// 754 double value.
#[derive(Debug, PartialEq)]
pub enum Token {
    Identifier(String),
    IntegerConstant(i64),
    FloatConstant(u64),
}

/// The mathematical model of a token: an identifier is its character
/// sequence.
pub enum TokenModel {
    Identifier(Seq<char>),
    IntegerConstant(i64),
    FloatConstant(u64),
}

impl View for Token {
    type V = TokenModel;

    open spec fn view(&self) -> TokenModel {
        match self {
            Token::Identifier(name) => TokenModel::Identifier(name@),
            Token::IntegerConstant(value) => TokenModel::IntegerConstant(*value),
            Token::FloatConstant(bits) => TokenModel::FloatConstant(*bits),
        }
    }
}

impl DeepView for Token {
    type V = TokenModel;

    open spec fn deep_view(&self) -> TokenModel {
        self.view()
    }
}

/// A lexical error: the input ended where a character was required, a
/// number held a character that is no digit, or a character belongs to no
/// token at all.
#[derive(Debug, Clone, Copy, PartialEq, Eq, Structural)]
pub enum ReaderError {
    EoF,
    ExpectedADigit(char),
    UnexpectedCharacter(char),
}

/// Whitespace that separates tokens.
pub open spec fn is_separator_char(c: char) -> bool {
    c == ' ' || c == '\t' || c == '\n' || c == '\r'
}

/// A decimal digit.
pub open spec fn is_digit_char(c: char) -> bool {
    48 <= c as u32 <= 57
}

/// A structural brace, reserved as a compound-expression delimiter.
pub open spec fn is_brace_char(c: char) -> bool {
    c == '{' || c == '}'
}

/// A character legal inside an identifier: letters, digits, and a fixed
/// set of punctuation. Whitespace and the braces are excluded.
pub open spec fn is_identifier_char(c: char) -> bool {
    let u = c as u32;
    ||| 97 <= u <= 122  // 'a' ..= 'z'
    ||| 65 <= u <= 90  // 'A' ..= 'Z'
    ||| 48 <= u <= 57  // '0' ..= '9'
    ||| u == 33  // '!'
    ||| 35 <= u <= 47  // '#' ..= '/'
    ||| u == 58  // ':'
    ||| 60 <= u <= 64  // '<' ..= '@'
    ||| u == 92  // '\\'
    ||| 94 <= u <= 96  // '^' ..= '`'
    ||| u == 124  // '|'
    ||| u == 126  // '~'
}

/// The numeric value of a decimal digit, as an `i64`.
pub open spec fn spec_digit_value(c: char) -> i64 {
    (c as u32 - 48) as i64
}

/// The character at position `i`, or `EoF` past the end: the model of
/// `Reader::peek`.
pub open spec fn spec_char_at(s: Seq<char>, i: int) -> Result<char, ReaderError> {
    if 0 <= i < s.len() {
        Ok(s[i])
    } else {
        Err(ReaderError::EoF)
    }
}

/// The first position at or after `p` that holds no separator: the model
/// of `Reader::skip_separators`.
pub open spec fn spec_skip_separators(s: Seq<char>, p: nat) -> nat
    decreases s.len() - p,
{
    if p >= s.len() {
        p
    } else if is_separator_char(s[p as int]) {
        spec_skip_separators(s, p + 1)
    } else {
        p
    }
}

/// Skipping separators stays inside the input and lands on a
/// non-separator or the end.
proof fn lemma_skip_separators_bounds(s: Seq<char>, p: nat)
    requires
        p <= s.len(),
    ensures
        p <= spec_skip_separators(s, p) <= s.len(),
        spec_skip_separators(s, p) < s.len() ==> !is_separator_char(
            s[spec_skip_separators(s, p) as int],
        ),
    decreases s.len() - p,
{
    if p < s.len() && is_separator_char(s[p as int]) {
        lemma_skip_separators_bounds(s, p + 1);
    }
}

/// The signed magnitude of a number token: the sign applied with the
/// host's 64-bit wraparound.
pub open spec fn apply_sign(negative: bool, magnitude: i64) -> i64 {
    if negative {
        (-1i64).wrapping_mul(magnitude)
    } else {
        magnitude
    }
}

/// The double carried by a float token: the sign times the whole part
/// plus the fraction over its power-of-ten divisor, each step rounded as
/// IEEE 754 prescribes.
pub open spec fn float_token_bits(negative: bool, whole: i64, fraction: i64, divisor: i64) -> u64 {
    double::dbl_mul(
        double::dbl_of_i64(
            if negative {
                -1i64
            } else {
                1i64
            },
        ),
        double::dbl_add(
            double::dbl_of_i64(whole),
            double::dbl_div(double::dbl_of_i64(fraction), double::dbl_of_i64(divisor)),
        ),
    )
}

/// The model of the whole-part scan of a number: accumulate digits into
/// `whole` until a separator, a brace or the end closes an integer token,
/// or a `.` opens the fractional part.
pub open spec fn spec_number_whole(s: Seq<char>, p: nat, negative: bool, whole: i64) -> Result<
    (TokenModel, nat),
    ReaderError,
>
    decreases s.len() - p,
{
    if p >= s.len() {
        Err(ReaderError::EoF)
    } else if is_separator_char(s[p as int]) || is_brace_char(s[p as int]) {
        Ok((TokenModel::IntegerConstant(apply_sign(negative, whole)), p))
    } else if s[p as int] == '.' {
        if p + 1 >= s.len() {
            Err(ReaderError::EoF)
        } else {
            spec_number_fraction(s, (p + 1) as nat, negative, whole, 0i64, 1i64)
        }
    } else if !is_digit_char(s[p as int]) {
        Err(ReaderError::ExpectedADigit(s[p as int]))
    } else {
        let grown = whole.wrapping_mul(10).wrapping_add(spec_digit_value(s[p as int]));
        if p + 1 >= s.len() {
            Ok((TokenModel::IntegerConstant(apply_sign(negative, grown)), (p + 1) as nat))
        } else {
            spec_number_whole(s, (p + 1) as nat, negative, grown)
        }
    }
}

/// The model of the fractional-part scan of a number: accumulate digits
/// into `fraction`, growing the power-of-ten `divisor`, until a
/// separator, a brace or the end closes the float token.
pub open spec fn spec_number_fraction(
    s: Seq<char>,
    p: nat,
    negative: bool,
    whole: i64,
    fraction: i64,
    divisor: i64,
) -> Result<(TokenModel, nat), ReaderError>
    decreases s.len() - p,
{
    if p >= s.len() {
        Err(ReaderError::EoF)
    } else if is_separator_char(s[p as int]) || is_brace_char(s[p as int]) {
        Ok((TokenModel::FloatConstant(float_token_bits(negative, whole, fraction, divisor)), p))
    } else if !is_digit_char(s[p as int]) {
        Err(ReaderError::ExpectedADigit(s[p as int]))
    } else {
        let grown = fraction.wrapping_mul(10).wrapping_add(spec_digit_value(s[p as int]));
        let widened = divisor.wrapping_mul(10);
        if p + 1 >= s.len() {
            Ok(
                (
                    TokenModel::FloatConstant(float_token_bits(negative, whole, grown, widened)),
                    (p + 1) as nat,
                ),
            )
        } else {
            spec_number_fraction(s, (p + 1) as nat, negative, whole, grown, widened)
        }
    }
}

/// The model of `Reader::read_number`: an optional leading minus, then
/// the whole-part scan.
pub open spec fn spec_read_number(s: Seq<char>, p: nat) -> Result<(TokenModel, nat), ReaderError> {
    if p >= s.len() {
        Err(ReaderError::EoF)
    } else if s[p as int] == '-' {
        if p + 1 >= s.len() {
            Err(ReaderError::EoF)
        } else {
            spec_number_whole(s, (p + 1) as nat, true, 0i64)
        }
    } else {
        spec_number_whole(s, p, false, 0i64)
    }
}

/// The model of `Reader::read_identifier`: legal characters accumulate
/// from `start` until a separator, a brace or the end closes the
/// identifier token; an illegal character is an error.
pub open spec fn spec_read_identifier(s: Seq<char>, start: nat, p: nat) -> Result<
    (TokenModel, nat),
    ReaderError,
>
    decreases s.len() - p,
{
    if p >= s.len() {
        Err(ReaderError::EoF)
    } else if !is_identifier_char(s[p as int]) {
        Err(ReaderError::UnexpectedCharacter(s[p as int]))
    } else if p + 1 >= s.len() || is_separator_char(s[(p + 1) as int]) || is_brace_char(s[(p + 1) as int]) {
        Ok((TokenModel::Identifier(s.subrange(start as int, (p + 1) as int)), (p + 1) as nat))
    } else {
        spec_read_identifier(s, start, (p + 1) as nat)
    }
}

/// The token that starts at the non-separator position `q`: a number
/// after a digit, or after a minus that a digit follows; a one-character
/// identifier at a brace; an ordinary identifier otherwise.
pub open spec fn spec_next_token(s: Seq<char>, q: nat) -> Result<(TokenModel, nat), ReaderError> {
    if q >= s.len() {
        Err(ReaderError::EoF)
    } else if is_digit_char(s[q as int]) {
        spec_read_number(s, q)
    } else if s[q as int] == '-' {
        if q + 1 >= s.len() {
            Err(ReaderError::EoF)
        } else if is_digit_char(s[(q + 1) as int]) {
            spec_read_number(s, q)
        } else {
            spec_read_identifier(s, q, q)
        }
    } else if is_brace_char(s[q as int]) {
        Ok((TokenModel::Identifier(seq![s[q as int]]), (q + 1) as nat))
    } else {
        spec_read_identifier(s, q, q)
    }
}

/// The model of `Reader::tokenise` from position `p` with the tokens
/// `acc` already read: skip separators, read one token, and repeat until
/// the input is exhausted.
pub open spec fn spec_tokenise_from(s: Seq<char>, p: nat, acc: Seq<TokenModel>) -> Result<
    Seq<TokenModel>,
    ReaderError,
>
    decreases s.len() - p,
{
    if p >= s.len() {
        Ok(acc)
    } else {
        let q = spec_skip_separators(s, p);
        if q >= s.len() {
            Err(ReaderError::EoF)
        } else {
            match spec_next_token(s, q) {
                Err(e) => Err(e),
                Ok((t, after)) => {
                    let resume = if after >= s.len() {
                        after
                    } else {
                        spec_skip_separators(s, after)
                    };
                    if p < resume <= s.len() {
                        spec_tokenise_from(s, resume, acc.push(t))
                    } else {
                        Err(ReaderError::EoF)  // never reached: a token consumes at least one character
                    }
                },
            }
        }
    }
}

/// The model of a whole tokenised line.
pub open spec fn spec_tokenise(s: Seq<char>) -> Result<Seq<TokenModel>, ReaderError> {
    spec_tokenise_from(s, 0, Seq::empty())
}

/// The whole-part scan never moves backwards nor past the end.
proof fn lemma_number_whole_bounds(s: Seq<char>, p: nat, negative: bool, whole: i64)
    ensures
        spec_number_whole(s, p, negative, whole) matches Ok((t, after)) ==> p <= after <= s.len(),
    decreases s.len() - p,
{
    if p < s.len() {
        if s[p as int] == '.' && p + 1 < s.len() {
            lemma_number_fraction_bounds(s, (p + 1) as nat, negative, whole, 0i64, 1i64);
        }
        if p + 1 < s.len() {
            lemma_number_whole_bounds(
                s,
                (p + 1) as nat,
                negative,
                whole.wrapping_mul(10).wrapping_add(spec_digit_value(s[p as int])),
            );
        }
    }
}

/// The fractional-part scan never moves backwards nor past the end.
proof fn lemma_number_fraction_bounds(
    s: Seq<char>,
    p: nat,
    negative: bool,
    whole: i64,
    fraction: i64,
    divisor: i64,
)
    ensures
        spec_number_fraction(s, p, negative, whole, fraction, divisor) matches Ok((t, after))
            ==> p <= after <= s.len(),
    decreases s.len() - p,
{
    if p < s.len() && p + 1 < s.len() {
        lemma_number_fraction_bounds(
            s,
            (p + 1) as nat,
            negative,
            whole,
            fraction.wrapping_mul(10).wrapping_add(spec_digit_value(s[p as int])),
            divisor.wrapping_mul(10),
        );
    }
}

/// The identifier scan always consumes at least one character and stays
/// inside the input.
proof fn lemma_read_identifier_bounds(s: Seq<char>, start: nat, p: nat)
    ensures
        spec_read_identifier(s, start, p) matches Ok((t, after)) ==> p < after <= s.len(),
    decreases s.len() - p,
{
    if p < s.len() && is_identifier_char(s[p as int]) {
        if !(p + 1 >= s.len() || is_separator_char(s[(p + 1) as int]) || is_brace_char(s[(p + 1) as int])) {
            lemma_read_identifier_bounds(s, start, (p + 1) as nat);
        }
    }
}

/// A token read at a non-separator position consumes at least one
/// character and stays inside the input.
proof fn lemma_next_token_bounds(s: Seq<char>, q: nat)
    requires
        q < s.len(),
    ensures
        spec_next_token(s, q) matches Ok((t, after)) ==> q < after <= s.len(),
{
    if is_digit_char(s[q as int]) || (s[q as int] == '-' && q + 1 < s.len() && is_digit_char(
        s[(q + 1) as int],
    )) {
        lemma_read_number_consumes(s, q);
    } else {
        lemma_read_identifier_bounds(s, q, q);
    }
}

/// A number read at a digit, or at a minus that a digit follows, consumes
/// at least one character and stays inside the input.
proof fn lemma_read_number_consumes(s: Seq<char>, q: nat)
    requires
        q < s.len(),
        is_digit_char(s[q as int]) || (s[q as int] == '-' && q + 1 < s.len() && is_digit_char(
            s[(q + 1) as int],
        )),
    ensures
        spec_read_number(s, q) matches Ok((t, after)) ==> q < after <= s.len(),
{
    if is_digit_char(s[q as int]) {
        if q + 1 < s.len() {
            lemma_number_whole_bounds(
                s,
                (q + 1) as nat,
                false,
                (0i64).wrapping_mul(10).wrapping_add(spec_digit_value(s[q as int])),
            );
        }
    } else {
        if q + 2 < s.len() {
            lemma_number_whole_bounds(
                s,
                (q + 2) as nat,
                true,
                (0i64).wrapping_mul(10).wrapping_add(spec_digit_value(s[(q + 1) as int])),
            );
        }
    }
}

/// A token-read outcome next to the position it left the cursor at, as
/// the spec scan states it: the position only matters on success.
pub open spec fn token_step_model(r: Result<Token, ReaderError>, p: nat) -> Result<
    (TokenModel, nat),
    ReaderError,
> {
    match r {
        Ok(t) => Ok((t@, p)),
        Err(e) => Err(e),
    }
}

/// A whole tokenise outcome, with the token list abstracted to its model.
pub open spec fn tokens_result_model(r: Result<Vec<Token>, ReaderError>) -> Result<
    Seq<TokenModel>,
    ReaderError,
> {
    match r {
        Ok(v) => Ok(v.deep_view()),
        Err(e) => Err(e),
    }
}

/// The ghost state of a `Reader`: the input characters and the scan
/// position.
pub struct ReaderView {
    pub input: Seq<char>,
    pub position: nat,
}

/// The lexer's cursor over a line of input.
pub struct Reader {
    input: String,
    position: usize,
}

impl View for Reader {
    type V = ReaderView;

    closed spec fn view(&self) -> ReaderView {
        ReaderView { input: self.input@, position: self.position as nat }
    }
}

impl Reader {
    /// A fresh reader over `input`, positioned at its start.
    pub fn new(input: String) -> (r: Self)
        ensures
            r@.input == input@,
            r@.position == 0,
    {
        Self { input, position: 0 }
    }

    /// The character `amount` places ahead of the cursor.
    fn peek(&self, amount: usize) -> (r: Result<char, ReaderError>)
        ensures
            r == spec_char_at(self@.input, self@.position + amount),
    {
        let length: usize = self.input.as_str().unicode_len();
        match self.position.checked_add(amount) {
            Some(position) => {
                if position < length {
                    Ok(self.input.as_str().get_char(position))
                } else {
                    Err(ReaderError::EoF)
                }
            },
            None => Err(ReaderError::EoF),
        }
    }

    /// The character under the cursor.
    fn current(&self) -> (r: Result<char, ReaderError>)
        ensures
            r == spec_char_at(self@.input, self@.position as int),
    {
        self.peek(0)
    }

    /// Advance the cursor and return the character now under it.
    fn next(&mut self) -> (r: Result<char, ReaderError>)
        requires
            old(self)@.position < old(self)@.input.len(),
        ensures
            final(self)@.input == old(self)@.input,
            final(self)@.position == old(self)@.position + 1,
            r == spec_char_at(final(self)@.input, final(self)@.position as int),
    {
        let length: usize = self.input.as_str().unicode_len();
        proof {
            assert(self.position < length);
        }
        self.position += 1;
        self.current()
    }

    /// Advance the cursor; `true` means the input is exhausted.
    fn next_or_eof(&mut self) -> (r: Result<bool, ReaderError>)
        requires
            old(self)@.position < old(self)@.input.len(),
        ensures
            final(self)@.input == old(self)@.input,
            final(self)@.position == old(self)@.position + 1,
            r == Ok::<bool, ReaderError>(final(self)@.position >= final(self)@.input.len()),
    {
        match self.next() {
            Err(ReaderError::EoF) => Ok(true),
            Err(err) => Err(err),
            Ok(_) => Ok(false),
        }
    }

    /// Whether the cursor has passed the last character.
    fn is_eof(&self) -> (r: bool)
        ensures
            r == (self@.position >= self@.input.len()),
    {
        let length: usize = self.input.as_str().unicode_len();
        self.position >= length
    }

    /// Whether `input` is a token separator.
    fn is_separator(&self, input: &char) -> (r: bool)
        ensures
            r == is_separator_char(*input),
    {
        let c = *input;
        c == ' ' || c == '\t' || c == '\n' || c == '\r'
    }

    /// Move the cursor past the separators under it.
    fn skip_separators(&mut self) -> (r: Result<(), ReaderError>)
        requires
            old(self)@.position < old(self)@.input.len(),
        ensures
            final(self)@.input == old(self)@.input,
            r == Ok::<(), ReaderError>(()),
            final(self)@.position == spec_skip_separators(old(self)@.input, old(self)@.position),
    {
        loop
            invariant
                self@.position <= self@.input.len(),
                spec_skip_separators(self@.input, self@.position) == spec_skip_separators(
                    old(self)@.input,
                    old(self)@.position,
                ),
                self@.input == old(self)@.input,
            decreases self@.input.len() - self@.position,
        {
            let c = match self.current() {
                Ok(c) => c,
                Err(_) => {
                    return Ok(());
                },
            };
            if !self.is_separator(&c) {
                return Ok(());
            }
            let ghost previous = self@.position;
            let done = match self.next_or_eof() {
                Ok(done) => done,
                Err(_) => true,
            };
            proof {
                assert(spec_skip_separators(self@.input, previous) == spec_skip_separators(
                    self@.input,
                    self@.position,
                ));
            }
            if done {
                return Ok(());
            }
        }
    }

    /// Read one number token at the cursor: an optional leading minus,
    /// the whole part, and after a `.` the fractional part.
    fn read_number(&mut self) -> (r: Result<Token, ReaderError>)
        ensures
            final(self)@.input == old(self)@.input,
            token_step_model(r, final(self)@.position) == spec_read_number(
                old(self)@.input,
                old(self)@.position,
            ),
    {
        let negative = match self.current() {
            Ok(c) => c == '-',
            Err(e) => {
                return Err(e);
            },
        };
        if negative {
            match self.next() {
                Ok(_) => (),
                Err(e) => {
                    return Err(e);
                },
            }
        }
        let mut whole: i64 = 0;
        loop
            invariant
                self@.input == old(self)@.input,
                self@.position < self@.input.len(),
                spec_number_whole(self@.input, self@.position, negative, whole)
                    == spec_read_number(old(self)@.input, old(self)@.position),
            decreases self@.input.len() - self@.position,
        {
            let c = match self.current() {
                Ok(c) => c,
                Err(e) => {
                    return Err(e);
                },
            };
            if self.is_separator(&c) || c == '{' || c == '}' {
                return Ok(Token::IntegerConstant(signed_magnitude(negative, whole)));
            }
            if c == '.' {
                match self.next() {
                    Ok(_) => (),
                    Err(e) => {
                        return Err(e);
                    },
                }
                return self.read_fraction(negative, whole);
            }
            let cu: u32 = c as u32;
            if cu < 48 || cu > 57 {
                return Err(ReaderError::ExpectedADigit(c));
            }
            whole = whole.wrapping_mul(10).wrapping_add((cu - 48) as i64);
            let done = match self.next_or_eof() {
                Ok(done) => done,
                Err(e) => {
                    return Err(e);
                },
            };
            if done {
                return Ok(Token::IntegerConstant(signed_magnitude(negative, whole)));
            }
        }
    }

    /// Read the fractional part of a number token, the cursor standing
    /// just past the `.`.
    fn read_fraction(&mut self, negative: bool, whole: i64) -> (r: Result<Token, ReaderError>)
        ensures
            final(self)@.input == old(self)@.input,
            token_step_model(r, final(self)@.position) == spec_number_fraction(
                old(self)@.input,
                old(self)@.position,
                negative,
                whole,
                0i64,
                1i64,
            ),
    {
        let mut fraction: i64 = 0;
        let mut divisor: i64 = 1;
        loop
            invariant
                self@.input == old(self)@.input,
                spec_number_fraction(self@.input, self@.position, negative, whole, fraction, divisor)
                    == spec_number_fraction(
                    old(self)@.input,
                    old(self)@.position,
                    negative,
                    whole,
                    0i64,
                    1i64,
                ),
            decreases self@.input.len() - self@.position,
        {
            let c = match self.current() {
                Ok(c) => c,
                Err(e) => {
                    return Err(e);
                },
            };
            if self.is_separator(&c) || c == '{' || c == '}' {
                return Ok(Token::FloatConstant(float_bits(negative, whole, fraction, divisor)));
            }
            let cu: u32 = c as u32;
            if cu < 48 || cu > 57 {
                return Err(ReaderError::ExpectedADigit(c));
            }
            fraction = fraction.wrapping_mul(10).wrapping_add((cu - 48) as i64);
            divisor = divisor.wrapping_mul(10);
            let done = match self.next_or_eof() {
                Ok(done) => done,
                Err(e) => {
                    return Err(e);
                },
            };
            if done {
                return Ok(Token::FloatConstant(float_bits(negative, whole, fraction, divisor)));
            }
        }
    }

    /// Read one identifier token at the cursor: the longest run of legal
    /// characters, closed by a separator, a brace or the end.
    fn read_identifier(&mut self) -> (r: Result<Token, ReaderError>)
        ensures
            final(self)@.input == old(self)@.input,
            token_step_model(r, final(self)@.position) == spec_read_identifier(
                old(self)@.input,
                old(self)@.position,
                old(self)@.position,
            ),
    {
        let start = self.position;
        loop
            invariant
                self@.input == old(self)@.input,
                start == old(self)@.position,
                start <= self@.position,
                spec_read_identifier(self@.input, start as nat, self@.position)
                    == spec_read_identifier(
                    old(self)@.input,
                    old(self)@.position,
                    old(self)@.position,
                ),
            decreases self@.input.len() - self@.position,
        {
            let c = match self.current() {
                Ok(c) => c,
                Err(e) => {
                    return Err(e);
                },
            };
            if !legal_identifier_char(c) {
                return Err(ReaderError::UnexpectedCharacter(c));
            }
            let done = match self.next_or_eof() {
                Ok(done) => done,
                Err(e) => {
                    return Err(e);
                },
            };
            let closed = done || {
                let c2 = match self.current() {
                    Ok(c2) => c2,
                    Err(e) => {
                        return Err(e);
                    },
                };
                self.is_separator(&c2) || c2 == '{' || c2 == '}'
            };
            if closed {
                let name = self.input.as_str().substring_char(start, self.position);
                return Ok(Token::Identifier(name.to_owned()));
            }
        }
    }

    /// Tokenise the rest of the input: skip separators, read one token,
    /// and repeat until the input is exhausted. The tokens come out in
    /// source order; none carries whitespace.
    pub fn tokenise(&mut self) -> (r: Result<Vec<Token>, ReaderError>)
        ensures
            final(self)@.input == old(self)@.input,
            tokens_result_model(r) == spec_tokenise_from(
                old(self)@.input,
                old(self)@.position,
                Seq::empty(),
            ),
    {
        let mut tokens: Vec<Token> = Vec::new();
        proof {
            assert(tokens.deep_view() =~= Seq::<TokenModel>::empty());
        }
        loop
            invariant
                self@.input == old(self)@.input,
                spec_tokenise_from(self@.input, self@.position, tokens.deep_view())
                    == spec_tokenise_from(old(self)@.input, old(self)@.position, Seq::empty()),
            decreases self@.input.len() - self@.position,
        {
            if self.is_eof() {
                return Ok(tokens);
            }
            let ghost loop_position = self@.position;
            proof {
                lemma_skip_separators_bounds(self@.input, self@.position);
            }
            match self.skip_separators() {
                Ok(_) => (),
                Err(e) => {
                    return Err(e);
                },
            }
            let c = match self.current() {
                Ok(c) => c,
                Err(e) => {
                    return Err(e);
                },
            };
            proof {
                lemma_next_token_bounds(self@.input, self@.position);
            }
            let ghost token_position = self@.position;
            let cu: u32 = c as u32;
            let token = if 48 <= cu && cu <= 57 {
                match self.read_number() {
                    Ok(t) => t,
                    Err(e) => {
                        return Err(e);
                    },
                }
            } else if c == '-' {
                let after = match self.peek(1) {
                    Ok(after) => after,
                    Err(e) => {
                        return Err(e);
                    },
                };
                let au: u32 = after as u32;
                if 48 <= au && au <= 57 {
                    match self.read_number() {
                        Ok(t) => t,
                        Err(e) => {
                            return Err(e);
                        },
                    }
                } else {
                    match self.read_identifier() {
                        Ok(t) => t,
                        Err(e) => {
                            return Err(e);
                        },
                    }
                }
            } else if c == '{' || c == '}' {
                self.take_brace(c)
            } else {
                match self.read_identifier() {
                    Ok(t) => t,
                    Err(e) => {
                        return Err(e);
                    },
                }
            };
            proof {
                assert(token_step_model(Ok(token), self@.position) == spec_next_token(
                    self@.input,
                    token_position,
                ));
            }
            let ghost tokens_before = tokens.deep_view();
            tokens.push(token);
            proof {
                assert(tokens.deep_view() =~= tokens_before.push(token@));
            }
            if !self.is_eof() {
                proof {
                    lemma_skip_separators_bounds(self@.input, self@.position);
                }
                match self.skip_separators() {
                    Ok(_) => (),
                    Err(e) => {
                        return Err(e);
                    },
                }
            }
        }
    }

    /// Consume a structural brace as a one-character identifier token.
    fn take_brace(&mut self, c: char) -> (t: Token)
        requires
            old(self)@.position < old(self)@.input.len(),
            old(self)@.input[old(self)@.position as int] == c,
            is_brace_char(c),
        ensures
            final(self)@.input == old(self)@.input,
            final(self)@.position == old(self)@.position + 1,
            t@ == TokenModel::Identifier(seq![c]),
    {
        let length: usize = self.input.as_str().unicode_len();
        proof {
            assert(self.position < length);
        }
        self.position += 1;
        if c == '{' {
            let name = String::from_str("{");
            proof {
                reveal_strlit("{");
                assert(name@ =~= seq!['{']);
            }
            Token::Identifier(name)
        } else {
            let name = String::from_str("}");
            proof {
                reveal_strlit("}");
                assert(name@ =~= seq!['}']);
            }
            Token::Identifier(name)
        }
    }
}

/// The character for one decimal digit.
pub open spec fn spec_digit_char(d: nat) -> char {
    if d == 0 {
        '0'
    } else if d == 1 {
        '1'
    } else if d == 2 {
        '2'
    } else if d == 3 {
        '3'
    } else if d == 4 {
        '4'
    } else if d == 5 {
        '5'
    } else if d == 6 {
        '6'
    } else if d == 7 {
        '7'
    } else if d == 8 {
        '8'
    } else {
        '9'
    }
}

/// The decimal numeral of a natural number, most significant digit first.
pub open spec fn spec_decimal_nat(n: nat) -> Seq<char>
    decreases n,
{
    if n < 10 {
        seq![spec_digit_char(n)]
    } else {
        spec_decimal_nat(n / 10).push(spec_digit_char(n % 10))
    }
}

/// The decimal numeral of a 64-bit signed integer: a minus sign, when the
/// value is negative, before the numeral of its magnitude.
pub open spec fn spec_decimal_i64(value: i64) -> Seq<char> {
    if value < 0 {
        seq!['-'] + spec_decimal_nat((-(value as int)) as nat)
    } else {
        spec_decimal_nat(value as nat)
    }
}

/// Append one decimal digit to `out`.
fn push_digit(out: &mut String, d: u64)
    requires
        d < 10,
    ensures
        final(out)@ == old(out)@.push(spec_digit_char(d as nat)),
{
    let digit: &str = if d == 0 {
        "0"
    } else if d == 1 {
        "1"
    } else if d == 2 {
        "2"
    } else if d == 3 {
        "3"
    } else if d == 4 {
        "4"
    } else if d == 5 {
        "5"
    } else if d == 6 {
        "6"
    } else if d == 7 {
        "7"
    } else if d == 8 {
        "8"
    } else {
        "9"
    };
    proof {
        reveal_strlit("0");
        reveal_strlit("1");
        reveal_strlit("2");
        reveal_strlit("3");
        reveal_strlit("4");
        reveal_strlit("5");
        reveal_strlit("6");
        reveal_strlit("7");
        reveal_strlit("8");
        reveal_strlit("9");
        assert(digit@ =~= seq![spec_digit_char(d as nat)]);
    }
    out.append(digit);
    proof {
        assert(old(out)@ + digit@ =~= old(out)@.push(spec_digit_char(d as nat)));
    }
}

/// Append the decimal numeral of `n` to `out`.
pub(crate) fn append_decimal(out: &mut String, n: u64)
    ensures
        final(out)@ == old(out)@ + spec_decimal_nat(n as nat),
    decreases n,
{
    if n < 10 {
        push_digit(out, n);
        proof {
            assert(old(out)@.push(spec_digit_char(n as nat)) =~= old(out)@ + spec_decimal_nat(
                n as nat,
            ));
        }
    } else {
        append_decimal(out, n / 10);
        push_digit(out, n % 10);
        proof {
            assert((old(out)@ + spec_decimal_nat((n / 10) as nat)).push(
                spec_digit_char((n % 10) as nat),
            ) =~= old(out)@ + spec_decimal_nat(n as nat));
        }
    }
}

/// The decimal text of a 64-bit signed integer, the inverse of number
/// reading for integer literals.
pub fn integer_to_text(value: i64) -> (r: String)
    ensures
        r@ == spec_decimal_i64(value),
{
    let mut out = String::new();
    if value < 0 {
        proof {
            reveal_strlit("-");
        }
        out.append("-");
        let magnitude: u64 = if value == i64::MIN {
            9223372036854775808u64
        } else {
            (-value) as u64
        };
        append_decimal(&mut out, magnitude);
        proof {
            assert(out@ =~= spec_decimal_i64(value));
        }
    } else {
        append_decimal(&mut out, value as u64);
        proof {
            assert(out@ =~= spec_decimal_i64(value));
        }
    }
    out
}

/// The signed magnitude of a number token, as `apply_sign` states it.
fn signed_magnitude(negative: bool, magnitude: i64) -> (r: i64)
    ensures
        r == apply_sign(negative, magnitude),
{
    if negative {
        (-1i64).wrapping_mul(magnitude)
    } else {
        magnitude
    }
}

/// The double carried by a float token, as `float_token_bits` states it.
fn float_bits(negative: bool, whole: i64, fraction: i64, divisor: i64) -> (r: u64)
    ensures
        r == float_token_bits(negative, whole, fraction, divisor),
{
    let sign_bits = if negative {
        double::of_i64(-1)
    } else {
        double::of_i64(1)
    };
    let fraction_bits = double::div_bits(double::of_i64(fraction), double::of_i64(divisor));
    double::mul_bits(sign_bits, double::add_bits(double::of_i64(whole), fraction_bits))
}

/// Whether a character is legal inside an identifier, as
/// `is_identifier_char` states it.
fn legal_identifier_char(c: char) -> (r: bool)
    ensures
        r == is_identifier_char(c),
{
    let u: u32 = c as u32;
    (97 <= u && u <= 122) || (65 <= u && u <= 90) || (48 <= u && u <= 57) || u == 33 || (35 <= u
        && u <= 47) || u == 58 || (60 <= u && u <= 64) || u == 92 || (94 <= u && u <= 96) || u
        == 124 || u == 126
}

/// The number scan can fail only at the end of the input or at a
/// character that is no digit: it never reports an unexpected character.
proof fn lemma_number_whole_errors(s: Seq<char>, p: nat, negative: bool, whole: i64)
    ensures
        spec_number_whole(s, p, negative, whole) matches Err(e) ==> !(e is UnexpectedCharacter),
    decreases s.len() - p,
{
    if p < s.len() {
        if s[p as int] == '.' && p + 1 < s.len() {
            lemma_number_fraction_errors(s, (p + 1) as nat, negative, whole, 0i64, 1i64);
        }
        if p + 1 < s.len() {
            lemma_number_whole_errors(
                s,
                (p + 1) as nat,
                negative,
                whole.wrapping_mul(10).wrapping_add(spec_digit_value(s[p as int])),
            );
        }
    }
}

/// The fractional scan can fail only at the end of the input or at a
/// character that is no digit.
proof fn lemma_number_fraction_errors(
    s: Seq<char>,
    p: nat,
    negative: bool,
    whole: i64,
    fraction: i64,
    divisor: i64,
)
    ensures
        spec_number_fraction(s, p, negative, whole, fraction, divisor) matches Err(e) ==> !(
        e is UnexpectedCharacter),
    decreases s.len() - p,
{
    if p < s.len() && p + 1 < s.len() {
        lemma_number_fraction_errors(
            s,
            (p + 1) as nat,
            negative,
            whole,
            fraction.wrapping_mul(10).wrapping_add(spec_digit_value(s[p as int])),
            divisor.wrapping_mul(10),
        );
    }
}

/// Over the legal alphabet, the identifier scan started at a character
/// that is neither a separator nor a brace never reports an unexpected
/// character: every character it meets is legal, a separator or a brace,
/// and the latter two close the token.
proof fn lemma_identifier_alphabet(s: Seq<char>, start: nat, p: nat)
    requires
        forall|i: int|
            0 <= i < s.len() ==> is_identifier_char(#[trigger] s[i]) || is_separator_char(s[i])
                || is_brace_char(s[i]),
        p < s.len() ==> !is_separator_char(s[p as int]) && !is_brace_char(s[p as int]),
    ensures
        spec_read_identifier(s, start, p) matches Err(e) ==> !(e is UnexpectedCharacter),
    decreases s.len() - p,
{
    if p < s.len() && is_identifier_char(s[p as int]) {
        if !(p + 1 >= s.len() || is_separator_char(s[(p + 1) as int]) || is_brace_char(
            s[(p + 1) as int],
        )) {
            lemma_identifier_alphabet(s, start, (p + 1) as nat);
        }
    }
}

/// Over the legal alphabet, reading one token at a non-separator
/// position never reports an unexpected character.
proof fn lemma_next_token_alphabet(s: Seq<char>, q: nat)
    requires
        forall|i: int|
            0 <= i < s.len() ==> is_identifier_char(#[trigger] s[i]) || is_separator_char(s[i])
                || is_brace_char(s[i]),
        q < s.len(),
        !is_separator_char(s[q as int]),
    ensures
        spec_next_token(s, q) matches Err(e) ==> !(e is UnexpectedCharacter),
{
    if is_digit_char(s[q as int]) || (s[q as int] == '-' && q + 1 < s.len() && is_digit_char(
        s[(q + 1) as int],
    )) {
        if s[q as int] == '-' {
            if q + 2 < s.len() {
                lemma_number_whole_errors(
                    s,
                    (q + 2) as nat,
                    true,
                    (0i64).wrapping_mul(10).wrapping_add(spec_digit_value(s[(q + 1) as int])),
                );
            }
        } else {
            if q + 1 < s.len() {
                lemma_number_whole_errors(
                    s,
                    (q + 1) as nat,
                    false,
                    (0i64).wrapping_mul(10).wrapping_add(spec_digit_value(s[q as int])),
                );
            }
        }
    } else if !is_brace_char(s[q as int]) {
        lemma_identifier_alphabet(s, q, q);
    }
}

/// Lexing started at `p` over the legal alphabet never reports an
/// unexpected character.
proof fn lemma_tokenise_from_alphabet(s: Seq<char>, p: nat, acc: Seq<TokenModel>)
    requires
        forall|i: int|
            0 <= i < s.len() ==> is_identifier_char(#[trigger] s[i]) || is_separator_char(s[i])
                || is_brace_char(s[i]),
    ensures
        spec_tokenise_from(s, p, acc) matches Err(e) ==> !(e is UnexpectedCharacter),
    decreases s.len() - p,
{
    if p < s.len() {
        lemma_skip_separators_bounds(s, p);
        let q = spec_skip_separators(s, p);
        if q < s.len() {
            lemma_next_token_bounds(s, q);
            lemma_next_token_alphabet(s, q);
            match spec_next_token(s, q) {
                Err(_) => {},
                Ok((t, after)) => {
                    let resume = if after >= s.len() {
                        after
                    } else {
                        spec_skip_separators(s, after)
                    };
                    if after < s.len() {
                        lemma_skip_separators_bounds(s, after);
                    }
                    if p < resume <= s.len() {
                        lemma_tokenise_from_alphabet(s, resume, acc.push(t));
                    }
                },
            }
        }
    }
}

/// Lexing is total over its legal alphabet. The scan itself is verified
/// never to panic on any input; on top of that, for inputs built only
/// from identifier characters (letters, digits and the fixed punctuation
/// set), whitespace and braces, any failure is one of the documented
/// end-of-input or expected-digit errors — never an unexpected character.
pub proof fn lemma_lexing_total_over_alphabet(s: Seq<char>)
    requires
        forall|i: int|
            0 <= i < s.len() ==> is_identifier_char(#[trigger] s[i]) || is_separator_char(s[i])
                || is_brace_char(s[i]),
    ensures
        spec_tokenise(s) matches Err(e) ==> e is EoF || e is ExpectedADigit,
{
    lemma_tokenise_from_alphabet(s, 0, Seq::empty());
    match spec_tokenise(s) {
        Err(e) => {
            match e {
                ReaderError::EoF => {},
                ReaderError::ExpectedADigit(_) => {},
                ReaderError::UnexpectedCharacter(_) => {
                    assert(false);
                },
            }
        },
        Ok(_) => {},
    }
}

/// The value a run of digits accumulates to, scanned left to right with
/// the host's 64-bit wraparound.
pub open spec fn wrap_accumulate(acc: i64, digits: Seq<char>) -> i64
    decreases digits.len(),
{
    if digits.len() == 0 {
        acc
    } else {
        wrap_accumulate(
            acc.wrapping_mul(10).wrapping_add(spec_digit_value(digits[0])),
            digits.drop_first(),
        )
    }
}

/// Accumulating one more digit at the right multiplies by ten and adds
/// it.
proof fn lemma_accumulate_push(acc: i64, digits: Seq<char>, d: char)
    ensures
        wrap_accumulate(acc, digits.push(d)) == wrap_accumulate(acc, digits).wrapping_mul(
            10,
        ).wrapping_add(spec_digit_value(d)),
    decreases digits.len(),
{
    if digits.len() == 0 {
        assert(digits.push(d)[0] == d);
        assert(digits.push(d).drop_first() =~= Seq::<char>::empty());
        assert(wrap_accumulate(
            acc.wrapping_mul(10).wrapping_add(spec_digit_value(d)),
            Seq::<char>::empty(),
        ) == acc.wrapping_mul(10).wrapping_add(spec_digit_value(d)));
        assert(wrap_accumulate(acc, Seq::<char>::empty()) == acc);
    } else {
        assert(digits.push(d)[0] == digits[0]);
        assert(digits.push(d).drop_first() =~= digits.drop_first().push(d));
        let grown = acc.wrapping_mul(10).wrapping_add(spec_digit_value(digits[0]));
        lemma_accumulate_push(grown, digits.drop_first(), d);
        assert(wrap_accumulate(acc, digits) == wrap_accumulate(grown, digits.drop_first()));
    }
}

/// A decimal numeral is never empty and holds only digits.
proof fn lemma_decimal_nat_digits(n: nat)
    ensures
        spec_decimal_nat(n).len() >= 1,
        forall|i: int|
            0 <= i < spec_decimal_nat(n).len() ==> is_digit_char(#[trigger] spec_decimal_nat(n)[i]),
    decreases n,
{
    if n < 10 {
    } else {
        lemma_decimal_nat_digits(n / 10);
        let prefix = spec_decimal_nat(n / 10);
        let whole = spec_decimal_nat(n);
        assert forall|i: int| 0 <= i < whole.len() implies is_digit_char(whole[i]) by {
            if i < prefix.len() {
                assert(whole[i] == prefix[i]);
            }
        }
    }
}

/// Scanning the numeral of a magnitude no greater than `2^63` recovers
/// it exactly, the one overflowing magnitude wrapping to `i64::MIN`.
proof fn lemma_accumulate_decimal(m: nat)
    requires
        m <= 0x8000_0000_0000_0000,
    ensures
        m <= i64::MAX ==> wrap_accumulate(0i64, spec_decimal_nat(m)) == m as i64,
        m == 0x8000_0000_0000_0000 ==> wrap_accumulate(0i64, spec_decimal_nat(m)) == i64::MIN,
    decreases m,
{
    if m < 10 {
        assert(spec_decimal_nat(m) =~= Seq::<char>::empty().push(spec_digit_char(m)));
        lemma_accumulate_push(0i64, Seq::empty(), spec_digit_char(m));
    } else {
        lemma_accumulate_decimal(m / 10);
        lemma_accumulate_push(0i64, spec_decimal_nat(m / 10), spec_digit_char(m % 10));
        let prefix_value: i64 = (m / 10) as i64;
        assert(wrap_accumulate(0i64, spec_decimal_nat(m / 10)) == prefix_value);
        let stepped = prefix_value.wrapping_mul(10);
        assert(prefix_value * 10 <= i64::MAX) by {
            assert(m / 10 * 10 <= m);
        }
        assert(stepped == prefix_value * 10) by {
            vstd::arithmetic::div_mod::lemma_small_mod(
                (prefix_value * 10) as nat,
                0x1_0000_0000_0000_0000,
            );
        }
        assert(m / 10 * 10 + m % 10 == m);
        if m <= i64::MAX {
            assert(stepped.wrapping_add((m % 10) as i64) == m as i64);
        } else {
            assert(stepped.wrapping_add((m % 10) as i64) == i64::MIN);
        }
    }
}

/// Over a pure digit run, the whole-part scan reaches the end of the
/// input and yields the accumulated integer.
proof fn lemma_whole_scan_digits(s: Seq<char>, p: nat, negative: bool, acc: i64)
    requires
        p < s.len(),
        forall|i: int| p <= i < s.len() ==> is_digit_char(#[trigger] s[i]),
    ensures
        spec_number_whole(s, p, negative, acc) == Ok::<_, ReaderError>(
            (
                TokenModel::IntegerConstant(apply_sign(negative, wrap_accumulate(acc, s.skip(p as int)))),
                s.len(),
            ),
        ),
    decreases s.len() - p,
{
    let grown = acc.wrapping_mul(10).wrapping_add(spec_digit_value(s[p as int]));
    assert(s.skip(p as int)[0] == s[p as int]);
    assert(s.skip(p as int).drop_first() =~= s.skip(p as int + 1));
    assert(wrap_accumulate(acc, s.skip(p as int)) == wrap_accumulate(grown, s.skip(p as int + 1)));
    if p + 1 >= s.len() {
        assert(s.skip(p as int + 1) =~= Seq::<char>::empty());
        assert(wrap_accumulate(grown, s.skip(p as int + 1)) == grown);
    } else {
        lemma_whole_scan_digits(s, (p + 1) as nat, negative, grown);
    }
}

/// Round trip of integer literals: lexing the decimal text of any 64-bit
/// integer yields exactly one token, the integer constant holding that
/// same value.
pub proof fn lemma_integer_literal_round_trip(n: i64)
    ensures
        spec_tokenise(spec_decimal_i64(n)) == Ok::<_, ReaderError>(
            seq![TokenModel::IntegerConstant(n)],
        ),
{
    let s = spec_decimal_i64(n);
    if n >= 0 {
        let m = n as nat;
        lemma_decimal_nat_digits(m);
        assert(s == spec_decimal_nat(m));
        assert(is_digit_char(s[0]));
        assert(spec_skip_separators(s, 0) == 0);
        lemma_whole_scan_digits(s, 0, false, 0i64);
        assert(s.skip(0) =~= s);
        lemma_accumulate_decimal(m);
        assert(spec_read_number(s, 0) == Ok::<_, ReaderError>(
            (TokenModel::IntegerConstant(n), s.len()),
        ));
        assert(spec_next_token(s, 0) == Ok::<_, ReaderError>(
            (TokenModel::IntegerConstant(n), s.len()),
        ));
        assert(spec_tokenise_from(s, s.len(), Seq::empty().push(TokenModel::IntegerConstant(n)))
            == Ok::<_, ReaderError>(Seq::empty().push(TokenModel::IntegerConstant(n))));
        assert(Seq::empty().push(TokenModel::IntegerConstant(n)) =~= seq![
            TokenModel::IntegerConstant(n),
        ]);
    } else {
        let m = (-(n as int)) as nat;
        let digits = spec_decimal_nat(m);
        lemma_decimal_nat_digits(m);
        assert(s == seq!['-'] + digits);
        assert(s.len() == 1 + digits.len());
        assert(s[0] == '-');
        assert forall|i: int| 1 <= i < s.len() implies is_digit_char(#[trigger] s[i]) by {
            assert(s[i] == digits[i - 1]);
        }
        assert(!is_separator_char(s[0]));
        assert(spec_skip_separators(s, 0) == 0);
        assert(!is_digit_char(s[0]));
        assert(is_digit_char(s[1]));
        lemma_whole_scan_digits(s, 1, true, 0i64);
        assert(s.skip(1) =~= digits);
        lemma_accumulate_decimal(m);
        let accumulated = wrap_accumulate(0i64, digits);
        if m <= i64::MAX {
            assert(accumulated == m as i64);
            assert(apply_sign(true, accumulated) == n);
        } else {
            assert(m == 0x8000_0000_0000_0000) by {
                assert(n == i64::MIN);
            }
            assert(accumulated == i64::MIN);
            assert(apply_sign(true, accumulated) == n);
        }
        assert(spec_read_number(s, 0) == Ok::<_, ReaderError>(
            (TokenModel::IntegerConstant(n), s.len()),
        ));
        assert(spec_next_token(s, 0) == Ok::<_, ReaderError>(
            (TokenModel::IntegerConstant(n), s.len()),
        ));
        assert(spec_tokenise_from(s, s.len(), Seq::empty().push(TokenModel::IntegerConstant(n)))
            == Ok::<_, ReaderError>(Seq::empty().push(TokenModel::IntegerConstant(n))));
        assert(Seq::empty().push(TokenModel::IntegerConstant(n)) =~= seq![
            TokenModel::IntegerConstant(n),
        ]);
    }
}

} // verus!
