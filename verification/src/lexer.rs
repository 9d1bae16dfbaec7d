//! The scanner: a two-character lookahead window over the input, and one
//! token produced per call.
//!
//! The mathematical model lives in [`scan`]: given the input characters and
//! the scanner's position it names the token found there and the position at
//! which the next step begins. [`tokens_from`] iterates it into the whole
//! stream, up to and including the first `EndOfInput`. The executable
//! [`Lexer`] is proved to follow `scan` step by step.

use vstd::prelude::*;
use vstd::string::StrSliceExecFns;

use crate::token::{lexeme_view, Token, TokenView};

verus! {

/// Whitespace that may separate tokens: space, tab, newline, carriage return.
pub open spec fn is_whitespace_char(c: char) -> bool {
    c == ' ' || c == '\t' || c == '\n' || c == '\r'
}

/// A letter or underscore: the characters an identifier is made of. Digits
/// are deliberately not included, so identifiers never contain digits.
pub open spec fn is_letter_char(c: char) -> bool {
    ('a' <= c && c <= 'z') || ('A' <= c && c <= 'Z') || c == '_'
}

/// An ASCII digit.
pub open spec fn is_digit_char(c: char) -> bool {
    '0' <= c && c <= '9'
}

/// One of the eight single-character operator and delimiter lexemes.
pub open spec fn is_single_char(c: char) -> bool {
    c == '=' || c == ';' || c == '(' || c == ')' || c == ',' || c == '+' || c == '{' || c == '}'
}

/// The token of a single-character lexeme.
pub open spec fn single_char_view(c: char) -> TokenView
    recommends
        is_single_char(c),
{
    if c == '=' {
        TokenView::Assign
    } else if c == ';' {
        TokenView::Semicolon
    } else if c == '(' {
        TokenView::LParen
    } else if c == ')' {
        TokenView::RParen
    } else if c == ',' {
        TokenView::Comma
    } else if c == '+' {
        TokenView::Plus
    } else if c == '{' {
        TokenView::LBrace
    } else {
        TokenView::RBrace
    }
}

/// The character the scanner sees at position `i`: the input character
/// there, or the null sentinel at and past the end of the input.
pub open spec fn char_at(s: Seq<char>, i: int) -> char {
    if 0 <= i < s.len() {
        s[i]
    } else {
        '\0'
    }
}

/// The first position at or after `i` that does not hold whitespace.
pub open spec fn skip_ws(s: Seq<char>, i: int) -> int
    decreases s.len() - i
        when 0 <= i <= s.len()
{
    if i < s.len() && is_whitespace_char(s[i]) {
        skip_ws(s, i + 1)
    } else {
        i
    }
}

/// The end of the run of letters and underscores that begins at `i`.
pub open spec fn letter_run_end(s: Seq<char>, i: int) -> int
    decreases s.len() - i
        when 0 <= i <= s.len()
{
    if i < s.len() && is_letter_char(s[i]) {
        letter_run_end(s, i + 1)
    } else {
        i
    }
}

/// The end of the run of ASCII digits that begins at `i`.
pub open spec fn digit_run_end(s: Seq<char>, i: int) -> int
    decreases s.len() - i
        when 0 <= i <= s.len()
{
    if i < s.len() && is_digit_char(s[i]) {
        digit_run_end(s, i + 1)
    } else {
        i
    }
}

/// The numeric value of one digit character.
pub open spec fn digit_val(c: char) -> int
    recommends
        is_digit_char(c),
{
    c as int - '0' as int
}

/// The value of a run of digit characters, read in base ten.
pub open spec fn digits_value(ds: Seq<char>) -> int
    decreases ds.len(),
{
    if ds.len() == 0 {
        0
    } else {
        digits_value(ds.drop_last()) * 10 + digit_val(ds.last())
    }
}

/// The token a digit run yields: its value when it fits a 32-bit signed
/// integer, and `Illegal` when it overflows that range.
pub open spec fn number_view(ds: Seq<char>) -> TokenView {
    if digits_value(ds) <= i32::MAX {
        TokenView::IntegerLiteral(digits_value(ds))
    } else {
        TokenView::Illegal
    }
}

/// One step of the scanner: the token found at position `i` of input `s`,
/// and the position at which the next step begins. Whitespace before the
/// token is skipped; the null sentinel — at the end of the input, or a
/// literal null character within it — yields `EndOfInput`; the position
/// never moves past the end of the input.
pub open spec fn scan(s: Seq<char>, i: int) -> (TokenView, int)
    recommends
        0 <= i <= s.len(),
{
    let j = skip_ws(s, i);
    let c = char_at(s, j);
    if c == '\0' {
        (TokenView::EndOfInput, if j < s.len() { j + 1 } else { s.len() as int })
    } else if is_single_char(c) {
        (single_char_view(c), j + 1)
    } else if is_letter_char(c) {
        (lexeme_view(s.subrange(j, letter_run_end(s, j))), letter_run_end(s, j))
    } else if is_digit_char(c) {
        (number_view(s.subrange(j, digit_run_end(s, j))), digit_run_end(s, j))
    } else {
        (TokenView::Illegal, j + 1)
    }
}

/// The whole token stream from position `i`: what repeated calls to
/// `next_token` return, up to and including the first `EndOfInput` — the
/// point at which a consumer stops.
pub open spec fn tokens_from(s: Seq<char>, i: int) -> Seq<TokenView>
    decreases s.len() - i
        when 0 <= i <= s.len()
{
    let (t, p) = scan(s, i);
    if t == TokenView::EndOfInput {
        seq![t]
    } else {
        proof {
            lemma_scan_progress(s, i);
        }
        seq![t] + tokens_from(s, p)
    }
}

/// Whether the scanner, started at position `i`, stands at position `j`
/// after some number of whole scan steps — that is, whether `j` is a token
/// boundary of the stream that begins at `i`.
pub open spec fn reaches(s: Seq<char>, i: int, j: int) -> bool
    decreases s.len() - i
        when 0 <= i <= s.len()
{
    i == j || {
        let (t, p) = scan(s, i);
        t != TokenView::EndOfInput && {
            proof {
                lemma_scan_progress(s, i);
            }
            reaches(s, p, j)
        }
    }
}

/// Where `skip_ws` stops: no earlier than `i`, no later than the end, on a
/// non-whitespace character, with nothing but whitespace before it.
pub proof fn lemma_skip_ws_props(s: Seq<char>, i: int)
    requires
        0 <= i <= s.len(),
    ensures
        i <= skip_ws(s, i) <= s.len(),
        skip_ws(s, i) < s.len() ==> !is_whitespace_char(s[skip_ws(s, i)]),
        forall|k: int| i <= k < skip_ws(s, i) ==> is_whitespace_char(s[k]),
    decreases s.len() - i,
{
    if i < s.len() && is_whitespace_char(s[i]) {
        lemma_skip_ws_props(s, i + 1);
    }
}

/// Where a letter run ends: no earlier than its start, no later than the end
/// of input, on the first non-letter, with only letters before it; and past
/// its first character whenever the run is non-empty.
pub proof fn lemma_letter_run_props(s: Seq<char>, i: int)
    requires
        0 <= i <= s.len(),
    ensures
        i <= letter_run_end(s, i) <= s.len(),
        letter_run_end(s, i) < s.len() ==> !is_letter_char(s[letter_run_end(s, i)]),
        forall|k: int| i <= k < letter_run_end(s, i) ==> is_letter_char(s[k]),
        i < s.len() && is_letter_char(s[i]) ==> i < letter_run_end(s, i),
    decreases s.len() - i,
{
    if i < s.len() && is_letter_char(s[i]) {
        lemma_letter_run_props(s, i + 1);
    }
}

/// Where a digit run ends, with the same shape as [`lemma_letter_run_props`].
pub proof fn lemma_digit_run_props(s: Seq<char>, i: int)
    requires
        0 <= i <= s.len(),
    ensures
        i <= digit_run_end(s, i) <= s.len(),
        digit_run_end(s, i) < s.len() ==> !is_digit_char(s[digit_run_end(s, i)]),
        forall|k: int| i <= k < digit_run_end(s, i) ==> is_digit_char(s[k]),
        i < s.len() && is_digit_char(s[i]) ==> i < digit_run_end(s, i),
    decreases s.len() - i,
{
    if i < s.len() && is_digit_char(s[i]) {
        lemma_digit_run_props(s, i + 1);
    }
}

/// Progress: one scan step never moves backwards nor past the end of the
/// input; before the end it consumes at least one character; at the end it
/// yields `EndOfInput` and stays put.
pub proof fn lemma_scan_progress(s: Seq<char>, i: int)
    requires
        0 <= i <= s.len(),
    ensures
        i <= scan(s, i).1 <= s.len(),
        i < s.len() ==> i < scan(s, i).1,
        i == s.len() ==> scan(s, i) == (TokenView::EndOfInput, i),
        scan(s, i).0 != TokenView::EndOfInput ==> i < scan(s, i).1,
{
    lemma_skip_ws_props(s, i);
    let j = skip_ws(s, i);
    let c = char_at(s, j);
    if c == '\0' || is_single_char(c) {
    } else if is_letter_char(c) {
        lemma_letter_run_props(s, j);
    } else if is_digit_char(c) {
        lemma_digit_run_props(s, j);
    }
}

/// Whether `c` is a letter or underscore, executably.
fn is_letter(c: char) -> (b: bool)
    ensures
        b == is_letter_char(c),
{
    ('a' <= c && c <= 'z') || ('A' <= c && c <= 'Z') || c == '_'
}

/// Whether `c` is an ASCII digit, executably.
fn is_digit(c: char) -> (b: bool)
    ensures
        b == is_digit_char(c),
{
    '0' <= c && c <= '9'
}

/// Relies on `String::push`: appends the character to the end of the string.
pub assume_specification[ String::push ](s: &mut String, ch: char)
    ensures
        final(s)@ == old(s)@.push(ch),
;

/// The characters of `input`, in order.
fn chars_of(input: &str) -> (chars: Vec<char>)
    ensures
        chars@ == input@,
{
    let n = input.unicode_len();
    let mut chars: Vec<char> = Vec::new();
    let mut i: usize = 0;
    while i < n
        invariant
            i <= n,
            n == input@.len(),
            chars@ == input@.subrange(0, i as int),
        decreases n - i,
    {
        chars.push(input.get_char(i));
        proof {
            assert(chars@ =~= input@.subrange(0, i + 1));
        }
        i = i + 1;
    }
    proof {
        assert(chars@ =~= input@);
    }
    chars
}

/// The scanner: the input characters, the cursor of the next character to
/// pull, the two-character lookahead window, and the ghost position of the
/// window within the input.
pub struct Lexer {
    input: Vec<char>,
    cursor: usize,
    curr: char,
    peek: char,
    position: Ghost<int>,
}

impl Lexer {
    /// The input being scanned, as a sequence of characters.
    pub closed spec fn src(self) -> Seq<char> {
        self.input@
    }

    /// The position of the character in the `curr` slot of the lookahead
    /// window: how many input characters the scanner has handed out so far,
    /// capped at the input length once the input is exhausted.
    pub closed spec fn pos(self) -> int {
        self.position@
    }

    /// The lookahead window is aligned with the ghost position: `curr` and
    /// `peek` hold the characters at the position and right after it (the
    /// null sentinel past the end), and the cursor points at the next
    /// character to pull into the window. The position starts at -2 while
    /// the window is first being primed.
    spec fn window_ok(self) -> bool {
        &&& -2 <= self.position@ <= self.input@.len()
        &&& self.curr == char_at(self.input@, self.position@)
        &&& self.peek == char_at(self.input@, self.position@ + 1)
        &&& self.cursor == if self.position@ + 2 <= self.input@.len() {
            self.position@ + 2
        } else {
            self.input@.len() as int
        }
    }

    /// A well-formed scanner: the window is aligned and priming is over.
    pub closed spec fn wf(self) -> bool {
        &&& self.window_ok()
        &&& 0 <= self.position@
    }

    /// Builds a scanner over `input` and primes the two-character lookahead
    /// window by reading ahead twice, so that the first call to `next_token`
    /// sees the first input character in `curr` and the second in `peek` —
    /// or the null sentinel where the input is shorter.
    pub fn new(input: &str) -> (lexer: Lexer)
        ensures
            lexer.wf(),
            lexer.src() == input@,
            lexer.pos() == 0,
    {
        let mut lexer = Lexer {
            input: chars_of(input),
            cursor: 0,
            curr: '\0',
            peek: '\0',
            position: Ghost(-2),
        };
        lexer.read_char();
        lexer.read_char();
        lexer
    }

    /// Returns the character in `curr`, shifts `peek` into `curr`, and pulls
    /// the next input character — or the null sentinel once the input is
    /// exhausted — into `peek`. The sole mutator of the scanning position.
    fn read_char(&mut self) -> (c: char)
        requires
            old(self).window_ok(),
        ensures
            final(self).window_ok(),
            final(self).input@ == old(self).input@,
            final(self).position@ == if old(self).position@ + 1 <= old(self).input@.len() {
                old(self).position@ + 1
            } else {
                old(self).input@.len() as int
            },
            c == char_at(old(self).input@, old(self).position@),
    {
        let c = self.curr;
        self.curr = self.peek;
        if self.cursor < self.input.len() {
            self.peek = self.input[self.cursor];
            self.cursor = self.cursor + 1;
        } else {
            self.peek = '\0';
        }
        proof {
            let newpos: int = if self.position@ + 1 <= self.input@.len() {
                self.position@ + 1
            } else {
                self.input@.len() as int
            };
            self.position@ = newpos;
        }
        c
    }

    /// Advances past spaces, tabs, newlines and carriage returns.
    fn skip_whitespaces(&mut self)
        requires
            old(self).wf(),
        ensures
            final(self).wf(),
            final(self).src() == old(self).src(),
            final(self).pos() == skip_ws(old(self).src(), old(self).pos()),
    {
        let ghost start = *old(self);
        while self.curr == ' ' || self.curr == '\t' || self.curr == '\n' || self.curr == '\r'
            invariant
                self.wf(),
                start.wf(),
                self.src() == start.src(),
                start.pos() <= self.pos(),
                skip_ws(self.src(), self.pos()) == skip_ws(start.src(), start.pos()),
            decreases self.src().len() - self.pos(),
        {
            proof {
                // A whitespace character is not the null sentinel, so the
                // window has not reached the end of the input.
                assert(self.pos() < self.src().len());
            }
            self.read_char();
        }
    }

    /// Scans the run of letters and underscores that begins at the current
    /// position and resolves it: the keyword's token when the text is
    /// reserved, else an `Identifier` carrying the exact text.
    fn read_identifier(&mut self) -> (t: Token)
        requires
            old(self).wf(),
            is_letter_char(char_at(old(self).src(), old(self).pos())),
        ensures
            final(self).wf(),
            final(self).src() == old(self).src(),
            final(self).pos() == letter_run_end(old(self).src(), old(self).pos()),
            t@ == lexeme_view(
                old(self).src().subrange(
                    old(self).pos(),
                    letter_run_end(old(self).src(), old(self).pos()),
                ),
            ),
    {
        let ghost start = *old(self);
        let mut ident = String::new();
        while is_letter(self.curr)
            invariant
                self.wf(),
                start.wf(),
                self.src() == start.src(),
                start.pos() <= self.pos() <= self.src().len(),
                ident@ == self.src().subrange(start.pos(), self.pos()),
                letter_run_end(self.src(), self.pos()) == letter_run_end(start.src(), start.pos()),
            decreases self.src().len() - self.pos(),
        {
            proof {
                // A letter is not the null sentinel, so the window has not
                // reached the end of the input.
                assert(self.pos() < self.src().len());
            }
            let c = self.read_char();
            ident.push(c);
            proof {
                assert(ident@ =~= self.src().subrange(start.pos(), self.pos()));
            }
        }
        if let Some(token) = Token::keyword(ident.as_str()) {
            token
        } else {
            Token::Identifier(ident)
        }
    }

    /// Scans the run of ASCII digits that begins at the current position and
    /// parses it in base ten: an `IntegerLiteral` when the value fits a
    /// 32-bit signed integer, and `Illegal` when the run overflows that
    /// range.
    fn read_number(&mut self) -> (t: Token)
        requires
            old(self).wf(),
            is_digit_char(char_at(old(self).src(), old(self).pos())),
        ensures
            final(self).wf(),
            final(self).src() == old(self).src(),
            final(self).pos() == digit_run_end(old(self).src(), old(self).pos()),
            t@ == number_view(
                old(self).src().subrange(
                    old(self).pos(),
                    digit_run_end(old(self).src(), old(self).pos()),
                ),
            ),
    {
        let ghost start = *old(self);
        let mut value: u64 = 0;
        while is_digit(self.curr)
            invariant
                self.wf(),
                start.wf(),
                self.src() == start.src(),
                start.pos() <= self.pos() <= self.src().len(),
                forall|k: int| start.pos() <= k < self.pos() ==> is_digit_char(self.src()[k]),
                digit_run_end(self.src(), self.pos()) == digit_run_end(start.src(), start.pos()),
                value <= i32::MAX as u64 * 10 + 9,
                ({
                    let sofar = digits_value(self.src().subrange(start.pos(), self.pos()));
                    if sofar <= i32::MAX {
                        value == sofar
                    } else {
                        value > i32::MAX as u64
                    }
                }),
            decreases self.src().len() - self.pos(),
        {
            proof {
                // A digit is not the null sentinel, so the window has not
                // reached the end of the input.
                assert(self.pos() < self.src().len());
            }
            let ghost before = self.pos();
            let ghost sofar = self.src().subrange(start.pos(), before);
            let c = self.read_char();
            let d = (c as u32 - '0' as u32) as u64;
            if value <= i32::MAX as u64 {
                value = value * 10 + d;
            }
            proof {
                let now = self.src().subrange(start.pos(), self.pos());
                assert(now.drop_last() =~= sofar);
                lemma_digits_value_nonneg(sofar);
            }
        }
        proof {
            lemma_digits_value_nonneg(self.src().subrange(start.pos(), self.pos()));
        }
        if value <= i32::MAX as u64 {
            Token::IntegerLiteral(value as i32)
        } else {
            Token::Illegal
        }
    }

    /// The main state-machine step: skips whitespace, classifies the current
    /// character, consumes exactly the characters of one lexeme, and returns
    /// its token. [`scan`] names both the token and the new position; once
    /// the input is exhausted every further call returns `EndOfInput`.
    pub fn next_token(&mut self) -> (t: Token)
        requires
            old(self).wf(),
        ensures
            final(self).wf(),
            final(self).src() == old(self).src(),
            t@ == scan(old(self).src(), old(self).pos()).0,
            final(self).pos() == scan(old(self).src(), old(self).pos()).1,
    {
        self.skip_whitespaces();
        proof {
            lemma_skip_ws_props(old(self).src(), old(self).pos());
        }
        let token = match self.curr {
            '=' => Token::Assign,
            ';' => Token::Semicolon,
            '(' => Token::LParen,
            ')' => Token::RParen,
            ',' => Token::Comma,
            '+' => Token::Plus,
            '{' => Token::LBrace,
            '}' => Token::RBrace,
            '\0' => Token::EndOfInput,
            c => {
                if is_letter(c) {
                    // the sub-loop consumes the whole lexeme itself
                    return self.read_identifier();
                } else if is_digit(c) {
                    return self.read_number();
                } else {
                    Token::Illegal
                }
            },
        };
        self.read_char();
        token
    }
}

/// The value of an all-digit run is never negative.
proof fn lemma_digits_value_nonneg(ds: Seq<char>)
    requires
        forall|k: int| 0 <= k < ds.len() ==> is_digit_char(ds[k]),
    ensures
        digits_value(ds) >= 0,
    decreases ds.len(),
{
    if ds.len() > 0 {
        lemma_digits_value_nonneg(ds.drop_last());
    }
}

} // verus!
