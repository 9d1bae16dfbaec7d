//! The guarantees of the scanner as a whole, each stated over the
//! mathematical model [`crate::lexer::scan`] and proved once and for all:
//! totality of lexing, invariance under whitespace between tokens, exclusive
//! keyword classification, and the numeric round trip.

use vstd::prelude::*;

use crate::lexer::{
    char_at, digit_run_end, digits_value, is_digit_char, is_letter_char, is_single_char,
    is_whitespace_char, lemma_digit_run_props, lemma_letter_run_props, lemma_scan_progress,
    lemma_skip_ws_props, letter_run_end, number_view, reaches, scan, single_char_view, skip_ws,
    tokens_from,
};
use crate::token::{lexeme_view, TokenView};

verus! {

/// Totality: from any position the token stream is finite and never empty,
/// `EndOfInput` is exactly its last element, and — by
/// [`lemma_scan_progress`] — once the input is exhausted every further call
/// keeps yielding `EndOfInput`.
pub proof fn lemma_totality(s: Seq<char>, i: int)
    requires
        0 <= i <= s.len(),
    ensures
        tokens_from(s, i).len() >= 1,
        tokens_from(s, i).last() == TokenView::EndOfInput,
        forall|k: int|
            0 <= k < tokens_from(s, i).len() - 1 ==> tokens_from(s, i)[k]
                != TokenView::EndOfInput,
        scan(s, s.len() as int) == (TokenView::EndOfInput, s.len() as int),
    decreases s.len() - i,
{
    lemma_scan_progress(s, i);
    lemma_scan_progress(s, s.len() as int);
    let (t, p) = scan(s, i);
    if t != TokenView::EndOfInput {
        lemma_totality(s, p);
        assert forall|k: int| 0 <= k < tokens_from(s, i).len() - 1 implies tokens_from(s, i)[k]
            != TokenView::EndOfInput by {
            if k > 0 {
                assert(tokens_from(s, i)[k] == tokens_from(s, p)[k - 1]);
            }
        }
    }
}

/// Scanning does not look back: whitespace skipping from a position within
/// the right-hand part of a concatenation stays within it.
proof fn lemma_skip_ws_shift(u: Seq<char>, s: Seq<char>, k: int)
    requires
        0 <= k <= s.len(),
    ensures
        skip_ws(u + s, u.len() + k) == u.len() + skip_ws(s, k),
    decreases s.len() - k,
{
    if k < s.len() {
        assert((u + s)[u.len() + k] == s[k]);
    }
    if k < s.len() && is_whitespace_char(s[k]) {
        lemma_skip_ws_shift(u, s, k + 1);
    }
}

/// As [`lemma_skip_ws_shift`], for the end of a letter run.
proof fn lemma_letter_run_shift(u: Seq<char>, s: Seq<char>, k: int)
    requires
        0 <= k <= s.len(),
    ensures
        letter_run_end(u + s, u.len() + k) == u.len() + letter_run_end(s, k),
    decreases s.len() - k,
{
    if k < s.len() && is_letter_char(s[k]) {
        lemma_letter_run_shift(u, s, k + 1);
    }
}

/// As [`lemma_skip_ws_shift`], for the end of a digit run.
proof fn lemma_digit_run_shift(u: Seq<char>, s: Seq<char>, k: int)
    requires
        0 <= k <= s.len(),
    ensures
        digit_run_end(u + s, u.len() + k) == u.len() + digit_run_end(s, k),
    decreases s.len() - k,
{
    if k < s.len() && is_digit_char(s[k]) {
        lemma_digit_run_shift(u, s, k + 1);
    }
}

/// One scan step never looks before its starting position: within the
/// right-hand part of a concatenation it finds the same token at the same
/// relative place.
proof fn lemma_scan_shift(u: Seq<char>, s: Seq<char>, k: int)
    requires
        0 <= k <= s.len(),
    ensures
        scan(u + s, u.len() + k).0 == scan(s, k).0,
        scan(u + s, u.len() + k).1 == u.len() + scan(s, k).1,
{
    lemma_skip_ws_shift(u, s, k);
    lemma_skip_ws_props(s, k);
    let j = skip_ws(s, k);
    assert(char_at(u + s, u.len() + j) == char_at(s, j));
    let c = char_at(s, j);
    if c == '\0' || is_single_char(c) {
    } else if is_letter_char(c) {
        lemma_letter_run_shift(u, s, j);
        lemma_letter_run_props(s, j);
        assert((u + s).subrange(u.len() + j, u.len() + letter_run_end(s, j)) =~= s.subrange(
            j,
            letter_run_end(s, j),
        ));
    } else if is_digit_char(c) {
        lemma_digit_run_shift(u, s, j);
        lemma_digit_run_props(s, j);
        assert((u + s).subrange(u.len() + j, u.len() + digit_run_end(s, j)) =~= s.subrange(
            j,
            digit_run_end(s, j),
        ));
    }
}

/// The whole token stream never looks before its starting position either.
proof fn lemma_tokens_shift(u: Seq<char>, s: Seq<char>, k: int)
    requires
        0 <= k <= s.len(),
    ensures
        tokens_from(u + s, u.len() + k) == tokens_from(s, k),
    decreases s.len() - k,
{
    lemma_scan_shift(u, s, k);
    lemma_scan_progress(s, k);
    let (t, p) = scan(s, k);
    if t != TokenView::EndOfInput {
        lemma_tokens_shift(u, s, p);
    }
}

/// Skipping whitespace passes through any stretch known to be whitespace.
proof fn lemma_skip_ws_through(s: Seq<char>, i: int, j: int)
    requires
        0 <= i <= j <= s.len(),
        forall|k: int| i <= k < j ==> is_whitespace_char(s[k]),
    ensures
        skip_ws(s, i) == skip_ws(s, j),
    decreases j - i,
{
    if i < j {
        lemma_skip_ws_through(s, i + 1, j);
    }
}

/// Positions with the same scan step start the same token stream.
proof fn lemma_tokens_same_scan(s: Seq<char>, i: int, j: int)
    requires
        0 <= i <= s.len(),
        0 <= j <= s.len(),
        scan(s, i) == scan(s, j),
    ensures
        tokens_from(s, i) == tokens_from(s, j),
{
    lemma_scan_progress(s, i);
}

/// Whitespace invariance at a boundary: inserting — equivalently, removing —
/// a run of spaces, tabs, newlines and carriage returns never changes the
/// token stream read from the insertion point on.
/// [`lemma_whitespace_invariance_stream`] extends this to the stream read
/// from the start of the input, for insertion points the scanner reaches.
pub proof fn lemma_whitespace_invariance(before: Seq<char>, ws: Seq<char>, after: Seq<char>)
    requires
        forall|k: int| 0 <= k < ws.len() ==> is_whitespace_char(ws[k]),
    ensures
        tokens_from(before + ws + after, before.len() as int) == tokens_from(
            before + after,
            before.len() as int,
        ),
{
    let tail = ws + after;
    assert(before + ws + after =~= before + tail);
    lemma_tokens_shift(before, tail, 0);
    assert(tokens_from(before + ws + after, before.len() as int) == tokens_from(tail, 0));
    assert forall|k: int| 0 <= k < ws.len() implies is_whitespace_char(tail[k]) by {
        assert(tail[k] == ws[k]);
    }
    lemma_skip_ws_through(tail, 0, ws.len() as int);
    lemma_tokens_same_scan(tail, 0, ws.len() as int);
    lemma_tokens_shift(ws, after, 0);
    assert(tokens_from(tail, 0) == tokens_from(after, 0));
    lemma_tokens_shift(before, after, 0);
}

/// A position the scanner reaches lies no earlier than where it started.
proof fn lemma_reaches_le(s: Seq<char>, i: int, j: int)
    requires
        0 <= i <= s.len(),
        reaches(s, i, j),
    ensures
        i <= j,
    decreases s.len() - i,
{
    if i != j {
        lemma_scan_progress(s, i);
        lemma_reaches_le(s, scan(s, i).1, j);
    }
}

/// Two inputs that agree before `m` skip whitespace identically from a
/// position whose skipping stops by `m` — when it stops exactly at `m`,
/// provided the second input does not go on skipping there.
proof fn lemma_skip_ws_agree(s1: Seq<char>, s2: Seq<char>, i: int, m: int)
    requires
        0 <= i <= m,
        skip_ws(s1, i) <= m <= s1.len(),
        m <= s2.len(),
        forall|k: int| i <= k < m ==> s1[k] == s2[k],
        skip_ws(s1, i) == m ==> (m == s2.len() || !is_whitespace_char(s2[m])),
    ensures
        skip_ws(s2, i) == skip_ws(s1, i),
    decreases m - i,
{
    lemma_skip_ws_props(s1, i);
    if i < s1.len() && is_whitespace_char(s1[i]) {
        lemma_skip_ws_agree(s1, s2, i + 1, m);
    }
}

/// As [`lemma_skip_ws_agree`], for the end of a letter run.
proof fn lemma_letter_run_agree(s1: Seq<char>, s2: Seq<char>, i: int, m: int)
    requires
        0 <= i <= m,
        letter_run_end(s1, i) <= m <= s1.len(),
        m <= s2.len(),
        forall|k: int| i <= k < m ==> s1[k] == s2[k],
        letter_run_end(s1, i) == m ==> (m == s2.len() || !is_letter_char(s2[m])),
    ensures
        letter_run_end(s2, i) == letter_run_end(s1, i),
    decreases m - i,
{
    lemma_letter_run_props(s1, i);
    if i < s1.len() && is_letter_char(s1[i]) {
        lemma_letter_run_agree(s1, s2, i + 1, m);
    }
}

/// As [`lemma_skip_ws_agree`], for the end of a digit run.
proof fn lemma_digit_run_agree(s1: Seq<char>, s2: Seq<char>, i: int, m: int)
    requires
        0 <= i <= m,
        digit_run_end(s1, i) <= m <= s1.len(),
        m <= s2.len(),
        forall|k: int| i <= k < m ==> s1[k] == s2[k],
        digit_run_end(s1, i) == m ==> (m == s2.len() || !is_digit_char(s2[m])),
    ensures
        digit_run_end(s2, i) == digit_run_end(s1, i),
    decreases m - i,
{
    lemma_digit_run_props(s1, i);
    if i < s1.len() && is_digit_char(s1[i]) {
        lemma_digit_run_agree(s1, s2, i + 1, m);
    }
}

/// Two inputs that agree before `m` scan identically from a position whose
/// token ends by `m` — when the token ends exactly at `m`, provided the
/// second input holds whitespace there, which continues no lexeme.
proof fn lemma_scan_agree(s1: Seq<char>, s2: Seq<char>, i: int, m: int)
    requires
        0 <= i <= m,
        m <= s1.len(),
        m <= s2.len(),
        forall|k: int| i <= k < m ==> s1[k] == s2[k],
        scan(s1, i).0 != TokenView::EndOfInput,
        scan(s1, i).1 <= m,
        m < s2.len() ==> is_whitespace_char(s2[m]),
    ensures
        scan(s2, i) == scan(s1, i),
{
    lemma_scan_progress(s1, i);
    lemma_skip_ws_props(s1, i);
    let j = skip_ws(s1, i);
    let c = char_at(s1, j);
    if is_letter_char(c) {
        lemma_letter_run_props(s1, j);
    } else if is_digit_char(c) {
        lemma_digit_run_props(s1, j);
    }
    // the token consumes at least one character and ends by m, so it starts
    // before m
    assert(j < scan(s1, i).1);
    lemma_skip_ws_agree(s1, s2, i, m);
    assert(char_at(s2, j) == c);
    if is_letter_char(c) {
        lemma_letter_run_agree(s1, s2, j, m);
        assert(s2.subrange(j, letter_run_end(s1, j)) =~= s1.subrange(j, letter_run_end(s1, j)));
    } else if is_digit_char(c) {
        lemma_digit_run_agree(s1, s2, j, m);
        assert(s2.subrange(j, digit_run_end(s1, j)) =~= s1.subrange(j, digit_run_end(s1, j)));
    }
}

/// The induction behind [`lemma_whitespace_invariance_stream`]: from any
/// boundary that reaches the insertion point, the streams agree.
proof fn lemma_ws_insert_from(before: Seq<char>, ws: Seq<char>, after: Seq<char>, i: int)
    requires
        forall|k: int| 0 <= k < ws.len() ==> is_whitespace_char(ws[k]),
        0 <= i <= before.len(),
        reaches(before + after, i, before.len() as int),
    ensures
        tokens_from(before + ws + after, i) == tokens_from(before + after, i),
    decreases before.len() - i,
{
    let s1 = before + after;
    let s2 = before + ws + after;
    let m = before.len() as int;
    if i == m {
        lemma_whitespace_invariance(before, ws, after);
    } else if ws.len() == 0 {
        assert(s2 =~= s1);
    } else {
        lemma_scan_progress(s1, i);
        let (t, p) = scan(s1, i);
        lemma_reaches_le(s1, p, m);
        assert(s2[m] == ws[0]);
        lemma_scan_agree(s1, s2, i, m);
        lemma_ws_insert_from(before, ws, after, p);
    }
}

/// Whitespace invariance over the whole stream: when the insertion point is
/// a position the scanner reaches — a token boundary — inserting or removing
/// a whitespace run there leaves the entire token sequence unchanged.
pub proof fn lemma_whitespace_invariance_stream(before: Seq<char>, ws: Seq<char>, after: Seq<char>)
    requires
        forall|k: int| 0 <= k < ws.len() ==> is_whitespace_char(ws[k]),
        reaches(before + after, 0, before.len() as int),
    ensures
        tokens_from(before + ws + after, 0) == tokens_from(before + after, 0),
{
    lemma_ws_insert_from(before, ws, after, 0);
}

/// Keyword exclusivity: a run of letters and underscores resolves to exactly
/// one token — `Function` for the text `fn`, `Let` for the text `let`, and
/// an `Identifier` carrying the exact text for everything else.
pub proof fn lemma_keyword_exclusive(name: Seq<char>)
    ensures
        lexeme_view(name) == TokenView::Function <==> name == seq!['f', 'n'],
        lexeme_view(name) == TokenView::Let <==> name == seq!['l', 'e', 't'],
        lexeme_view(name) == TokenView::Identifier(name) <==> (name != seq!['f', 'n'] && name
            != seq!['l', 'e', 't']),
{
    assert(seq!['f', 'n'].len() == 2);
    assert(seq!['l', 'e', 't'].len() == 3);
}

/// A run of letters and underscores alone on the input is exactly its
/// resolved token — keyword or identifier — followed by `EndOfInput`.
pub proof fn lemma_letter_run_alone(name: Seq<char>)
    requires
        name.len() > 0,
        forall|k: int| 0 <= k < name.len() ==> is_letter_char(name[k]),
    ensures
        tokens_from(name, 0) == seq![lexeme_view(name), TokenView::EndOfInput],
{
    lemma_letter_run_props(name, 0);
    assert(letter_run_end(name, 0) == name.len()) by {
        lemma_run_exhausts_letters(name, 0);
    }
    assert(name.subrange(0, name.len() as int) =~= name);
    assert(skip_ws(name, 0) == 0);
    let end = name.len() as int;
    assert(scan(name, 0) == (lexeme_view(name), end));
    lemma_scan_progress(name, end);
    assert(tokens_from(name, end) == seq![TokenView::EndOfInput]);
    assert(lexeme_view(name) != TokenView::EndOfInput) by {
        lemma_keyword_exclusive(name);
    }
    assert(tokens_from(name, 0) =~= seq![lexeme_view(name), TokenView::EndOfInput]);
}

/// A letter run reaches the end of an all-letter input.
proof fn lemma_run_exhausts_letters(s: Seq<char>, i: int)
    requires
        0 <= i <= s.len(),
        forall|k: int| i <= k < s.len() ==> is_letter_char(s[k]),
    ensures
        letter_run_end(s, i) == s.len(),
    decreases s.len() - i,
{
    if i < s.len() {
        lemma_run_exhausts_letters(s, i + 1);
    }
}

/// A digit run reaches the end of an all-digit input.
proof fn lemma_run_exhausts_digits(s: Seq<char>, i: int)
    requires
        0 <= i <= s.len(),
        forall|k: int| i <= k < s.len() ==> is_digit_char(s[k]),
    ensures
        digit_run_end(s, i) == s.len(),
    decreases s.len() - i,
{
    if i < s.len() {
        lemma_run_exhausts_digits(s, i + 1);
    }
}

/// Numeric round trip: a digit-only input whose base-ten value fits a 32-bit
/// signed integer scans to exactly one `IntegerLiteral` carrying that value,
/// followed by `EndOfInput`.
pub proof fn lemma_numeric_round_trip(ds: Seq<char>)
    requires
        ds.len() > 0,
        forall|k: int| 0 <= k < ds.len() ==> is_digit_char(ds[k]),
        digits_value(ds) <= i32::MAX,
    ensures
        tokens_from(ds, 0) == seq![
            TokenView::IntegerLiteral(digits_value(ds)),
            TokenView::EndOfInput,
        ],
{
    lemma_run_exhausts_digits(ds, 0);
    assert(ds.subrange(0, ds.len() as int) =~= ds);
    assert(skip_ws(ds, 0) == 0);
    let end = ds.len() as int;
    assert(scan(ds, 0) == (number_view(ds), end));
    assert(number_view(ds) == TokenView::IntegerLiteral(digits_value(ds)));
    lemma_scan_progress(ds, end);
    assert(tokens_from(ds, end) == seq![TokenView::EndOfInput]);
    assert(tokens_from(ds, 0) =~= seq![
        TokenView::IntegerLiteral(digits_value(ds)),
        TokenView::EndOfInput,
    ]);
}

/// Single-character completeness: each of the eight operator and delimiter
/// characters alone on the input is exactly one token of the matching
/// variant, followed by `EndOfInput`.
pub proof fn lemma_single_char_alone(c: char)
    requires
        is_single_char(c),
    ensures
        tokens_from(seq![c], 0) == seq![single_char_view(c), TokenView::EndOfInput],
{
    let s = seq![c];
    assert(skip_ws(s, 0) == 0);
    assert(char_at(s, 0) == c);
    assert(scan(s, 0) == (single_char_view(c), 1int));
    lemma_scan_progress(s, 1);
    assert(tokens_from(s, 1) == seq![TokenView::EndOfInput]);
    assert(tokens_from(s, 0) =~= seq![single_char_view(c), TokenView::EndOfInput]);
}

} // verus!
