//! The rule assembler and style sheet: statements are consumed one by one,
//! comma-separated selector groups share one declaration block, at-rules are
//! skipped whole, empty rules vanish, and the final rule list is ordered by
//! ascending specificity with a stable sort — so a consumer applying "last
//! match wins" resolves ties by source order.
//!
//! Parse failures are absorbed at statement and declaration-block
//! granularity: the scan moves to the next safe boundary and goes on, and the
//! top-level parse never fails.

use vstd::prelude::*;
use vstd::slice::slice_index_get;
use vstd::string::StringSliceAdditionalSpecFns;

use crate::selector::{self, sel_ok, spec_specificity, Selector};
use crate::stream::{
    comment_close, decl_trimmed_end, find_byte, ident_run_end, is_ident_seq, last_non_space,
    lemma_last_non_space, lemma_semi_run_end, semi_run_end, spec_is_digit,
    lemma_comment_close_no_star, lemma_comment_close_none,
    lemma_ident_run_end, lemma_ident_slice, lemma_ws_end, spec_col, spec_is_ident, spec_is_space,
    spec_row, ws_end, Stream, B_AT, B_COLON, B_COMMA, B_DOT, B_DOUBLE_QUOTE, B_EXCLAMATION,
    B_HASH, B_LBRACE, B_LOWER_A, B_UPPER_A, B_LOWER_I, B_LOWER_M, B_LOWER_N, B_LOWER_O, B_LOWER_P, B_LOWER_R,
    B_LOWER_T, B_MINUS, B_NEWLINE, B_PERCENT, B_PLUS, B_RBRACE, B_RPAREN, B_LPAREN, B_SEMICOLON,
    B_SINGLE_QUOTE, B_SLASH, B_SPACE, B_STAR,
};

verus! {

/// A position in text: row and column, starting from 1:1.
#[derive(Clone, Copy, PartialEq, Eq, Structural, Debug)]
pub struct TextPos {
    pub row: u32,
    pub col: u32,
}

impl TextPos {
    /// Constructs a new `TextPos`.
    pub fn new(row: u32, col: u32) -> (p: TextPos)
        ensures
            p == (TextPos { row, col }),
    {
        TextPos { row, col }
    }
}

/// The row and column of offset `pos`, as a `TextPos`.
pub open spec fn spec_text_pos(text: Seq<u8>, pos: int) -> TextPos {
    TextPos { row: spec_row(text, pos) as u32, col: spec_col(text, pos) as u32 }
}

/// The failures of the assembly layer. The top-level sheet parse absorbs
/// them all; the standalone declaration tokenizer ends its sequence on the
/// first one.
#[derive(Clone, Copy, PartialEq, Eq, Structural, Debug)]
pub enum Error {
    /// The stream ended earlier than expected.
    UnexpectedEndOfStream,
    /// An invalid ident.
    InvalidIdent(TextPos),
    /// An unclosed comment.
    InvalidComment(TextPos),
    /// An invalid declaration value.
    InvalidValue(TextPos),
    /// An invalid byte.
    InvalidByte { expected: u8, actual: u8, pos: TextPos },
    /// A missing selector.
    SelectorMissing,
    /// An unexpected selector.
    UnexpectedSelector,
    /// An unexpected combinator.
    UnexpectedCombinator,
    /// An invalid or unsupported attribute selector.
    InvalidAttributeSelector,
    /// An invalid language pseudo-class.
    InvalidLanguagePseudoClass,
}

/// A declaration: property name, trimmed property value, and whether a bare
/// `!important` marker followed the value.
#[derive(Clone, Copy, PartialEq, Eq, Debug)]
pub struct Declaration<'a> {
    pub name: &'a [u8],
    pub value: &'a [u8],
    pub important: bool,
}

fn gen_text_pos(s: &Stream) -> (r: TextPos)
    requires
        s.wf(),
    ensures
        r == spec_text_pos(s.text@, s.pos as int),
{
    proof {
        crate::stream::lemma_row_col_bounds(s.text@, s.pos as int);
    }
    let p = s.gen_error_pos();
    #[verifier::truncate]
    let row = p.row as u32;
    #[verifier::truncate]
    let col = p.col as u32;
    TextPos { row, col }
}

/// Skips a `/* ... */` comment standing at the cursor.
fn skip_comment(s: &mut Stream) -> (r: Result<(), Error>)
    requires
        old(s).wf(),
        old(s).pos + 1 < old(s).end,
        old(s).text@[old(s).pos as int] == B_SLASH,
        old(s).text@[old(s).pos + 1] == B_STAR,
    ensures
        final(s).wf(),
        final(s).text == old(s).text,
        final(s).end == old(s).end,
        final(s).pos > old(s).pos,
        ({
            let t = old(s).text@;
            let p = old(s).pos as int;
            let e = old(s).end as int;
            let cc = comment_close(t, p + 2, e);
            match r {
                Ok(()) => cc < e && final(s).pos == cc + 2,
                Err(er) => cc == e && (er matches Error::InvalidComment(_)),
            }
        }),
{
    let ghost t = s.text@;
    let ghost e = s.end as int;
    let ghost p = s.pos as int;
    let start = gen_text_pos(s);
    s.advance_raw(2);
    loop
        invariant
            s.wf(),
            t == old(s).text@,
            e == old(s).end as int,
            p == old(s).pos as int,
            s.text == old(s).text,
            s.end == old(s).end,
            p + 2 <= s.pos as int <= e,
            s.pos as int == p + 2 || (s.pos as int) < e,
            comment_close(t, p + 2, e) == comment_close(t, s.pos as int, e),
        decreases e - s.pos,
    {
        if s.at_end() {
            proof {
                lemma_comment_close_none(t, s.pos as int, e);
            }
            return Err(Error::InvalidComment(start));
        }
        let len = match s.length_to(B_STAR) {
            Ok(l) => l,
            Err(_) => {
                proof {
                    lemma_comment_close_none(t, s.pos as int, e);
                }
                return Err(Error::InvalidComment(start));
            },
        };
        proof {
            lemma_comment_close_no_star(t, s.pos as int, s.pos + len, e);
        }
        let ghost star_at = s.pos + len;
        s.advance_raw(len + 1);
        match s.is_char_eq(B_SLASH) {
            Ok(true) => {
                proof {
                    assert(comment_close(t, star_at, e) == star_at);
                }
                s.advance_raw(1);
                return Ok(());
            },
            Ok(false) => {
                proof {
                    assert(comment_close(t, star_at, e) == comment_close(t, star_at + 1, e));
                }
            },
            Err(_) => {
                proof {
                    assert(comment_close(t, star_at, e) == comment_close(t, star_at + 1, e));
                }
                return Err(Error::InvalidComment(start));
            },
        }
    }
}

/// Skips spaces and complete comments; afterwards the cursor stands on a
/// byte that is neither a space nor the start of a comment, or at the end.
///
/// # Errors
///
/// Returns `Error::InvalidComment` on an unclosed comment.
fn skip_spaces_and_comments(s: &mut Stream) -> (r: Result<(), Error>)
    requires
        old(s).wf(),
    ensures
        final(s).wf(),
        final(s).text == old(s).text,
        final(s).end == old(s).end,
        final(s).pos >= old(s).pos,
        (r matches Ok(x) ==> final(s).pos == final(s).end || (!spec_is_space(
            final(s).text@[final(s).pos as int],
        ) && !(final(s).pos + 1 < final(s).end && final(s).text@[final(s).pos as int] == B_SLASH
            && final(s).text@[final(s).pos + 1] == B_STAR))),
        (r matches Err(er) ==> er matches Error::InvalidComment(_)),
        ({
            let t = old(s).text@;
            let p = old(s).pos as int;
            let e = old(s).end as int;
            let w = ws_end(t, p, e);
            !(w + 1 < e && t[w] == B_SLASH && t[w + 1] == B_STAR) ==> (r matches Ok(x)) && final(s).pos == w
        }),
{
    proof {
        lemma_ws_end(old(s).text@, old(s).pos as int, old(s).end as int);
    }
    loop
        invariant
            s.wf(),
            s.text == old(s).text,
            s.end == old(s).end,
            s.pos >= old(s).pos,
            ({
                let t = old(s).text@;
                let p = old(s).pos as int;
                let e = old(s).end as int;
                let w = ws_end(t, p, e);
                !(w + 1 < e && t[w] == B_SLASH && t[w + 1] == B_STAR) ==> s.pos as int <= w
                    && ws_end(t, s.pos as int, e) == w
            }),
        decreases s.end - s.pos,
    {
        let ghost pre = s.pos as int;
        s.skip_spaces();
        proof {
            lemma_ws_end(old(s).text@, pre, old(s).end as int);
        }
        if s.at_end() {
            return Ok(());
        }
        if s.curr_char_raw() != B_SLASH {
            return Ok(());
        }
        if s.pos + 1 >= s.end {
            return Ok(());
        }
        if *slice_index_get(s.text, s.pos + 1) != B_STAR {
            return Ok(());
        }
        skip_comment(s)?;
    }
}

/// Consumes the byte `c` at the cursor.
///
/// # Errors
///
/// Returns `Error::InvalidByte` when another byte stands there, and
/// `Error::UnexpectedEndOfStream` at the end; the stream is then unchanged.
fn consume_byte(s: &mut Stream, c: u8) -> (r: Result<(), Error>)
    requires
        old(s).wf(),
    ensures
        final(s).wf(),
        final(s).text == old(s).text,
        final(s).end == old(s).end,
        match r {
            Ok(()) => old(s).pos < old(s).end && old(s).text@[old(s).pos as int] == c && final(s).pos == old(s).pos + 1,
            Err(er) => final(s).pos == old(s).pos && (if old(s).pos >= old(s).end {
                er == Error::UnexpectedEndOfStream
            } else {
                old(s).text@[old(s).pos as int] != c && er == (Error::InvalidByte {
                    expected: c,
                    actual: old(s).text@[old(s).pos as int],
                    pos: spec_text_pos(old(s).text@, old(s).pos as int),
                })
            }),
        },
{
    if s.at_end() {
        return Err(Error::UnexpectedEndOfStream);
    }
    let actual = s.curr_char_raw();
    if actual != c {
        return Err(Error::InvalidByte { expected: c, actual, pos: gen_text_pos(s) });
    }
    s.advance_raw(1);
    Ok(())
}

/// Consumes the byte `c` at the cursor if it stands there; otherwise does
/// nothing.
fn try_consume_byte(s: &mut Stream, c: u8)
    requires
        old(s).wf(),
    ensures
        final(s).wf(),
        final(s).text == old(s).text,
        final(s).end == old(s).end,
        (if old(s).pos < old(s).end && old(s).text@[old(s).pos as int] == c {
            final(s).pos == old(s).pos + 1
        } else {
            final(s).pos == old(s).pos
        }),
{
    if !s.at_end() && s.curr_char_raw() == c {
        s.advance_raw(1);
    }
}

/// Consumes the identifier run at the cursor: a maximal run of letters,
/// digits, `_` and `-`. Fails with `InvalidIdent` if it is empty.
fn consume_ident<'a>(s: &mut Stream<'a>) -> (r: Result<&'a [u8], Error>)
    requires
        old(s).wf(),
    ensures
        final(s).wf(),
        final(s).text == old(s).text,
        final(s).end == old(s).end,
        ({
            let t = old(s).text@;
            let p = old(s).pos as int;
            let e = old(s).end as int;
            let q = ident_run_end(t, p, e);
            match r {
                Ok(v) => q > p && final(s).pos == q && v@ == t.subrange(p, q) && is_ident_seq(v@)
                    && (forall|j: int| p <= j < q ==> spec_is_ident(t[j])),
                Err(er) => q == p && final(s).pos == p && er == Error::InvalidIdent(
                    spec_text_pos(t, p),
                ),
            }
        }),
{
    let start = s.pos();
    let ghost s0 = *s;
    while !s.at_end() && s.is_ident_raw()
        invariant
            s.wf(),
            s0 == *old(s),
            s.text == s0.text,
            s.end == s0.end,
            s0.pos <= s.pos,
            ident_run_end(s0.text@, s0.pos as int, s0.end as int) == ident_run_end(
                s.text@,
                s.pos as int,
                s.end as int,
            ),
        decreases s.end - s.pos,
    {
        s.advance_raw(1);
    }
    proof {
        lemma_ident_run_end(s0.text@, s0.pos as int, s0.end as int);
    }
    if start == s.pos() {
        return Err(Error::InvalidIdent(gen_text_pos(s)));
    }
    proof {
        lemma_ident_slice(s0.text@, s0.pos as int, s0.end as int);
    }
    let v = s.slice_region_raw_str(start, s.pos());
    Ok(v)
}

/// Consumes a quoted string at the cursor, its quote byte included at both
/// ends; a backslash escapes the byte after it.
///
/// # Errors
///
/// Returns `Error::UnexpectedEndOfStream` when the string never closes.
fn consume_string(s: &mut Stream) -> (r: Result<(), Error>)
    requires
        old(s).wf(),
        old(s).pos < old(s).end,
        !spec_is_space(old(s).text@[old(s).pos as int]),
    ensures
        final(s).wf(),
        final(s).text == old(s).text,
        final(s).end == old(s).end,
        final(s).pos > old(s).pos,
        (r matches Ok(x) ==> !spec_is_space(final(s).text@[final(s).pos - 1])),
        (r matches Err(er) ==> er == Error::UnexpectedEndOfStream),
{
    let quote = s.curr_char_raw();
    s.advance_raw(1);
    loop
        invariant
            s.wf(),
            s.text == old(s).text,
            s.end == old(s).end,
            old(s).pos < s.pos,
            quote == old(s).text@[old(s).pos as int],
            !spec_is_space(quote),
        decreases s.end - s.pos,
    {
        if s.at_end() {
            return Err(Error::UnexpectedEndOfStream);
        }
        let c = s.curr_char_raw();
        if c == crate::stream::B_BACKSLASH {
            // a backslash: the byte after it is escaped
            s.advance_raw(1);
            if !s.at_end() {
                s.advance_raw(1);
            }
        } else if c == quote {
            s.advance_raw(1);
            return Ok(());
        } else {
            s.advance_raw(1);
        }
    }
}

/// Advances to the next `;` or `{`, not consuming it.
fn skip_to_semi_or_brace(s: &mut Stream)
    requires
        old(s).wf(),
    ensures
        final(s).wf(),
        final(s).text == old(s).text,
        final(s).end == old(s).end,
        old(s).pos <= final(s).pos,
        forall|i: int|
            old(s).pos <= i < final(s).pos ==> final(s).text@[i] != B_SEMICOLON && final(s).text@[i] != B_LBRACE,
        final(s).pos == final(s).end || final(s).text@[final(s).pos as int] == B_SEMICOLON
            || final(s).text@[final(s).pos as int] == B_LBRACE,
{
    while !s.at_end() && s.curr_char_raw() != B_SEMICOLON && s.curr_char_raw() != B_LBRACE
        invariant
            s.wf(),
            s.text == old(s).text,
            s.end == old(s).end,
            old(s).pos <= s.pos,
            forall|i: int|
                old(s).pos <= i < s.pos ==> s.text@[i] != B_SEMICOLON && s.text@[i] != B_LBRACE,
        decreases s.end - s.pos,
    {
        s.advance_raw(1);
    }
}

/// Advances to the next `{`, not consuming it.
fn skip_to_brace(s: &mut Stream)
    requires
        old(s).wf(),
    ensures
        final(s).wf(),
        final(s).text == old(s).text,
        final(s).end == old(s).end,
        old(s).pos <= final(s).pos,
        forall|i: int| old(s).pos <= i < final(s).pos ==> final(s).text@[i] != B_LBRACE,
        final(s).pos == final(s).end || final(s).text@[final(s).pos as int] == B_LBRACE,
{
    while !s.at_end() && s.curr_char_raw() != B_LBRACE
        invariant
            s.wf(),
            s.text == old(s).text,
            s.end == old(s).end,
            old(s).pos <= s.pos,
            forall|i: int| old(s).pos <= i < s.pos ==> s.text@[i] != B_LBRACE,
        decreases s.end - s.pos,
    {
        s.advance_raw(1);
    }
}

/// The bytes of the keyword `important`.
pub open spec fn important_seq() -> Seq<u8> {
    seq![B_LOWER_I, B_LOWER_M, B_LOWER_P, B_LOWER_O, B_LOWER_R, B_LOWER_T, B_LOWER_A, B_LOWER_N, B_LOWER_T]
}

/// Whether the stream's tail begins with the keyword `important`.
fn starts_with_important(s: &Stream) -> (r: bool)
    requires
        s.wf(),
    ensures
        r == (s.pos + 9 <= s.end && s.text@.subrange(s.pos as int, s.pos + 9) == important_seq()),
{
    if s.end - s.pos < 9 {
        return false;
    }
    let w: [u8; 9] = [B_LOWER_I, B_LOWER_M, B_LOWER_P, B_LOWER_O, B_LOWER_R, B_LOWER_T, B_LOWER_A, B_LOWER_N, B_LOWER_T];
    let mut i: usize = 0;
    while i < 9
        invariant
            s.wf(),
            i <= 9,
            s.pos + 9 <= s.end,
            w@ == important_seq(),
            forall|j: int| 0 <= j < i ==> s.text@[s.pos + j] == important_seq()[j],
        decreases 9 - i,
    {
        if *slice_index_get(s.text, s.pos + i) != w[i] {
            proof {
                if s.text@.subrange(s.pos as int, s.pos + 9) == important_seq() {
                    assert(s.text@.subrange(s.pos as int, s.pos + 9)[i as int] == s.text@[s.pos
                        + i]);
                }
            }
            return false;
        }
        i = i + 1;
    }
    proof {
        assert(s.text@.subrange(s.pos as int, s.pos + 9) =~= important_seq());
    }
    true
}

fn consume_digits(s: &mut Stream)
    requires
        old(s).wf(),
    ensures
        final(s).wf(),
        final(s).text == old(s).text,
        final(s).end == old(s).end,
        final(s).pos == crate::stream::digit_run_end(
            old(s).text@,
            old(s).pos as int,
            old(s).end as int,
        ),
        old(s).pos <= final(s).pos,
        forall|j: int| old(s).pos <= j < final(s).pos ==> spec_is_digit(final(s).text@[j]),
        final(s).pos == final(s).end || !spec_is_digit(final(s).text@[final(s).pos as int]),
{
    let ghost s0 = *s;
    while !s.at_end() && crate::stream::is_digit(s.curr_char_raw())
        invariant
            s.wf(),
            s0 == *old(s),
            s.text == s0.text,
            s.end == s0.end,
            s0.pos <= s.pos,
            crate::stream::digit_run_end(s0.text@, s0.pos as int, s0.end as int)
                == crate::stream::digit_run_end(s.text@, s.pos as int, s.end as int),
        decreases s.end - s.pos,
    {
        s.advance_raw(1);
    }
    proof {
        crate::stream::lemma_digit_run_end(s0.text@, s0.pos as int, s0.end as int);
    }
}

fn is_hex_digit(c: u8) -> (r: bool)
    ensures
        r == (spec_is_digit(c) || (B_LOWER_A <= c && c <= 102) || (B_UPPER_A <= c && c <= 70)),
{
    crate::stream::is_digit(c) || (B_LOWER_A <= c && c <= 102) || (B_UPPER_A <= c && c <= 70)
}

/// Advances to the next `)`, not consuming it.
fn skip_to_rparen(s: &mut Stream)
    requires
        old(s).wf(),
    ensures
        final(s).wf(),
        final(s).text == old(s).text,
        final(s).end == old(s).end,
        old(s).pos <= final(s).pos,
        forall|i: int| old(s).pos <= i < final(s).pos ==> final(s).text@[i] != B_RPAREN,
        final(s).pos == final(s).end || final(s).text@[final(s).pos as int] == B_RPAREN,
{
    while !s.at_end() && s.curr_char_raw() != B_RPAREN
        invariant
            s.wf(),
            s.text == old(s).text,
            s.end == old(s).end,
            old(s).pos <= s.pos,
            forall|i: int| old(s).pos <= i < s.pos ==> s.text@[i] != B_RPAREN,
        decreases s.end - s.pos,
    {
        s.advance_raw(1);
    }
}

/// Consumes one term of a declaration value: a `#`-color, a number with an
/// optional unit or `%`, a quoted string, a bare comma, or an ident with an
/// optional parenthesized function body.
fn consume_term(s: &mut Stream) -> (r: Result<(), Error>)
    requires
        old(s).wf(),
    ensures
        final(s).wf(),
        final(s).text == old(s).text,
        final(s).end == old(s).end,
        old(s).pos <= final(s).pos,
        (r matches Ok(x) ==> final(s).pos > old(s).pos && !spec_is_space(
            final(s).text@[final(s).pos - 1],
        ) && !spec_is_space(old(s).text@[old(s).pos as int])),
        ({
            let t = old(s).text@;
            let p = old(s).pos as int;
            let e = old(s).end as int;
            let q = ident_run_end(t, p, e);
            (p < e && spec_is_ident(t[p]) && (q == e || (!spec_is_ident(t[q]) && t[q] != B_LPAREN
                && t[q] != B_DOT && t[q] != B_PERCENT))) ==> (r matches Ok(x)) && final(s).pos == q
        }),
        ({
            let t = old(s).text@;
            let p = old(s).pos as int;
            let e = old(s).end as int;
            (p >= e || t[p] == B_SEMICOLON || t[p] == B_RBRACE || t[p] == B_EXCLAMATION) ==> (
            r matches Err(er)) && final(s).pos == p
        }),
{
    let ghost t = s.text@;
    let ghost e = s.end as int;
    let ghost p = s.pos as int;
    let c = match s.curr_char() {
        Ok(c) => c,
        Err(_) => {
            return Err(Error::UnexpectedEndOfStream);
        },
    };
    if c == B_HASH {
        s.advance_raw(1);
        match consume_ident(s) {
            Ok(_) => {},
            Err(_) => {
                // not an ident: try to consume the run as a hex color
                while !s.at_end() && is_hex_digit(s.curr_char_raw())
                    invariant
                        s.wf(),
                        s.text@ == t,
                        s.end as int == e,
                        s.text == old(s).text,
                        p < s.pos as int,
                        !spec_is_space(t[s.pos - 1]),
                    decreases s.end - s.pos,
                {
                    s.advance_raw(1);
                }
            },
        }
        Ok(())
    } else if c == B_PLUS || c == B_MINUS || crate::stream::is_digit(c) || c == B_DOT {
        // a number
        s.advance_raw(1);
        consume_digits(s);
        proof {
            crate::stream::lemma_digit_run_end(t, p + 1, e);
            if spec_is_ident(t[p]) {
                crate::stream::lemma_ident_run_end(t, p, e);
                assert(ident_run_end(t, p, e) == ident_run_end(t, p + 1, e));
                crate::stream::lemma_ident_run_end(t, p + 1, e);
            }
        }
        let mut fractional = false;
        if !s.at_end() && s.curr_char_raw() == B_DOT {
            fractional = true;
            s.advance_raw(1);
            consume_digits(s);
        }
        if !s.at_end() && s.curr_char_raw() == B_PERCENT {
            s.advance_raw(1);
        } else {
            proof {
                if !fractional && p < e && spec_is_ident(t[p]) {
                    let q = ident_run_end(t, p, e);
                    let d = crate::stream::digit_run_end(t, p + 1, e);
                    crate::stream::lemma_ident_run_end(t, p, e);
                    if d < q {
                        assert(spec_is_ident(t[d]));
                    }
                    crate::stream::lemma_ident_run_end_at(t, d, e, q);
                }
            }
            let _ = consume_ident(s);
        }
        Ok(())
    } else if c == B_SINGLE_QUOTE || c == B_DOUBLE_QUOTE {
        consume_string(s)
    } else if c == B_COMMA {
        s.advance_raw(1);
        Ok(())
    } else {
        proof {
            if spec_is_ident(t[p]) {
                crate::stream::lemma_ident_run_end(t, p, e);
                assert(ident_run_end(t, p, e) == ident_run_end(t, p + 1, e));
                crate::stream::lemma_ident_run_end(t, p + 1, e);
            }
        }
        let _ = consume_ident(s)?;
        if !s.at_end() && s.curr_char_raw() == B_LPAREN {
            skip_to_rparen(s);
            consume_byte(s, B_RPAREN)?;
        }
        Ok(())
    }
}

/// Offsets of the parts of a plain `name: value` declaration standing at
/// `p`: the name's start and end, the colon, the value's start, and — `stop`
/// being the byte the value scan runs to — the value's trimmed end.
pub open spec fn decl_name_start(t: Seq<u8>, p: int, e: int) -> int {
    ws_end(t, p, e)
}

pub open spec fn decl_name_end(t: Seq<u8>, p: int, e: int) -> int {
    ident_run_end(t, decl_name_start(t, p, e), e)
}

pub open spec fn decl_colon(t: Seq<u8>, p: int, e: int) -> int {
    ws_end(t, decl_name_end(t, p, e), e)
}

pub open spec fn decl_value_start(t: Seq<u8>, p: int, e: int) -> int {
    ws_end(t, decl_colon(t, p, e) + 1, e)
}

/// The value region: non-empty, starting with an identifier byte, made of
/// identifier bytes and spaces alone, and ending before `stop`.
pub open spec fn plain_value_region(t: Seq<u8>, v0: int, stop: int) -> bool {
    &&& v0 < stop
    &&& spec_is_ident(t[v0])
    &&& forall|i: int| v0 <= i < stop ==> spec_is_ident(t[i]) || spec_is_space(t[i])
}

/// A plain `name: value;` declaration stands at `p`: spaces, an identifier
/// name, spaces, `:`, spaces, a value of identifier runs and spaces, spaces,
/// `;`. No comment is involved: no `/` stands before the text's end.
pub open spec fn plain_decl_at(t: Seq<u8>, p: int, e: int) -> bool {
    let n0 = decl_name_start(t, p, e);
    let n1 = decl_name_end(t, p, e);
    let c0 = decl_colon(t, p, e);
    let v0 = decl_value_start(t, p, e);
    let se = find_byte(t, B_SEMICOLON, v0, e);
    &&& n1 > n0
    &&& c0 < e && t[c0] == B_COLON
    &&& se < e
    &&& plain_value_region(t, v0, se)
    &&& forall|i: int| se < i < e ==> t[i] != B_SLASH
}

/// A plain declaration closed by a bare `!important` marker:
/// `name: value ! important ;` with spaces permitted around the `!`.
pub open spec fn plain_decl_important_at(t: Seq<u8>, p: int, e: int) -> bool {
    let c0 = decl_colon(t, p, e);
    let v0 = decl_value_start(t, p, e);
    let ex = find_byte(t, B_EXCLAMATION, v0, e);
    let iw = ws_end(t, ex + 1, e);
    let sem = ws_end(t, iw + 9, e);
    &&& decl_name_end(t, p, e) > decl_name_start(t, p, e)
    &&& c0 < e && t[c0] == B_COLON
    &&& ex < e
    &&& plain_value_region(t, v0, ex)
    &&& forall|i: int| decl_trimmed_end(t, v0, ex) <= i < ex ==> spec_is_space(t[i])
    &&& iw + 9 <= e && t.subrange(iw, iw + 9) == important_seq()
    &&& sem < e && t[sem] == B_SEMICOLON
    &&& forall|i: int| sem < i < e ==> t[i] != B_SLASH
}

/// The two plain shapes exclude one another: a `;` closing the plain form
/// cannot stand inside the value region of the `!important` form, nor the
/// other way round.
proof fn lemma_shapes_disjoint(t: Seq<u8>, p: int, e: int)
    requires
        0 <= p <= e <= t.len(),
    ensures
        !(plain_decl_at(t, p, e) && plain_decl_important_at(t, p, e)),
{
    if plain_decl_at(t, p, e) && plain_decl_important_at(t, p, e) {
        let v0 = decl_value_start(t, p, e);
        let se = find_byte(t, B_SEMICOLON, v0, e);
        let ex = find_byte(t, B_EXCLAMATION, v0, e);
        lemma_ws_end(t, p, e);
        lemma_ident_run_end(t, ws_end(t, p, e), e);
        lemma_ws_end(t, decl_name_end(t, p, e), e);
        lemma_ws_end(t, decl_colon(t, p, e) + 1, e);
        crate::stream::lemma_find_byte(t, B_SEMICOLON, v0, e);
        crate::stream::lemma_find_byte(t, B_EXCLAMATION, v0, e);
        if ex < se {
            assert(spec_is_ident(t[ex]) || spec_is_space(t[ex]));
            assert(false);
        }
        if ex > se {
            assert(spec_is_ident(t[se]) || spec_is_space(t[se]));
            assert(false);
        }
        assert(false);
    }
}

/// Where the whole plain `name: value;` declaration at `p` ends: past its
/// trailing `;` separators and the spaces between them.
pub open spec fn plain_decl_end(t: Seq<u8>, p: int, e: int) -> int {
    semi_run_end(t, find_byte(t, B_SEMICOLON, decl_value_start(t, p, e), e), e)
}

/// Where the whole `name: value !important;` declaration at `p` ends.
pub open spec fn plain_decl_important_end(t: Seq<u8>, p: int, e: int) -> int {
    let ex = find_byte(t, B_EXCLAMATION, decl_value_start(t, p, e), e);
    semi_run_end(t, ws_end(t, ws_end(t, ex + 1, e) + 9, e), e)
}

/// Consumes one `name: value` declaration: the name, a `:`, a run of value
/// terms whose raw text becomes the value, an optional `!important` marker,
/// and any trailing `;` separators. A single leading `*` before the name is
/// tolerated.
///
/// # Errors
///
/// Fails with `InvalidValue` when no term stands where the value belongs,
/// and with the respective error when the name, the `:` or a comment is
/// malformed.
#[verifier::rlimit(100)]
pub fn consume_declaration<'a>(s: &mut Stream<'a>) -> (r: Result<Declaration<'a>, Error>)
    requires
        old(s).wf(),
    ensures
        final(s).wf(),
        final(s).text == old(s).text,
        final(s).end == old(s).end,
        old(s).pos <= final(s).pos,
        (r matches Ok(d) ==> final(s).pos > old(s).pos && is_ident_seq(d.name@) && d.value@.len()
            > 0 && !spec_is_space(d.value@[0]) && !spec_is_space(d.value@[d.value@.len() - 1])),
        ({
            let t = old(s).text@;
            let p = old(s).pos as int;
            let e = old(s).end as int;
            plain_decl_at(t, p, e) ==> (r matches Ok(d) && d.name@ == t.subrange(
                decl_name_start(t, p, e),
                decl_name_end(t, p, e),
            ) && d.value@ == t.subrange(
                decl_value_start(t, p, e),
                decl_trimmed_end(
                    t,
                    decl_value_start(t, p, e),
                    find_byte(t, B_SEMICOLON, decl_value_start(t, p, e), e),
                ),
            ) && !d.important && final(s).pos == plain_decl_end(t, p, e))
        }),
        ({
            let t = old(s).text@;
            let p = old(s).pos as int;
            let e = old(s).end as int;
            plain_decl_important_at(t, p, e) ==> (r matches Ok(d) && d.name@ == t.subrange(
                decl_name_start(t, p, e),
                decl_name_end(t, p, e),
            ) && d.value@ == t.subrange(
                decl_value_start(t, p, e),
                decl_trimmed_end(
                    t,
                    decl_value_start(t, p, e),
                    find_byte(t, B_EXCLAMATION, decl_value_start(t, p, e), e),
                ),
            ) && d.important && final(s).pos == plain_decl_important_end(t, p, e))
        }),
        ({
            let t = old(s).text@;
            let p = old(s).pos as int;
            let e = old(s).end as int;
            let w0 = ws_end(t, p, e);
            (w0 < e && t[w0] == B_STAR && w0 + 1 < e && spec_is_ident(t[w0 + 1]) && plain_decl_at(
                t,
                w0 + 1,
                e,
            )) ==> (r matches Ok(d) && d.name@ == t.subrange(
                decl_name_start(t, w0 + 1, e),
                decl_name_end(t, w0 + 1, e),
            ) && d.value@ == t.subrange(
                decl_value_start(t, w0 + 1, e),
                decl_trimmed_end(
                    t,
                    decl_value_start(t, w0 + 1, e),
                    find_byte(t, B_SEMICOLON, decl_value_start(t, w0 + 1, e), e),
                ),
            ) && !d.important && final(s).pos == plain_decl_end(t, w0 + 1, e))
        }),
        ({
            let t = old(s).text@;
            let p = old(s).pos as int;
            let e = old(s).end as int;
            let w0 = ws_end(t, p, e);
            (w0 < e && t[w0] == B_STAR && w0 + 1 < e && spec_is_ident(t[w0 + 1])
                && plain_decl_important_at(t, w0 + 1, e)) ==> (r matches Ok(d) && d.name@
                == t.subrange(decl_name_start(t, w0 + 1, e), decl_name_end(t, w0 + 1, e))
                && d.value@ == t.subrange(
                decl_value_start(t, w0 + 1, e),
                decl_trimmed_end(
                    t,
                    decl_value_start(t, w0 + 1, e),
                    find_byte(t, B_EXCLAMATION, decl_value_start(t, w0 + 1, e), e),
                ),
            ) && d.important && final(s).pos == plain_decl_important_end(t, w0 + 1, e))
        }),
        ({
            let t = old(s).text@;
            let p = old(s).pos as int;
            let e = old(s).end as int;
            let n0 = decl_name_start(t, p, e);
            let n1 = decl_name_end(t, p, e);
            let c0 = decl_colon(t, p, e);
            let vs = decl_value_start(t, p, e);
            (n1 > n0 && c0 < e && t[c0] == B_COLON && vs < e && (t[vs] == B_SEMICOLON || t[vs]
                == B_RBRACE) && (forall|i: int| vs < i < e ==> t[i] != B_SLASH)) ==> (r matches Err(
                er,
            ) && er == Error::InvalidValue(spec_text_pos(t, vs)))
        }),
{
    let ghost t = s.text@;
    let ghost e = s.end as int;
    let ghost p0 = s.pos as int;
    let ghost pa: int = ({
        let w0 = ws_end(t, p0, e);
        if w0 < e && t[w0] == B_STAR {
            w0 + 1
        } else {
            p0
        }
    });
    let ghost sa = (pa == p0 || spec_is_ident(t[pa])) && plain_decl_at(t, pa, e);
    let ghost sb = (pa == p0 || spec_is_ident(t[pa])) && plain_decl_important_at(t, pa, e);
    let ghost n0 = decl_name_start(t, pa, e);
    let ghost n1 = decl_name_end(t, pa, e);
    let ghost c0 = decl_colon(t, pa, e);
    let ghost v0 = decl_value_start(t, pa, e);
    let ghost stop: int = if sa {
        find_byte(t, B_SEMICOLON, v0, e)
    } else {
        find_byte(t, B_EXCLAMATION, v0, e)
    };
    let ghost vs_g: int = decl_value_start(t, p0, e);
    let ghost se_: bool = ({
        let xn0 = decl_name_start(t, p0, e);
        let xn1 = decl_name_end(t, p0, e);
        let xc0 = decl_colon(t, p0, e);
        xn1 > xn0 && xc0 < e && t[xc0] == B_COLON && vs_g < e && (t[vs_g] == B_SEMICOLON
            || t[vs_g] == B_RBRACE) && (forall|i: int| vs_g < i < e ==> t[i] != B_SLASH)
    });
    proof {
        lemma_ws_end(t, p0, e);
        if se_ {
            lemma_ident_run_end(t, decl_name_start(t, p0, e), e);
            lemma_ws_end(t, decl_name_end(t, p0, e), e);
            lemma_ws_end(t, decl_colon(t, p0, e) + 1, e);
        }
        lemma_shapes_disjoint(t, pa, e);
        if sa || sb {
            lemma_ws_end(t, pa, e);
            lemma_ident_run_end(t, n0, e);
            lemma_ws_end(t, n1, e);
            lemma_ws_end(t, c0 + 1, e);
            if sa {
                crate::stream::lemma_find_byte(t, B_SEMICOLON, v0, e);
            } else {
                crate::stream::lemma_find_byte(t, B_EXCLAMATION, v0, e);
            }
        }
    }
    skip_spaces_and_comments(s)?;
    // a single leading `*`: the old browser-targeting hack
    if !s.at_end() && s.curr_char_raw() == B_STAR {
        s.advance_raw(1);
    }
    let name = consume_ident(s)?;
    skip_spaces_and_comments(s)?;
    consume_byte(s, B_COLON)?;
    skip_spaces_and_comments(s)?;
    let start = s.pos();
    let mut end_: usize = start;
    let ghost mut first_ok: bool = false;
    loop
        invariant_except_break
            !first_ok ==> s.pos == start,
        invariant
            s.wf(),
            s.text == old(s).text,
            s.end == old(s).end,
            t == old(s).text@,
            e == old(s).end as int,
            old(s).pos < s.pos,
            start <= end_ <= s.pos,
            end_ as int <= e,
            !first_ok ==> end_ == start,
            first_ok ==> start < end_ && !spec_is_space(t[start as int]) && !spec_is_space(
                t[end_ - 1],
            ),
            p0 == old(s).pos as int,
            pa == ({
                let w0 = ws_end(t, p0, e);
                if w0 < e && t[w0] == B_STAR {
                    w0 + 1
                } else {
                    p0
                }
            }),
            sa == ((pa == p0 || spec_is_ident(t[pa])) && plain_decl_at(t, pa, e)),
            sb == ((pa == p0 || spec_is_ident(t[pa])) && plain_decl_important_at(t, pa, e)),
            !(sa && sb),
            v0 == decl_value_start(t, pa, e),
            (sa ==> stop == find_byte(t, B_SEMICOLON, v0, e)),
            (!sa ==> stop == find_byte(t, B_EXCLAMATION, v0, e)),
            (sa || sb) ==> {
                &&& start as int == v0
                &&& v0 <= s.pos as int <= stop
                &&& stop < e
                &&& (s.pos as int == stop || spec_is_ident(t[s.pos as int]))
                &&& end_ as int <= stop
                &&& (first_ok ==> forall|i: int| end_ <= i < s.pos as int ==> spec_is_space(t[i]))
                &&& (s.pos as int == stop ==> first_ok)
            },
            vs_g == decl_value_start(t, p0, e),
            se_ == ({
                let xn0 = decl_name_start(t, p0, e);
                let xn1 = decl_name_end(t, p0, e);
                let xc0 = decl_colon(t, p0, e);
                xn1 > xn0 && xc0 < e && t[xc0] == B_COLON && vs_g < e && (t[vs_g] == B_SEMICOLON
                    || t[vs_g] == B_RBRACE) && (forall|i: int| vs_g < i < e ==> t[i] != B_SLASH)
            }),
            se_ ==> !first_ok && s.pos as int == start as int && start as int == vs_g,
        ensures
            s.wf(),
            s.text == old(s).text,
            s.end == old(s).end,
            t == old(s).text@,
            e == old(s).end as int,
            old(s).pos < s.pos,
            start <= end_ <= s.pos,
            end_ as int <= e,
            !first_ok ==> end_ == start,
            first_ok ==> start < end_ && !spec_is_space(t[start as int]) && !spec_is_space(
                t[end_ - 1],
            ),
            (sa || sb) ==> {
                &&& start as int == v0
                &&& s.pos as int == stop
                &&& first_ok
                &&& v0 < end_ as int <= stop
                &&& forall|i: int| end_ <= i < stop ==> spec_is_space(t[i])
            },
            se_ ==> !first_ok && s.pos as int == start as int && start as int == vs_g,
        decreases s.end - s.pos,
    {
        let ghost pre = s.pos as int;
        proof {
            if sa || sb {
                lemma_ident_run_end(t, pre, e);
                if sa {
                    crate::stream::lemma_find_byte(t, B_SEMICOLON, v0, e);
                } else {
                    crate::stream::lemma_find_byte(t, B_EXCLAMATION, v0, e);
                }
            }
        }
        match consume_term(s) {
            Ok(()) => {
                proof {
                    first_ok = true;
                }
                end_ = s.pos();
            },
            Err(_) => {
                break;
            },
        }
        proof {
            if sa || sb {
                lemma_ws_end(t, s.pos as int, e);
            }
        }
        skip_spaces_and_comments(s)?;
    }
    let value = s.slice_region_raw_str(start, end_);
    proof {
        if sa || sb {
            let sub = t.subrange(v0, stop);
            lemma_last_non_space(sub);
            let lns = last_non_space(sub);
            assert(sub[end_ - 1 - v0] == t[end_ - 1]);
            if lns < end_ - 1 - v0 {
                assert(spec_is_space(sub[end_ - 1 - v0]));
                assert(false);
            }
            if lns > end_ - 1 - v0 {
                assert(sub[lns] == t[v0 + lns]);
                assert(spec_is_space(t[v0 + lns]));
                assert(false);
            }
            assert(end_ as int == decl_trimmed_end(t, v0, stop));
        }
    }
    let ghost safe_from: int = if sa {
        stop
    } else {
        ws_end(t, ws_end(t, stop + 1, e) + 9, e)
    };
    proof {
        if sa || sb {
            assert(ws_end(t, s.pos as int, e) == s.pos as int);
        }
        if sb {
            lemma_ws_end(t, stop + 1, e);
            lemma_ws_end(t, ws_end(t, stop + 1, e) + 9, e);
        }
    }
    skip_spaces_and_comments(s)?;
    let mut important = false;
    if !s.at_end() && s.curr_char_raw() == B_EXCLAMATION {
        s.advance_raw(1);
        proof {
            if sb {
                lemma_ws_end(t, stop + 1, e);
                let iw = ws_end(t, stop + 1, e);
                assert(t.subrange(iw, iw + 9)[0] == t[iw]);
            }
        }
        skip_spaces_and_comments(s)?;
        if starts_with_important(s) {
            s.advance_raw(9);
            important = true;
        }
    }
    proof {
        if sb {
            lemma_ws_end(t, ws_end(t, stop + 1, e) + 9, e);
        }
        if sa {
            assert(ws_end(t, s.pos as int, e) == s.pos as int);
        }
    }
    skip_spaces_and_comments(s)?;
    loop
        invariant
            s.wf(),
            s.text == old(s).text,
            s.end == old(s).end,
            t == old(s).text@,
            e == old(s).end as int,
            old(s).pos < s.pos,
            p0 == old(s).pos as int,
            pa == ({
                let w0 = ws_end(t, p0, e);
                if w0 < e && t[w0] == B_STAR {
                    w0 + 1
                } else {
                    p0
                }
            }),
            sa == ((pa == p0 || spec_is_ident(t[pa])) && plain_decl_at(t, pa, e)),
            sb == ((pa == p0 || spec_is_ident(t[pa])) && plain_decl_important_at(t, pa, e)),
            vs_g == decl_value_start(t, p0, e),
            se_ == ({
                let xn0 = decl_name_start(t, p0, e);
                let xn1 = decl_name_end(t, p0, e);
                let xc0 = decl_colon(t, p0, e);
                xn1 > xn0 && xc0 < e && t[xc0] == B_COLON && vs_g < e && (t[vs_g] == B_SEMICOLON
                    || t[vs_g] == B_RBRACE) && (forall|i: int| vs_g < i < e ==> t[i] != B_SLASH)
            }),
            se_ ==> vs_g < e && s.pos as int >= vs_g && (forall|i: int|
                vs_g < i < e ==> t[i] != B_SLASH) && (t[vs_g] == B_SEMICOLON || t[vs_g]
                == B_RBRACE),
            (sa || sb) ==> {
                &&& s.pos as int >= safe_from
                &&& (forall|i: int| safe_from < i < e ==> t[i] != B_SLASH)
                &&& 0 <= safe_from <= e
                &&& ws_end(t, s.pos as int, e) == s.pos as int
                &&& semi_run_end(t, safe_from, e) == semi_run_end(t, s.pos as int, e)
            },
        ensures
            s.wf(),
            s.text == old(s).text,
            s.end == old(s).end,
            old(s).pos < s.pos,
            (sa || sb) ==> {
                &&& s.pos as int == semi_run_end(t, safe_from, e)
                &&& s.pos as int >= safe_from
                &&& (forall|i: int| safe_from < i < e ==> t[i] != B_SLASH)
                &&& ws_end(t, s.pos as int, e) == s.pos as int
            },
            se_ ==> vs_g < e && s.pos as int >= vs_g && (forall|i: int|
                vs_g < i < e ==> t[i] != B_SLASH) && (t[vs_g] == B_SEMICOLON || t[vs_g]
                == B_RBRACE),
        decreases s.end - s.pos,
    {
        if s.at_end() {
            proof {
                if sa || sb {
                    assert(semi_run_end(t, s.pos as int, e) == s.pos as int);
                }
            }
            break;
        }
        if s.curr_char_raw() != B_SEMICOLON {
            proof {
                if sa || sb {
                    assert(semi_run_end(t, s.pos as int, e) == s.pos as int);
                }
            }
            break;
        }
        let ghost at_semi = s.pos as int;
        s.advance_raw(1);
        proof {
            if se_ {
                lemma_ws_end(t, s.pos as int, e);
            }
            if sa || sb {
                lemma_ws_end(t, s.pos as int, e);
                assert(semi_run_end(t, at_semi, e) == semi_run_end(t, at_semi + 1, e));
                assert(ws_end(t, at_semi + 1, e) == ws_end(t, ws_end(t, at_semi + 1, e), e));
                assert(semi_run_end(t, at_semi + 1, e) == semi_run_end(
                    t,
                    ws_end(t, at_semi + 1, e),
                    e,
                ));
            }
        }
        skip_spaces_and_comments(s)?;
    }
    proof {
        if sa || sb || se_ {
            lemma_ws_end(t, s.pos as int, e);
        }
        if se_ {
            let w2 = ws_end(t, s.pos as int, e);
            assert(w2 >= vs_g);
            assert(w2 < e ==> t[w2] != B_SLASH);
        }
    }
    skip_spaces_and_comments(s)?;
    if value.len() == 0 {
        let from = Stream { text: s.text, pos: start, end: s.end };
        return Err(Error::InvalidValue(gen_text_pos(&from)));
    }
    Ok(Declaration { name, value, important })
}

/// A declaration tokenizer over a flat `name: value;` list.
///
/// It hands out one declaration per call of [`DeclarationTokenizer::next`]
/// and stops permanently at the first declaration that does not parse,
/// discarding the remainder of the input.
pub struct DeclarationTokenizer<'a> {
    pub stream: Stream<'a>,
}

impl<'a> DeclarationTokenizer<'a> {
    /// Constructs a declaration tokenizer over the bytes of `text`.
    pub fn from(text: &'a str) -> (d: DeclarationTokenizer<'a>)
        requires
            text.spec_bytes().len() < usize::MAX,
        ensures
            d.stream.text@ == text.spec_bytes(),
            d.stream.pos == 0,
            d.stream.end == text.spec_bytes().len(),
            d.stream.wf(),
    {
        DeclarationTokenizer { stream: Stream::new(text.as_bytes()) }
    }

    /// Parses the next declaration. After the first failure the sequence has
    /// ended for good: every later call returns `None` as well.
    ///
    /// For every plain `name: value;` declaration text the tokenizer
    /// produces exactly that name and the trimmed value span between the `:`
    /// and the terminator, with `important` false — and true exactly where a
    /// bare `!important` marker follows the value instead.
    pub fn next(&mut self) -> (r: Option<Declaration<'a>>)
        requires
            old(self).stream.wf(),
        ensures
            final(self).stream.wf(),
            final(self).stream.text == old(self).stream.text,
            final(self).stream.end == old(self).stream.end,
            old(self).stream.pos <= final(self).stream.pos,
            (r matches Some(d) ==> final(self).stream.pos > old(self).stream.pos && is_ident_seq(
                d.name@,
            ) && d.value@.len() > 0 && !spec_is_space(d.value@[0]) && !spec_is_space(
                d.value@[d.value@.len() - 1],
            )),
            (r matches None ==> final(self).stream.pos == final(self).stream.end),
            ({
                let t = old(self).stream.text@;
                let p = old(self).stream.pos as int;
                let e = old(self).stream.end as int;
                plain_decl_at(t, p, e) ==> (r matches Some(d) && d.name@ == t.subrange(
                    decl_name_start(t, p, e),
                    decl_name_end(t, p, e),
                ) && d.value@ == t.subrange(
                    decl_value_start(t, p, e),
                    decl_trimmed_end(
                        t,
                        decl_value_start(t, p, e),
                        find_byte(t, B_SEMICOLON, decl_value_start(t, p, e), e),
                    ),
                ) && !d.important && final(self).stream.pos == plain_decl_end(t, p, e))
            }),
            ({
                let t = old(self).stream.text@;
                let p = old(self).stream.pos as int;
                let e = old(self).stream.end as int;
                plain_decl_important_at(t, p, e) ==> (r matches Some(d) && d.name@ == t.subrange(
                    decl_name_start(t, p, e),
                    decl_name_end(t, p, e),
                ) && d.value@ == t.subrange(
                    decl_value_start(t, p, e),
                    decl_trimmed_end(
                        t,
                        decl_value_start(t, p, e),
                        find_byte(t, B_EXCLAMATION, decl_value_start(t, p, e), e),
                    ),
                ) && d.important && final(self).stream.pos == plain_decl_important_end(t, p, e))
            }),
    {
        let ghost t = self.stream.text@;
        let ghost p = self.stream.pos as int;
        let ghost e = self.stream.end as int;
        proof {
            if plain_decl_at(t, p, e) || plain_decl_important_at(t, p, e) {
                lemma_ws_end(t, p, e);
            }
        }
        let _ = skip_spaces_and_comments(&mut self.stream);
        proof {
            if plain_decl_at(t, p, e) || plain_decl_important_at(t, p, e) {
                let n0 = decl_name_start(t, p, e);
                assert(ws_end(t, n0, e) == n0);
                assert(decl_name_start(t, n0, e) == decl_name_start(t, p, e));
                if plain_decl_at(t, p, e) {
                    assert(plain_decl_at(t, n0, e));
                } else {
                    assert(plain_decl_important_at(t, n0, e));
                }
            }
        }
        if self.stream.at_end() {
            return None;
        }
        match consume_declaration(&mut self.stream) {
            Ok(v) => Some(v),
            Err(_) => {
                self.stream.jump_to_end();
                None
            },
        }
    }
}

/// Where the brace-counting skip stops: the first `}` at nesting depth zero
/// at or after `i`, or the end when none is left.
pub open spec fn block_skip_end(t: Seq<u8>, i: int, e: int, depth: int) -> int
    decreases e - i,
{
    if i >= e {
        e
    } else if t[i] == B_RBRACE {
        if depth == 0 {
            i
        } else {
            block_skip_end(t, i + 1, e, depth - 1)
        }
    } else if t[i] == B_LBRACE {
        block_skip_end(t, i + 1, e, depth + 1)
    } else {
        block_skip_end(t, i + 1, e, depth)
    }
}

pub proof fn lemma_block_skip_end_bounds(t: Seq<u8>, i: int, e: int, depth: int)
    requires
        0 <= i <= e,
    ensures
        i <= block_skip_end(t, i, e, depth) <= e,
        block_skip_end(t, i, e, depth) < e ==> t[block_skip_end(t, i, e, depth)] == B_RBRACE,
    decreases e - i,
{
    if i < e {
        if t[i] == B_RBRACE {
            if depth != 0 {
                lemma_block_skip_end_bounds(t, i + 1, e, depth - 1);
            }
        } else if t[i] == B_LBRACE {
            lemma_block_skip_end_bounds(t, i + 1, e, depth + 1);
        } else {
            lemma_block_skip_end_bounds(t, i + 1, e, depth);
        }
    }
}

/// How a byte moves the brace nesting depth.
pub open spec fn brace_delta(c: u8) -> int {
    if c == B_LBRACE {
        1
    } else if c == B_RBRACE {
        -1
    } else {
        0
    }
}

/// The sum of the brace deltas over `t[i..j)`.
pub open spec fn brace_balance(t: Seq<u8>, i: int, j: int) -> int
    decreases j - i,
{
    if i >= j {
        0
    } else {
        brace_delta(t[i]) + brace_balance(t, i + 1, j)
    }
}

proof fn lemma_block_skip_at(t: Seq<u8>, i: int, close: int, e: int, depth: int)
    requires
        0 <= i <= close < e,
        depth >= 0,
        t[close] == B_RBRACE,
        depth + brace_balance(t, i, close) == 0,
        forall|k: int| i <= k < close ==> !(t[k] == B_RBRACE && depth + brace_balance(t, i, k) == 0),
        forall|k: int| i <= k <= close ==> depth + brace_balance(t, i, k) >= 0,
    ensures
        block_skip_end(t, i, e, depth) == close,
    decreases close - i,
{
    if i == close {
        assert(brace_balance(t, i, i) == 0);
    } else {
        let d2 = depth + brace_delta(t[i]);
        assert(brace_balance(t, i, i) == 0);
        assert(brace_balance(t, i + 1, i + 1) == 0);
        assert(brace_balance(t, i, i + 1) == brace_delta(t[i]) + brace_balance(t, i + 1, i + 1));
        assert forall|k: int| i + 1 <= k <= close implies depth + brace_balance(t, i, k) == d2
            + brace_balance(t, i + 1, k) by {
            assert(brace_balance(t, i, k) == brace_delta(t[i]) + brace_balance(t, i + 1, k));
        }
        assert(d2 >= 0) by {
            assert(depth + brace_balance(t, i, i + 1) >= 0);
        }
        if t[i] == B_RBRACE {
            assert(depth != 0);
        }
        assert(d2 + brace_balance(t, i + 1, close) == 0);
        assert forall|k: int| i + 1 <= k < close implies !(t[k] == B_RBRACE && d2 + brace_balance(
            t,
            i + 1,
            k,
        ) == 0) by {
            assert(depth + brace_balance(t, i, k) == d2 + brace_balance(t, i + 1, k));
        }
        assert forall|k: int| i + 1 <= k <= close implies d2 + #[trigger] brace_balance(
            t,
            i + 1,
            k,
        ) >= 0 by {
            assert(depth + brace_balance(t, i, k) == d2 + brace_balance(t, i + 1, k));
        }
        lemma_block_skip_at(t, i + 1, close, e, d2);
    }
}

/// Brace-counting block skip is symmetric: over a well-nested block body the
/// skip stops exactly at the outer closing brace, so after consuming it the
/// stream stands on the byte immediately following that `}`.
///
/// `close` is the outer closing brace of the body starting at `i`: the first
/// position where the running brace balance of the body goes below zero,
/// with the balance never negative before it.
pub proof fn lemma_block_skip_symmetric(t: Seq<u8>, i: int, close: int, e: int)
    requires
        0 <= i <= close < e,
        t[close] == B_RBRACE,
        brace_balance(t, i, close) == 0,
        forall|k: int| i <= k < close ==> !(t[k] == B_RBRACE && brace_balance(t, i, k) == 0),
        forall|k: int| i <= k <= close ==> brace_balance(t, i, k) >= 0,
    ensures
        block_skip_end(t, i, e, 0) == close,
{
    lemma_block_skip_at(t, i, close, e, 0);
}

/// Skips to the `}` closing the block the cursor stands in, counting nested
/// braces, and consumes it. Braces inside strings count too: a documented
/// imprecision of this skip.
pub fn consume_until_block_end(s: &mut Stream)
    requires
        old(s).wf(),
    ensures
        final(s).wf(),
        final(s).text == old(s).text,
        final(s).end == old(s).end,
        old(s).pos <= final(s).pos,
        ({
            let stop = block_skip_end(old(s).text@, old(s).pos as int, old(s).end as int, 0);
            final(s).pos == if stop < old(s).end {
                stop + 1
            } else {
                old(s).end as int
            }
        }),
{
    let ghost t = s.text@;
    let ghost e = s.end as int;
    let ghost p = s.pos as int;
    let mut braces: usize = 0;
    loop
        invariant
            s.wf(),
            s.text == old(s).text,
            s.end == old(s).end,
            t == old(s).text@,
            e == old(s).end as int,
            p == old(s).pos as int,
            p <= s.pos as int <= e,
            braces <= s.pos - p,
            block_skip_end(t, p, e, 0) == block_skip_end(t, s.pos as int, e, braces as int),
        ensures
            s.wf(),
            s.text == old(s).text,
            s.end == old(s).end,
            p <= s.pos as int <= e,
            s.pos as int == block_skip_end(t, p, e, 0),
        decreases e - s.pos,
    {
        if s.at_end() {
            break;
        }
        let c = s.curr_char_raw();
        if c == B_LBRACE {
            braces = braces + 1;
        } else if c == B_RBRACE {
            if braces == 0 {
                proof {
                    assert(block_skip_end(t, s.pos as int, e, 0) == s.pos as int);
                }
                break;
            }
            braces = braces - 1;
        }
        s.advance_raw(1);
    }
    proof {
        lemma_block_skip_end_bounds(t, p, e, 0);
    }
    try_consume_byte(s, B_RBRACE);
}

/// Consumes a `{ ... }` block whole, its closing brace included.
pub fn consume_block(s: &mut Stream)
    requires
        old(s).wf(),
    ensures
        final(s).wf(),
        final(s).text == old(s).text,
        final(s).end == old(s).end,
        old(s).pos <= final(s).pos,
        (old(s).pos < old(s).end && old(s).text@[old(s).pos as int] == B_LBRACE) ==> final(s).pos
            == ({
            let stop = block_skip_end(old(s).text@, old(s).pos + 1, old(s).end as int, 0);
            if stop < old(s).end {
                stop + 1
            } else {
                old(s).end as int
            }
        }),
{
    try_consume_byte(s, B_LBRACE);
    consume_until_block_end(s);
}

/// The first offset at or after `i` (bounded by `e`) holding a `;` or a `{`:
/// where an at-rule's prelude ends.
pub open spec fn at_rule_stop(t: Seq<u8>, i: int, e: int) -> int
    decreases e - i,
{
    if i >= e {
        e
    } else if t[i] == B_SEMICOLON || t[i] == B_LBRACE {
        i
    } else {
        at_rule_stop(t, i + 1, e)
    }
}

proof fn lemma_at_rule_stop(t: Seq<u8>, i: int, e: int)
    requires
        0 <= i <= e,
    ensures
        i <= at_rule_stop(t, i, e) <= e,
        at_rule_stop(t, i, e) < e ==> (t[at_rule_stop(t, i, e)] == B_SEMICOLON || t[at_rule_stop(
            t,
            i,
            e,
        )] == B_LBRACE),
    decreases e - i,
{
    if i < e && !(t[i] == B_SEMICOLON || t[i] == B_LBRACE) {
        lemma_at_rule_stop(t, i + 1, e);
    }
}

/// `at_rule_stop` lands exactly on `k` when no `;` or `{` stands before it
/// and one does at `k` (or `k` is the end).
proof fn lemma_at_rule_stop_at(t: Seq<u8>, i: int, e: int, k: int)
    requires
        0 <= i <= k <= e,
        forall|j: int| i <= j < k ==> t[j] != B_SEMICOLON && t[j] != B_LBRACE,
        k == e || t[k] == B_SEMICOLON || t[k] == B_LBRACE,
    ensures
        at_rule_stop(t, i, e) == k,
    decreases k - i,
{
    if i < k {
        lemma_at_rule_stop_at(t, i + 1, e, k);
    }
}

/// Skips one at-rule, whose `@` the caller has consumed: the keyword, then
/// everything to the first `;` (consumed) or `{` (the whole block skipped by
/// brace counting). At-rules are not interpreted, only passed over.
///
/// # Errors
///
/// Fails with `InvalidIdent` when no keyword follows the `@`, and with
/// `UnexpectedEndOfStream` when neither a `;` nor a `{` closes the prelude.
pub fn consume_at_rule(s: &mut Stream) -> (r: Result<(), Error>)
    requires
        old(s).wf(),
    ensures
        final(s).wf(),
        final(s).text == old(s).text,
        final(s).end == old(s).end,
        old(s).pos <= final(s).pos,
        ({
            let t = old(s).text@;
            let p = old(s).pos as int;
            let e = old(s).end as int;
            let q = ident_run_end(t, p, e);
            if q == p {
                r matches Err(er) && er == Error::InvalidIdent(spec_text_pos(t, p)) && final(s).pos == p
            } else {
                let st = at_rule_stop(t, q, e);
                if st == e {
                    r matches Err(er) && er == Error::UnexpectedEndOfStream && final(s).pos == e
                } else if t[st] == B_SEMICOLON {
                    (r matches Ok(x)) && final(s).pos == st + 1
                } else {
                    (r matches Ok(x)) && final(s).pos == ({
                        let close = block_skip_end(t, st + 1, e, 0);
                        if close < e {
                            close + 1
                        } else {
                            e
                        }
                    })
                }
            }
        }),
{
    let ghost t = s.text@;
    let ghost e = s.end as int;
    let _ident = consume_ident(s)?;
    let ghost q = s.pos as int;
    skip_to_semi_or_brace(s);
    proof {
        lemma_at_rule_stop_at(t, q, e, s.pos as int);
    }
    if s.at_end() {
        return Err(Error::UnexpectedEndOfStream);
    }
    let c = s.curr_char_raw();
    if c == B_SEMICOLON {
        s.advance_raw(1);
    } else if c == B_LBRACE {
        consume_block(s);
    }
    Ok(())
}

/// A rule: one selector with the declarations of its block. Each selector of
/// a comma-separated group becomes its own rule carrying a copy of the
/// shared declaration list.
#[derive(Clone, Debug)]
pub struct Rule<'a> {
    /// The rule's selector.
    pub selector: Selector<'a>,
    /// The rule's declarations.
    pub declarations: Vec<Declaration<'a>>,
}

/// The key rules are ordered by: the selector's specificity.
pub open spec fn rule_key<'a>(r: Rule<'a>) -> u64 {
    r.selector.key
}

/// Rules in non-decreasing specificity order.
pub open spec fn sorted_by_specificity<'a>(s: Seq<Rule<'a>>) -> bool {
    forall|i: int, j: int| 0 <= i < j < s.len() ==> rule_key(s[i]) <= rule_key(s[j])
}

/// Carrying the specificity key `k`, as a predicate on rules.
pub open spec fn key_pred<'a>(k: u64) -> spec_fn(Rule<'a>) -> bool {
    |r: Rule<'a>| rule_key(r) == k
}

/// Keeping at least one declaration, as a predicate on rules.
pub open spec fn nonempty_pred<'a>() -> spec_fn(Rule<'a>) -> bool {
    |r: Rule<'a>| r.declarations@.len() > 0
}

/// The rules of `s` whose specificity key is `k`, in order.
pub open spec fn with_key<'a>(s: Seq<Rule<'a>>, k: u64) -> Seq<Rule<'a>> {
    s.filter(key_pred(k))
}

/// The rules of `s` that keep at least one declaration, in order.
pub open spec fn kept_rules<'a>(s: Seq<Rule<'a>>) -> Seq<Rule<'a>> {
    s.filter(nonempty_pred())
}

/// A plain rule stands at `p`: a selector of selector bytes running to the
/// block's `{`, one plain `name: value;` declaration, and the closing `}`.
pub open spec fn plain_rule_at(t: Seq<u8>, p: int, e: int) -> bool {
    let bo = find_byte(t, B_LBRACE, p, e);
    let lo = ws_end(t, p, bo);
    let hi = p + last_non_space(t.subrange(p, bo)) + 1;
    &&& 0 <= p
    &&& bo < e
    &&& lo < bo
    &&& sel_ok(t.subrange(lo, hi))
    &&& (forall|i: int| p <= i < bo ==> t[i] != B_COMMA)
    &&& plain_decl_at(t, bo + 1, e)
    &&& plain_decl_end(t, bo + 1, e) < e
    &&& t[plain_decl_end(t, bo + 1, e)] == B_RBRACE
}

/// Consumes the declarations of a block up to its `}` (left unconsumed). A
/// declaration that does not parse aborts the block: the scan skips to the
/// block's end and whatever parsed before stands.
pub fn consume_declarations<'a>(s: &mut Stream<'a>) -> (r: Result<Vec<Declaration<'a>>, Error>)
    requires
        old(s).wf(),
    ensures
        final(s).wf(),
        final(s).text == old(s).text,
        final(s).end == old(s).end,
        old(s).pos <= final(s).pos,
        (r matches Ok(x)),
        (r matches Ok(ds) ==> forall|i: int|
            0 <= i < ds@.len() ==> is_ident_seq(ds@[i].name@) && ds@[i].value@.len() > 0),
        ({
            let t = old(s).text@;
            let p = old(s).pos as int;
            let e = old(s).end as int;
            (plain_decl_at(t, p, e) && plain_decl_end(t, p, e) < e && t[plain_decl_end(t, p, e)]
                == B_RBRACE) ==> (r matches Ok(ds) && ds@.len() == 1 && final(s).pos
                == plain_decl_end(t, p, e) && ds@[0].name@ == t.subrange(
                decl_name_start(t, p, e),
                decl_name_end(t, p, e),
            ) && ds@[0].value@ == t.subrange(
                decl_value_start(t, p, e),
                decl_trimmed_end(
                    t,
                    decl_value_start(t, p, e),
                    find_byte(t, B_SEMICOLON, decl_value_start(t, p, e), e),
                ),
            ) && !ds@[0].important)
        }),
{
    let ghost t = s.text@;
    let ghost p0 = s.pos as int;
    let ghost e = s.end as int;
    let ghost sr = plain_decl_at(t, p0, e) && plain_decl_end(t, p0, e) < e && t[plain_decl_end(
        t,
        p0,
        e,
    )] == B_RBRACE;
    let mut declarations: Vec<Declaration<'a>> = Vec::new();
    loop
        invariant
            s.wf(),
            s.text == old(s).text,
            s.end == old(s).end,
            old(s).pos <= s.pos,
            t == old(s).text@,
            p0 == old(s).pos as int,
            e == old(s).end as int,
            sr == (plain_decl_at(t, p0, e) && plain_decl_end(t, p0, e) < e && t[plain_decl_end(
                t,
                p0,
                e,
            )] == B_RBRACE),
            forall|i: int|
                0 <= i < declarations@.len() ==> is_ident_seq(declarations@[i].name@)
                    && declarations@[i].value@.len() > 0,
            sr ==> ((declarations@.len() == 0 && s.pos as int == p0) || (declarations@.len() == 1
                && s.pos as int == plain_decl_end(t, p0, e) && declarations@[0].name@
                == t.subrange(decl_name_start(t, p0, e), decl_name_end(t, p0, e))
                && declarations@[0].value@ == t.subrange(
                decl_value_start(t, p0, e),
                decl_trimmed_end(
                    t,
                    decl_value_start(t, p0, e),
                    find_byte(t, B_SEMICOLON, decl_value_start(t, p0, e), e),
                ),
            ) && !declarations@[0].important)),
        ensures
            s.wf(),
            s.text == old(s).text,
            s.end == old(s).end,
            old(s).pos <= s.pos,
            forall|i: int|
                0 <= i < declarations@.len() ==> is_ident_seq(declarations@[i].name@)
                    && declarations@[i].value@.len() > 0,
            sr ==> (declarations@.len() == 1 && s.pos as int == plain_decl_end(t, p0, e)
                && declarations@[0].name@ == t.subrange(
                decl_name_start(t, p0, e),
                decl_name_end(t, p0, e),
            ) && declarations@[0].value@ == t.subrange(
                decl_value_start(t, p0, e),
                decl_trimmed_end(
                    t,
                    decl_value_start(t, p0, e),
                    find_byte(t, B_SEMICOLON, decl_value_start(t, p0, e), e),
                ),
            ) && !declarations@[0].important),
        decreases s.end - s.pos,
    {
        proof {
            if sr && s.pos as int == p0 {
                lemma_ws_end(t, p0, e);
                lemma_ident_run_end(t, decl_name_start(t, p0, e), e);
                lemma_ws_end(t, decl_name_end(t, p0, e), e);
                lemma_ws_end(t, decl_colon(t, p0, e) + 1, e);
                crate::stream::lemma_find_byte(t, B_SEMICOLON, decl_value_start(t, p0, e), e);
                lemma_semi_run_end(t, find_byte(t, B_SEMICOLON, decl_value_start(t, p0, e), e), e);
            }
        }
        if s.at_end() {
            proof {
                if sr && s.pos as int == p0 {
                    assert(false);
                }
            }
            break;
        }
        if s.curr_char_raw() == B_RBRACE {
            proof {
                if sr && s.pos as int == p0 {
                    // the name of the declaration cannot begin with a brace
                    assert(ws_end(t, p0, e) == p0);
                    assert(decl_name_end(t, p0, e) == decl_name_start(t, p0, e));
                    assert(false);
                }
            }
            break;
        }
        match consume_declaration(s) {
            Ok(d) => {
                declarations.push(d);
            },
            Err(_) => {
                consume_until_block_end(s);
                break;
            },
        }
    }
    Ok(declarations)
}

/// Consumes one rule set: selectors separated by commas, then their shared
/// `{ ... }` declaration block. Every selector of the group becomes a rule
/// with a copy of the block's declarations, appended to `rules` in source
/// order. Malformed selector text degrades gracefully: the scan skips to the
/// block and keeps whatever selectors parsed.
pub fn consume_rule_set<'a>(s: &mut Stream<'a>, rules: &mut Vec<Rule<'a>>) -> (r: Result<
    (),
    Error,
>)
    requires
        old(s).wf(),
        old(s).pos < old(s).end,
    ensures
        final(s).wf(),
        final(s).text == old(s).text,
        final(s).end == old(s).end,
        final(s).pos > old(s).pos,
        old(rules)@.is_prefix_of(final(rules)@),
        forall|i: int, j: int|
            old(rules)@.len() <= i < j < final(rules)@.len() ==> final(rules)@[i].declarations@
                =~= final(rules)@[j].declarations@,
        ({
            let t = old(s).text@;
            let p = old(s).pos as int;
            let e = old(s).end as int;
            plain_rule_at(t, p, e) ==> ({
                let bo = find_byte(t, B_LBRACE, p, e);
                let lo = ws_end(t, p, bo);
                let hi = p + last_non_space(t.subrange(p, bo)) + 1;
                let dp = bo + 1;
                &&& r matches Ok(x)
                &&& final(s).pos == plain_decl_end(t, dp, e) + 1
                &&& final(rules)@.len() == old(rules)@.len() + 1
                &&& final(rules)@.last().selector.text@ == t.subrange(lo, hi)
                &&& final(rules)@.last().selector.key == spec_specificity(t.subrange(lo, hi))
                &&& final(rules)@.last().declarations@.len() == 1
                &&& final(rules)@.last().declarations@[0].name@ == t.subrange(
                    decl_name_start(t, dp, e),
                    decl_name_end(t, dp, e),
                )
                &&& final(rules)@.last().declarations@[0].value@ == t.subrange(
                    decl_value_start(t, dp, e),
                    decl_trimmed_end(
                        t,
                        decl_value_start(t, dp, e),
                        find_byte(t, B_SEMICOLON, decl_value_start(t, dp, e), e),
                    ),
                )
                &&& !final(rules)@.last().declarations@[0].important
            })
        }),
{
    let ghost t = s.text@;
    let ghost pp = s.pos as int;
    let ghost e = s.end as int;
    let ghost sr2 = plain_rule_at(t, pp, e);
    let ghost bo = find_byte(t, B_LBRACE, pp, e);
    proof {
        if sr2 {
            crate::stream::lemma_find_byte(t, B_LBRACE, pp, e);
            lemma_ws_end(t, pp, bo);
            lemma_last_non_space(t.subrange(pp, bo));
        }
    }
    let mut group: Vec<Selector<'a>> = Vec::new();
    let mut first: bool = true;
    loop
        invariant_except_break
            first ==> s.pos == old(s).pos && group@.len() == 0,
            !first ==> s.pos > old(s).pos,
            sr2 ==> first,
        invariant
            s.wf(),
            s.text == old(s).text,
            s.end == old(s).end,
            old(s).pos <= s.pos,
            old(s).pos < old(s).end,
            t == old(s).text@,
            pp == old(s).pos as int,
            e == old(s).end as int,
            sr2 == plain_rule_at(t, pp, e),
            bo == find_byte(t, B_LBRACE, pp, e),
        ensures
            s.wf(),
            s.text == old(s).text,
            s.end == old(s).end,
            old(s).pos <= s.pos,
            s.pos > old(s).pos || (s.pos < s.end && s.text@[s.pos as int] == B_LBRACE),
            sr2 ==> ({
                let lo = ws_end(t, pp, bo);
                let hi = pp + last_non_space(t.subrange(pp, bo)) + 1;
                &&& s.pos as int == bo
                &&& group@.len() == 1
                &&& group@[0].text@ == t.subrange(lo, hi)
                &&& group@[0].key == spec_specificity(t.subrange(lo, hi))
            }),
        decreases s.end - s.pos, (if first {
            1int
        } else {
            0int
        }),
    {
        proof {
            if sr2 {
                crate::stream::lemma_find_byte(t, B_LBRACE, pp, e);
                lemma_ws_end(t, pp, bo);
                lemma_last_non_space(t.subrange(pp, bo));
            }
        }
        if s.at_end() {
            return Err(Error::UnexpectedEndOfStream);
        }
        let c = s.curr_char_raw();
        if c != B_COMMA && group.len() > 0 {
            break;
        }
        if c == B_COMMA {
            s.advance_raw(1);
        }
        let tail = s.slice_tail();
        let (sel, offset) = selector::parse(tail);
        proof {
            crate::selector::lemma_sel_stop(tail@, 0, tail@.len() as int);
            if sr2 && s.pos as int == pp {
                // the tail mirrors the text from the statement's start, so
                // the selector scan's relative offsets shift to the absolute
                // ones of the rule's shape
                let lo = ws_end(t, pp, bo);
                assert(forall|j: int| 0 <= j < e - pp ==> tail@[j] == t[pp + j]);
                crate::selector::lemma_sel_stop_at(tail@, 0, e - pp, bo - pp);
                crate::stream::lemma_ws_end_at(tail@, 0, bo - pp, lo - pp);
                assert(tail@.subrange(0, bo - pp) =~= t.subrange(pp, bo));
                let hi = pp + last_non_space(t.subrange(pp, bo)) + 1;
                assert(last_non_space(t.subrange(pp, bo)) < bo - pp);
                assert(!spec_is_space(t[lo]));
                if last_non_space(t.subrange(pp, bo)) < lo - pp {
                    assert(t.subrange(pp, bo)[lo - pp] == t[lo]);
                    assert(spec_is_space(t[lo]));
                    assert(false);
                }
                assert(pp <= lo <= hi <= bo);
                assert forall|k: int|
                    0 <= k < hi - lo implies tail@.subrange(lo - pp, hi - pp)[k] == t.subrange(
                    lo,
                    hi,
                )[k] by {
                    assert(tail@.subrange(lo - pp, hi - pp)[k] == tail@[lo - pp + k]);
                    assert(tail@[lo - pp + k] == t[lo + k]);
                }
                assert(tail@.subrange(lo - pp, hi - pp) =~= t.subrange(lo, hi));
            }
        }
        s.advance_raw(offset);
        s.skip_spaces();
        proof {
            if sr2 && (s.pos as int) >= bo {
                assert(ws_end(t, bo, e) == bo);
            }
        }
        if let Some(sel) = sel {
            group.push(sel);
        }
        if s.at_end() {
            return Err(Error::UnexpectedEndOfStream);
        }
        let c2 = s.curr_char_raw();
        if c2 == B_LBRACE {
            break;
        }
        if c2 != B_COMMA {
            skip_to_brace(s);
            break;
        }
        first = false;
    }
    try_consume_byte(s, B_LBRACE);
    proof {
        if sr2 {
            lemma_ws_end(t, bo + 1, e);
        }
    }
    let declarations = consume_declarations(s)?;
    let ghost rules0 = rules@;
    let mut gi: usize = 0;
    while gi < group.len()
        invariant
            gi <= group@.len(),
            rules0.is_prefix_of(rules@),
            rules@.len() == rules0.len() + gi,
            gi > 0 ==> rules@.last().selector == group@[gi - 1] && rules@.last().declarations@
                =~= declarations@,
            forall|i: int|
                rules0.len() <= i < rules@.len() ==> rules@[i].declarations@ =~= declarations@,
        decreases group@.len() - gi,
    {
        let sel = *vstd::slice::slice_index_get(group.as_slice(), gi);
        rules.push(Rule { selector: sel, declarations: declarations.clone() });
        proof {
            let cl = rules@.last().declarations;
            assert forall|i: int| 0 <= i < declarations@.len() implies cl@[i]
                == declarations@[i] by {
                assert(vstd::pervasive::cloned::<Declaration>(declarations@[i], cl@[i]));
            }
            assert(cl@ =~= declarations@);
        }
        gi = gi + 1;
    }
    try_consume_byte(s, B_RBRACE);
    proof {
        if sr2 {
            lemma_ws_end(t, bo + 1, e);
            lemma_ident_run_end(t, decl_name_start(t, bo + 1, e), e);
            lemma_ws_end(t, decl_name_end(t, bo + 1, e), e);
            lemma_ws_end(t, decl_colon(t, bo + 1, e) + 1, e);
            crate::stream::lemma_find_byte(t, B_SEMICOLON, decl_value_start(t, bo + 1, e), e);
            lemma_semi_run_end(t, find_byte(t, B_SEMICOLON, decl_value_start(t, bo + 1, e), e), e);
        }
    }
    Ok(())
}

/// Consumes one statement: an at-rule where an `@` stands, else a rule set.
pub fn consume_statement<'a>(s: &mut Stream<'a>, rules: &mut Vec<Rule<'a>>) -> (r: Result<
    (),
    Error,
>)
    requires
        old(s).wf(),
        old(s).pos < old(s).end,
    ensures
        final(s).wf(),
        final(s).text == old(s).text,
        final(s).end == old(s).end,
        final(s).pos > old(s).pos,
        old(rules)@.is_prefix_of(final(rules)@),
        forall|i: int, j: int|
            old(rules)@.len() <= i < j < final(rules)@.len() ==> final(rules)@[i].declarations@
                =~= final(rules)@[j].declarations@,
        ({
            let t = old(s).text@;
            let p = old(s).pos as int;
            let e = old(s).end as int;
            t[p] == B_AT ==> (final(rules)@ == old(rules)@ && ({
                let q = ident_run_end(t, p + 1, e);
                if q == p + 1 {
                    final(s).pos == p + 1
                } else {
                    let st = at_rule_stop(t, q, e);
                    if st == e {
                        final(s).pos == e
                    } else if t[st] == B_SEMICOLON {
                        final(s).pos == st + 1
                    } else {
                        final(s).pos == ({
                            let close = block_skip_end(t, st + 1, e, 0);
                            if close < e {
                                close + 1
                            } else {
                                e
                            }
                        })
                    }
                }
            }))
        }),
        ({
            let t = old(s).text@;
            let p = old(s).pos as int;
            let e = old(s).end as int;
            plain_rule_at(t, p, e) ==> ({
                let bo = find_byte(t, B_LBRACE, p, e);
                let lo = ws_end(t, p, bo);
                let hi = p + last_non_space(t.subrange(p, bo)) + 1;
                let dp = bo + 1;
                &&& final(s).pos == plain_decl_end(t, dp, e) + 1
                &&& final(rules)@.len() == old(rules)@.len() + 1
                &&& final(rules)@.last().selector.text@ == t.subrange(lo, hi)
                &&& final(rules)@.last().selector.key == spec_specificity(t.subrange(lo, hi))
                &&& final(rules)@.last().declarations@.len() == 1
                &&& final(rules)@.last().declarations@[0].name@ == t.subrange(
                    decl_name_start(t, dp, e),
                    decl_name_end(t, dp, e),
                )
                &&& final(rules)@.last().declarations@[0].value@ == t.subrange(
                    decl_value_start(t, dp, e),
                    decl_trimmed_end(
                        t,
                        decl_value_start(t, dp, e),
                        find_byte(t, B_SEMICOLON, decl_value_start(t, dp, e), e),
                    ),
                )
                &&& !final(rules)@.last().declarations@[0].important
            })
        }),
{
    let ghost t = s.text@;
    let ghost p = s.pos as int;
    let ghost e = s.end as int;
    if s.curr_char_raw() == B_AT {
        proof {
            if plain_rule_at(t, p, e) {
                // an at sign cannot begin a plain rule's selector
                let bo = find_byte(t, B_LBRACE, p, e);
                crate::stream::lemma_find_byte(t, B_LBRACE, p, e);
                lemma_ws_end(t, p, bo);
                lemma_last_non_space(t.subrange(p, bo));
                let lo = ws_end(t, p, bo);
                let hi = p + last_non_space(t.subrange(p, bo)) + 1;
                assert(lo == p);
                if last_non_space(t.subrange(p, bo)) < lo - p {
                    assert(t.subrange(p, bo)[lo - p] == t[lo]);
                    assert(false);
                }
                assert(t.subrange(lo, hi)[0] == t[p]);
                assert(false);
            }
        }
        s.advance_raw(1);
        consume_at_rule(s)
    } else {
        consume_rule_set(s, rules)
    }
}

/// A filter keeps a sequence whose every element satisfies the predicate.
proof fn lemma_filter_all<'a>(s: Seq<Rule<'a>>, pred: spec_fn(Rule<'a>) -> bool)
    requires
        forall|i: int| 0 <= i < s.len() ==> pred(s[i]),
    ensures
        s.filter(pred) == s,
    decreases s.len(),
{
    reveal(Seq::filter);
    if s.len() == 0 {
        assert(s.filter(pred) =~= s);
    } else {
        assert(forall|i: int| 0 <= i < s.drop_last().len() ==> pred(#[trigger] s.drop_last()[i]));
        lemma_filter_all(s.drop_last(), pred);
        assert(pred(s.last()));
        assert(s.drop_last().push(s.last()) =~= s);
    }
}

/// A filter drops a sequence whose no element satisfies the predicate.
proof fn lemma_filter_none<'a>(s: Seq<Rule<'a>>, pred: spec_fn(Rule<'a>) -> bool)
    requires
        forall|i: int| 0 <= i < s.len() ==> !pred(s[i]),
    ensures
        s.filter(pred) == Seq::<Rule<'a>>::empty(),
    decreases s.len(),
{
    reveal(Seq::filter);
    if s.len() == 0 {
        assert(s.filter(pred) =~= Seq::<Rule<'a>>::empty());
    } else {
        assert(forall|i: int|
            0 <= i < s.drop_last().len() ==> !pred(#[trigger] s.drop_last()[i]));
        lemma_filter_none(s.drop_last(), pred);
        assert(!pred(s.last()));
    }
}

/// Moving one rule left across neighbours of strictly higher specificity
/// does not change any per-key subsequence: the crossed rules carry other
/// keys than the moved one.
proof fn lemma_move_preserves_with_key<'a>(s: Seq<Rule<'a>>, i: int, j: int, k: u64)
    requires
        0 <= j < i < s.len(),
        forall|m: int| j <= m < i ==> rule_key(s[m]) > rule_key(s[i]),
    ensures
        with_key(s.remove(i).insert(j, s[i]), k) == with_key(s, k),
{
    let pred = key_pred::<'a>(k);
    let x = s[i];
    let a = s.subrange(0, j);
    let m = s.subrange(j, i);
    let b = s.subrange(i + 1, s.len() as int);
    let xs = seq![x];
    assert(s =~= a + m + xs + b);
    assert(s.remove(i).insert(j, x) =~= a + xs + m + b);
    Seq::filter_distributes_over_add(a + m + xs, b, pred);
    Seq::filter_distributes_over_add(a + m, xs, pred);
    Seq::filter_distributes_over_add(a, m, pred);
    Seq::filter_distributes_over_add(a + xs + m, b, pred);
    Seq::filter_distributes_over_add(a + xs, m, pred);
    Seq::filter_distributes_over_add(a, xs, pred);
    if rule_key(x) == k {
        assert(forall|q: int| 0 <= q < m.len() ==> !pred(m[q]));
        lemma_filter_none(m, pred);
        assert((a + m + xs + b).filter(pred) =~= (a + xs + m + b).filter(pred));
    } else {
        lemma_filter_none(xs, pred);
        assert((a + m + xs + b).filter(pred) =~= (a + xs + m + b).filter(pred));
    }
    assert(with_key(s, k) == s.filter(pred));
    assert(with_key(s.remove(i).insert(j, x), k) == (s.remove(i).insert(j, x)).filter(pred));
    assert((s.remove(i).insert(j, x)).filter(pred) == (a + xs + m + b).filter(pred));
    assert(s.filter(pred) == (a + m + xs + b).filter(pred));
}

/// Removes every rule whose declaration list is empty: a selector with no
/// body contributes nothing to the sheet.
pub fn retain_nonempty<'a>(rules: &mut Vec<Rule<'a>>)
    ensures
        final(rules)@ == kept_rules(old(rules)@),
        forall|i: int| 0 <= i < final(rules)@.len() ==> final(rules)@[i].declarations@.len() > 0,
{
    let ghost orig = rules@;
    let ghost pred = nonempty_pred::<'a>();
    let mut kept: Vec<Rule<'a>> = Vec::new();
    let ghost mut done: int = 0;
    proof {
        assert(orig.subrange(0, 0).filter(pred) =~= Seq::<Rule<'a>>::empty()) by {
            reveal(Seq::filter);
            assert(orig.subrange(0, 0) =~= Seq::<Rule<'a>>::empty());
        }
    }
    loop
        invariant
            0 <= done <= orig.len(),
            rules@ == orig.subrange(done, orig.len() as int),
            kept@ == orig.subrange(0, done).filter(pred),
            pred == nonempty_pred::<'a>(),
            forall|i: int| 0 <= i < kept@.len() ==> kept@[i].declarations@.len() > 0,
        ensures
            done == orig.len(),
            kept@ == orig.subrange(0, done).filter(pred),
            pred == nonempty_pred::<'a>(),
            forall|i: int| 0 <= i < kept@.len() ==> kept@[i].declarations@.len() > 0,
        decreases orig.len() - done,
    {
        if rules.len() == 0 {
            break;
        }
        let r = rules.remove(0);
        proof {
            assert(orig.subrange(done, orig.len() as int)[0] == orig[done]);
            done = done + 1;
            assert(rules@ =~= orig.subrange(done, orig.len() as int));
        }
        let keep = r.declarations.len() > 0;
        proof {
            Seq::lemma_filter_push(orig.subrange(0, done - 1), orig[done - 1], pred);
            assert(orig.subrange(0, done - 1).push(orig[done - 1]) =~= orig.subrange(0, done));
        }
        if keep {
            kept.push(r);
        }
    }
    proof {
        assert(orig.subrange(0, orig.len() as int) =~= orig);
    }
    *rules = kept;
}

/// Sorts the rules by ascending specificity, stably: for every key the
/// subsequence of rules carrying it is left exactly as it was, so rules of
/// equal specificity keep their input order, while a rule of strictly higher
/// specificity always sorts after a lower one.
pub fn sort_rules<'a>(rules: &mut Vec<Rule<'a>>)
    ensures
        final(rules)@.len() == old(rules)@.len(),
        sorted_by_specificity(final(rules)@),
        forall|k: u64| #[trigger] with_key(final(rules)@, k) == with_key(old(rules)@, k),
        (forall|i: int| 0 <= i < old(rules)@.len() ==> old(rules)@[i].declarations@.len() > 0)
            ==> (forall|i: int|
            0 <= i < final(rules)@.len() ==> final(rules)@[i].declarations@.len() > 0),
        sorted_by_specificity(old(rules)@) ==> final(rules)@ == old(rules)@,
{
    let ghost orig = rules@;
    let mut i: usize = 1;
    while i < rules.len()
        invariant
            i >= 1,
            rules@.len() == orig.len(),
            sorted_by_specificity(orig) ==> rules@ == orig,
            forall|a: int, b: int|
                0 <= a < b < i && b < rules@.len() ==> rule_key(rules@[a]) <= rule_key(rules@[b]),
            forall|k: u64| #[trigger] with_key(rules@, k) == with_key(orig, k),
            (forall|q: int| 0 <= q < orig.len() ==> orig[q].declarations@.len() > 0) ==> (forall|
                q: int,
            |
                0 <= q < rules@.len() ==> rules@[q].declarations@.len() > 0),
        decreases rules@.len() - i,
    {
        let key_i = rules[i].selector.key;
        let ghost snap = rules@;
        let mut j: usize = i;
        while j > 0 && rules[j - 1].selector.key > key_i
            invariant
                rules@ == snap,
                j <= i < snap.len(),
                key_i == rule_key(snap[i as int]),
                forall|m: int| j <= m < i ==> rule_key(snap[m]) > key_i,
            decreases j,
        {
            j = j - 1;
        }
        if j < i {
            let x = rules.remove(i);
            rules.insert(j, x);
            proof {
                assert(rules@ =~= snap.remove(i as int).insert(j as int, snap[i as int]));
                assert forall|k: u64| #[trigger] with_key(rules@, k) == with_key(orig, k) by {
                    lemma_move_preserves_with_key(snap, i as int, j as int, k);
                }
                assert forall|a: int, b: int|
                    0 <= a < b < i + 1 && b < rules@.len() implies rule_key(rules@[a]) <= rule_key(
                    rules@[b],
                ) by {
                    if a < j {
                        assert(rules@[a] == snap[a]);
                    }
                    if j < a <= i {
                        assert(rules@[a] == snap[a - 1]);
                    }
                    if b < j {
                        assert(rules@[b] == snap[b]);
                    }
                    if j < b <= i {
                        assert(rules@[b] == snap[b - 1]);
                    }
                }
            }
        }
        i = i + 1;
    }
}

/// The whole text holds exactly one plain rule between optional spaces.
pub open spec fn plain_sheet_text(t: Seq<u8>) -> bool {
    let e = t.len() as int;
    let q = ws_end(t, 0, e);
    &&& plain_rule_at(t, q, e)
    &&& ws_end(t, plain_decl_end(t, find_byte(t, B_LBRACE, q, e) + 1, e) + 1, e) == e
}

/// Where the plain rule of an at-rule-then-rule text starts: right after the
/// at-rule's closing `;` and the spaces behind it.
pub open spec fn at_sheet_rule_start(t: Seq<u8>) -> int {
    let e = t.len() as int;
    let q0 = ws_end(t, 0, e);
    ws_end(t, at_rule_stop(t, ident_run_end(t, q0 + 1, e), e) + 1, e)
}

/// The whole text holds one `;`-terminated at-rule and then one plain rule:
/// the at-rule is skipped whole and contributes nothing.
pub open spec fn at_sheet_text(t: Seq<u8>) -> bool {
    let e = t.len() as int;
    let q0 = ws_end(t, 0, e);
    let qi = ident_run_end(t, q0 + 1, e);
    let st = at_rule_stop(t, qi, e);
    let q = ws_end(t, st + 1, e);
    &&& q0 < e && t[q0] == B_AT
    &&& qi > q0 + 1
    &&& st < e && t[st] == B_SEMICOLON
    &&& plain_rule_at(t, q, e)
    &&& ws_end(t, plain_decl_end(t, find_byte(t, B_LBRACE, q, e) + 1, e) + 1, e) == e
}

/// What the one rule parsed out of the plain rule text standing at `q` looks
/// like: that rule's selector text and key, and its one declaration.
pub open spec fn is_rule_parsed_at<'a>(t: Seq<u8>, q: int, rule: Rule<'a>) -> bool {
    let e = t.len() as int;
    let bo = find_byte(t, B_LBRACE, q, e);
    let lo = ws_end(t, q, bo);
    let hi = q + last_non_space(t.subrange(q, bo)) + 1;
    let dp = bo + 1;
    &&& rule.selector.text@ == t.subrange(lo, hi)
    &&& rule.selector.key == spec_specificity(t.subrange(lo, hi))
    &&& rule.declarations@.len() == 1
    &&& rule.declarations@[0].name@ == t.subrange(
        decl_name_start(t, dp, e),
        decl_name_end(t, dp, e),
    )
    &&& rule.declarations@[0].value@ == t.subrange(
        decl_value_start(t, dp, e),
        decl_trimmed_end(
            t,
            decl_value_start(t, dp, e),
            find_byte(t, B_SEMICOLON, decl_value_start(t, dp, e), e),
        ),
    )
    &&& !rule.declarations@[0].important
}

/// What a sheet holding nothing but the one rule of a plain single-rule text
/// looks like.
pub open spec fn is_plain_sheet_rule<'a>(t: Seq<u8>, rule: Rule<'a>) -> bool {
    is_rule_parsed_at(t, ws_end(t, 0, t.len() as int), rule)
}

/// Sorting the accumulated set after the filter keeps every rule the sheet
/// already held, in place, before the newly parsed ones of equal key: the old
/// per-key subsequence is a prefix of the new one.
proof fn lemma_with_key_prefix<'a>(rules0: Seq<Rule<'a>>, ap: Seq<Rule<'a>>, fr: Seq<Rule<'a>>)
    requires
        forall|i: int| 0 <= i < rules0.len() ==> rules0[i].declarations@.len() > 0,
        forall|k: u64| #[trigger] with_key(fr, k) == with_key(kept_rules(rules0 + ap), k),
    ensures
        forall|k: u64| #[trigger] with_key(rules0, k).is_prefix_of(with_key(fr, k)),
{
    let pred = nonempty_pred::<'a>();
    assert forall|k: u64| #[trigger] with_key(rules0, k).is_prefix_of(with_key(fr, k)) by {
        let pk = key_pred::<'a>(k);
        Seq::filter_distributes_over_add(rules0, ap, pred);
        Seq::filter_distributes_over_add(rules0.filter(pred), ap.filter(pred), pk);
        lemma_filter_all(rules0, pred);
        assert(with_key(fr, k) == with_key(kept_rules(rules0 + ap), k));
        assert(kept_rules(rules0 + ap) == rules0.filter(pred) + ap.filter(pred));
        assert(with_key(kept_rules(rules0 + ap), k) == rules0.filter(pk) + ap.filter(pred).filter(
            pk,
        ));
        assert(with_key(rules0, k) =~= with_key(fr, k).subrange(0, with_key(rules0, k).len() as int));
    }
}

/// Filtering and stably sorting a one-rule list with a non-empty declaration
/// list gives that list back unchanged.
proof fn lemma_singleton_sheet<'a>(mid: Seq<Rule<'a>>, fr: Seq<Rule<'a>>)
    requires
        mid.len() == 1,
        mid[0].declarations@.len() > 0,
        fr.len() == kept_rules(mid).len(),
        forall|k: u64| #[trigger] with_key(fr, k) == with_key(kept_rules(mid), k),
    ensures
        fr == mid,
{
    let pred = nonempty_pred::<'a>();
    lemma_filter_all(mid, pred);
    assert(kept_rules(mid) == mid);
    let k0 = rule_key(mid[0]);
    lemma_filter_all(mid, key_pred::<'a>(k0));
    assert(with_key(mid, k0) == mid);
    assert(fr.len() == 1);
    assert(with_key(fr, k0) == mid);
    if rule_key(fr[0]) != k0 {
        lemma_filter_none(fr, key_pred::<'a>(k0));
        assert(false);
    }
    lemma_filter_all(fr, key_pred::<'a>(k0));
    assert(with_key(fr, k0) == fr);
}

/// A style sheet: an ordered list of rules.
#[derive(Clone, Debug)]
pub struct StyleSheet<'a> {
    /// The list of rules, ordered by ascending specificity.
    pub rules: Vec<Rule<'a>>,
}

impl<'a> StyleSheet<'a> {
    /// The sheet's invariant after a parse: no rule has an empty declaration
    /// list and the rules stand in non-decreasing specificity order.
    pub open spec fn wf(&self) -> bool {
        sorted_by_specificity(self.rules@) && forall|i: int|
            0 <= i < self.rules@.len() ==> self.rules@[i].declarations@.len() > 0
    }

    /// Creates an empty style sheet.
    pub fn new() -> (sheet: StyleSheet<'a>)
        ensures
            sheet.rules@.len() == 0,
            sheet.wf(),
    {
        StyleSheet { rules: Vec::new() }
    }

    /// Parses a style sheet from text.
    ///
    /// At-rules are not supported and will be skipped.
    ///
    /// # Errors
    ///
    /// Produces none: in the worst case the sheet comes back empty.
    pub fn parse(text: &'a str) -> (sheet: StyleSheet<'a>)
        requires
            text.spec_bytes().len() < usize::MAX,
        ensures
            sheet.wf(),
            plain_sheet_text(text.spec_bytes()) ==> sheet.rules@.len() == 1
                && is_plain_sheet_rule(text.spec_bytes(), sheet.rules@[0]),
            at_sheet_text(text.spec_bytes()) ==> sheet.rules@.len() == 1 && is_rule_parsed_at(
                text.spec_bytes(),
                at_sheet_rule_start(text.spec_bytes()),
                sheet.rules@[0],
            ),
    {
        let mut sheet = StyleSheet::new();
        sheet.parse_more(text);
        sheet
    }

    /// Parses a style sheet from a text into the current style sheet.
    ///
    /// The rules parsed from `text` are appended, empty rules are removed
    /// from the whole accumulated set, and the whole set is re-sorted by
    /// specificity — stably, so for every key the rules carrying it keep
    /// their order, the ones already in the sheet before the ones of `text`.
    #[verifier::rlimit(100)]
    pub fn parse_more(&mut self, text: &'a str)
        requires
            old(self).wf(),
            text.spec_bytes().len() < usize::MAX,
        ensures
            final(self).wf(),
            forall|k: u64| #[trigger]
                with_key(old(self).rules@, k).is_prefix_of(with_key(final(self).rules@, k)),
            (old(self).rules@.len() == 0 && plain_sheet_text(text.spec_bytes())) ==> final(self).rules@.len() == 1 && is_plain_sheet_rule(text.spec_bytes(), final(self).rules@[0]),
            (old(self).rules@.len() == 0 && at_sheet_text(text.spec_bytes())) ==> final(self).rules@.len() == 1 && is_rule_parsed_at(
                text.spec_bytes(),
                at_sheet_rule_start(text.spec_bytes()),
                final(self).rules@[0],
            ),
            ws_end(text.spec_bytes(), 0, text.spec_bytes().len() as int)
                == text.spec_bytes().len() ==> final(self).rules@ == old(self).rules@,
    {
        let ghost rules0 = self.rules@;
        let ghost t = text.spec_bytes();
        let ghost e = t.len() as int;
        let ghost ss = rules0.len() == 0 && plain_sheet_text(t);
        let ghost ss0 = ws_end(t, 0, e) == e;
        let ghost sat = rules0.len() == 0 && at_sheet_text(t);
        let ghost q = ws_end(t, 0, e);
        let ghost q0a = ws_end(t, 0, e);
        let ghost sta = at_rule_stop(t, ident_run_end(t, q0a + 1, e), e);
        let ghost qa = at_sheet_rule_start(t);
        let ghost de = plain_decl_end(t, find_byte(t, B_LBRACE, q, e) + 1, e);
        let ghost dea = plain_decl_end(t, find_byte(t, B_LBRACE, qa, e) + 1, e);
        proof {
            lemma_ws_end(t, 0, e);
            if sat {
                lemma_ident_run_end(t, q0a + 1, e);
                lemma_at_rule_stop(t, ident_run_end(t, q0a + 1, e), e);
                lemma_ws_end(t, sta + 1, e);
            }
            if ss || sat {
                let q2 = if sat {
                    qa
                } else {
                    q
                };
                let de2 = if sat {
                    dea
                } else {
                    de
                };
                let bo2 = find_byte(t, B_LBRACE, q2, e);
                crate::stream::lemma_find_byte(t, B_LBRACE, q2, e);
                lemma_ws_end(t, q2, bo2);
                lemma_last_non_space(t.subrange(q2, bo2));
                lemma_ws_end(t, bo2 + 1, e);
                lemma_ident_run_end(t, decl_name_start(t, bo2 + 1, e), e);
                lemma_ws_end(t, decl_name_end(t, bo2 + 1, e), e);
                lemma_ws_end(t, decl_colon(t, bo2 + 1, e) + 1, e);
                crate::stream::lemma_find_byte(t, B_SEMICOLON, decl_value_start(t, bo2 + 1, e), e);
                lemma_semi_run_end(
                    t,
                    find_byte(t, B_SEMICOLON, decl_value_start(t, bo2 + 1, e), e),
                    e,
                );
                lemma_ws_end(t, de2 + 1, e);
            }
        }
        let mut s = Stream::new(text.as_bytes());
        proof {
            if ss || sat {
                let q2 = if sat {
                    qa
                } else {
                    q
                };
                let bo = find_byte(t, B_LBRACE, q2, e);
                let lo = ws_end(t, q2, bo);
                let hi = q2 + last_non_space(t.subrange(q2, bo)) + 1;
                assert(lo == q2);
                if last_non_space(t.subrange(q2, bo)) < lo - q2 {
                    assert(t.subrange(q2, bo)[lo - q2] == t[lo]);
                    assert(false);
                }
                assert(t.subrange(lo, hi)[0] == t[q2]);
                assert(t[q2] != B_SLASH);
            }
            if sat {
                assert(t[q0a] != B_SLASH);
            }
        }
        let r0 = skip_spaces_and_comments(&mut s);
        if r0.is_err() {
            proof {
                assert forall|k: u64| #[trigger]
                    with_key(rules0, k).is_prefix_of(with_key(self.rules@, k)) by {
                    assert(with_key(rules0, k).is_prefix_of(with_key(rules0, k)));
                }
            }
            return ;
        }
        loop
            invariant
                s.wf(),
                rules0.is_prefix_of(self.rules@),
                s.text@ == t,
                s.end as int == e,
                e == t.len(),
                rules0 == old(self).rules@,
                ss == (rules0.len() == 0 && plain_sheet_text(t)),
                sat == (rules0.len() == 0 && at_sheet_text(t)),
                q == ws_end(t, 0, e),
                q0a == ws_end(t, 0, e),
                sta == at_rule_stop(t, ident_run_end(t, q0a + 1, e), e),
                qa == at_sheet_rule_start(t),
                de == plain_decl_end(t, find_byte(t, B_LBRACE, q, e) + 1, e),
                dea == plain_decl_end(t, find_byte(t, B_LBRACE, qa, e) + 1, e),
                ss ==> ((self.rules@.len() == 0 && s.pos as int == q) || (self.rules@.len() == 1
                    && is_plain_sheet_rule(t, self.rules@[0]) && s.pos as int >= de + 1)),
                sat ==> ((self.rules@.len() == 0 && (s.pos as int == q0a || s.pos as int == sta
                    + 1)) || (self.rules@.len() == 1 && is_rule_parsed_at(t, qa, self.rules@[0])
                    && s.pos as int >= dea + 1)),
                ss0 == (ws_end(t, 0, e) == e),
                ss0 ==> s.pos as int == e && self.rules@ == rules0,
            ensures
                rules0.is_prefix_of(self.rules@),
                ss ==> self.rules@.len() == 1 && is_plain_sheet_rule(t, self.rules@[0]),
                sat ==> self.rules@.len() == 1 && is_rule_parsed_at(t, qa, self.rules@[0]),
                ss0 ==> self.rules@ == rules0,
            decreases s.end - s.pos,
        {
            proof {
                if ss || sat {
                    lemma_ws_end(t, 0, e);
                    if sat {
                        lemma_ident_run_end(t, q0a + 1, e);
                        lemma_at_rule_stop(t, ident_run_end(t, q0a + 1, e), e);
                        lemma_ws_end(t, sta + 1, e);
                        assert(t[q0a] != B_SLASH);
                    }
                    let q2 = if sat {
                        qa
                    } else {
                        q
                    };
                    let de2 = if sat {
                        dea
                    } else {
                        de
                    };
                    let bo = find_byte(t, B_LBRACE, q2, e);
                    let bo2 = bo;
                    crate::stream::lemma_find_byte(t, B_LBRACE, q2, e);
                    lemma_ws_end(t, q2, bo);
                    lemma_last_non_space(t.subrange(q2, bo));
                    lemma_ws_end(t, bo2 + 1, e);
                    lemma_ident_run_end(t, decl_name_start(t, bo2 + 1, e), e);
                    lemma_ws_end(t, decl_name_end(t, bo2 + 1, e), e);
                    lemma_ws_end(t, decl_colon(t, bo2 + 1, e) + 1, e);
                    crate::stream::lemma_find_byte(
                        t,
                        B_SEMICOLON,
                        decl_value_start(t, bo2 + 1, e),
                        e,
                    );
                    lemma_semi_run_end(
                        t,
                        find_byte(t, B_SEMICOLON, decl_value_start(t, bo2 + 1, e), e),
                        e,
                    );
                    lemma_ws_end(t, de2 + 1, e);
                    let lo = ws_end(t, q2, bo);
                    let hi = q2 + last_non_space(t.subrange(q2, bo)) + 1;
                    assert(lo == q2);
                    if last_non_space(t.subrange(q2, bo)) < lo - q2 {
                        assert(t.subrange(q2, bo)[lo - q2] == t[lo]);
                        assert(false);
                    }
                    assert(t.subrange(lo, hi)[0] == t[q2]);
                    assert(t[q2] != B_SLASH);
                    if s.pos as int >= de2 + 1 {
                        crate::stream::lemma_ws_end_at(t, s.pos as int, e, e);
                    }
                }
            }
            if s.at_end() {
                break;
            }
            if skip_spaces_and_comments(&mut s).is_err() {
                break;
            }
            if s.at_end() {
                break;
            }
            let ghost before = self.rules@;
            let _ = consume_statement(&mut s, &mut self.rules);
            proof {
                assert(rules0 =~= self.rules@.subrange(0, rules0.len() as int));
            }
        }
        let ghost mid = self.rules@;
        retain_nonempty(&mut self.rules);
        sort_rules(&mut self.rules);
        proof {
            let ap = mid.subrange(rules0.len() as int, mid.len() as int);
            assert(rules0 + ap =~= mid);
            lemma_with_key_prefix(rules0, ap, self.rules@);
            if ss || sat {
                lemma_singleton_sheet(mid, self.rules@);
            }
            if ss0 {
                lemma_filter_all(rules0, nonempty_pred::<'a>());
            }
        }
    }
}

/// The textual form of one declaration: `name:value`, a ` !important`
/// marker when set, and the closing `;`.
pub open spec fn spec_render_decl<'a>(d: Declaration<'a>) -> Seq<u8> {
    d.name@ + seq![B_COLON] + d.value@ + (if d.important {
        seq![B_SPACE, B_EXCLAMATION] + important_seq()
    } else {
        Seq::<u8>::empty()
    }) + seq![B_SEMICOLON]
}

/// The textual form of the declarations from index `j` on, concatenated.
pub open spec fn spec_render_decls_from<'a>(ds: Seq<Declaration<'a>>, j: int) -> Seq<u8>
    decreases ds.len() - j,
{
    if j < 0 || j >= ds.len() {
        Seq::<u8>::empty()
    } else {
        spec_render_decl(ds[j]) + spec_render_decls_from(ds, j + 1)
    }
}

/// The textual form of one rule: `<selector> { <declarations> }`.
pub open spec fn spec_render_rule<'a>(r: Rule<'a>) -> Seq<u8> {
    r.selector.text@ + seq![B_SPACE, B_LBRACE, B_SPACE] + spec_render_decls_from(
        r.declarations@,
        0,
    ) + seq![B_SPACE, B_RBRACE]
}

/// The textual form of the rules from index `i` on, separated by newlines.
pub open spec fn spec_render_from<'a>(rs: Seq<Rule<'a>>, i: int) -> Seq<u8>
    decreases rs.len() - i,
{
    if i < 0 || i >= rs.len() {
        Seq::<u8>::empty()
    } else if i == rs.len() - 1 {
        spec_render_rule(rs[i])
    } else {
        spec_render_rule(rs[i]) + seq![B_NEWLINE] + spec_render_from(rs, i + 1)
    }
}

/// Declaration round-trip: the rendered text of a declaration whose value is
/// made of identifier runs and spaces is itself a plain declaration, and the
/// name and value the shape offsets cut back out of it are exactly the ones
/// rendered. By [`DeclarationTokenizer::next`]'s contract, parsing the
/// rendered text therefore returns the declaration unchanged, importance
/// flag included.
pub proof fn lemma_decl_render_parse_round_trip<'a>(d: Declaration<'a>)
    requires
        is_ident_seq(d.name@),
        d.value@.len() > 0,
        forall|i: int|
            0 <= i < d.value@.len() ==> spec_is_ident(d.value@[i]) || spec_is_space(d.value@[i]),
        !spec_is_space(d.value@[0]),
        !spec_is_space(d.value@[d.value@.len() - 1]),
    ensures
        ({
            let t = spec_render_decl(d);
            let e = t.len() as int;
            let v0 = decl_value_start(t, 0, e);
            &&& (!d.important ==> plain_decl_at(t, 0, e) && !plain_decl_important_at(t, 0, e))
            &&& (d.important ==> plain_decl_important_at(t, 0, e) && !plain_decl_at(t, 0, e))
            &&& t.subrange(decl_name_start(t, 0, e), decl_name_end(t, 0, e)) == d.name@
            &&& (!d.important ==> t.subrange(
                v0,
                decl_trimmed_end(t, v0, find_byte(t, B_SEMICOLON, v0, e)),
            ) == d.value@)
            &&& (d.important ==> t.subrange(
                v0,
                decl_trimmed_end(t, v0, find_byte(t, B_EXCLAMATION, v0, e)),
            ) == d.value@)
        }),
{
    let t = spec_render_decl(d);
    let n = d.name@;
    let v = d.value@;
    let nl = n.len() as int;
    let vl = v.len() as int;
    let e = t.len() as int;
    if !d.important {
        assert(t =~= n + seq![B_COLON] + v + seq![B_SEMICOLON]);
        assert(e == nl + vl + 2);
    } else {
        assert(t =~= n + seq![B_COLON] + v + (seq![B_SPACE, B_EXCLAMATION] + important_seq())
            + seq![B_SEMICOLON]);
        assert(e == nl + vl + 13);
    }
    assert(forall|j: int| 0 <= j < nl ==> t[j] == n[j]);
    assert(t[nl] == B_COLON);
    assert(forall|j: int| 0 <= j < vl ==> t[nl + 1 + j] == v[j]);
    assert(ws_end(t, 0, e) == 0);
    crate::stream::lemma_ident_run_end_at(t, 0, e, nl);
    assert(decl_name_start(t, 0, e) == 0);
    assert(decl_name_end(t, 0, e) == nl);
    assert(ws_end(t, nl, e) == nl);
    assert(decl_colon(t, 0, e) == nl);
    assert(ws_end(t, nl + 1, e) == nl + 1);
    assert(decl_value_start(t, 0, e) == nl + 1);
    assert(t.subrange(0, nl) =~= n);
    lemma_last_non_space(v);
    if last_non_space(v) < vl - 1 {
        assert(spec_is_space(v[vl - 1]));
        assert(false);
    }
    if !d.important {
        let se = nl + 1 + vl;
        assert(t[se] == B_SEMICOLON);
        crate::stream::lemma_find_byte_at(t, B_SEMICOLON, nl + 1, e, se);
        assert(plain_value_region(t, nl + 1, se));
        assert(t.subrange(nl + 1, se) =~= v);
        assert(decl_trimmed_end(t, nl + 1, se) == nl + 1 + vl);
        assert(plain_decl_at(t, 0, e));
        // the exclamation form cannot also hold: no `!` stands in the text
        crate::stream::lemma_find_byte(t, B_EXCLAMATION, nl + 1, e);
        let ex = find_byte(t, B_EXCLAMATION, nl + 1, e);
        if ex < e {
            assert(t[ex] == B_EXCLAMATION);
            assert(false);
        }
        assert(!plain_decl_important_at(t, 0, e));
    } else {
        let ex = nl + 1 + vl + 1;
        assert(t[nl + 1 + vl] == B_SPACE);
        assert(t[ex] == B_EXCLAMATION);
        crate::stream::lemma_find_byte_at(t, B_EXCLAMATION, nl + 1, e, ex);
        assert(plain_value_region(t, nl + 1, ex));
        assert(t.subrange(nl + 1, ex) =~= v + seq![B_SPACE]);
        lemma_last_non_space(v + seq![B_SPACE]);
        assert((v + seq![B_SPACE])[vl] == B_SPACE);
        if last_non_space(v + seq![B_SPACE]) < vl - 1 {
            assert(spec_is_space((v + seq![B_SPACE])[vl - 1]));
            assert(spec_is_space(v[vl - 1]));
            assert(false);
        }
        if last_non_space(v + seq![B_SPACE]) == vl {
            assert(false);
        }
        assert(decl_trimmed_end(t, nl + 1, ex) == nl + 1 + vl);
        let iw = ex + 1;
        assert(ws_end(t, ex + 1, e) == iw) by {
            assert(t[iw] == important_seq()[0]);
        }
        assert(t.subrange(iw, iw + 9) =~= important_seq());
        let sem = iw + 9;
        assert(t[sem] == B_SEMICOLON);
        assert(ws_end(t, iw + 9, e) == sem) by {
            assert(t[sem] == B_SEMICOLON);
        }
        assert(forall|i: int| decl_trimmed_end(t, nl + 1, ex) <= i < ex ==> spec_is_space(t[i]));
        assert(plain_decl_important_at(t, 0, e));
        // the plain form cannot also hold: the `!` stands inside its value
        crate::stream::lemma_find_byte(t, B_SEMICOLON, nl + 1, e);
        let se2 = find_byte(t, B_SEMICOLON, nl + 1, e);
        if plain_decl_at(t, 0, e) {
            assert(se2 < e && plain_value_region(t, nl + 1, se2));
            if se2 > ex {
                assert(spec_is_ident(t[ex]) || spec_is_space(t[ex]));
                assert(false);
            }
            assert(t[se2] == B_SEMICOLON);
            assert(false);
        }
        assert(t.subrange(nl + 1, nl + 1 + vl) =~= v);
    }
}

fn push_bytes(out: &mut Vec<u8>, s: &[u8])
    ensures
        final(out)@ == old(out)@ + s@,
{
    let mut i: usize = 0;
    while i < s.len()
        invariant
            i <= s@.len(),
            out@ == old(out)@ + s@.subrange(0, i as int),
        decreases s@.len() - i,
    {
        out.push(*slice_index_get(s, i));
        proof {
            assert(old(out)@ + s@.subrange(0, i + 1) =~= (old(out)@ + s@.subrange(0, i as int)).push(
                s@[i as int],
            ));
        }
        i = i + 1;
    }
    proof {
        assert(s@.subrange(0, s@.len() as int) =~= s@);
    }
}

fn render_rule_into<'a>(out: &mut Vec<u8>, rule: &Rule<'a>)
    ensures
        final(out)@ == old(out)@ + spec_render_rule(*rule),
{
    push_bytes(out, rule.selector.text);
    out.push(B_SPACE);
    out.push(B_LBRACE);
    out.push(B_SPACE);
    let ghost head = out@;
    proof {
        assert(head =~= old(out)@ + rule.selector.text@ + seq![B_SPACE, B_LBRACE, B_SPACE]);
    }
    let n = rule.declarations.len();
    let mut j: usize = 0;
    while j < n
        invariant
            n == rule.declarations@.len(),
            j <= n,
            out@ + spec_render_decls_from(rule.declarations@, j as int) == head
                + spec_render_decls_from(rule.declarations@, 0),
        decreases n - j,
    {
        let d = *vstd::slice::slice_index_get(rule.declarations.as_slice(), j);
        let ghost before = out@;
        push_bytes(out, d.name);
        out.push(B_COLON);
        push_bytes(out, d.value);
        if d.important {
            out.push(B_SPACE);
            out.push(B_EXCLAMATION);
            let word: [u8; 9] = [B_LOWER_I, B_LOWER_M, B_LOWER_P, B_LOWER_O, B_LOWER_R, B_LOWER_T, B_LOWER_A, B_LOWER_N, B_LOWER_T];
            push_bytes(out, word.as_slice());
        }
        out.push(B_SEMICOLON);
        proof {
            assert(out@ =~= before + spec_render_decl(rule.declarations@[j as int]));
            assert(before + (spec_render_decl(rule.declarations@[j as int])
                + spec_render_decls_from(rule.declarations@, j + 1)) =~= (before + spec_render_decl(
                rule.declarations@[j as int],
            )) + spec_render_decls_from(rule.declarations@, j + 1));
        }
        j = j + 1;
    }
    out.push(B_SPACE);
    out.push(B_RBRACE);
    proof {
        assert(spec_render_decls_from(rule.declarations@, n as int) =~= Seq::<u8>::empty());
        assert(out@ =~= old(out)@ + spec_render_rule(*rule));
    }
}

impl<'a> StyleSheet<'a> {
    /// The sheet's textual form: each rule as
    /// `<selector> { <name>:<value>[ !important];... }`, the rules separated
    /// by newlines, in final (sorted) order.
    pub fn render(&self) -> (out: Vec<u8>)
        ensures
            out@ == spec_render_from(self.rules@, 0),
    {
        let mut out: Vec<u8> = Vec::new();
        let n = self.rules.len();
        let mut i: usize = 0;
        while i < n
            invariant
                n == self.rules@.len(),
                i <= n,
                out@ + spec_render_from(self.rules@, i as int) == spec_render_from(
                    self.rules@,
                    0,
                ),
            decreases n - i,
        {
            let ghost before = out@;
            render_rule_into(&mut out, vstd::slice::slice_index_get(self.rules.as_slice(), i));
            if i + 1 != n {
                out.push(B_NEWLINE);
                proof {
                    assert(out@ =~= before + (spec_render_rule(self.rules@[i as int]) + seq![
                        B_NEWLINE,
                    ]));
                    assert(before + (spec_render_rule(self.rules@[i as int]) + seq![B_NEWLINE]
                        + spec_render_from(self.rules@, i + 1)) =~= out@ + spec_render_from(
                        self.rules@,
                        i + 1,
                    ));
                }
            } else {
                proof {
                    assert(spec_render_from(self.rules@, i + 1) =~= Seq::<u8>::empty());
                    assert(out@ + spec_render_from(self.rules@, i + 1) =~= out@);
                    assert(before + (spec_render_rule(self.rules@[i as int]) + Seq::<u8>::empty())
                        =~= out@);
                }
            }
            i = i + 1;
        }
        proof {
            assert(spec_render_from(self.rules@, n as int) =~= Seq::<u8>::empty());
            assert(out@ + spec_render_from(self.rules@, n as int) =~= out@);
        }
        out
    }
}

} // verus!
