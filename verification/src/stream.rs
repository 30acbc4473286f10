//! Streaming interface for `&[u8]` data with exact row/column position
//! reporting.
//!
//! The stream borrows an immutable byte buffer and keeps a cursor `pos` and a
//! bound `end`; every token payload produced from it is a sub-slice of the
//! same buffer. `0 <= pos <= end <= buffer length` holds throughout.

use vstd::prelude::*;
use vstd::slice::{slice_index_get, slice_subrange};

use crate::error::{Error, ErrorPos};

verus! {

// Byte values of the ASCII characters the grammar dispatches on.
pub const B_SPACE: u8 = 32;
pub const B_TAB: u8 = 9;
pub const B_NEWLINE: u8 = 10;
pub const B_CR: u8 = 13;
pub const B_UPPER_A: u8 = 65;
pub const B_UPPER_Z: u8 = 90;
pub const B_LOWER_A: u8 = 97;
pub const B_LOWER_Z: u8 = 122;
pub const B_ZERO: u8 = 48;
pub const B_NINE: u8 = 57;
pub const B_UNDERSCORE: u8 = 95;
pub const B_LOWER_I: u8 = 105;
pub const B_LOWER_M: u8 = 109;
pub const B_LOWER_N: u8 = 110;
pub const B_LOWER_O: u8 = 111;
pub const B_LOWER_P: u8 = 112;
pub const B_LOWER_R: u8 = 114;
pub const B_LOWER_T: u8 = 116;
pub const B_MINUS: u8 = 45;
pub const B_EXCLAMATION: u8 = 33;
pub const B_DOUBLE_QUOTE: u8 = 34;
pub const B_HASH: u8 = 35;
pub const B_PERCENT: u8 = 37;
pub const B_SINGLE_QUOTE: u8 = 39;
pub const B_LPAREN: u8 = 40;
pub const B_RPAREN: u8 = 41;
pub const B_STAR: u8 = 42;
pub const B_PLUS: u8 = 43;
pub const B_COMMA: u8 = 44;
pub const B_DOT: u8 = 46;
pub const B_SLASH: u8 = 47;
pub const B_COLON: u8 = 58;
pub const B_SEMICOLON: u8 = 59;
pub const B_EQUALS: u8 = 61;
pub const B_GREATER: u8 = 62;
pub const B_AT: u8 = 64;
pub const B_LBRACKET: u8 = 91;
pub const B_BACKSLASH: u8 = 92;
pub const B_RBRACKET: u8 = 93;
pub const B_LBRACE: u8 = 123;
pub const B_RBRACE: u8 = 125;

/// Whether `c` is an ASCII letter.
pub open spec fn spec_is_letter(c: u8) -> bool {
    (B_UPPER_A <= c && c <= B_UPPER_Z) || (B_LOWER_A <= c && c <= B_LOWER_Z)
}

/// Whether `c` is an ASCII digit.
pub open spec fn spec_is_digit(c: u8) -> bool {
    B_ZERO <= c && c <= B_NINE
}

/// Whether `c` is whitespace: space, tab, newline or carriage return.
pub open spec fn spec_is_space(c: u8) -> bool {
    c == B_SPACE || c == B_TAB || c == B_NEWLINE || c == B_CR
}

/// Whether `c` may stand in an identifier: a letter, a digit, `_` or `-`.
pub open spec fn spec_is_ident(c: u8) -> bool {
    spec_is_digit(c) || spec_is_letter(c) || c == B_UNDERSCORE || c == B_MINUS
}

#[verifier::when_used_as_spec(spec_is_letter)]
pub(crate) fn is_letter(c: u8) -> (r: bool)
    ensures
        r == spec_is_letter(c),
{
    (B_UPPER_A <= c && c <= B_UPPER_Z) || (B_LOWER_A <= c && c <= B_LOWER_Z)
}

#[verifier::when_used_as_spec(spec_is_digit)]
pub(crate) fn is_digit(c: u8) -> (r: bool)
    ensures
        r == spec_is_digit(c),
{
    B_ZERO <= c && c <= B_NINE
}

/// Checks that a byte is (white)space.
///
/// Accepted bytes: `' '`, `'\n'`, `'\r'`, `'\t'`.
#[verifier::when_used_as_spec(spec_is_space)]
pub fn is_space(c: u8) -> (r: bool)
    ensures
        r == spec_is_space(c),
{
    c == B_SPACE || c == B_TAB || c == B_NEWLINE || c == B_CR
}

#[verifier::when_used_as_spec(spec_is_ident)]
pub(crate) fn is_ident(c: u8) -> (r: bool)
    ensures
        r == spec_is_ident(c),
{
    is_digit(c) || is_letter(c) || c == B_UNDERSCORE || c == B_MINUS
}

/// The row of offset `pos`: one more than the number of newlines before it.
pub open spec fn spec_row(text: Seq<u8>, pos: int) -> int
    decreases pos,
{
    if pos <= 0 {
        1
    } else {
        spec_row(text, pos - 1) + if text[pos - 1] == B_NEWLINE {
            1int
        } else {
            0int
        }
    }
}

/// The offset of the last newline before `pos`, or -1 when none precedes it.
pub open spec fn last_newline(text: Seq<u8>, pos: int) -> int
    decreases pos,
{
    if pos <= 0 {
        -1
    } else if text[pos - 1] == B_NEWLINE {
        pos - 1
    } else {
        last_newline(text, pos - 1)
    }
}

pub proof fn lemma_last_newline(text: Seq<u8>, pos: int)
    requires
        0 <= pos,
    ensures
        -1 <= last_newline(text, pos) < pos,
        last_newline(text, pos) >= 0 ==> text[last_newline(text, pos)] == B_NEWLINE,
        forall|j: int| last_newline(text, pos) < j < pos ==> text[j] != B_NEWLINE,
    decreases pos,
{
    if pos > 0 && text[pos - 1] != B_NEWLINE {
        lemma_last_newline(text, pos - 1);
    }
}

/// The column of offset `pos`: its distance from the last newline before it,
/// or one more than the offset when no newline precedes it.
pub open spec fn spec_col(text: Seq<u8>, pos: int) -> int {
    pos - last_newline(text, pos)
}

pub proof fn lemma_row_col_bounds(text: Seq<u8>, pos: int)
    requires
        0 <= pos,
    ensures
        1 <= spec_row(text, pos) <= pos + 1,
        1 <= spec_col(text, pos) <= pos + 1,
    decreases pos,
{
    lemma_last_newline(text, pos);
    if pos > 0 {
        lemma_row_col_bounds(text, pos - 1);
    }
}

/// The row and column of offset `pos`, as an `ErrorPos`.
pub open spec fn spec_error_pos(text: Seq<u8>, pos: int) -> ErrorPos {
    ErrorPos { row: spec_row(text, pos) as usize, col: spec_col(text, pos) as usize }
}

/// The first offset at or after `i` (bounded by `end`) holding a non-space
/// byte.
pub open spec fn ws_end(text: Seq<u8>, i: int, end: int) -> int
    decreases end - i,
{
    if i >= end {
        end
    } else if spec_is_space(text[i]) {
        ws_end(text, i + 1, end)
    } else {
        i
    }
}

pub proof fn lemma_ws_end(text: Seq<u8>, i: int, end: int)
    requires
        0 <= i <= end,
    ensures
        i <= ws_end(text, i, end) <= end,
        forall|j: int| i <= j < ws_end(text, i, end) ==> spec_is_space(text[j]),
        ws_end(text, i, end) < end ==> !spec_is_space(text[ws_end(text, i, end)]),
    decreases end - i,
{
    if i < end && spec_is_space(text[i]) {
        lemma_ws_end(text, i + 1, end);
    }
}

/// `ws_end` lands exactly on `k` when everything before `k` is a space and
/// `k` holds none (or is the end).
pub proof fn lemma_ws_end_at(text: Seq<u8>, i: int, end: int, k: int)
    requires
        0 <= i <= k <= end,
        forall|j: int| i <= j < k ==> spec_is_space(text[j]),
        k == end || !spec_is_space(text[k]),
    ensures
        ws_end(text, i, end) == k,
    decreases k - i,
{
    if i < k {
        lemma_ws_end_at(text, i + 1, end, k);
    }
}

/// The first offset at or after `i` (bounded by `end`) holding a byte that
/// cannot stand in an identifier.
pub open spec fn ident_run_end(text: Seq<u8>, i: int, end: int) -> int
    decreases end - i,
{
    if i >= end {
        end
    } else if spec_is_ident(text[i]) {
        ident_run_end(text, i + 1, end)
    } else {
        i
    }
}

pub proof fn lemma_ident_run_end(text: Seq<u8>, i: int, end: int)
    requires
        0 <= i <= end,
    ensures
        i <= ident_run_end(text, i, end) <= end,
        forall|j: int| i <= j < ident_run_end(text, i, end) ==> spec_is_ident(text[j]),
        ident_run_end(text, i, end) < end ==> !spec_is_ident(text[ident_run_end(text, i, end)]),
    decreases end - i,
{
    if i < end && spec_is_ident(text[i]) {
        lemma_ident_run_end(text, i + 1, end);
    }
}

/// `ident_run_end` lands exactly on `k` when everything before `k` is an
/// identifier byte and `k` holds none (or is the end).
pub proof fn lemma_ident_run_end_at(text: Seq<u8>, i: int, end: int, k: int)
    requires
        0 <= i <= k <= end,
        forall|j: int| i <= j < k ==> spec_is_ident(text[j]),
        k == end || !spec_is_ident(text[k]),
    ensures
        ident_run_end(text, i, end) == k,
    decreases k - i,
{
    if i < k {
        lemma_ident_run_end_at(text, i + 1, end, k);
    }
}

/// The first offset at or after `i` (bounded by `end`) holding a non-digit
/// byte.
pub open spec fn digit_run_end(text: Seq<u8>, i: int, end: int) -> int
    decreases end - i,
{
    if i >= end {
        end
    } else if spec_is_digit(text[i]) {
        digit_run_end(text, i + 1, end)
    } else {
        i
    }
}

pub proof fn lemma_digit_run_end(text: Seq<u8>, i: int, end: int)
    requires
        0 <= i <= end,
    ensures
        i <= digit_run_end(text, i, end) <= end,
        forall|j: int| i <= j < digit_run_end(text, i, end) ==> spec_is_digit(text[j]),
        digit_run_end(text, i, end) < end ==> !spec_is_digit(text[digit_run_end(text, i, end)]),
    decreases end - i,
{
    if i < end && spec_is_digit(text[i]) {
        lemma_digit_run_end(text, i + 1, end);
    }
}

/// The first offset at or after `i` (bounded by `end`) holding a `;` or a
/// `}`: where a declaration's raw value runs to.
pub open spec fn decl_value_end(text: Seq<u8>, i: int, end: int) -> int
    decreases end - i,
{
    if i >= end {
        end
    } else if text[i] == B_SEMICOLON || text[i] == B_RBRACE {
        i
    } else {
        decl_value_end(text, i + 1, end)
    }
}

pub proof fn lemma_decl_value_end(text: Seq<u8>, i: int, end: int)
    requires
        0 <= i <= end,
    ensures
        i <= decl_value_end(text, i, end) <= end,
        forall|j: int|
            i <= j < decl_value_end(text, i, end) ==> text[j] != B_SEMICOLON && text[j]
                != B_RBRACE,
        decl_value_end(text, i, end) < end ==> text[decl_value_end(text, i, end)] == B_SEMICOLON
            || text[decl_value_end(text, i, end)] == B_RBRACE,
    decreases end - i,
{
    if i < end && !(text[i] == B_SEMICOLON || text[i] == B_RBRACE) {
        lemma_decl_value_end(text, i + 1, end);
    }
}

/// The first offset at or after `i` (bounded by `end`) holding the byte `c`.
pub open spec fn find_byte(text: Seq<u8>, c: u8, i: int, end: int) -> int
    decreases end - i,
{
    if i >= end {
        end
    } else if text[i] == c {
        i
    } else {
        find_byte(text, c, i + 1, end)
    }
}

pub proof fn lemma_find_byte(text: Seq<u8>, c: u8, i: int, end: int)
    requires
        0 <= i <= end,
    ensures
        i <= find_byte(text, c, i, end) <= end,
        forall|j: int| i <= j < find_byte(text, c, i, end) ==> text[j] != c,
        find_byte(text, c, i, end) < end ==> text[find_byte(text, c, i, end)] == c,
    decreases end - i,
{
    if i < end && text[i] != c {
        lemma_find_byte(text, c, i + 1, end);
    }
}

/// `find_byte` returns the first occurrence: any position `k` holding `c`
/// with nothing but other bytes before it is that occurrence.
pub proof fn lemma_find_byte_at(text: Seq<u8>, c: u8, i: int, end: int, k: int)
    requires
        0 <= i <= k < end,
        text[k] == c,
        forall|j: int| i <= j < k ==> text[j] != c,
    ensures
        find_byte(text, c, i, end) == k,
    decreases k - i,
{
    if i < k {
        lemma_find_byte_at(text, c, i + 1, end, k);
    }
}

/// A non-empty run of identifier bytes.
pub open spec fn is_ident_seq(s: Seq<u8>) -> bool {
    s.len() > 0 && forall|i: int| 0 <= i < s.len() ==> spec_is_ident(s[i])
}

/// The slice of a non-empty identifier run is an identifier sequence.
pub proof fn lemma_ident_slice(t: Seq<u8>, i: int, e: int)
    requires
        0 <= i <= e <= t.len(),
        ident_run_end(t, i, e) > i,
    ensures
        is_ident_seq(t.subrange(i, ident_run_end(t, i, e))),
{
    lemma_ident_run_end(t, i, e);
    let q = ident_run_end(t, i, e);
    assert forall|k: int| 0 <= k < q - i implies spec_is_ident(t.subrange(i, q)[k]) by {
        assert(t.subrange(i, q)[k] == t[i + k]);
    }
}

/// The largest offset in `s` holding a non-space byte, or -1 when every byte
/// is a space.
pub open spec fn last_non_space(s: Seq<u8>) -> int
    decreases s.len(),
{
    if s.len() == 0 {
        -1
    } else if !spec_is_space(s[s.len() - 1]) {
        s.len() - 1
    } else {
        last_non_space(s.drop_last())
    }
}

pub proof fn lemma_last_non_space(s: Seq<u8>)
    ensures
        -1 <= last_non_space(s) < s.len(),
        last_non_space(s) >= 0 ==> !spec_is_space(s[last_non_space(s)]),
        forall|j: int| last_non_space(s) < j < s.len() ==> spec_is_space(s[j]),
    decreases s.len(),
{
    if s.len() > 0 && spec_is_space(s[s.len() - 1]) {
        lemma_last_non_space(s.drop_last());
        assert forall|j: int| last_non_space(s) < j < s.len() implies spec_is_space(s[j]) by {
            if j < s.len() - 1 {
                assert(s.drop_last()[j] == s[j]);
            }
        }
    }
}

/// The first offset at or after `i` (bounded by `e`) where a `*` stands with
/// a `/` right after it: where the comment scan closes.
pub open spec fn comment_close(t: Seq<u8>, i: int, e: int) -> int
    decreases e - i,
{
    if i >= e {
        e
    } else if t[i] == B_STAR && i + 1 < e && t[i + 1] == B_SLASH {
        i
    } else {
        comment_close(t, i + 1, e)
    }
}

pub proof fn lemma_comment_close_bounds(t: Seq<u8>, i: int, e: int)
    requires
        0 <= i <= e,
    ensures
        i <= comment_close(t, i, e) <= e,
        comment_close(t, i, e) < e ==> t[comment_close(t, i, e)] == B_STAR && comment_close(t, i, e)
            + 1 < e && t[comment_close(t, i, e) + 1] == B_SLASH,
    decreases e - i,
{
    if i < e && !(t[i] == B_STAR && i + 1 < e && t[i + 1] == B_SLASH) {
        lemma_comment_close_bounds(t, i + 1, e);
    }
}

/// A range with no `*` at all holds no comment close.
pub proof fn lemma_comment_close_no_star(t: Seq<u8>, i: int, j: int, e: int)
    requires
        0 <= i <= j <= e,
        forall|k: int| i <= k < j ==> t[k] != B_STAR,
    ensures
        comment_close(t, i, e) == comment_close(t, j, e),
    decreases j - i,
{
    if i < j {
        lemma_comment_close_no_star(t, i + 1, j, e);
    }
}

/// A tail with no `*` at all never closes.
pub proof fn lemma_comment_close_none(t: Seq<u8>, i: int, e: int)
    requires
        0 <= i <= e,
        forall|k: int| i <= k < e ==> t[k] != B_STAR,
    ensures
        comment_close(t, i, e) == e,
    decreases e - i,
{
    if i < e {
        lemma_comment_close_none(t, i + 1, e);
    }
}

/// The trimmed end of the value region starting at `v0` and running to
/// `stop`: one past its last non-space byte.
pub open spec fn decl_trimmed_end(t: Seq<u8>, v0: int, stop: int) -> int {
    v0 + last_non_space(t.subrange(v0, stop)) + 1
}

/// Where the scan stands after a declaration's trailing `;` separators: the
/// first offset from `i` on that holds neither a space nor a `;`.
pub open spec fn semi_run_end(t: Seq<u8>, i: int, e: int) -> int
    decreases e - i,
    when 0 <= i <= e
    via semi_run_end_decreases
{
    let w = ws_end(t, i, e);
    if w < e && t[w] == B_SEMICOLON {
        semi_run_end(t, w + 1, e)
    } else {
        w
    }
}

#[via_fn]
proof fn semi_run_end_decreases(t: Seq<u8>, i: int, e: int) {
    lemma_ws_end(t, i, e);
}

pub proof fn lemma_semi_run_end(t: Seq<u8>, i: int, e: int)
    requires
        0 <= i <= e,
    ensures
        i <= semi_run_end(t, i, e) <= e,
        semi_run_end(t, i, e) < e ==> !spec_is_space(t[semi_run_end(t, i, e)])
            && t[semi_run_end(t, i, e)] != B_SEMICOLON,
    decreases e - i,
{
    lemma_ws_end(t, i, e);
    let w = ws_end(t, i, e);
    if w < e && t[w] == B_SEMICOLON {
        lemma_semi_run_end(t, w + 1, e);
    }
}

/// Streaming interface for `&[u8]` data.
#[derive(PartialEq, Clone, Copy)]
pub struct Stream<'a> {
    pub text: &'a [u8],
    pub pos: usize,
    pub end: usize,
}

impl<'a> Stream<'a> {
    /// The stream's invariant: the cursor never passes `end`, which never
    /// passes the buffer's length. The strict length bound is a machine
    /// limit; it keeps position arithmetic free of overflow.
    pub open spec fn wf(self) -> bool {
        self.pos <= self.end && self.end as int <= self.text@.len() && self.text@.len()
            < usize::MAX
    }

    /// The error position at the current cursor.
    pub open spec fn spec_err_pos(self) -> ErrorPos {
        spec_error_pos(self.text@, self.pos as int)
    }

    /// The end-of-stream error at the current cursor.
    pub open spec fn spec_eos_error(self) -> Error {
        Error::UnexpectedEndOfStream(self.spec_err_pos())
    }

    /// Constructs a new `Stream` over the whole of `text`.
    pub fn new(text: &'a [u8]) -> (s: Stream<'a>)
        requires
            text@.len() < usize::MAX,
        ensures
            s.text == text,
            s.pos == 0,
            s.end == text@.len(),
            s.wf(),
    {
        Stream { text, pos: 0, end: text.len() }
    }

    /// Constructs a new `Stream` over `text[start..end]`.
    ///
    /// Useful when CSS data lies inside other data, like HTML: reported
    /// positions stay absolute against the full buffer.
    pub fn new_bound(text: &'a [u8], start: usize, end: usize) -> (s: Stream<'a>)
        requires
            start < end,
            end <= text@.len(),
            text@.len() < usize::MAX,
        ensures
            s.text == text,
            s.pos == start,
            s.end == end,
            s.wf(),
    {
        Stream { text, pos: start, end }
    }

    /// Returns the current position.
    pub fn pos(&self) -> (r: usize)
        ensures
            r == self.pos,
    {
        self.pos
    }

    /// Whether the cursor is at the end of the stream.
    pub open spec fn spec_at_end(&self) -> bool {
        self.pos >= self.end
    }

    /// Returns `true` if we are at the end of the stream.
    #[verifier::when_used_as_spec(spec_at_end)]
    pub fn at_end(&self) -> (r: bool)
        ensures
            r == self.spec_at_end(),
    {
        self.pos >= self.end
    }

    /// Returns the byte at the current stream position.
    ///
    /// # Errors
    ///
    /// Returns `Error::UnexpectedEndOfStream` at the end of the stream.
    pub fn curr_char(&self) -> (r: Result<u8, Error>)
        requires
            self.wf(),
        ensures
            match r {
                Ok(c) => self.pos < self.end && c == self.text@[self.pos as int],
                Err(e) => self.pos >= self.end && e == self.spec_eos_error(),
            },
    {
        if self.at_end() {
            return Err(self.gen_end_of_stream_error());
        }
        Ok(*slice_index_get(self.text, self.pos))
    }

    /// Unchecked version of [`Stream::curr_char`]: the caller proves that the
    /// stream has not ended.
    pub fn curr_char_raw(&self) -> (c: u8)
        requires
            self.wf(),
            self.pos < self.end,
        ensures
            c == self.text@[self.pos as int],
    {
        *slice_index_get(self.text, self.pos)
    }

    /// Compares the byte at the current stream position with `c`.
    ///
    /// # Errors
    ///
    /// Returns `Error::UnexpectedEndOfStream` at the end of the stream.
    pub fn is_char_eq(&self, c: u8) -> (r: Result<bool, Error>)
        requires
            self.wf(),
        ensures
            match r {
                Ok(b) => self.pos < self.end && b == (self.text@[self.pos as int] == c),
                Err(e) => self.pos >= self.end && e == self.spec_eos_error(),
            },
    {
        if self.at_end() {
            return Err(self.gen_end_of_stream_error());
        }
        Ok(self.curr_char_raw() == c)
    }

    /// Advances by `n` bytes.
    ///
    /// # Errors
    ///
    /// Returns `Error::InvalidAdvance` if the new position would lie beyond
    /// the stream's end; the stream is then unchanged.
    pub fn advance(&mut self, n: usize) -> (r: Result<(), Error>)
        requires
            old(self).wf(),
        ensures
            final(self).text == old(self).text,
            final(self).end == old(self).end,
            final(self).wf(),
            match r {
                Ok(()) => n <= old(self).end - old(self).pos && final(self).pos == old(
                    self,
                ).pos + n,
                Err(e) => {
                    &&& n > old(self).end - old(self).pos
                    &&& final(self).pos == old(self).pos
                    &&& e == (Error::InvalidAdvance {
                        expected: spec_adv_expected(old(self).pos as int, n as int),
                        total: old(self).end,
                        pos: old(self).spec_err_pos(),
                    })
                },
            },
    {
        self.adv_bound_check(n)?;
        self.pos = self.pos + n;
        Ok(())
    }

    /// Unchecked version of [`Stream::advance`]: the caller proves that the
    /// new position stays within bounds.
    pub fn advance_raw(&mut self, n: usize)
        requires
            old(self).wf(),
            old(self).pos + n <= old(self).end,
        ensures
            final(self).text == old(self).text,
            final(self).end == old(self).end,
            final(self).pos == old(self).pos + n,
            final(self).wf(),
    {
        self.pos = self.pos + n;
    }

    /// Checks that the byte at the current position is (white)space.
    pub fn is_space_raw(&self) -> (r: bool)
        requires
            self.wf(),
            self.pos < self.end,
        ensures
            r == spec_is_space(self.text@[self.pos as int]),
    {
        is_space(self.curr_char_raw())
    }

    /// Checks that the byte at the current position may stand in an
    /// identifier.
    pub fn is_ident_raw(&self) -> (r: bool)
        requires
            self.wf(),
            self.pos < self.end,
        ensures
            r == spec_is_ident(self.text@[self.pos as int]),
    {
        let c = self.curr_char_raw();
        is_digit(c) || is_letter(c) || c == B_UNDERSCORE || c == B_MINUS
    }

    /// Skips (white)spaces: afterwards the cursor stands on the first
    /// non-space byte, or at the end.
    pub fn skip_spaces(&mut self)
        requires
            old(self).wf(),
        ensures
            final(self).text == old(self).text,
            final(self).end == old(self).end,
            final(self).wf(),
            old(self).pos <= final(self).pos,
            final(self).pos == ws_end(old(self).text@, old(self).pos as int, old(self).end as int),
    {
        let ghost s0 = *self;
        while !self.at_end() && self.is_space_raw()
            invariant
                self.wf(),
                self.text == s0.text,
                self.end == s0.end,
                s0.pos <= self.pos,
                ws_end(s0.text@, s0.pos as int, s0.end as int) == ws_end(
                    self.text@,
                    self.pos as int,
                    self.end as int,
                ),
            decreases self.end - self.pos,
        {
            self.advance_raw(1);
        }
    }

    /// Calculates the distance to the first occurrence of `c`, not consuming
    /// anything.
    ///
    /// # Errors
    ///
    /// Returns `Error::UnexpectedEndOfStream` if `c` does not occur before
    /// the stream's end.
    pub fn length_to(&self, c: u8) -> (r: Result<usize, Error>)
        requires
            self.wf(),
        ensures
            match r {
                Ok(n) => {
                    &&& self.pos + n < self.end
                    &&& self.text@[self.pos + n] == c
                    &&& forall|i: int| self.pos <= i < self.pos + n ==> self.text@[i] != c
                },
                Err(e) => {
                    &&& forall|i: int| self.pos <= i < self.end ==> self.text@[i] != c
                    &&& e == self.spec_eos_error()
                },
            },
    {
        let mut n: usize = 0;
        while self.pos + n != self.end
            invariant
                self.wf(),
                self.pos + n <= self.end,
                forall|i: int| self.pos <= i < self.pos + n ==> self.text@[i] != c,
            decreases self.end - self.pos - n,
        {
            if *slice_index_get(self.text, self.pos + n) == c {
                return Ok(n);
            }
            n = n + 1;
        }
        Err(self.gen_end_of_stream_error())
    }

    /// Calculates the distance to the first occurrence of any byte of
    /// `search_chars`, not consuming anything.
    ///
    /// # Errors
    ///
    /// Returns `Error::UnexpectedEndOfStream` if none occurs before the
    /// stream's end.
    pub fn length_to_either(&self, search_chars: &[u8]) -> (r: Result<usize, Error>)
        requires
            self.wf(),
        ensures
            match r {
                Ok(n) => {
                    &&& self.pos + n < self.end
                    &&& search_chars@.contains(self.text@[self.pos + n])
                    &&& forall|i: int|
                        self.pos <= i < self.pos + n ==> !search_chars@.contains(self.text@[i])
                },
                Err(e) => {
                    &&& forall|i: int|
                        self.pos <= i < self.end ==> !search_chars@.contains(self.text@[i])
                    &&& e == self.spec_eos_error()
                },
            },
    {
        let mut n: usize = 0;
        while self.pos + n != self.end
            invariant
                self.wf(),
                self.pos + n <= self.end,
                forall|i: int|
                    self.pos <= i < self.pos + n ==> !search_chars@.contains(self.text@[i]),
            decreases self.end - self.pos - n,
        {
            if contains_byte(search_chars, *slice_index_get(self.text, self.pos + n)) {
                return Ok(n);
            }
            n = n + 1;
        }
        Err(self.gen_end_of_stream_error())
    }

    /// Returns the next `len` bytes as a borrowed slice and advances past
    /// them.
    pub fn read_raw_str(&mut self, len: usize) -> (r: &'a [u8])
        requires
            old(self).wf(),
            old(self).pos + len <= old(self).end,
        ensures
            final(self).text == old(self).text,
            final(self).end == old(self).end,
            final(self).pos == old(self).pos + len,
            final(self).wf(),
            r@ == old(self).text@.subrange(old(self).pos as int, old(self).pos + len),
    {
        let s = slice_subrange(self.text, self.pos, self.pos + len);
        self.advance_raw(len);
        s
    }

    /// Returns the bytes of the buffer within the selected region.
    pub fn slice_region_raw_str(&self, start: usize, end: usize) -> (r: &'a [u8])
        requires
            start <= end,
            end <= self.text@.len(),
        ensures
            r@ == self.text@.subrange(start as int, end as int),
    {
        slice_subrange(self.text, start, end)
    }

    /// Returns the bytes between the cursor and the stream's end.
    pub fn slice_tail(&self) -> (r: &'a [u8])
        requires
            self.wf(),
        ensures
            r@ == self.text@.subrange(self.pos as int, self.end as int),
    {
        slice_subrange(self.text, self.pos, self.end)
    }

    /// Moves the cursor to the stream's end.
    pub fn jump_to_end(&mut self)
        requires
            old(self).wf(),
        ensures
            final(self).text == old(self).text,
            final(self).end == old(self).end,
            final(self).pos == old(self).end,
            final(self).wf(),
    {
        self.pos = self.end;
    }

    fn calc_current_row(&self) -> (r: usize)
        requires
            self.wf(),
        ensures
            r == spec_row(self.text@, self.pos as int),
    {
        let mut row: usize = 1;
        let mut i: usize = 0;
        while i < self.pos
            invariant
                self.wf(),
                i <= self.pos,
                row == spec_row(self.text@, i as int),
                row <= i + 1,
            decreases self.pos - i,
        {
            if *slice_index_get(self.text, i) == B_NEWLINE {
                row = row + 1;
            }
            i = i + 1;
        }
        row
    }

    fn calc_current_col(&self) -> (r: usize)
        requires
            self.wf(),
        ensures
            r == spec_col(self.text@, self.pos as int),
    {
        let mut col: usize = self.pos + 1;
        let mut n: usize = 0;
        while n < self.pos
            invariant
                self.wf(),
                n <= self.pos,
                col as int == self.pos - last_newline(self.text@, n as int),
            decreases self.pos - n,
        {
            if *slice_index_get(self.text, n) == B_NEWLINE {
                col = self.pos - n;
            }
            n = n + 1;
        }
        col
    }

    /// Calculates the current absolute position as row and column.
    pub fn gen_error_pos(&self) -> (r: ErrorPos)
        requires
            self.wf(),
        ensures
            r == self.spec_err_pos(),
    {
        let row = self.calc_current_row();
        let col = self.calc_current_col();
        ErrorPos::new(row, col)
    }

    /// Generates a new `UnexpectedEndOfStream` error from the current
    /// position.
    pub fn gen_end_of_stream_error(&self) -> (r: Error)
        requires
            self.wf(),
        ensures
            r == self.spec_eos_error(),
    {
        Error::UnexpectedEndOfStream(self.gen_error_pos())
    }

    fn adv_bound_check(&self, n: usize) -> (r: Result<(), Error>)
        requires
            self.wf(),
        ensures
            match r {
                Ok(()) => n <= self.end - self.pos,
                Err(e) => n > self.end - self.pos && e == (Error::InvalidAdvance {
                    expected: spec_adv_expected(self.pos as int, n as int),
                    total: self.end,
                    pos: self.spec_err_pos(),
                }),
            },
    {
        if n > self.end - self.pos {
            let expected: usize = if n <= usize::MAX - self.pos {
                self.pos + n
            } else {
                usize::MAX
            };
            return Err(
                Error::InvalidAdvance { expected, total: self.end, pos: self.gen_error_pos() },
            );
        }
        Ok(())
    }
}

/// The advance target `pos + n`, saturated at the largest offset.
pub open spec fn spec_adv_expected(pos: int, n: int) -> usize {
    if pos + n <= usize::MAX {
        (pos + n) as usize
    } else {
        usize::MAX
    }
}

fn contains_byte(set: &[u8], c: u8) -> (r: bool)
    ensures
        r == set@.contains(c),
{
    let mut i: usize = 0;
    while i < set.len()
        invariant
            i <= set@.len(),
            forall|j: int| 0 <= j < i ==> set@[j] != c,
        decreases set@.len() - i,
    {
        if *slice_index_get(set, i) == c {
            return true;
        }
        i = i + 1;
    }
    false
}

} // verus!
