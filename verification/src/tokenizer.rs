//! The CSS tokenizer: a finite-state lexer producing one token per call,
//! switching between a rule context (selectors, combinators, at-rule
//! preludes) and a declaration context (`name: value` pairs inside `{ }`),
//! with comment handling and exact error positions.

use vstd::prelude::*;

use crate::error::{Error, ErrorPos};
use crate::stream::{
    comment_close, decl_trimmed_end, decl_value_end, find_byte, ident_run_end, is_ident_seq,
    last_non_space, lemma_comment_close_bounds, lemma_comment_close_no_star,
    lemma_comment_close_none, lemma_decl_value_end, lemma_find_byte, lemma_find_byte_at,
    lemma_ident_run_end, lemma_ident_slice, lemma_last_non_space, lemma_semi_run_end,
    lemma_ws_end, semi_run_end, spec_error_pos, spec_is_ident, spec_is_space, ws_end, Stream,
    B_AT, B_COLON, B_COMMA, B_DOT, B_GREATER, B_HASH, B_LBRACE, B_LBRACKET, B_LPAREN, B_PLUS,
    B_RBRACE, B_RBRACKET, B_RPAREN, B_SEMICOLON, B_SLASH, B_STAR,
};
use vstd::string::StringSliceAdditionalSpecFns;

verus! {

/// CSS combinator.
#[derive(Clone, Copy, PartialEq, Eq, Debug)]
pub enum Combinator {
    /// Descendant selector
    Space,
    /// Child selector
    GreaterThan,
    /// Adjacent sibling selector
    Plus,
}

/// CSS token. All payloads are zero-copy views into the original buffer.
#[derive(Clone, Copy, PartialEq, Eq, Debug)]
pub enum Token<'a> {
    /// Universal selector, `*`.
    UniversalSelector,
    /// Type selector: a bare element name.
    TypeSelector(&'a [u8]),
    /// ID selector. The payload holds the ident without `#`.
    IdSelector(&'a [u8]),
    /// Class selector. The payload holds the ident without `.`.
    ClassSelector(&'a [u8]),
    /// Attribute selector: everything between `[` and `]`, unparsed.
    AttributeSelector(&'a [u8]),
    /// Pseudo-class: the ident without `:`, with the optional parenthesized
    /// argument captured verbatim.
    PseudoClass { selector: &'a [u8], value: Option<&'a [u8]> },
    /// A combinator between selector components.
    Combinator(Combinator),
    /// Rules separator, `,`.
    Comma,
    /// Block start, `{`.
    BlockStart,
    /// Block end, `}`.
    BlockEnd,
    /// Declaration: property name and property value.
    Declaration(&'a [u8], &'a [u8]),
    /// At-rule keyword (excluding the `@` sign itself).
    AtRule(&'a [u8]),
    /// A bare ident inside a block that is followed by `{`; callers use it to
    /// detect malformed nesting.
    DeclarationStr(&'a [u8]),
    /// A raw ident following an at-rule keyword.
    AtStr(&'a [u8]),
    /// Same as `PseudoClass`, but written with two colons.
    DoublePseudoClass { selector: &'a [u8], value: Option<&'a [u8]> },
    /// End of stream: parsing is finished.
    EndOfStream,
}

/// The tokenizer's context.
#[derive(Clone, Copy, PartialEq, Eq, Debug)]
pub enum State {
    /// Scanning selectors and at-rule preludes.
    Rule,
    /// Scanning declarations inside a block.
    Declaration,
}

/// What every successfully produced token guarantees about its payload.
pub open spec fn tok_wf<'a>(tok: Token<'a>) -> bool {
    match tok {
        Token::TypeSelector(s) => is_ident_seq(s@),
        Token::IdSelector(s) => is_ident_seq(s@),
        Token::ClassSelector(s) => is_ident_seq(s@),
        Token::AtRule(s) => is_ident_seq(s@),
        Token::AtStr(s) => is_ident_seq(s@),
        Token::DeclarationStr(s) => is_ident_seq(s@),
        Token::PseudoClass { selector, value } => is_ident_seq(selector@),
        Token::DoublePseudoClass { selector, value } => is_ident_seq(selector@),
        Token::Declaration(name, value) => is_ident_seq(name@) && value@.len() > 0 && (
        spec_is_space(value@[value@.len() - 1]) ==> forall|i: int|
            0 <= i < value@.len() ==> spec_is_space(value@[i])),
        _ => true,
    }
}

/// A byte after selector whitespace that swallows the space instead of
/// turning it into a descendant combinator.
pub open spec fn spec_structural_after_space(c: u8) -> bool {
    c == B_LBRACE || c == B_SLASH || c == B_GREATER || c == B_PLUS || c == B_STAR
}

/// A byte that opens one of the rule context's non-identifier dispatch
/// branches.
pub open spec fn rule_special(c: u8) -> bool {
    c == B_AT || c == B_HASH || c == B_DOT || c == B_STAR || c == B_COLON || c == B_LBRACKET || c
        == B_COMMA || c == B_LBRACE || c == B_GREATER || c == B_PLUS
}

/// The position from which the rule-context scan dispatches its next token
/// or error, passing over closed comments and insignificant whitespace; `e`
/// when the scan runs out of input first.
pub open spec fn rule_scan(t: Seq<u8>, p: int, e: int, after: bool) -> int
    decreases e - p,
    when 0 <= p <= e
    via rule_scan_decreases
{
    if p >= e {
        e
    } else if t[p] == B_SLASH && p + 1 < e && t[p + 1] == B_STAR {
        let cc = comment_close(t, p + 2, e);
        if cc < e {
            rule_scan(t, cc + 2, e, after)
        } else if p + 2 == e {
            e
        } else {
            p
        }
    } else if spec_is_space(t[p]) {
        let w = ws_end(t, p, e);
        if !after || (w < e && spec_structural_after_space(t[w])) {
            rule_scan(t, w, e, after)
        } else {
            p
        }
    } else {
        p
    }
}

#[via_fn]
proof fn rule_scan_decreases(t: Seq<u8>, p: int, e: int, after: bool) {
    if 0 <= p && p < e {
        if t[p] == B_SLASH && p + 1 < e && t[p + 1] == B_STAR {
            lemma_comment_close_bounds(t, p + 2, e);
        }
        lemma_ws_end(t, p, e);
    }
}

/// The loop position from which the declaration-context scan runs its next
/// dispatch, passing over closed comments; `e` when the scan runs out of
/// input first.
pub open spec fn decl_scan(t: Seq<u8>, p: int, e: int) -> int
    decreases e - p,
    when 0 <= p <= e
    via decl_scan_decreases
{
    if p >= e {
        e
    } else {
        let w = ws_end(t, p, e);
        if w + 1 < e && t[w] == B_SLASH && t[w + 1] == B_STAR {
            let cc = comment_close(t, w + 2, e);
            if cc < e {
                decl_scan(t, cc + 2, e)
            } else if w + 2 == e {
                e
            } else {
                p
            }
        } else {
            p
        }
    }
}

#[via_fn]
proof fn decl_scan_decreases(t: Seq<u8>, p: int, e: int) {
    if 0 <= p && p < e {
        lemma_ws_end(t, p, e);
        let w = ws_end(t, p, e);
        if w + 1 < e && t[w] == B_SLASH && t[w + 1] == B_STAR {
            lemma_comment_close_bounds(t, w + 2, e);
        }
    }
}

/// CSS tokenizer.
pub struct Tokenizer<'a> {
    pub stream: Stream<'a>,
    pub state: State,
    pub after_selector: bool,
    pub has_at_rule: bool,
    pub at_start: bool,
}

/// The two tokenizers see the same buffer region.
pub open spec fn same_buf<'a>(pre: Tokenizer<'a>, post: Tokenizer<'a>) -> bool {
    post.stream.text == pre.stream.text && post.stream.end == pre.stream.end
}

impl<'a> Tokenizer<'a> {
    pub open spec fn wf(&self) -> bool {
        self.stream.wf()
    }

    /// Constructs a new `Tokenizer` over the bytes of `text`.
    pub fn new(text: &'a str) -> (tk: Tokenizer<'a>)
        requires
            text.spec_bytes().len() < usize::MAX,
        ensures
            tk.stream.text@ == text.spec_bytes(),
            tk.stream.pos == 0,
            tk.stream.end == text.spec_bytes().len(),
            tk.state == State::Rule,
            !tk.after_selector,
            !tk.has_at_rule,
            tk.at_start,
            tk.wf(),
    {
        Tokenizer {
            stream: Stream::new(text.as_bytes()),
            state: State::Rule,
            after_selector: false,
            has_at_rule: false,
            at_start: true,
        }
    }

    /// Constructs a new bounded `Tokenizer` over `text[start..end]`.
    ///
    /// Useful when the CSS data lies inside other data, like HTML: error
    /// positions stay absolute against the full buffer.
    pub fn new_bound(text: &'a str, start: usize, end: usize) -> (tk: Tokenizer<'a>)
        requires
            start < end,
            end <= text.spec_bytes().len(),
            text.spec_bytes().len() < usize::MAX,
        ensures
            tk.stream.text@ == text.spec_bytes(),
            tk.stream.pos == start,
            tk.stream.end == end,
            tk.state == State::Rule,
            !tk.after_selector,
            !tk.has_at_rule,
            tk.at_start,
            tk.wf(),
    {
        Tokenizer {
            stream: Stream::new_bound(text.as_bytes(), start, end),
            state: State::Rule,
            after_selector: false,
            has_at_rule: false,
            at_start: true,
        }
    }

    /// Returns the current position in the text.
    pub fn pos(&self) -> (r: usize)
        ensures
            r == self.stream.pos,
    {
        self.stream.pos()
    }

    /// Consumes the identifier run at the cursor: a maximal run of letters,
    /// digits, `_` and `-`. Fails with `UnknownToken` if it is empty.
    fn consume_ident(&mut self) -> (r: Result<&'a [u8], Error>)
        requires
            old(self).wf(),
        ensures
            final(self).wf(),
            same_buf(*old(self), *final(self)),
            final(self).state == old(self).state,
            final(self).after_selector == old(self).after_selector,
            final(self).has_at_rule == old(self).has_at_rule,
            final(self).at_start == old(self).at_start,
            ({
                let t = old(self).stream.text@;
                let p = old(self).stream.pos as int;
                let e = old(self).stream.end as int;
                let q = ident_run_end(t, p, e);
                match r {
                    Ok(s) => q > p && final(self).stream.pos == q && s@ == t.subrange(p, q)
                        && is_ident_seq(s@),
                    Err(er) => q == p && final(self).stream.pos == p && er == Error::UnknownToken(
                        spec_error_pos(t, p),
                    ),
                }
            }),
    {
        let start = self.stream.pos();
        let ghost s0 = self.stream;
        while !self.stream.at_end() && self.stream.is_ident_raw()
            invariant
                self.stream.wf(),
                s0 == old(self).stream,
                self.stream.text == s0.text,
                self.stream.end == s0.end,
                self.state == old(self).state,
                self.after_selector == old(self).after_selector,
                self.has_at_rule == old(self).has_at_rule,
                self.at_start == old(self).at_start,
                s0.pos <= self.stream.pos,
                ident_run_end(s0.text@, s0.pos as int, s0.end as int) == ident_run_end(
                    self.stream.text@,
                    self.stream.pos as int,
                    self.stream.end as int,
                ),
            decreases self.stream.end - self.stream.pos,
        {
            self.stream.advance_raw(1);
        }
        proof {
            lemma_ident_run_end(s0.text@, s0.pos as int, s0.end as int);
        }
        if start == self.stream.pos() {
            return Err(Error::UnknownToken(self.stream.gen_error_pos()));
        }
        proof {
            lemma_ident_slice(s0.text@, s0.pos as int, s0.end as int);
        }
        let s = self.stream.slice_region_raw_str(start, self.stream.pos());
        Ok(s)
    }

    /// Parses the next token.
    ///
    /// In the rule context the scan dispatches on the byte at the cursor as
    /// the selector grammar asks; in the declaration context it produces
    /// `name: value` declarations until the block closes. Comments and
    /// insignificant whitespace are passed over: the byte the scan dispatches
    /// on is the one `rule_scan` or `decl_scan` names. At the end of the
    /// input the token is `EndOfStream`.
    #[verifier::rlimit(100)]
    pub fn parse_next(&mut self) -> (r: Result<Token<'a>, Error>)
        requires
            old(self).wf(),
        ensures
            final(self).wf(),
            same_buf(*old(self), *final(self)),
            !final(self).at_start,
            old(self).stream.pos <= final(self).stream.pos,
            (r matches Ok(tok) ==> ((tok matches Token::EndOfStream) || (tok_wf(tok) && final(self).stream.pos > old(self).stream.pos))),
            (r matches Ok(tok) ==> ((tok matches Token::EndOfStream) ==> final(self).stream.pos
                == final(self).stream.end)),
            (r matches Ok(tok) ==> ((tok matches Token::BlockStart) ==> final(self).state
                == State::Declaration)),
            (r matches Ok(tok) ==> ((tok matches Token::BlockEnd) ==> final(self).state
                == State::Rule)),
            ({
                let t = old(self).stream.text@;
                let p = old(self).stream.pos as int;
                let e = old(self).stream.end as int;
                let p1 = if old(self).at_start {
                    ws_end(t, p, e)
                } else {
                    p as int
                };
                old(self).state == State::Rule ==> ({
                    let q = rule_scan(t, p1, e, old(self).after_selector);
                    &&& (q == e ==> (r matches Ok(tok) && tok == Token::EndOfStream))
                    &&& (q < e ==> {
                        &&& (t[q] == B_AT ==> ({
                            let q2 = ident_run_end(t, q + 1, e);
                            if q2 > q + 1 {
                                r matches Ok(tok) && (tok matches Token::AtRule(s) && s@
                                    == t.subrange(q + 1, q2)) && final(self).stream.pos == q2
                                    && final(self).has_at_rule
                            } else {
                                r matches Err(er) && er == Error::UnknownToken(
                                    spec_error_pos(t, q + 1),
                                )
                            }
                        }))
                        &&& (t[q] == B_HASH ==> ({
                            let q2 = ident_run_end(t, q + 1, e);
                            if q2 > q + 1 {
                                r matches Ok(tok) && (tok matches Token::IdSelector(s) && s@
                                    == t.subrange(q + 1, q2)) && final(self).stream.pos == q2
                            } else {
                                r matches Err(er) && er == Error::UnknownToken(
                                    spec_error_pos(t, q + 1),
                                )
                            }
                        }))
                        &&& (t[q] == B_DOT ==> ({
                            let q2 = ident_run_end(t, q + 1, e);
                            if q2 > q + 1 {
                                r matches Ok(tok) && (tok matches Token::ClassSelector(s) && s@
                                    == t.subrange(q + 1, q2)) && final(self).stream.pos == q2
                            } else {
                                r matches Err(er) && er == Error::UnknownToken(
                                    spec_error_pos(t, q + 1),
                                )
                            }
                        }))
                        &&& (t[q] == B_STAR ==> (r matches Ok(tok) && tok
                            == Token::UniversalSelector && final(self).stream.pos == ws_end(
                            t,
                            q + 1,
                            e,
                        )))
                        &&& (t[q] == B_COMMA ==> (r matches Ok(tok) && tok == Token::Comma
                            && final(self).stream.pos == ws_end(t, q + 1, e)))
                        &&& (t[q] == B_LBRACE ==> (r matches Ok(tok) && tok == Token::BlockStart
                            && final(self).stream.pos == q + 1 && final(self).state
                            == State::Declaration))
                        &&& (t[q] == B_GREATER ==> (if old(self).after_selector {
                            r matches Ok(tok) && tok == Token::Combinator(Combinator::GreaterThan)
                                && final(self).stream.pos == ws_end(t, q + 1, e)
                        } else {
                            r matches Err(er) && er == Error::UnknownToken(spec_error_pos(t, q))
                        }))
                        &&& (t[q] == B_PLUS ==> (if old(self).after_selector {
                            r matches Ok(tok) && tok == Token::Combinator(Combinator::Plus)
                                && final(self).stream.pos == ws_end(t, q + 1, e)
                        } else {
                            r matches Err(er) && er == Error::UnknownToken(spec_error_pos(t, q))
                        }))
                        &&& (t[q] == B_COLON ==> (if q + 1 >= e {
                            r matches Err(er) && er == Error::UnexpectedEndOfStream(
                                spec_error_pos(t, q + 1),
                            )
                        } else {
                            let dc = t[q + 1] == B_COLON;
                            let q0 = if dc {
                                q + 2
                            } else {
                                q + 1
                            };
                            let q2 = ident_run_end(t, q0, e);
                            if q2 == q0 {
                                r matches Err(er) && er == Error::UnknownToken(
                                    spec_error_pos(t, q0),
                                )
                            } else if q2 < e && t[q2] == B_LPAREN {
                                let rp = find_byte(t, B_RPAREN, q2 + 1, e);
                                if rp < e {
                                    (if dc {
                                        r matches Ok(tok) && (
                                        tok matches Token::DoublePseudoClass { selector, value }
                                            && selector@ == t.subrange(q0, q2) && (
                                        value matches Some(v) && v@ == t.subrange(q2 + 1, rp)))
                                    } else {
                                        r matches Ok(tok) && (tok matches Token::PseudoClass {
                                            selector,
                                            value,
                                        } && selector@ == t.subrange(q0, q2) && (
                                        value matches Some(v) && v@ == t.subrange(q2 + 1, rp)))
                                    }) && final(self).stream.pos == rp + 1
                                } else {
                                    r matches Err(er) && (
                                    er matches Error::UnexpectedEndOfStream(_))
                                }
                            } else {
                                (if dc {
                                    r matches Ok(tok) && (tok matches Token::DoublePseudoClass {
                                        selector,
                                        value,
                                    } && selector@ == t.subrange(q0, q2) && value matches None)
                                } else {
                                    r matches Ok(tok) && (tok matches Token::PseudoClass {
                                        selector,
                                        value,
                                    } && selector@ == t.subrange(q0, q2) && value matches None)
                                }) && final(self).stream.pos == q2
                            }
                        }))
                        &&& (t[q] == B_LBRACKET ==> ({
                            let rb = find_byte(t, B_RBRACKET, q + 1, e);
                            if rb < e {
                                r matches Ok(tok) && (tok matches Token::AttributeSelector(s) && s@
                                    == t.subrange(q + 1, rb)) && final(self).stream.pos == ws_end(
                                    t,
                                    rb + 1,
                                    e,
                                )
                            } else {
                                r matches Err(er) && (er matches Error::UnexpectedEndOfStream(_))
                            }
                        }))
                        &&& (spec_is_ident(t[q]) ==> ({
                            let q2 = ident_run_end(t, q, e);
                            r matches Ok(tok) && (if old(self).has_at_rule {
                                tok matches Token::AtStr(s) && s@ == t.subrange(q, q2)
                            } else {
                                tok matches Token::TypeSelector(s) && s@ == t.subrange(q, q2)
                            }) && final(self).stream.pos == q2
                        }))
                        &&& (spec_is_space(t[q]) ==> ({
                            let w = ws_end(t, q, e);
                            &&& (w == e ==> (r matches Err(er) && er
                                == Error::UnexpectedEndOfStream(spec_error_pos(t, e))))
                            &&& (w < e && !old(self).has_at_rule ==> (r matches Ok(tok) && tok
                                == Token::Combinator(Combinator::Space) && final(self).stream.pos
                                == w))
                            &&& (w < e && old(self).has_at_rule ==> ({
                                let q2 = ident_run_end(t, w, e);
                                if q2 > w {
                                    r matches Ok(tok) && (tok matches Token::AtStr(s) && s@
                                        == t.subrange(w, q2)) && final(self).stream.pos == q2
                                } else {
                                    r matches Err(er) && er == Error::UnknownToken(
                                        spec_error_pos(t, w),
                                    )
                                }
                            }))
                        }))
                        &&& (t[q] == B_SLASH ==> (if q + 1 >= e {
                            r matches Err(er) && er == Error::UnexpectedEndOfStream(
                                spec_error_pos(t, q + 1),
                            )
                        } else if t[q + 1] != B_STAR {
                            r matches Err(er) && er == Error::UnknownToken(spec_error_pos(t, q + 1))
                        } else {
                            r matches Err(er) && (er matches Error::UnexpectedEndOfStream(_))
                        }))
                        &&& ((!spec_is_space(t[q]) && !spec_is_ident(t[q]) && t[q] != B_SLASH
                            && !rule_special(t[q])) ==> (r matches Err(er) && er
                            == Error::UnknownToken(spec_error_pos(t, q))))
                    })
                })
            }),
            ({
                let t = old(self).stream.text@;
                let p = old(self).stream.pos as int;
                let e = old(self).stream.end as int;
                let p1 = if old(self).at_start {
                    ws_end(t, p, e)
                } else {
                    p as int
                };
                old(self).state == State::Declaration ==> ({
                    let sc = decl_scan(t, p1, e);
                    &&& (sc == e ==> (r matches Ok(tok) && tok == Token::EndOfStream))
                    &&& (sc < e ==> ({
                        let w = ws_end(t, sc, e);
                        &&& (w == e ==> (r matches Err(er) && er == Error::UnexpectedEndOfStream(
                            spec_error_pos(t, e),
                        )))
                        &&& (w < e && t[w] == B_RBRACE ==> (r matches Ok(tok) && tok
                            == Token::BlockEnd && final(self).stream.pos == ws_end(t, w + 1, e)
                            && final(self).state == State::Rule))
                        &&& (w < e && t[w] != B_RBRACE && t[w] != B_SLASH && !spec_is_ident(t[w])
                            ==> (r matches Err(er) && er == Error::UnknownToken(
                            spec_error_pos(t, w),
                        )))
                        &&& (w < e && t[w] == B_SLASH ==> (if w + 1 >= e {
                            r matches Err(er) && er == Error::UnexpectedEndOfStream(
                                spec_error_pos(t, w + 1),
                            )
                        } else if t[w + 1] != B_STAR {
                            r matches Err(er) && er == Error::UnknownToken(spec_error_pos(t, w + 1))
                        } else {
                            r matches Err(er) && (er matches Error::UnexpectedEndOfStream(_))
                        }))
                        &&& (w < e && spec_is_ident(t[w]) ==> ({
                            let q2 = ident_run_end(t, w, e);
                            let c1 = ws_end(t, q2, e);
                            &&& (c1 == e ==> (r matches Err(er) && er
                                == Error::UnexpectedEndOfStream(spec_error_pos(t, e))))
                            &&& (c1 < e && t[c1] == B_LBRACE ==> (r matches Ok(tok) && (
                            tok matches Token::DeclarationStr(n) && n@ == t.subrange(w, q2))
                                && final(self).stream.pos == c1))
                            &&& (c1 < e && t[c1] != B_LBRACE && t[c1] != B_SLASH ==> ({
                                let vs = ws_end(t, c1 + 1, e);
                                if vs == e {
                                    r matches Err(er) && er == Error::UnexpectedEndOfStream(
                                        spec_error_pos(t, e),
                                    )
                                } else if t[vs] != B_SLASH {
                                    let m = decl_value_end(t, vs, e);
                                    if m == e {
                                        r matches Err(er) && er == Error::UnexpectedEndOfStream(
                                            spec_error_pos(t, vs),
                                        )
                                    } else if m == vs {
                                        r matches Err(er) && er == Error::UnknownToken(
                                            spec_error_pos(t, vs),
                                        )
                                    } else {
                                        let z = semi_run_end(t, m, e);
                                        if z < e {
                                            r matches Ok(tok) && (
                                            tok matches Token::Declaration(n, v) && n@
                                                == t.subrange(w, q2) && v@ == t.subrange(
                                                vs,
                                                decl_trimmed_end(t, vs, m),
                                            )) && final(self).stream.pos == z
                                        } else {
                                            r matches Err(er) && er
                                                == Error::UnexpectedEndOfStream(
                                                spec_error_pos(t, e),
                                            )
                                        }
                                    }
                                } else {
                                    true
                                }
                            }))
                        }))
                    }))
                })
            }),
    {
        let ghost t = self.stream.text@;
        let ghost p = self.stream.pos as int;
        let ghost e = self.stream.end as int;
        if self.at_start {
            self.stream.skip_spaces();
            self.at_start = false;
        }
        let ghost p1 = self.stream.pos as int;
        loop
            invariant
                self.wf(),
                same_buf(*old(self), *self),
                t == old(self).stream.text@,
                p == old(self).stream.pos as int,
                e == old(self).stream.end as int,
                p1 == (if old(self).at_start {
                    ws_end(t, p, e)
                } else {
                    p
                }),
                !self.at_start,
                self.state == old(self).state,
                self.after_selector == old(self).after_selector,
                (old(self).state == State::Rule ==> self.has_at_rule == old(self).has_at_rule),
                (old(self).state == State::Declaration ==> self.has_at_rule == old(self).has_at_rule || !self.has_at_rule),
                p1 <= self.stream.pos as int <= e,
                p <= p1,
                (old(self).state == State::Rule ==> rule_scan(
                    t,
                    self.stream.pos as int,
                    e,
                    old(self).after_selector,
                ) == rule_scan(t, p1, e, old(self).after_selector)),
                (old(self).state == State::Declaration ==> decl_scan(t, self.stream.pos as int, e)
                    == decl_scan(t, p1, e)),
            decreases self.stream.end - self.stream.pos,
        {
            if self.stream.at_end() {
                proof {
                    if old(self).state == State::Rule {
                        assert(rule_scan(t, e, e, old(self).after_selector) == e);
                    } else {
                        assert(decl_scan(t, e, e) == e);
                    }
                }
                return Ok(Token::EndOfStream);
            }
            let ghost pre = self.stream.pos as int;
            let step_r = match self.state {
                State::Rule => self.consume_rule(),
                State::Declaration => self.consume_declaration(),
            };
            let step = match step_r {
                Ok(s) => s,
                Err(er) => {
                    proof {
                        if old(self).state == State::Rule {
                            assert(rule_scan(t, pre, e, old(self).after_selector) == pre);
                        } else {
                            assert(decl_scan(t, pre, e) == pre);
                        }
                    }
                    return Err(er);
                },
            };
            match step {
                Some(tok) => {
                    proof {
                        if old(self).state == State::Rule {
                            assert(rule_scan(t, pre, e, old(self).after_selector) == pre);
                        } else {
                            assert(decl_scan(t, pre, e) == pre);
                        }
                    }
                    return Ok(tok);
                },
                None => {
                    proof {
                        if old(self).state == State::Rule {
                            assert(rule_scan(t, pre, e, old(self).after_selector) == rule_scan(
                                t,
                                self.stream.pos as int,
                                e,
                                old(self).after_selector,
                            ));
                        } else {
                            assert(decl_scan(t, pre, e) == decl_scan(
                                t,
                                self.stream.pos as int,
                                e,
                            ));
                        }
                    }
                },
            }
        }
    }

    /// One scan step in the rule context, dispatching on the byte at the
    /// cursor. Returns `Ok(None)` where it passed over a comment or
    /// insignificant whitespace and the scan must run again.
    fn consume_rule(&mut self) -> (r: Result<Option<Token<'a>>, Error>)
        requires
            old(self).wf(),
            old(self).state == State::Rule,
            old(self).stream.pos < old(self).stream.end,
        ensures
            final(self).wf(),
            same_buf(*old(self), *final(self)),
            final(self).at_start == old(self).at_start,
            old(self).stream.pos <= final(self).stream.pos,
            (r matches Ok(x) ==> final(self).stream.pos > old(self).stream.pos),
            (r matches Ok(Some(tok)) ==> (tok_wf(tok) && !(tok matches Token::EndOfStream))),
            final(self).state == old(self).state || (r matches Ok(Some(tok)) && tok
                == Token::BlockStart && final(self).state == State::Declaration),
            (r matches Ok(Some(tok)) ==> (tok == Token::BlockStart ==> final(self).state
                == State::Declaration)),
            ((r matches Ok(None)) ==> final(self).state == State::Rule && final(self).after_selector == old(self).after_selector && final(self).has_at_rule == old(self).has_at_rule),
            ((r matches Ok(None)) ==> spec_skipped_prefix(*old(self))),
            ({
                let t = old(self).stream.text@;
                let p = old(self).stream.pos as int;
                let e = old(self).stream.end as int;
                t[p] == B_AT ==> ({
                    let q = ident_run_end(t, p + 1, e);
                    if q > p + 1 {
                        r matches Ok(Some(tok)) && (tok matches Token::AtRule(s) && s@
                            == t.subrange(p + 1, q)) && final(self).stream.pos == q && final(self).has_at_rule && final(self).after_selector
                    } else {
                        r matches Err(er) && er == Error::UnknownToken(spec_error_pos(t, p + 1))
                            && final(self).stream.pos == p + 1
                    }
                })
            }),
            ({
                let t = old(self).stream.text@;
                let p = old(self).stream.pos as int;
                let e = old(self).stream.end as int;
                t[p] == B_HASH ==> ({
                    let q = ident_run_end(t, p + 1, e);
                    if q > p + 1 {
                        r matches Ok(Some(tok)) && (tok matches Token::IdSelector(s) && s@
                            == t.subrange(p + 1, q)) && final(self).stream.pos == q && !final(self).has_at_rule && final(self).after_selector
                    } else {
                        r matches Err(er) && er == Error::UnknownToken(spec_error_pos(t, p + 1))
                            && final(self).stream.pos == p + 1
                    }
                })
            }),
            ({
                let t = old(self).stream.text@;
                let p = old(self).stream.pos as int;
                let e = old(self).stream.end as int;
                t[p] == B_DOT ==> ({
                    let q = ident_run_end(t, p + 1, e);
                    if q > p + 1 {
                        r matches Ok(Some(tok)) && (tok matches Token::ClassSelector(s) && s@
                            == t.subrange(p + 1, q)) && final(self).stream.pos == q && !final(self).has_at_rule && final(self).after_selector
                    } else {
                        r matches Err(er) && er == Error::UnknownToken(spec_error_pos(t, p + 1))
                            && final(self).stream.pos == p + 1
                    }
                })
            }),
            ({
                let t = old(self).stream.text@;
                let p = old(self).stream.pos as int;
                let e = old(self).stream.end as int;
                t[p] == B_STAR ==> (r matches Ok(Some(tok)) && tok == Token::UniversalSelector
                    && final(self).stream.pos == ws_end(t, p + 1, e) && final(self).after_selector
                    && !final(self).has_at_rule)
            }),
            ({
                let t = old(self).stream.text@;
                let p = old(self).stream.pos as int;
                let e = old(self).stream.end as int;
                t[p] == B_COMMA ==> (r matches Ok(Some(tok)) && tok == Token::Comma && final(self).stream.pos == ws_end(t, p + 1, e) && !final(self).after_selector && !final(self).has_at_rule)
            }),
            ({
                let t = old(self).stream.text@;
                let p = old(self).stream.pos as int;
                t[p] == B_LBRACE ==> (r matches Ok(Some(tok)) && tok == Token::BlockStart
                    && final(self).stream.pos == p + 1 && final(self).state == State::Declaration
                    && !final(self).after_selector && !final(self).has_at_rule)
            }),
            ({
                let t = old(self).stream.text@;
                let p = old(self).stream.pos as int;
                let e = old(self).stream.end as int;
                t[p] == B_GREATER ==> (if old(self).after_selector {
                    r matches Ok(Some(tok)) && tok == Token::Combinator(Combinator::GreaterThan)
                        && final(self).stream.pos == ws_end(t, p + 1, e) && !final(self).after_selector
                } else {
                    r matches Err(er) && er == Error::UnknownToken(spec_error_pos(t, p)) && final(self).stream.pos == p
                })
            }),
            ({
                let t = old(self).stream.text@;
                let p = old(self).stream.pos as int;
                let e = old(self).stream.end as int;
                t[p] == B_PLUS ==> (if old(self).after_selector {
                    r matches Ok(Some(tok)) && tok == Token::Combinator(Combinator::Plus) && final(self).stream.pos == ws_end(t, p + 1, e) && !final(self).after_selector
                } else {
                    r matches Err(er) && er == Error::UnknownToken(spec_error_pos(t, p)) && final(self).stream.pos == p
                })
            }),
            ({
                let t = old(self).stream.text@;
                let p = old(self).stream.pos as int;
                let e = old(self).stream.end as int;
                t[p] == B_COLON ==> (if p + 1 >= e {
                    r matches Err(er) && er == Error::UnexpectedEndOfStream(
                        spec_error_pos(t, p + 1),
                    )
                } else {
                    let dc = t[p + 1] == B_COLON;
                    let q0 = if dc {
                        p + 2
                    } else {
                        p + 1
                    };
                    let q = ident_run_end(t, q0, e);
                    if q == q0 {
                        r matches Err(er) && er == Error::UnknownToken(spec_error_pos(t, q0))
                    } else if q < e && t[q] == B_LPAREN {
                        let rp = find_byte(t, B_RPAREN, q + 1, e);
                        if rp < e {
                            (if dc {
                                r matches Ok(Some(tok)) && (tok matches Token::DoublePseudoClass {
                                    selector,
                                    value,
                                } && selector@ == t.subrange(q0, q) && (value matches Some(v) && v@
                                    == t.subrange(q + 1, rp)))
                            } else {
                                r matches Ok(Some(tok)) && (tok matches Token::PseudoClass {
                                    selector,
                                    value,
                                } && selector@ == t.subrange(q0, q) && (value matches Some(v) && v@
                                    == t.subrange(q + 1, rp)))
                            }) && final(self).stream.pos == rp + 1
                        } else {
                            r matches Err(er) && er matches Error::UnexpectedEndOfStream(_)
                        }
                    } else {
                        (if dc {
                            r matches Ok(Some(tok)) && (tok matches Token::DoublePseudoClass {
                                selector,
                                value,
                            } && selector@ == t.subrange(q0, q) && value matches None)
                        } else {
                            r matches Ok(Some(tok)) && (tok matches Token::PseudoClass {
                                selector,
                                value,
                            } && selector@ == t.subrange(q0, q) && value matches None)
                        }) && final(self).stream.pos == q
                    }
                })
            }),
            ({
                let t = old(self).stream.text@;
                let p = old(self).stream.pos as int;
                let e = old(self).stream.end as int;
                t[p] == B_LBRACKET ==> ({
                    let rb = find_byte(t, B_RBRACKET, p + 1, e);
                    if rb < e {
                        r matches Ok(Some(tok)) && (tok matches Token::AttributeSelector(s) && s@
                            == t.subrange(p + 1, rb)) && final(self).stream.pos == ws_end(
                            t,
                            rb + 1,
                            e,
                        ) && final(self).after_selector
                    } else {
                        r matches Err(er) && er matches Error::UnexpectedEndOfStream(_)
                    }
                })
            }),
            ({
                let t = old(self).stream.text@;
                let p = old(self).stream.pos as int;
                let e = old(self).stream.end as int;
                spec_is_ident(t[p]) ==> ({
                    let q = ident_run_end(t, p, e);
                    r matches Ok(Some(tok)) && (if old(self).has_at_rule {
                        tok matches Token::AtStr(s) && s@ == t.subrange(p, q)
                    } else {
                        tok matches Token::TypeSelector(s) && s@ == t.subrange(p, q)
                    }) && final(self).stream.pos == q && final(self).after_selector
                })
            }),
            ({
                let t = old(self).stream.text@;
                let p = old(self).stream.pos as int;
                let e = old(self).stream.end as int;
                spec_is_space(t[p]) ==> ({
                    let w = ws_end(t, p, e);
                    &&& (old(self).after_selector && w == e ==> (r matches Err(er) && er
                        == Error::UnexpectedEndOfStream(spec_error_pos(t, e)) && final(self).stream.pos == e))
                    &&& (old(self).after_selector && w < e && !spec_structural_after_space(t[w])
                        && !old(self).has_at_rule ==> (r matches Ok(Some(tok)) && tok
                        == Token::Combinator(Combinator::Space) && final(self).stream.pos == w
                        && !final(self).after_selector))
                    &&& (old(self).after_selector && w < e && !spec_structural_after_space(t[w])
                        && old(self).has_at_rule ==> ({
                        let q = ident_run_end(t, w, e);
                        if q > w {
                            r matches Ok(Some(tok)) && (tok matches Token::AtStr(s) && s@
                                == t.subrange(w, q)) && final(self).stream.pos == q && final(self).after_selector
                        } else {
                            r matches Err(er) && er == Error::UnknownToken(spec_error_pos(t, w))
                                && final(self).stream.pos == w
                        }
                    }))
                    &&& (!old(self).after_selector ==> (r matches Ok(None)) && final(self).stream.pos == w)
                    &&& (old(self).after_selector && w < e && spec_structural_after_space(t[w])
                        ==> (r matches Ok(None)) && final(self).stream.pos == w)
                })
            }),
            ({
                let t = old(self).stream.text@;
                let p = old(self).stream.pos as int;
                let e = old(self).stream.end as int;
                t[p] == B_SLASH ==> (if p + 1 >= e {
                    r matches Err(er) && er == Error::UnexpectedEndOfStream(
                        spec_error_pos(t, p + 1),
                    ) && final(self).stream.pos == p + 1
                } else if t[p + 1] != B_STAR {
                    r matches Err(er) && er == Error::UnknownToken(spec_error_pos(t, p + 1))
                        && final(self).stream.pos == p + 1
                } else {
                    let cc = comment_close(t, p + 2, e);
                    if cc < e {
                        (r matches Ok(None)) && final(self).stream.pos == cc + 2
                    } else if p + 2 == e {
                        (r matches Ok(None)) && final(self).stream.pos == e
                    } else {
                        r matches Err(er) && (er matches Error::UnexpectedEndOfStream(_))
                    }
                })
            }),
            ({
                let t = old(self).stream.text@;
                let p = old(self).stream.pos as int;
                let e = old(self).stream.end as int;
                (!spec_is_space(t[p]) && !spec_is_ident(t[p]) && t[p] != B_SLASH && !rule_special(
                    t[p],
                )) ==> (r matches Err(er) && er == Error::UnknownToken(spec_error_pos(t, p))
                    && final(self).stream.pos == p)
            }),
    {
        let ghost t = self.stream.text@;
        let ghost e = self.stream.end as int;
        let ghost p = self.stream.pos as int;
        let c = self.stream.curr_char_raw();
        if c == B_AT {
            self.after_selector = true;
            self.has_at_rule = true;
            self.stream.advance_raw(1);
            let s = self.consume_ident()?;
            Ok(Some(Token::AtRule(s)))
        } else if c == B_HASH {
            self.after_selector = true;
            self.has_at_rule = false;
            self.stream.advance_raw(1);
            let s = self.consume_ident()?;
            Ok(Some(Token::IdSelector(s)))
        } else if c == B_DOT {
            self.after_selector = true;
            self.has_at_rule = false;
            self.stream.advance_raw(1);
            let s = self.consume_ident()?;
            Ok(Some(Token::ClassSelector(s)))
        } else if c == B_STAR {
            self.after_selector = true;
            self.has_at_rule = false;
            self.stream.advance_raw(1);
            self.stream.skip_spaces();
            Ok(Some(Token::UniversalSelector))
        } else if c == B_COLON {
            self.after_selector = true;
            self.has_at_rule = false;
            self.stream.advance_raw(1);
            // whether this selector is written with two colons
            let is_double_colon = self.stream.is_char_eq(B_COLON)?;
            if is_double_colon {
                self.stream.advance_raw(1);
            }
            let s = self.consume_ident()?;
            let has_paren = match self.stream.curr_char() {
                Ok(c2) => c2 == B_LPAREN,
                Err(_) => false,
            };
            if has_paren {
                self.stream.advance_raw(1);
                let ghost open_at = self.stream.pos as int;
                let inner_len = match self.stream.length_to(B_RPAREN) {
                    Ok(l) => l,
                    Err(er) => {
                        proof {
                            lemma_find_byte(t, B_RPAREN, open_at, e);
                        }
                        return Err(er);
                    },
                };
                proof {
                    lemma_find_byte_at(t, B_RPAREN, open_at, e, open_at + inner_len);
                }
                let inner = self.stream.read_raw_str(inner_len);
                self.stream.advance_raw(1);
                if is_double_colon {
                    Ok(Some(Token::DoublePseudoClass { selector: s, value: Some(inner) }))
                } else {
                    Ok(Some(Token::PseudoClass { selector: s, value: Some(inner) }))
                }
            } else {
                if is_double_colon {
                    Ok(Some(Token::DoublePseudoClass { selector: s, value: None }))
                } else {
                    Ok(Some(Token::PseudoClass { selector: s, value: None }))
                }
            }
        } else if c == B_LBRACKET {
            self.after_selector = true;
            self.has_at_rule = false;
            self.stream.advance_raw(1);
            let ghost open_at = self.stream.pos as int;
            let len = match self.stream.length_to(B_RBRACKET) {
                Ok(l) => l,
                Err(er) => {
                    proof {
                        lemma_find_byte(t, B_RBRACKET, open_at, e);
                    }
                    return Err(er);
                },
            };
            proof {
                lemma_find_byte_at(t, B_RBRACKET, open_at, e, open_at + len);
            }
            let s = self.stream.read_raw_str(len);
            self.stream.advance_raw(1);
            self.stream.skip_spaces();
            Ok(Some(Token::AttributeSelector(s)))
        } else if c == B_COMMA {
            self.after_selector = false;
            self.has_at_rule = false;
            self.stream.advance_raw(1);
            self.stream.skip_spaces();
            Ok(Some(Token::Comma))
        } else if c == B_LBRACE {
            self.after_selector = false;
            self.has_at_rule = false;
            self.state = State::Declaration;
            self.stream.advance_raw(1);
            Ok(Some(Token::BlockStart))
        } else if c == B_GREATER {
            if self.after_selector {
                self.after_selector = false;
                self.has_at_rule = false;
                self.stream.advance_raw(1);
                self.stream.skip_spaces();
                Ok(Some(Token::Combinator(Combinator::GreaterThan)))
            } else {
                Err(Error::UnknownToken(self.stream.gen_error_pos()))
            }
        } else if c == B_PLUS {
            if self.after_selector {
                self.after_selector = false;
                self.has_at_rule = false;
                self.stream.advance_raw(1);
                self.stream.skip_spaces();
                Ok(Some(Token::Combinator(Combinator::Plus)))
            } else {
                Err(Error::UnknownToken(self.stream.gen_error_pos()))
            }
        } else if c == B_SLASH {
            if self.consume_comment()? {
                Ok(None)
            } else {
                Err(Error::UnknownToken(self.stream.gen_error_pos()))
            }
        } else {
            if crate::stream::is_space(c) {
                self.stream.skip_spaces();
                proof {
                    assert(ws_end(t, p, e) == ws_end(t, p + 1, e));
                    lemma_ws_end(t, p + 1, e);
                }
                if !self.after_selector {
                    return Ok(None);
                }
                let c2 = self.stream.curr_char()?;
                if c2 == B_LBRACE || c2 == B_SLASH || c2 == B_GREATER || c2 == B_PLUS || c2
                    == B_STAR {
                    return Ok(None);
                }
                self.after_selector = false;
                if !self.has_at_rule {
                    return Ok(Some(Token::Combinator(Combinator::Space)));
                }
            }
            proof {
                if p < e && spec_is_ident(t[p]) {
                    assert(ident_run_end(t, p, e) == ident_run_end(t, p + 1, e));
                    lemma_ident_run_end(t, p + 1, e);
                }
            }
            let s = self.consume_ident()?;
            let token = if self.has_at_rule {
                Token::AtStr(s)
            } else {
                Token::TypeSelector(s)
            };
            self.after_selector = true;
            Ok(Some(token))
        }
    }

    /// One scan step in the declaration context: a closing `}`, a comment, or
    /// a `name: value` declaration with trailing `;` separators. A bare ident
    /// followed by `{` is reported as `DeclarationStr`; an unexpected byte
    /// (an inner `{` among them) fails with `UnknownToken` at its position.
    #[verifier::rlimit(100)]
    fn consume_declaration(&mut self) -> (r: Result<Option<Token<'a>>, Error>)
        requires
            old(self).wf(),
            old(self).state == State::Declaration,
        ensures
            final(self).wf(),
            same_buf(*old(self), *final(self)),
            final(self).at_start == old(self).at_start,
            final(self).after_selector == old(self).after_selector,
            !final(self).has_at_rule,
            old(self).stream.pos <= final(self).stream.pos,
            (r matches Ok(x) ==> final(self).stream.pos > old(self).stream.pos),
            final(self).state == (if r matches Ok(Some(tok)) && tok == Token::BlockEnd {
                State::Rule
            } else {
                State::Declaration
            }),
            (r matches Ok(Some(tok)) ==> (tok_wf(tok) && ((tok matches Token::BlockEnd) || (tok
            matches Token::Declaration(_, _)) || (tok matches Token::DeclarationStr(_))))),
            ((r matches Ok(None)) ==> spec_skipped_prefix(*old(self))),
            ({
                let t = old(self).stream.text@;
                let p = old(self).stream.pos as int;
                let e = old(self).stream.end as int;
                ws_end(t, p, e) == e ==> (r matches Err(er) && er
                    == Error::UnexpectedEndOfStream(spec_error_pos(t, e)) && final(self).stream.pos
                    == e)
            }),
            ({
                let t = old(self).stream.text@;
                let p = old(self).stream.pos as int;
                let e = old(self).stream.end as int;
                let w = ws_end(t, p, e);
                w < e && t[w] == B_RBRACE ==> (r matches Ok(Some(tok)) && tok == Token::BlockEnd
                    && final(self).stream.pos == ws_end(t, w + 1, e) && final(self).state
                    == State::Rule)
            }),
            ({
                let t = old(self).stream.text@;
                let p = old(self).stream.pos as int;
                let e = old(self).stream.end as int;
                let w = ws_end(t, p, e);
                w < e && t[w] != B_RBRACE && t[w] != B_SLASH && !spec_is_ident(t[w]) ==> (
                r matches Err(er) && er == Error::UnknownToken(spec_error_pos(t, w)) && final(self).stream.pos == w)
            }),
            ({
                let t = old(self).stream.text@;
                let p = old(self).stream.pos as int;
                let e = old(self).stream.end as int;
                let w = ws_end(t, p, e);
                r matches Ok(Some(tok)) ==> (tok matches Token::Declaration(n, v) ==> n@
                    == t.subrange(w, ident_run_end(t, w, e)))
            }),
            ({
                let t = old(self).stream.text@;
                let p = old(self).stream.pos as int;
                let e = old(self).stream.end as int;
                let w = ws_end(t, p, e);
                r matches Ok(Some(tok)) ==> (tok matches Token::DeclarationStr(n) ==> n@
                    == t.subrange(w, ident_run_end(t, w, e)))
            }),
            ({
                let t = old(self).stream.text@;
                let p = old(self).stream.pos as int;
                let e = old(self).stream.end as int;
                let w = ws_end(t, p, e);
                w < e && t[w] == B_SLASH ==> (if w + 1 >= e {
                    r matches Err(er) && er == Error::UnexpectedEndOfStream(
                        spec_error_pos(t, w + 1),
                    ) && final(self).stream.pos == w + 1
                } else if t[w + 1] != B_STAR {
                    r matches Err(er) && er == Error::UnknownToken(spec_error_pos(t, w + 1))
                        && final(self).stream.pos == w + 1
                } else {
                    let cc = comment_close(t, w + 2, e);
                    if cc < e {
                        (r matches Ok(None)) && final(self).stream.pos == cc + 2
                    } else if w + 2 == e {
                        (r matches Ok(None)) && final(self).stream.pos == e
                    } else {
                        r matches Err(er) && (er matches Error::UnexpectedEndOfStream(_))
                    }
                })
            }),
            ({
                let t = old(self).stream.text@;
                let p = old(self).stream.pos as int;
                let e = old(self).stream.end as int;
                let w = ws_end(t, p, e);
                let q = ident_run_end(t, w, e);
                let c1 = ws_end(t, q, e);
                (w < e && spec_is_ident(t[w])) ==> {
                    &&& (c1 == e ==> (r matches Err(er) && er == Error::UnexpectedEndOfStream(
                        spec_error_pos(t, e),
                    ) && final(self).stream.pos == e))
                    &&& (c1 < e && t[c1] == B_LBRACE ==> (r matches Ok(Some(tok)) && (
                    tok matches Token::DeclarationStr(n) && n@ == t.subrange(w, q)) && final(self).stream.pos == c1))
                    &&& (c1 < e && t[c1] != B_LBRACE && t[c1] != B_SLASH ==> ({
                        let vs = ws_end(t, c1 + 1, e);
                        if vs == e {
                            r matches Err(er) && er == Error::UnexpectedEndOfStream(
                                spec_error_pos(t, e),
                            ) && final(self).stream.pos == e
                        } else if t[vs] != B_SLASH {
                            let m = decl_value_end(t, vs, e);
                            if m == e {
                                r matches Err(er) && er == Error::UnexpectedEndOfStream(
                                    spec_error_pos(t, vs),
                                ) && final(self).stream.pos == vs
                            } else if m == vs {
                                r matches Err(er) && er == Error::UnknownToken(
                                    spec_error_pos(t, vs),
                                ) && final(self).stream.pos == vs
                            } else {
                                let z = semi_run_end(t, m, e);
                                if z < e {
                                    r matches Ok(Some(tok)) && (tok matches Token::Declaration(
                                        n,
                                        v,
                                    ) && n@ == t.subrange(w, q) && v@ == t.subrange(
                                        vs,
                                        decl_trimmed_end(t, vs, m),
                                    )) && final(self).stream.pos == z
                                } else {
                                    r matches Err(er) && er == Error::UnexpectedEndOfStream(
                                        spec_error_pos(t, e),
                                    ) && final(self).stream.pos == e
                                }
                            }
                        } else {
                            true
                        }
                    }))
                }
            }),
    {
        let ghost t = self.stream.text@;
        let ghost p = self.stream.pos as int;
        let ghost e = self.stream.end as int;
        proof {
            lemma_ws_end(t, p, e);
            let w = ws_end(t, p, e);
            if w < e && spec_is_ident(t[w]) {
                lemma_ident_run_end(t, w, e);
                let q = ident_run_end(t, w, e);
                lemma_ws_end(t, q, e);
                let c1 = ws_end(t, q, e);
                if c1 < e && t[c1] != B_LBRACE && t[c1] != B_SLASH {
                    lemma_ws_end(t, c1 + 1, e);
                    let vs = ws_end(t, c1 + 1, e);
                    if vs < e && t[vs] != B_SLASH {
                        lemma_decl_value_end(t, vs, e);
                        let m = decl_value_end(t, vs, e);
                        lemma_semi_run_end(t, m, e);
                    }
                }
            }
        }
        self.stream.skip_spaces();
        self.has_at_rule = false;
        let c = self.stream.curr_char()?;
        if c == B_RBRACE {
            self.state = State::Rule;
            self.stream.advance_raw(1);
            self.stream.skip_spaces();
            return Ok(Some(Token::BlockEnd));
        }
        if c == B_SLASH {
            if self.consume_comment()? {
                return Ok(None);
            }
            return Err(Error::UnknownToken(self.stream.gen_error_pos()));
        }
        let name = self.consume_ident()?;
        self.stream.skip_spaces();
        if self.stream.is_char_eq(B_SLASH)? {
            if !self.consume_comment()? {
                return Err(Error::UnknownToken(self.stream.gen_error_pos()));
            }
        }
        if self.stream.is_char_eq(B_LBRACE)? {
            return Ok(Some(Token::DeclarationStr(name)));
        }
        self.stream.advance_raw(1);  // the byte standing where the `:` belongs
        self.stream.skip_spaces();
        if self.stream.is_char_eq(B_SLASH)? {
            if !self.consume_comment()? {
                return Err(Error::UnknownToken(self.stream.gen_error_pos()));
            }
        }
        let ghost sv = ({
            let w = ws_end(t, p, e);
            let q = ident_run_end(t, w, e);
            let c1 = ws_end(t, q, e);
            w < e && spec_is_ident(t[w]) && c1 < e && t[c1] != B_LBRACE && t[c1] != B_SLASH && ({
                let vs = ws_end(t, c1 + 1, e);
                vs < e && t[vs] != B_SLASH && decl_value_end(t, vs, e) > vs && decl_value_end(
                    t,
                    vs,
                    e,
                ) < e
            })
        });
        let ghost m_g: int = decl_value_end(t, ws_end(t, ws_end(t, ident_run_end(t, ws_end(t, p, e), e), e) + 1, e), e);
        let len = length_to_decl_end(&self.stream)?;
        if len == 0 {
            return Err(Error::UnknownToken(self.stream.gen_error_pos()));
        }
        let value_raw = self.stream.read_raw_str(len);
        let value = trim_trailing_spaces(value_raw);
        proof {
            lemma_last_non_space(value_raw@);
        }
        self.stream.skip_spaces();
        proof {
            if sv {
                lemma_ws_end(t, m_g, e);
                assert(ws_end(t, ws_end(t, m_g, e), e) == ws_end(t, m_g, e));
                assert(semi_run_end(t, m_g, e) == semi_run_end(t, ws_end(t, m_g, e), e));
            }
        }
        let mut semi_err: Option<Error> = None;
        loop
            invariant_except_break
                semi_err matches None,
            invariant
                self.wf(),
                same_buf(*old(self), *self),
                self.state == State::Declaration,
                self.after_selector == old(self).after_selector,
                !self.has_at_rule,
                self.at_start == old(self).at_start,
                old(self).stream.pos < self.stream.pos,
                t == old(self).stream.text@,
                p == old(self).stream.pos as int,
                e == old(self).stream.end as int,
                ({
                    let w = ws_end(t, p, e);
                    w < e && spec_is_ident(t[w])
                }),
                sv == ({
                    let w = ws_end(t, p, e);
                    let q = ident_run_end(t, w, e);
                    let c1 = ws_end(t, q, e);
                    w < e && spec_is_ident(t[w]) && c1 < e && t[c1] != B_LBRACE && t[c1]
                        != B_SLASH && ({
                        let vs = ws_end(t, c1 + 1, e);
                        vs < e && t[vs] != B_SLASH && decl_value_end(t, vs, e) > vs
                            && decl_value_end(t, vs, e) < e
                    })
                }),
                ({
                    let w = ws_end(t, p, e);
                    let q = ident_run_end(t, w, e);
                    let c1 = ws_end(t, q, e);
                    (w < e && spec_is_ident(t[w]) && c1 < e && t[c1] != B_LBRACE && t[c1]
                        != B_SLASH && ({
                        let vs = ws_end(t, c1 + 1, e);
                        vs < e && t[vs] != B_SLASH
                    })) ==> sv
                }),
                ({
                    let w = ws_end(t, p, e);
                    let q = ident_run_end(t, w, e);
                    let c1 = ws_end(t, q, e);
                    (w < e && spec_is_ident(t[w])) ==> c1 < e && t[c1] != B_LBRACE
                }),
                m_g == decl_value_end(
                    t,
                    ws_end(t, ws_end(t, ident_run_end(t, ws_end(t, p, e), e), e) + 1, e),
                    e,
                ),
                sv ==> {
                    &&& 0 <= m_g < e
                    &&& m_g <= self.stream.pos as int <= e
                    &&& ws_end(t, self.stream.pos as int, e) == self.stream.pos as int
                    &&& semi_run_end(t, m_g, e) == semi_run_end(t, self.stream.pos as int, e)
                },
            ensures
                self.wf(),
                same_buf(*old(self), *self),
                self.state == State::Declaration,
                self.after_selector == old(self).after_selector,
                !self.has_at_rule,
                self.at_start == old(self).at_start,
                old(self).stream.pos < self.stream.pos,
                (semi_err matches Some(er2) ==> self.stream.pos == self.stream.end && er2
                    == Error::UnexpectedEndOfStream(spec_error_pos(t, e))),
                sv && (semi_err matches None) ==> (self.stream.pos as int) < e && semi_run_end(
                    t,
                    m_g,
                    e,
                ) == self.stream.pos as int,
                sv && (semi_err matches Some(x)) ==> semi_run_end(t, m_g, e) == e,
            decreases self.stream.end - self.stream.pos,
        {
            let semi = match self.stream.is_char_eq(B_SEMICOLON) {
                Ok(b) => b,
                Err(er) => {
                    proof {
                        if sv {
                            assert(self.stream.pos as int == e);
                            assert(ws_end(t, e, e) == e);
                            assert(semi_run_end(t, e, e) == e);
                            assert(semi_run_end(t, m_g, e) == e);
                        }
                    }
                    semi_err = Some(er);
                    break;
                },
            };
            if !semi {
                proof {
                    if sv {
                        assert(semi_run_end(t, self.stream.pos as int, e) == self.stream.pos as int);
                    }
                }
                break;
            }
            let ghost at_semi = self.stream.pos as int;
            self.stream.advance_raw(1);
            self.stream.skip_spaces();
            proof {
                if sv {
                    lemma_ws_end(t, at_semi + 1, e);
                    assert(semi_run_end(t, at_semi, e) == semi_run_end(t, at_semi + 1, e));
                    assert(ws_end(t, ws_end(t, at_semi + 1, e), e) == ws_end(t, at_semi + 1, e));
                    assert(semi_run_end(t, at_semi + 1, e) == semi_run_end(
                        t,
                        ws_end(t, at_semi + 1, e),
                        e,
                    ));
                }
            }
        }
        if let Some(er) = semi_err {
            return Err(er);
        }
        proof {
            if sv {
                let w = ws_end(t, p, e);
                let q = ident_run_end(t, w, e);
                let c1 = ws_end(t, q, e);
                let vs = ws_end(t, c1 + 1, e);
                let m = decl_value_end(t, vs, e);
                assert(value_raw@ == t.subrange(vs, m));
                if last_non_space(value_raw@) < 0 {
                    assert(spec_is_space(value_raw@[0]));
                    assert(value_raw@[0] == t[vs]);
                    assert(false);
                }
                assert(value@ == value_raw@.subrange(0, last_non_space(value_raw@) + 1));
                assert(value@ =~= t.subrange(vs, decl_trimmed_end(t, vs, m)));
            }
        }
        Ok(Some(Token::Declaration(name, value)))
    }

    /// Consumes a `/* ... */` comment at the cursor, scanning for the first
    /// `*` that a `/` follows. Returns `Ok(false)`, consuming only the `/`,
    /// when no `*` follows it.
    fn consume_comment(&mut self) -> (r: Result<bool, Error>)
        requires
            old(self).wf(),
            old(self).stream.pos < old(self).stream.end,
        ensures
            final(self).wf(),
            same_buf(*old(self), *final(self)),
            final(self).state == old(self).state,
            final(self).after_selector == old(self).after_selector,
            final(self).has_at_rule == old(self).has_at_rule,
            final(self).at_start == old(self).at_start,
            final(self).stream.pos >= old(self).stream.pos + 1,
            ({
                let t = old(self).stream.text@;
                let p = old(self).stream.pos as int;
                let e = old(self).stream.end as int;
                match r {
                    Ok(true) => p + 1 < e && t[p + 1] == B_STAR && ({
                        let cc = comment_close(t, p + 2, e);
                        if cc < e {
                            final(self).stream.pos == cc + 2
                        } else {
                            p + 2 == e && final(self).stream.pos == e
                        }
                    }),
                    Ok(false) => p + 1 < e && t[p + 1] != B_STAR && final(self).stream.pos == p
                        + 1,
                    Err(er) => (er matches Error::UnexpectedEndOfStream(_)) && ((p + 1 == e && er
                        == Error::UnexpectedEndOfStream(spec_error_pos(t, p + 1))) || (t[p + 1]
                        == B_STAR && p + 2 < e && comment_close(t, p + 2, e) == e)),
                }
            }),
    {
        let ghost t = self.stream.text@;
        let ghost e = self.stream.end as int;
        self.stream.advance_raw(1);
        let star = self.stream.is_char_eq(B_STAR)?;
        if !star {
            return Ok(false);
        }
        self.stream.advance_raw(1);
        let ghost p0 = self.stream.pos as int;
        loop
            invariant
                self.stream.wf(),
                t == old(self).stream.text@,
                e == old(self).stream.end as int,
                t[old(self).stream.pos + 1] == B_STAR,
                self.stream.text@ == t,
                self.stream.end == e,
                self.state == old(self).state,
                self.after_selector == old(self).after_selector,
                self.has_at_rule == old(self).has_at_rule,
                self.at_start == old(self).at_start,
                self.stream.text == old(self).stream.text,
                p0 == old(self).stream.pos + 2,
                p0 <= self.stream.pos as int <= e,
                self.stream.pos as int == p0 || (self.stream.pos as int) < e,
                comment_close(t, p0, e) == comment_close(t, self.stream.pos as int, e),
            decreases e - self.stream.pos,
        {
            if self.stream.at_end() {
                return Ok(true);
            }
            let len = match self.stream.length_to(B_STAR) {
                Ok(l) => l,
                Err(er) => {
                    proof {
                        lemma_comment_close_none(t, self.stream.pos as int, e);
                    }
                    return Err(er);
                },
            };
            proof {
                lemma_comment_close_no_star(t, self.stream.pos as int, self.stream.pos + len, e);
            }
            let ghost star_at = self.stream.pos + len;
            self.stream.advance_raw(len + 1);
            match self.stream.is_char_eq(B_SLASH) {
                Ok(true) => {
                    proof {
                        assert(comment_close(t, star_at, e) == star_at);
                    }
                    self.stream.advance_raw(1);
                    return Ok(true);
                },
                Ok(false) => {
                    proof {
                        assert(comment_close(t, star_at, e) == comment_close(t, star_at + 1, e));
                    }
                },
                Err(er) => {
                    proof {
                        assert(comment_close(t, star_at, e) == comment_close(t, star_at + 1, e));
                    }
                    return Err(er);
                },
            }
        }
    }
}

/// The distance to the first `;` or `}` before the stream's end, not
/// consuming anything.
fn length_to_decl_end(s: &Stream) -> (r: Result<usize, Error>)
    requires
        s.wf(),
    ensures
        ({
            let m = decl_value_end(s.text@, s.pos as int, s.end as int);
            match r {
                Ok(n) => m < s.end && s.pos + n == m,
                Err(er) => m == s.end as int && er == s.spec_eos_error(),
            }
        }),
{
    let ghost t = s.text@;
    let ghost p = s.pos as int;
    let ghost e = s.end as int;
    let mut n: usize = 0;
    while s.pos + n != s.end
        invariant
            s.wf(),
            t == s.text@,
            p == s.pos as int,
            e == s.end as int,
            s.pos + n <= s.end,
            decl_value_end(t, p, e) == decl_value_end(t, p + n, e),
        decreases s.end - s.pos - n,
    {
        let c = *vstd::slice::slice_index_get(s.text, s.pos + n);
        if c == B_SEMICOLON || c == B_RBRACE {
            return Ok(n);
        }
        n = n + 1;
    }
    Err(s.gen_end_of_stream_error())
}

/// Cuts the spaces off the end of `s`; a slice of spaces alone stays as it
/// is.
fn trim_trailing_spaces<'b>(s: &'b [u8]) -> (r: &'b [u8])
    ensures
        last_non_space(s@) >= 0 ==> r@ == s@.subrange(0, last_non_space(s@) + 1),
        last_non_space(s@) < 0 ==> r@ == s@,
{
    proof {
        lemma_last_non_space(s@);
    }
    let mut i: usize = s.len();
    while i > 0 && crate::stream::is_space(*vstd::slice::slice_index_get(s, i - 1))
        invariant
            i <= s@.len(),
            forall|j: int| i <= j < s@.len() ==> spec_is_space(s@[j]),
        decreases i,
    {
        i = i - 1;
    }
    if i == 0 {
        proof {
            if last_non_space(s@) >= 0 {
                assert(spec_is_space(s@[last_non_space(s@)]));
                assert(false);
            }
            assert(s@.subrange(0, s@.len() as int) =~= s@);
        }
        s
    } else {
        proof {
            assert(!spec_is_space(s@[i - 1]));
            if last_non_space(s@) > i - 1 {
                assert(spec_is_space(s@[last_non_space(s@)]));
                assert(false);
            }
            if last_non_space(s@) < i - 1 {
                assert(spec_is_space(s@[i - 1]));
                assert(false);
            }
        }
        vstd::slice::slice_subrange(s, 0, i)
    }
}

/// While `parse_next` has produced no token yet, the bytes it passed over
/// were insignificant: the scan position can differ from the starting
/// tokenizer `s0`'s only where a comment or swallowed whitespace stood.
pub open spec fn spec_skipped_prefix<'a>(s0: Tokenizer<'a>) -> bool {
    let t = s0.stream.text@;
    let p = s0.stream.pos as int;
    let e = s0.stream.end as int;
    p < e && ((s0.state == State::Rule && (t[p] == B_SLASH || (spec_is_space(t[p]) && (
    !s0.after_selector || ({
        let w = ws_end(t, p, e);
        w < e && spec_structural_after_space(t[w])
    }))))) || (s0.state == State::Declaration && ({
        let w = ws_end(t, p, e);
        w < e && t[w] == B_SLASH
    })))
}

} // verus!
