//! The selector collaborator: parses one selector off the front of a rule's
//! remaining text, reports how many bytes it consumed, and carries an
//! orderable specificity key used solely as a stable sort key.
//!
//! The selector text itself is kept verbatim (trimmed) for rendering and
//! matching elsewhere; this module does not interpret it beyond counting id,
//! class/attribute/pseudo-class and type components for the key.

use vstd::prelude::*;
use vstd::slice::{slice_index_get, slice_subrange};

use crate::stream::{
    is_space, last_non_space, lemma_last_non_space, lemma_ws_end, spec_is_ident, spec_is_space,
    ws_end, B_COLON, B_COMMA, B_DOT, B_DOUBLE_QUOTE, B_EQUALS, B_GREATER, B_HASH, B_LBRACE,
    B_LBRACKET, B_LPAREN, B_PLUS, B_RBRACKET, B_RPAREN, B_SINGLE_QUOTE, B_STAR,
};

verus! {

/// The first offset at or after `i` (bounded by `e`) holding a `{` or a `,`:
/// where one selector of a group ends.
pub open spec fn sel_stop(t: Seq<u8>, i: int, e: int) -> int
    decreases e - i,
{
    if i >= e {
        e
    } else if t[i] == B_LBRACE || t[i] == B_COMMA {
        i
    } else {
        sel_stop(t, i + 1, e)
    }
}

pub proof fn lemma_sel_stop(t: Seq<u8>, i: int, e: int)
    requires
        0 <= i <= e,
    ensures
        i <= sel_stop(t, i, e) <= e,
        forall|j: int| i <= j < sel_stop(t, i, e) ==> t[j] != B_LBRACE && t[j] != B_COMMA,
        sel_stop(t, i, e) < e ==> t[sel_stop(t, i, e)] == B_LBRACE || t[sel_stop(t, i, e)]
            == B_COMMA,
    decreases e - i,
{
    if i < e && !(t[i] == B_LBRACE || t[i] == B_COMMA) {
        lemma_sel_stop(t, i + 1, e);
    }
}

/// `sel_stop` lands exactly on `k` when no `{` or `,` stands before it and
/// one does at `k` (or `k` is the end).
pub proof fn lemma_sel_stop_at(t: Seq<u8>, i: int, e: int, k: int)
    requires
        0 <= i <= k <= e,
        forall|j: int| i <= j < k ==> t[j] != B_LBRACE && t[j] != B_COMMA,
        k == e || t[k] == B_LBRACE || t[k] == B_COMMA,
    ensures
        sel_stop(t, i, e) == k,
    decreases k - i,
{
    if i < k {
        lemma_sel_stop_at(t, i + 1, e, k);
    }
}

/// A byte that may stand in a selector.
pub open spec fn spec_is_sel_char(c: u8) -> bool {
    spec_is_ident(c) || spec_is_space(c) || c == B_HASH || c == B_DOT || c == B_STAR || c
        == B_COLON || c == B_LBRACKET || c == B_RBRACKET || c == B_LPAREN || c == B_RPAREN || c
        == B_GREATER || c == B_PLUS || c == B_EQUALS || c == B_DOUBLE_QUOTE || c == B_SINGLE_QUOTE
}

/// A non-empty selector text of selector bytes alone.
pub open spec fn sel_ok(s: Seq<u8>) -> bool {
    s.len() > 0 && forall|i: int| 0 <= i < s.len() ==> spec_is_sel_char(s[i])
}

/// Counts the id components, the class/attribute/pseudo-class components and
/// the type components of the selector text `t[i..e]`, given the byte before
/// `i` (`prev`, 0 at the very start) and the closing byte of the bracketed or
/// parenthesized region the scan stands in (`until`, 0 outside one).
pub open spec fn sel_counts(t: Seq<u8>, i: int, e: int, prev: u8, until: u8) -> (int, int, int)
    decreases e - i,
{
    if i >= e {
        (0, 0, 0)
    } else {
        let c = t[i];
        if until != 0 {
            sel_counts(
                t,
                i + 1,
                e,
                c,
                if c == until {
                    0u8
                } else {
                    until
                },
            )
        } else {
            let nu = if c == B_LBRACKET {
                B_RBRACKET
            } else if c == B_LPAREN {
                B_RPAREN
            } else {
                0u8
            };
            let rest = sel_counts(t, i + 1, e, c, nu);
            if c == B_HASH {
                (rest.0 + 1, rest.1, rest.2)
            } else if c == B_DOT || c == B_LBRACKET {
                (rest.0, rest.1 + 1, rest.2)
            } else if c == B_COLON && prev != B_COLON {
                (rest.0, rest.1 + 1, rest.2)
            } else if spec_is_ident(c) && !spec_is_ident(prev) && prev != B_HASH && prev != B_DOT
                && prev != B_COLON {
                (rest.0, rest.1, rest.2 + 1)
            } else {
                rest
            }
        }
    }
}

pub proof fn lemma_sel_counts_bounds(t: Seq<u8>, i: int, e: int, prev: u8, until: u8)
    requires
        0 <= i <= e,
    ensures
        0 <= sel_counts(t, i, e, prev, until).0 <= e - i,
        0 <= sel_counts(t, i, e, prev, until).1 <= e - i,
        0 <= sel_counts(t, i, e, prev, until).2 <= e - i,
    decreases e - i,
{
    if i < e {
        let c = t[i];
        if until != 0 {
            lemma_sel_counts_bounds(
                t,
                i + 1,
                e,
                c,
                if c == until {
                    0u8
                } else {
                    until
                },
            );
        } else {
            let nu = if c == B_LBRACKET {
                B_RBRACKET
            } else if c == B_LPAREN {
                B_RPAREN
            } else {
                0u8
            };
            lemma_sel_counts_bounds(t, i + 1, e, c, nu);
        }
    }
}

/// Caps a component count at what one field of the packed key can hold.
pub open spec fn cap_count(n: int) -> int {
    if n > 0xFFFF {
        0xFFFF
    } else {
        n
    }
}

/// The specificity key of the selector text `s`: id components weigh most,
/// then class/attribute/pseudo-class components, then type components.
pub open spec fn spec_specificity(s: Seq<u8>) -> u64 {
    (cap_count(sel_counts(s, 0, s.len() as int, 0, 0).0) * 0x1_0000_0000 + cap_count(
        sel_counts(s, 0, s.len() as int, 0, 0).1,
    ) * 0x1_0000 + cap_count(sel_counts(s, 0, s.len() as int, 0, 0).2)) as u64
}

/// A parsed selector: its trimmed source text and its specificity key.
#[derive(Clone, Copy, Debug)]
pub struct Selector<'a> {
    /// The selector's source text, with no space at either end.
    pub text: &'a [u8],
    /// The packed specificity key.
    pub key: u64,
}

impl<'a> Selector<'a> {
    /// The selector's match-priority key, used to order rules for cascade
    /// resolution.
    pub fn specificity(&self) -> (r: u64)
        ensures
            r == self.key,
    {
        self.key
    }

    /// The selector's source text.
    pub fn to_text(&self) -> (r: &'a [u8])
        ensures
            r == self.text,
    {
        self.text
    }
}

/// Parses one selector off the front of `tail`.
///
/// The selector's text runs to the first `{` or `,` (or the end); the second
/// component of the result reports that distance, which the caller consumes.
/// The first is the selector — its text trimmed of spaces, its key computed —
/// or `None` where nothing but spaces stood there or a byte foreign to the
/// selector grammar did.
pub fn parse<'a>(tail: &'a [u8]) -> (r: (Option<Selector<'a>>, usize))
    requires
        tail@.len() < usize::MAX,
    ensures
        ({
            let t = tail@;
            let e = t.len() as int;
            let stop = sel_stop(t, 0, e);
            &&& r.1 == stop
            &&& ({
                let lo = ws_end(t, 0, stop);
                let hi = last_non_space(t.subrange(0, stop)) + 1;
                if lo < stop && sel_ok(t.subrange(lo, hi)) {
                    r.0 matches Some(sel) && sel.text@ == t.subrange(lo, hi) && sel.key
                        == spec_specificity(t.subrange(lo, hi))
                } else {
                    r.0 matches None
                }
            })
        }),
{
    let ghost t = tail@;
    let e = tail.len();
    let mut stop: usize = 0;
    while stop < e && *slice_index_get(tail, stop) != B_LBRACE && *slice_index_get(tail, stop)
        != B_COMMA
        invariant
            t == tail@,
            stop <= e,
            e == t.len(),
            sel_stop(t, 0, e as int) == sel_stop(t, stop as int, e as int),
        decreases e - stop,
    {
        stop = stop + 1;
    }
    let mut lo: usize = 0;
    while lo < stop && is_space(*slice_index_get(tail, lo))
        invariant
            t == tail@,
            lo <= stop <= e,
            e == t.len(),
            stop == sel_stop(t, 0, e as int),
            ws_end(t, 0, stop as int) == ws_end(t, lo as int, stop as int),
        decreases stop - lo,
    {
        lo = lo + 1;
    }
    let mut hi: usize = stop;
    while hi > lo && is_space(*slice_index_get(tail, hi - 1))
        invariant
            t == tail@,
            lo <= hi <= stop <= e,
            e == t.len(),
            stop == sel_stop(t, 0, e as int),
            lo == ws_end(t, 0, stop as int),
            forall|j: int| hi <= j < stop ==> spec_is_space(t[j]),
        decreases hi,
    {
        hi = hi - 1;
    }
    proof {
        lemma_ws_end(t, 0, stop as int);
        lemma_ws_end(t, lo as int, stop as int);
        lemma_last_non_space(t.subrange(0, stop as int));
        let pre = t.subrange(0, stop as int);
        let lns = last_non_space(pre);
        if lo < stop {
            // the trim scans met: hi - 1 holds the last non-space byte
            assert(!spec_is_space(t[lo as int]));
            assert(!spec_is_space(pre[lo as int]));
            assert(lns >= lo);
            assert(!spec_is_space(pre[lns]));
            assert(hi > lo);
            assert(!spec_is_space(t[hi - 1]));
            if lns > hi - 1 {
                assert(spec_is_space(t[lns]));
                assert(false);
            }
            if lns < hi - 1 {
                assert(spec_is_space(pre[hi - 1]));
                assert(false);
            }
            assert(hi == lns + 1);
        } else {
            assert(lo == stop);
            assert forall|j: int| 0 <= j < pre.len() implies spec_is_space(pre[j]) by {
                assert(spec_is_space(t[j]));
            }
            if lns >= 0 {
                assert(spec_is_space(pre[lns]));
                assert(false);
            }
        }
    }
    if lo >= hi {
        return (None, stop);
    }
    // validity scan and component counting over the trimmed text
    let ghost sub = t.subrange(lo as int, hi as int);
    let mut i: usize = lo;
    let mut prev: u8 = 0;
    let mut until: u8 = 0;
    let mut na: u64 = 0;
    let mut nb: u64 = 0;
    let mut nc: u64 = 0;
    let ghost whole = sel_counts(sub, 0, sub.len() as int, 0, 0);
    while i < hi
        invariant
            t == tail@,
            lo <= i <= hi <= e,
            e == t.len(),
            stop == sel_stop(t, 0, e as int),
            lo == ws_end(t, 0, stop as int),
            lo < stop,
            hi == last_non_space(t.subrange(0, stop as int)) + 1,
            hi - lo == sub.len(),
            sub == t.subrange(lo as int, hi as int),
            forall|j: int| lo <= j < i ==> spec_is_sel_char(t[j]),
            na <= i - lo,
            nb <= i - lo,
            nc <= i - lo,
            whole == sel_counts(sub, 0, sub.len() as int, 0, 0),
            whole.0 == na + sel_counts(sub, i - lo, sub.len() as int, prev, until).0,
            whole.1 == nb + sel_counts(sub, i - lo, sub.len() as int, prev, until).1,
            whole.2 == nc + sel_counts(sub, i - lo, sub.len() as int, prev, until).2,
        decreases hi - i,
    {
        let c = *slice_index_get(tail, i);
        proof {
            assert(sub[i - lo] == c);
        }
        let is_sel = crate::stream::is_ident(c) || is_space(c) || c == B_HASH || c == B_DOT || c
            == B_STAR || c == B_COLON || c == B_LBRACKET || c == B_RBRACKET || c == B_LPAREN || c
            == B_RPAREN || c == B_GREATER || c == B_PLUS || c == B_EQUALS || c == B_DOUBLE_QUOTE
            || c == B_SINGLE_QUOTE;
        if !is_sel {
            return (None, stop);
        }
        if until != 0 {
            if c == until {
                until = 0;
            }
        } else {
            if c == B_LBRACKET {
                until = B_RBRACKET;
            } else if c == B_LPAREN {
                until = B_RPAREN;
            } else {
                until = 0;
            }
            if c == B_HASH {
                na = na + 1;
            } else if c == B_DOT || c == B_LBRACKET {
                nb = nb + 1;
            } else if c == B_COLON && prev != B_COLON {
                nb = nb + 1;
            } else if crate::stream::is_ident(c) && !crate::stream::is_ident(prev) && prev
                != B_HASH && prev != B_DOT && prev != B_COLON {
                nc = nc + 1;
            }
        }
        prev = c;
        i = i + 1;
    }
    proof {
        lemma_sel_counts_bounds(sub, 0, sub.len() as int, 0, 0);
        assert(sel_counts(sub, sub.len() as int, sub.len() as int, prev, until) == (
        0int,
        0int,
        0int,
        ));
        assert forall|k: int| 0 <= k < sub.len() implies spec_is_sel_char(sub[k]) by {
            assert(sub[k] == t[lo + k]);
        }
        assert(sel_ok(sub));
    }
    let ca: u64 = if na > 0xFFFF {
        0xFFFF
    } else {
        na
    };
    let cb: u64 = if nb > 0xFFFF {
        0xFFFF
    } else {
        nb
    };
    let cc: u64 = if nc > 0xFFFF {
        0xFFFF
    } else {
        nc
    };
    let key: u64 = ca * 0x1_0000_0000 + cb * 0x1_0000 + cc;
    (Some(Selector { text: slice_subrange(tail, lo, hi), key }), stop)
}

} // verus!
