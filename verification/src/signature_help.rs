//! Signature help: find the call whose argument list encloses the cursor, which
//! argument the cursor is in, and present the callee's signature.
use vstd::prelude::*;

use crate::ast::joined;
use crate::symbol::{
    has_prefix, is_unicode_whitespace, lemma_leading_ws_bound, lemma_trailing_ws_bound, leading_ws_from, trailing_ws_to,
    trimmed, trimmed_string, SemanticSymbol, SemanticSymbolKind,
};
use crate::text::{chars_of, Position};
use crate::token::{
    lemma_non_newline_at_or_before, non_newline_at_or_before, previous_non_newline, token_col0,
    token_column_index, token_line0, token_line_index, Token, TokenKind,
};

verus! {

/// The call the cursor is in: the index of its callee token and of the argument.
#[derive(Clone, Copy, Debug, PartialEq, Eq, Structural)]
pub struct ActiveCall {
    pub callee_index: usize,
    pub active_parameter: u32,
}

/// An open parenthesis with the argument reached so far and the brackets and
/// braces open inside it.
#[derive(Clone, Copy, Debug, PartialEq, Eq, Structural)]
pub struct ParenFrame {
    pub lparen_index: usize,
    pub active_parameter: u32,
    pub bracket_depth: usize,
    pub brace_depth: usize,
}

/// Whether the token begins at or after `position` (its zero-based line and column,
/// truncated to `u32` as LSP positions are).
pub open spec fn starts_at_or_after(t: Token, position: Position) -> bool {
    let line = token_line0(t) as u32;
    let character = token_col0(t) as u32;
    line > position.line || (line == position.line && character >= position.character)
}

/// Whether `token` begins at or after `position`.
pub fn token_starts_at_or_after(token: &Token, position: Position) -> (b: bool)
    ensures
        b == starts_at_or_after(*token, position),
{
    let line = #[verifier::truncate] (token_line_index(token) as u32);
    let character = #[verifier::truncate] (token_column_index(token) as u32);
    line > position.line || (line == position.line && character >= position.character)
}

/// The open parentheses after the token at `i` is taken into account.
pub open spec fn frames_step(frames: Seq<ParenFrame>, tokens: Seq<Token>, i: int) -> Seq<ParenFrame> {
    let k = tokens[i].kind;
    if k is LParen {
        frames.push(
            ParenFrame { lparen_index: i as usize, active_parameter: 0, bracket_depth: 0, brace_depth: 0 },
        )
    } else if k is RParen {
        if frames.len() > 0 {
            frames.drop_last()
        } else {
            frames
        }
    } else if frames.len() == 0 {
        frames
    } else {
        let f = frames.last();
        let g = if k is LBracket {
            ParenFrame { bracket_depth: (f.bracket_depth + 1) as usize, ..f }
        } else if k is RBracket {
            ParenFrame {
                bracket_depth: if f.bracket_depth > 0 {
                    (f.bracket_depth - 1) as usize
                } else {
                    0
                },
                ..f
            }
        } else if k is LBrace {
            ParenFrame { brace_depth: (f.brace_depth + 1) as usize, ..f }
        } else if k is RBrace {
            ParenFrame {
                brace_depth: if f.brace_depth > 0 {
                    (f.brace_depth - 1) as usize
                } else {
                    0
                },
                ..f
            }
        } else if k is Comma && f.bracket_depth == 0 && f.brace_depth == 0 {
            ParenFrame { active_parameter: (f.active_parameter + 1) as u32, ..f }
        } else {
            f
        };
        frames.update(frames.len() - 1, g)
    }
}

/// The open parentheses after the first `n` tokens.
pub open spec fn frames_upto(tokens: Seq<Token>, n: nat) -> Seq<ParenFrame>
    decreases n,
{
    if n == 0 {
        Seq::empty()
    } else {
        frames_step(frames_upto(tokens, (n - 1) as nat), tokens, n - 1)
    }
}

/// Index of the first token at or after `from` that begins at or after `position`.
pub open spec fn tokens_before(tokens: Seq<Token>, position: Position, from: nat) -> nat
    decreases tokens.len() - from,
{
    if from >= tokens.len() || starts_at_or_after(tokens[from as int], position) {
        from
    } else {
        tokens_before(tokens, position, from + 1)
    }
}

/// Scanning backwards from `index` through a generic argument list `<...>` with
/// `depth` unmatched `>`: the identifier before the matching `<`.
pub open spec fn generic_callee(tokens: Seq<Token>, index: int, depth: nat) -> Option<int>
    decreases index + 1,
{
    if index < 0 || index >= tokens.len() {
        None
    } else {
        let k = tokens[index].kind;
        if k is Newline {
            generic_callee(tokens, index - 1, depth)
        } else if k is Greater {
            generic_callee(tokens, index - 1, depth + 1)
        } else if k is Less {
            let d: nat = if depth > 0 {
                (depth - 1) as nat
            } else {
                0
            };
            if d == 0 {
                match non_newline_at_or_before(tokens, index - 1) {
                    Some(c) => if tokens[c].kind is Ident {
                        Some(c)
                    } else {
                        None
                    },
                    None => None,
                }
            } else {
                generic_callee(tokens, index - 1, d)
            }
        } else {
            generic_callee(tokens, index - 1, depth)
        }
    }
}

/// The callee of the `(` at `lparen`: the identifier just before it, or before the
/// generic argument list that precedes it.
pub open spec fn callee_of(tokens: Seq<Token>, lparen: int) -> Option<int> {
    match non_newline_at_or_before(tokens, lparen - 1) {
        Some(i) => if tokens[i].kind is Ident {
            Some(i)
        } else if tokens[i].kind is Greater {
            generic_callee(tokens, i, 0)
        } else {
            None
        },
        None => None,
    }
}

/// The call enclosing `position`: the innermost parenthesis still open before the
/// cursor, unless it is a function declaration's parameter list.
pub open spec fn active_call(tokens: Seq<Token>, position: Position) -> Option<ActiveCall> {
    let frames = frames_upto(tokens, tokens_before(tokens, position, 0));
    if frames.len() == 0 {
        None
    } else {
        let frame = frames.last();
        match callee_of(tokens, frame.lparen_index as int) {
            Some(callee) => match non_newline_at_or_before(tokens, callee - 1) {
                Some(previous) => if tokens[previous].kind is Fn {
                    None
                } else {
                    Some(
                        ActiveCall {
                            callee_index: callee as usize,
                            active_parameter: frame.active_parameter,
                        },
                    )
                },
                None => None,
            },
            None => None,
        }
    }
}

proof fn lemma_frames_bound(tokens: Seq<Token>, n: nat)
    requires
        n <= tokens.len(),
    ensures
        forall|j: int|
            0 <= j < frames_upto(tokens, n).len() ==> {
                let f = #[trigger] frames_upto(tokens, n)[j];
                &&& f.lparen_index < n
                &&& f.active_parameter <= n
                &&& f.bracket_depth <= n
                &&& f.brace_depth <= n
            },
    decreases n,
{
    if n > 0 {
        lemma_frames_bound(tokens, (n - 1) as nat);
        let prev = frames_upto(tokens, (n - 1) as nat);
        let cur = frames_upto(tokens, n);
        assert forall|j: int| 0 <= j < cur.len() implies {
            let f = #[trigger] cur[j];
            &&& f.lparen_index < n
            &&& f.active_parameter <= n
            &&& f.bracket_depth <= n
            &&& f.brace_depth <= n
        } by {
            if j < prev.len() {
                let f = prev[j];
                assert(f.lparen_index < n - 1);
            }
        }
    }
}

/// The change in parenthesis nesting over the tokens `a..b`: each `(` opens one
/// and each `)` closes one.
pub open spec fn paren_balance(tokens: Seq<Token>, a: int, b: int) -> int
    decreases b - a,
{
    if b <= a {
        0
    } else {
        paren_balance(tokens, a, b - 1) + if tokens[b - 1].kind is LParen {
            1int
        } else if tokens[b - 1].kind is RParen {
            -1int
        } else {
            0int
        }
    }
}

/// Whether the `(` at `l` is the innermost parenthesis still open before the token
/// at `n`: no `)` before `n` closes it, and every `(` after it is closed before `n`.
pub open spec fn innermost_open(tokens: Seq<Token>, l: int, n: int) -> bool {
    &&& 0 <= l < n <= tokens.len()
    &&& tokens[l].kind is LParen
    &&& forall|m: int| l + 1 <= m <= n ==> #[trigger] paren_balance(tokens, l + 1, m) >= 0
    &&& paren_balance(tokens, l + 1, n) == 0
}

/// Scanning the tokens after the `(` at `l` up to the token at `m`: the parentheses,
/// brackets and braces opened after it and still open (a `]` or `}` with none open
/// is ignored, and brackets and braces inside a nested parenthesis do not count),
/// and the commas that stand in none of them.
pub open spec fn argument_scan(tokens: Seq<Token>, l: int, m: int) -> (nat, nat, nat, nat)
    decreases m - l,
{
    if m <= l + 1 {
        (0, 0, 0, 0)
    } else {
        let r = argument_scan(tokens, l, m - 1);
        let k = tokens[m - 1].kind;
        if k is LParen {
            (r.0 + 1, r.1, r.2, r.3)
        } else if k is RParen {
            (if r.0 > 0 { (r.0 - 1) as nat } else { 0 }, r.1, r.2, r.3)
        } else if r.0 > 0 {
            r
        } else if k is LBracket {
            (r.0, r.1 + 1, r.2, r.3)
        } else if k is RBracket {
            (r.0, if r.1 > 0 { (r.1 - 1) as nat } else { 0 }, r.2, r.3)
        } else if k is LBrace {
            (r.0, r.1, r.2 + 1, r.3)
        } else if k is RBrace {
            (r.0, r.1, if r.2 > 0 { (r.2 - 1) as nat } else { 0 }, r.3)
        } else if k is Comma && r.1 == 0 && r.2 == 0 {
            (r.0, r.1, r.2, r.3 + 1)
        } else {
            r
        }
    }
}

/// The commas between the `(` at `l` and the token at `m` that separate its
/// arguments: those inside no parenthesis, bracket or brace opened after it.
pub open spec fn top_level_commas(tokens: Seq<Token>, l: int, m: int) -> nat {
    argument_scan(tokens, l, m).3
}

/// The call whose argument list opens with the `(` at `l`, at argument
/// `parameter`: its callee, unless the parenthesis holds a function
/// declaration's parameters.
pub open spec fn call_from(tokens: Seq<Token>, l: int, parameter: nat) -> Option<ActiveCall> {
    match callee_of(tokens, l) {
        Some(callee) => match non_newline_at_or_before(tokens, callee - 1) {
            Some(previous) => if tokens[previous].kind is Fn {
                None
            } else {
                Some(ActiveCall { callee_index: callee as usize, active_parameter: parameter as u32 })
            },
            None => None,
        },
        None => None,
    }
}

proof fn lemma_paren_balance_split(tokens: Seq<Token>, a: int, b: int, c: int)
    requires
        a <= b <= c,
    ensures
        paren_balance(tokens, a, c) == paren_balance(tokens, a, b) + paren_balance(tokens, b, c),
    decreases c - b,
{
    if c > b {
        lemma_paren_balance_split(tokens, a, b, c - 1);
    }
}

/// Where the frame at `k` stops having the last word: the next frame's `(`, or `n`.
spec fn frame_end(frames: Seq<ParenFrame>, k: int, n: int) -> int {
    if k + 1 < frames.len() {
        frames[k + 1].lparen_index as int
    } else {
        n
    }
}

spec fn frame_wf(tokens: Seq<Token>, frames: Seq<ParenFrame>, k: int, n: int) -> bool {
    let l = frames[k].lparen_index as int;
    let e = frame_end(frames, k, n);
    &&& 0 <= l < e <= n
    &&& tokens[l].kind is LParen
    &&& forall|m: int| l + 1 <= m <= e ==> #[trigger] paren_balance(tokens, l + 1, m) >= 0
    &&& paren_balance(tokens, l + 1, e) == 0
    &&& argument_scan(tokens, l, e) == (
        0nat,
        frames[k].bracket_depth as nat,
        frames[k].brace_depth as nat,
        frames[k].active_parameter as nat,
    )
}

spec fn is_frame(frames: Seq<ParenFrame>, l: int) -> bool {
    exists|k: int| 0 <= k < frames.len() && frames[k].lparen_index == l
}

spec fn closed_before(tokens: Seq<Token>, l: int, n: int) -> bool {
    exists|m: int| l + 1 <= m <= n && #[trigger] paren_balance(tokens, l + 1, m) < 0
}

spec fn frames_wf(tokens: Seq<Token>, frames: Seq<ParenFrame>, n: int) -> bool {
    &&& forall|k: int| 0 <= k < frames.len() ==> #[trigger] frame_wf(tokens, frames, k, n)
    &&& forall|l: int|
        0 <= l < n && tokens[l].kind is LParen && !is_frame(frames, l) ==> #[trigger] closed_before(
            tokens,
            l,
            n,
        )
}

proof fn lemma_closed_grows(tokens: Seq<Token>, l: int, n: int)
    requires
        closed_before(tokens, l, n),
    ensures
        closed_before(tokens, l, n + 1),
{
    let m = choose|m: int| l + 1 <= m <= n && #[trigger] paren_balance(tokens, l + 1, m) < 0;
    assert(l + 1 <= m <= n + 1 && paren_balance(tokens, l + 1, m) < 0);
}

/// Inside a balanced group opened by the `(` at `t`, the scan of an outer argument
/// list only counts the nesting.
proof fn lemma_group_scan(tokens: Seq<Token>, l: int, t: int, m: int)
    requires
        l < t,
        t + 1 <= m <= tokens.len(),
        tokens[t].kind is LParen,
        argument_scan(tokens, l, t).0 == 0,
        forall|j: int| t + 1 <= j <= m ==> #[trigger] paren_balance(tokens, t + 1, j) >= 0,
    ensures
        argument_scan(tokens, l, m) == (
            (1 + paren_balance(tokens, t + 1, m)) as nat,
            argument_scan(tokens, l, t).1,
            argument_scan(tokens, l, t).2,
            argument_scan(tokens, l, t).3,
        ),
    decreases m - t,
{
    if m > t + 1 {
        assert(paren_balance(tokens, t + 1, m - 1) >= 0);
        lemma_group_scan(tokens, l, t, m - 1);
    }
}

proof fn lemma_frames_wf(tokens: Seq<Token>, n: nat)
    requires
        n <= tokens.len() < u32::MAX,
    ensures
        frames_wf(tokens, frames_upto(tokens, n), n as int),
    decreases n,
{
    if n == 0 {
        return;
    }
    let i = n - 1;
    lemma_frames_wf(tokens, (n - 1) as nat);
    lemma_frames_bound(tokens, (n - 1) as nat);
    let f = frames_upto(tokens, (n - 1) as nat);
    let g = frames_upto(tokens, n);
    assert(g == frames_step(f, tokens, i));
    let k = tokens[i].kind;
    let ni = n as int;
    if k is LParen {
        assert forall|j: int| 0 <= j < g.len() implies #[trigger] frame_wf(tokens, g, j, ni) by {
            if j < f.len() {
                assert(frame_wf(tokens, f, j, ni - 1));
                assert(g[j] == f[j]);
                assert(frame_end(g, j, ni) == frame_end(f, j, ni - 1));
            } else {
                assert(g[j].lparen_index == i);
                assert(frame_end(g, j, ni) == ni);
                assert forall|m: int| ni <= m <= ni implies #[trigger] paren_balance(tokens, ni, m)
                    >= 0 by {}
            }
        }
        assert forall|l: int|
            0 <= l < ni && tokens[l].kind is LParen && !is_frame(g, l) implies #[trigger] closed_before(
            tokens,
            l,
            ni,
        ) by {
            if l == i {
                assert(g[f.len() as int].lparen_index == l);
            }
            if is_frame(f, l) {
                let j = choose|j: int| 0 <= j < f.len() && f[j].lparen_index == l;
                assert(g[j] == f[j]);
            }
            lemma_closed_grows(tokens, l, ni - 1);
        }
    } else if k is RParen && f.len() > 0 {
        let t = f.last().lparen_index as int;
        assert(frame_wf(tokens, f, f.len() - 1, ni - 1));
        assert(paren_balance(tokens, t + 1, ni) == -1);
        assert forall|j: int| 0 <= j < g.len() implies #[trigger] frame_wf(tokens, g, j, ni) by {
            assert(frame_wf(tokens, f, j, ni - 1));
            assert(g[j] == f[j]);
            if j + 1 < g.len() {
                assert(frame_end(g, j, ni) == frame_end(f, j, ni - 1));
            } else {
                let l = f[j].lparen_index as int;
                assert(frame_end(f, j, ni - 1) == t);
                assert(frame_end(g, j, ni) == ni);
                assert forall|m: int| l + 1 <= m <= ni implies #[trigger] paren_balance(
                    tokens,
                    l + 1,
                    m,
                ) >= 0 by {
                    if m > t {
                        lemma_paren_balance_split(tokens, l + 1, t, m);
                        lemma_paren_balance_split(tokens, t, t + 1, m);
                        assert(paren_balance(tokens, t, t) == 0);
                        assert(paren_balance(tokens, t, t + 1) == 1);
                        if m < ni {
                            assert(paren_balance(tokens, t + 1, m) >= 0);
                        }
                    }
                }
                lemma_paren_balance_split(tokens, l + 1, t, ni);
                lemma_paren_balance_split(tokens, t, t + 1, ni);
                assert(paren_balance(tokens, t, t) == 0);
                assert(paren_balance(tokens, t, t + 1) == 1);
                lemma_group_scan(tokens, l, t, ni - 1);
            }
        }
        assert forall|l: int|
            0 <= l < ni && tokens[l].kind is LParen && !is_frame(g, l) implies #[trigger] closed_before(
            tokens,
            l,
            ni,
        ) by {
            if l == t {
                assert(t + 1 <= ni && paren_balance(tokens, t + 1, ni) < 0);
            } else {
                if is_frame(f, l) {
                    let j = choose|j: int| 0 <= j < f.len() && f[j].lparen_index == l;
                    if j < f.len() - 1 {
                        assert(g[j] == f[j]);
                    }
                }
                lemma_closed_grows(tokens, l, ni - 1);
            }
        }
    } else if f.len() == 0 {
        assert(g.len() == 0);
        assert forall|l: int|
            0 <= l < ni && tokens[l].kind is LParen && !is_frame(g, l) implies #[trigger] closed_before(
            tokens,
            l,
            ni,
        ) by {
            assert(!is_frame(f, l));
            lemma_closed_grows(tokens, l, ni - 1);
        }
    } else {
        let top = f.len() - 1;
        assert(g.len() == f.len());
        assert forall|j: int| 0 <= j < g.len() implies g[j].lparen_index == f[j].lparen_index by {}
        assert forall|j: int| 0 <= j < g.len() implies #[trigger] frame_wf(tokens, g, j, ni) by {
            assert(frame_wf(tokens, f, j, ni - 1));
            if j < top {
                assert(g[j] == f[j]);
                assert(frame_end(g, j, ni) == frame_end(f, j, ni - 1));
            } else {
                let l = f[j].lparen_index as int;
                assert(frame_end(f, j, ni - 1) == ni - 1);
                assert(frame_end(g, j, ni) == ni);
                assert(paren_balance(tokens, l + 1, ni) == paren_balance(tokens, l + 1, ni - 1));
                assert forall|m: int| l + 1 <= m <= ni implies #[trigger] paren_balance(
                    tokens,
                    l + 1,
                    m,
                ) >= 0 by {
                    if m < ni {
                        assert(paren_balance(tokens, l + 1, m) >= 0);
                    }
                }
                assert(f[j].active_parameter <= ni - 1);
                assert(f[j].bracket_depth <= ni - 1);
                assert(f[j].brace_depth <= ni - 1);
            }
        }
        assert forall|l: int|
            0 <= l < ni && tokens[l].kind is LParen && !is_frame(g, l) implies #[trigger] closed_before(
            tokens,
            l,
            ni,
        ) by {
            if is_frame(f, l) {
                let j = choose|j: int| 0 <= j < f.len() && f[j].lparen_index == l;
                assert(g[j].lparen_index == l);
            }
            lemma_closed_grows(tokens, l, ni - 1);
        }
    }
}

proof fn lemma_frame_order(tokens: Seq<Token>, f: Seq<ParenFrame>, n: int, j: int, q: int)
    requires
        frames_wf(tokens, f, n),
        0 <= j < q < f.len(),
    ensures
        f[j].lparen_index < f[q].lparen_index,
    decreases q - j,
{
    assert(frame_wf(tokens, f, j, n));
    if q > j + 1 {
        lemma_frame_order(tokens, f, n, j + 1, q);
    }
}

proof fn lemma_tokens_before_bound(tokens: Seq<Token>, position: Position, from: nat)
    requires
        from <= tokens.len(),
    ensures
        from <= tokens_before(tokens, position, from) <= tokens.len(),
    decreases tokens.len() - from,
{
    if from < tokens.len() && !starts_at_or_after(tokens[from as int], position) {
        lemma_tokens_before_bound(tokens, position, from + 1);
    }
}

/// Signature help follows the innermost parenthesis still open before the cursor:
/// when one is open, the call is the one that parenthesis opens, at the argument
/// that the commas between it and the cursor (outside any nested parenthesis,
/// bracket or brace) reach; when none is, there is no call. At most one
/// parenthesis is innermost.
pub proof fn lemma_active_call_is_innermost(tokens: Seq<Token>, position: Position)
    requires
        tokens.len() < u32::MAX,
    ensures
        forall|l: int|
            #![trigger innermost_open(tokens, l, tokens_before(tokens, position, 0) as int)]
            innermost_open(tokens, l, tokens_before(tokens, position, 0) as int) ==> active_call(
                tokens,
                position,
            ) == call_from(tokens, l, top_level_commas(tokens, l, tokens_before(tokens, position, 0) as int)),
        active_call(tokens, position) is Some ==> exists|l: int|
            innermost_open(tokens, l, tokens_before(tokens, position, 0) as int),
        forall|a: int, b: int|
            innermost_open(tokens, a, tokens_before(tokens, position, 0) as int) && innermost_open(
                tokens,
                b,
                tokens_before(tokens, position, 0) as int,
            ) ==> a == b,
{
    lemma_tokens_before_bound(tokens, position, 0);
    let n = tokens_before(tokens, position, 0);
    let ni = n as int;
    lemma_frames_wf(tokens, n);
    let f = frames_upto(tokens, n);
    assert forall|l: int| innermost_open(tokens, l, ni) implies f.len() > 0 && f.last().lparen_index
        == l by {
        if !is_frame(f, l) {
            assert(closed_before(tokens, l, ni));
            let m = choose|m: int| l + 1 <= m <= ni && #[trigger] paren_balance(tokens, l + 1, m) < 0;
            assert(paren_balance(tokens, l + 1, m) >= 0);
        }
        let j = choose|j: int| 0 <= j < f.len() && f[j].lparen_index == l;
        let top = f.len() - 1;
        if j < top {
            assert(frame_wf(tokens, f, j, ni));
            let t = f[top].lparen_index as int;
            lemma_frame_order(tokens, f, ni, j, top);
            assert(frame_wf(tokens, f, top, ni));
            assert(l < t);
            assert(paren_balance(tokens, l + 1, t) >= 0);
            lemma_paren_balance_split(tokens, l + 1, t, ni);
            lemma_paren_balance_split(tokens, t, t + 1, ni);
            assert(paren_balance(tokens, t, t) == 0);
            assert(paren_balance(tokens, t, t + 1) == 1);
        }
    }
    if f.len() > 0 {
        let top = f.len() - 1;
        assert(frame_wf(tokens, f, top, ni));
        assert(innermost_open(tokens, f.last().lparen_index as int, ni));
    }
}

/// The call whose argument list encloses `position`, if any.
pub fn call_at_position(tokens: &Vec<Token>, position: Position) -> (r: Option<ActiveCall>)
    requires
        tokens.len() < u32::MAX,
    ensures
        r == active_call(tokens@, position),
{
    let mut frames: Vec<ParenFrame> = Vec::new();
    let mut index: usize = 0;
    while index < tokens.len() && !token_starts_at_or_after(&tokens[index], position)
        invariant
            index <= tokens.len() < u32::MAX,
            frames@ == frames_upto(tokens@, index as nat),
            tokens_before(tokens@, position, index as nat) == tokens_before(tokens@, position, 0),
        decreases tokens.len() - index,
    {
        proof {
            lemma_frames_bound(tokens@, index as nat);
        }
        let ghost before = frames@;
        let n = frames.len();
        match tokens[index].kind {
            TokenKind::LParen => frames.push(
                ParenFrame {
                    lparen_index: index,
                    active_parameter: 0,
                    bracket_depth: 0,
                    brace_depth: 0,
                },
            ),
            TokenKind::RParen => {
                frames.pop();
            },
            TokenKind::LBracket => {
                if n > 0 {
                    let f = frames[n - 1];
                    frames.set(n - 1, ParenFrame { bracket_depth: f.bracket_depth + 1, ..f });
                }
            },
            TokenKind::RBracket => {
                if n > 0 {
                    let f = frames[n - 1];
                    let depth = if f.bracket_depth > 0 {
                        f.bracket_depth - 1
                    } else {
                        0
                    };
                    frames.set(n - 1, ParenFrame { bracket_depth: depth, ..f });
                }
            },
            TokenKind::LBrace => {
                if n > 0 {
                    let f = frames[n - 1];
                    frames.set(n - 1, ParenFrame { brace_depth: f.brace_depth + 1, ..f });
                }
            },
            TokenKind::RBrace => {
                if n > 0 {
                    let f = frames[n - 1];
                    let depth = if f.brace_depth > 0 {
                        f.brace_depth - 1
                    } else {
                        0
                    };
                    frames.set(n - 1, ParenFrame { brace_depth: depth, ..f });
                }
            },
            TokenKind::Comma => {
                if n > 0 {
                    let f = frames[n - 1];
                    if f.bracket_depth == 0 && f.brace_depth == 0 {
                        frames.set(n - 1, ParenFrame { active_parameter: f.active_parameter + 1, ..f });
                    }
                }
            },
            _ => {},
        }
        assert(frames@ =~= frames_step(before, tokens@, index as int));
        index = index + 1;
    }
    let n = frames.len();
    if n == 0 {
        return None;
    }
    let frame = frames[n - 1];
    proof {
        lemma_frames_bound(tokens@, index as nat);
    }
    let callee_index = match callee_before_lparen(tokens, frame.lparen_index) {
        Some(c) => c,
        None => return None,
    };
    let previous = match previous_non_newline(tokens, callee_index) {
        Some(p) => p,
        None => return None,
    };
    if matches!(tokens[previous].kind, TokenKind::Fn) {
        return None;
    }
    Some(ActiveCall { callee_index, active_parameter: frame.active_parameter })
}

/// The callee identifier of the `(` at `lparen_index`.
pub fn callee_before_lparen(tokens: &Vec<Token>, lparen_index: usize) -> (r: Option<usize>)
    requires
        lparen_index < tokens.len(),
    ensures
        r matches Some(c) ==> c < lparen_index && callee_of(tokens@, lparen_index as int) == Some(
            c as int,
        ),
        r is None ==> callee_of(tokens@, lparen_index as int) is None,
{
    let index = match previous_non_newline(tokens, lparen_index) {
        Some(i) => i,
        None => return None,
    };
    if matches!(tokens[index].kind, TokenKind::Ident(_)) {
        return Some(index);
    }
    if !matches!(tokens[index].kind, TokenKind::Greater) {
        return None;
    }
    let mut depth: usize = 0;
    let mut cursor: usize = index + 1;
    while cursor > 0
        invariant
            cursor <= index + 1,
            index < lparen_index < tokens.len(),
            depth <= index + 1 - cursor,
            generic_callee(tokens@, cursor - 1, depth as nat) == callee_of(
                tokens@,
                lparen_index as int,
            ),
        decreases cursor,
    {
        let i = cursor - 1;
        match tokens[i].kind {
            TokenKind::Newline => {},
            TokenKind::Greater => {
                depth = depth + 1;
            },
            TokenKind::Less => {
                let d = if depth > 0 {
                    depth - 1
                } else {
                    0
                };
                if d == 0 {
                    proof {
                        lemma_non_newline_at_or_before(tokens@, i - 1);
                    }
                    return match previous_non_newline(tokens, i) {
                        Some(c) => if matches!(tokens[c].kind, TokenKind::Ident(_)) {
                            Some(c)
                        } else {
                            None
                        },
                        None => None,
                    };
                }
                depth = d;
            },
            _ => {},
        }
        cursor = i;
    }
    None
}

/// Index of the first `c` in `s` at or after `from`.
pub open spec fn first_index_of(s: Seq<char>, c: char, from: nat) -> Option<nat>
    decreases s.len() - from,
{
    if from >= s.len() {
        None
    } else if s[from as int] == c {
        Some(from)
    } else {
        first_index_of(s, c, from + 1)
    }
}

/// Scanning from `i` with `depth` open parentheses: the `)` closing them all.
pub open spec fn matching_close(s: Seq<char>, i: nat, depth: nat) -> Option<nat>
    decreases s.len() - i,
{
    if i >= s.len() {
        None
    } else if s[i as int] == '(' {
        matching_close(s, i + 1, depth + 1)
    } else if s[i as int] == ')' {
        let d: nat = if depth > 0 {
            (depth - 1) as nat
        } else {
            0
        };
        if d == 0 {
            Some(i)
        } else {
            matching_close(s, i + 1, d)
        }
    } else {
        matching_close(s, i + 1, depth)
    }
}

/// Nesting depths while splitting a parameter list: parentheses, angle brackets,
/// square brackets.
pub open spec fn saturating_dec(n: nat) -> nat {
    if n > 0 {
        (n - 1) as nat
    } else {
        0
    }
}

/// The parameters of `p[i..]` split at top-level commas (each trimmed), after the
/// labels `acc` already split off and with the current one starting at `start`.
pub open spec fn split_params(
    p: Seq<char>,
    i: nat,
    paren: nat,
    angle: nat,
    bracket: nat,
    start: nat,
    acc: Seq<Seq<char>>,
) -> Seq<Seq<char>>
    decreases p.len() - i,
{
    if i >= p.len() {
        acc.push(trimmed(p.subrange(start as int, p.len() as int)))
    } else {
        let c = p[i as int];
        if c == '(' {
            split_params(p, i + 1, paren + 1, angle, bracket, start, acc)
        } else if c == ')' {
            split_params(p, i + 1, saturating_dec(paren), angle, bracket, start, acc)
        } else if c == '<' {
            split_params(p, i + 1, paren, angle + 1, bracket, start, acc)
        } else if c == '>' {
            split_params(p, i + 1, paren, saturating_dec(angle), bracket, start, acc)
        } else if c == '[' {
            split_params(p, i + 1, paren, angle, bracket + 1, start, acc)
        } else if c == ']' {
            split_params(p, i + 1, paren, angle, saturating_dec(bracket), start, acc)
        } else if c == ',' && paren == 0 && angle == 0 && bracket == 0 {
            split_params(
                p,
                i + 1,
                paren,
                angle,
                bracket,
                i + 1,
                acc.push(trimmed(p.subrange(start as int, i as int))),
            )
        } else {
            split_params(p, i + 1, paren, angle, bracket, start, acc)
        }
    }
}

/// The parameter labels of a rendered signature: the text between its first `(` and
/// the matching `)`, split at top-level commas; `None` without such parentheses.
pub open spec fn signature_parameter_labels(s: Seq<char>) -> Option<Seq<Seq<char>>> {
    match first_index_of(s, '(', 0) {
        Some(open) => match matching_close(s, open, 0) {
            Some(close) => {
                let params = s.subrange(open + 1int, close as int);
                if trimmed(params).len() == 0 {
                    Some(Seq::empty())
                } else {
                    Some(split_params(params, 0, 0, 0, 0, 0, Seq::empty()))
                }
            },
            None => None,
        },
        None => None,
    }
}

/// Views of a list of strings.
pub open spec fn string_views(v: Seq<String>) -> Seq<Seq<char>> {
    v.map_values(|s: String| s@)
}

proof fn lemma_first_index_of(s: Seq<char>, c: char, from: nat)
    ensures
        first_index_of(s, c, from) matches Some(i) ==> from <= i < s.len() && s[i as int] == c,
    decreases s.len() - from,
{
    if from < s.len() && s[from as int] != c {
        lemma_first_index_of(s, c, from + 1);
    }
}

proof fn lemma_matching_close(s: Seq<char>, i: nat, depth: nat)
    ensures
        matching_close(s, i, depth) matches Some(j) ==> i <= j < s.len(),
    decreases s.len() - i,
{
    if i < s.len() {
        if s[i as int] == '(' {
            lemma_matching_close(s, i + 1, depth + 1);
        } else if s[i as int] == ')' {
            lemma_matching_close(s, i + 1, saturating_dec(depth));
        } else {
            lemma_matching_close(s, i + 1, depth);
        }
    }
}

/// Index of the `)` that closes the `(` at `open`.
fn find_matching_close(s: &Vec<char>, open: usize) -> (r: Option<usize>)
    requires
        open < s.len(),
    ensures
        r matches Some(c) ==> matching_close(s@, open as nat, 0) == Some(c as nat),
        r is None ==> matching_close(s@, open as nat, 0) is None,
{
    let mut depth: usize = 0;
    let mut i: usize = open;
    while i < s.len()
        invariant
            open <= i <= s.len(),
            depth <= i - open,
            matching_close(s@, i as nat, depth as nat) == matching_close(s@, open as nat, 0),
        decreases s.len() - i,
    {
        if s[i] == '(' {
            depth = depth + 1;
        } else if s[i] == ')' {
            depth = if depth > 0 {
                depth - 1
            } else {
                0
            };
            if depth == 0 {
                return Some(i);
            }
        }
        i = i + 1;
    }
    None
}

/// The parameter labels of `signature` (see [`signature_parameter_labels`]).
pub fn parameter_labels(signature: &str) -> (r: Option<Vec<String>>)
    ensures
        match r {
            Some(v) => signature_parameter_labels(signature@) == Some(string_views(v@)),
            None => signature_parameter_labels(signature@) is None,
        },
{
    let s = chars_of(signature);
    let mut open: usize = 0;
    while open < s.len() && s[open] != '('
        invariant
            open <= s.len(),
            first_index_of(s@, '(', open as nat) == first_index_of(s@, '(', 0),
        decreases s.len() - open,
    {
        open = open + 1;
    }
    if open == s.len() {
        return None;
    }
    let close = match find_matching_close(&s, open) {
        Some(close) => close,
        None => return None,
    };
    proof {
        assert(matching_close(s@, open as nat, 0) == matching_close(s@, (open + 1) as nat, 1));
        lemma_matching_close(s@, (open + 1) as nat, 1);
    }
    let from = open + 1;
    let ghost params = s@.subrange(from as int, close as int);
    let whole = trimmed_string(&s, from, close);
    if whole.as_str().is_empty() {
        return Some(Vec::new());
    }
    let mut labels: Vec<String> = Vec::new();
    let mut start: usize = from;
    let mut paren: usize = 0;
    let mut angle: usize = 0;
    let mut bracket: usize = 0;
    let mut j: usize = from;
    assert(string_views(labels@) =~= Seq::<Seq<char>>::empty());
    while j < close
        invariant
            from <= start <= j <= close < s.len(),
            params == s@.subrange(from as int, close as int),
            paren <= j - from,
            angle <= j - from,
            bracket <= j - from,
            split_params(
                params,
                (j - from) as nat,
                paren as nat,
                angle as nat,
                bracket as nat,
                (start - from) as nat,
                string_views(labels@),
            ) == split_params(params, 0, 0, 0, 0, 0, Seq::empty()),
        decreases close - j,
    {
        let c = s[j];
        if c == '(' {
            paren = paren + 1;
        } else if c == ')' {
            paren = if paren > 0 {
                paren - 1
            } else {
                0
            };
        } else if c == '<' {
            angle = angle + 1;
        } else if c == '>' {
            angle = if angle > 0 {
                angle - 1
            } else {
                0
            };
        } else if c == '[' {
            bracket = bracket + 1;
        } else if c == ']' {
            bracket = if bracket > 0 {
                bracket - 1
            } else {
                0
            };
        } else if c == ',' && paren == 0 && angle == 0 && bracket == 0 {
            let label = trimmed_string(&s, start, j);
            let ghost before = labels@;
            labels.push(label);
            assert(string_views(labels@) =~= string_views(before).push(label@));
            assert(params.subrange((start - from) as int, (j - from) as int) =~= s@.subrange(
                start as int,
                j as int,
            ));
            start = j + 1;
        }
        j = j + 1;
    }
    let last = trimmed_string(&s, start, close);
    let ghost before = labels@;
    labels.push(last);
    assert(string_views(labels@) =~= string_views(before).push(last@));
    assert(params.subrange((start - from) as int, params.len() as int) =~= s@.subrange(
        start as int,
        close as int,
    ));
    Some(labels)
}

/// One presented signature.
#[derive(Clone, Debug)]
pub struct SignatureInformation {
    pub label: String,
    /// Markdown documentation, when the symbol has any.
    pub documentation: Option<String>,
    pub parameters: Vec<String>,
    pub active_parameter: Option<u32>,
}

/// Signature help for one call.
#[derive(Clone, Debug)]
pub struct SignatureHelp {
    pub signatures: Vec<SignatureInformation>,
    pub active_signature: Option<u32>,
    pub active_parameter: Option<u32>,
}

/// Whether `kind` is something that can be called.
pub open spec fn is_callable(kind: SemanticSymbolKind) -> bool {
    kind == SemanticSymbolKind::Function || kind == SemanticSymbolKind::ExternFunction || kind
        == SemanticSymbolKind::Method || kind == SemanticSymbolKind::InterfaceMethod
}

/// Whether the first parameter label of a method is its receiver.
pub open spec fn is_receiver_label(label: Seq<char>) -> bool {
    label == "self"@ || has_prefix(label, "self:"@) || has_prefix(label, "mut self:"@)
}

/// Whether the parameter list starts with a receiver that the call does not pass
/// explicitly.
pub open spec fn has_implicit_receiver(kind: SemanticSymbolKind, labels: Seq<Seq<char>>) -> bool {
    (kind == SemanticSymbolKind::Method || kind == SemanticSymbolKind::InterfaceMethod) && labels.len()
        > 0 && is_receiver_label(labels[0])
}

/// Whether the argument index, shifted past an implicit receiver, stays within `u32`
/// (only a method whose first parameter is its receiver shifts it).
pub open spec fn receiver_offset_fits(symbol: SemanticSymbol, call_parameter: u32) -> bool {
    match signature_parameter_labels(symbol.signature@) {
        Some(labels) => has_implicit_receiver(symbol.kind, labels) ==> call_parameter < u32::MAX,
        None => true,
    }
}

/// The parameter that argument `call_parameter` of a call binds.
pub open spec fn bound_parameter(kind: SemanticSymbolKind, labels: Seq<Seq<char>>, call_parameter: u32) -> Option<u32> {
    let index = call_parameter + if has_implicit_receiver(kind, labels) {
        1int
    } else {
        0int
    };
    if index < labels.len() as u32 {
        Some(index as u32)
    } else {
        None
    }
}

fn is_receiver(label: &String) -> (b: bool)
    ensures
        b == is_receiver_label(label@),
{
    let v = chars_of(label.as_str());
    proof {
        reveal_strlit("self");
        reveal_strlit("self:");
        reveal_strlit("mut self:");
    }
    let exact = v.len() == 4 && v[0] == 's' && v[1] == 'e' && v[2] == 'l' && v[3] == 'f';
    if exact {
        assert(label@ =~= "self"@);
    } else {
        assert(label@ != "self"@) by {
            if label@ == "self"@ {
                assert(v@[0] == 's');
            }
        }
    }
    assert(v@.skip(0) =~= v@);
    exact || crate::symbol::chars_start_with(&v, 0, "self:") || crate::symbol::chars_start_with(
        &v,
        0,
        "mut self:",
    )
}

/// Whether `r` is the signature help for calling `symbol` with the cursor in
/// argument `call_parameter`: none for symbols that cannot be called or whose
/// signature has no parameter list; else the one signature with its documentation,
/// its parameter labels, and the parameter bound to the argument.
pub open spec fn is_help_for(symbol: SemanticSymbol, call_parameter: u32, r: Option<SignatureHelp>) -> bool {
    &&& !is_callable(symbol.kind) ==> r is None
    &&& is_callable(symbol.kind) ==> match signature_parameter_labels(symbol.signature@) {
        None => r is None,
        Some(labels) => r matches Some(help) && {
            let active = bound_parameter(symbol.kind, labels, call_parameter);
            &&& help.signatures.len() == 1
            &&& help.signatures[0].label@ == symbol.signature@
            &&& (symbol.docs@.len() == 0 ==> help.signatures[0].documentation is None)
            &&& (symbol.docs@.len() > 0 ==> (help.signatures[0].documentation matches Some(d)
                && d@ == symbol.docs@))
            &&& string_views(help.signatures[0].parameters@) == labels
            &&& help.signatures[0].active_parameter == active
            &&& help.active_signature == Some(0u32)
            &&& help.active_parameter == active
        },
    }
}

/// Signature help for calling `symbol` with the cursor in argument `call_parameter`;
/// `None` for symbols that cannot be called or whose signature has no parameter list.
pub fn signature_help_for_symbol(symbol: &SemanticSymbol, call_parameter: u32) -> (r: Option<
    SignatureHelp,
>)
    requires
        receiver_offset_fits(*symbol, call_parameter),
    ensures
        is_help_for(*symbol, call_parameter, r),
{
    let callable = match symbol.kind {
        SemanticSymbolKind::Function | SemanticSymbolKind::ExternFunction
        | SemanticSymbolKind::Method | SemanticSymbolKind::InterfaceMethod => true,
        _ => false,
    };
    if !callable {
        return None;
    }
    let labels = match parameter_labels(symbol.signature.as_str()) {
        Some(labels) => labels,
        None => return None,
    };
    let is_method = match symbol.kind {
        SemanticSymbolKind::Method | SemanticSymbolKind::InterfaceMethod => true,
        _ => false,
    };
    let implicit_receiver = is_method && labels.len() > 0 && is_receiver(&labels[0]);
    assert(labels.len() > 0 ==> string_views(labels@)[0] == labels@[0]@);
    let parameter_index = call_parameter + if implicit_receiver {
        1
    } else {
        0
    };
    let count = #[verifier::truncate] (labels.len() as u32);
    let active_parameter = if parameter_index < count {
        Some(parameter_index)
    } else {
        None
    };
    let documentation = if symbol.docs.as_str().is_empty() {
        None
    } else {
        Some(symbol.docs.clone())
    };
    let mut signatures: Vec<SignatureInformation> = Vec::new();
    signatures.push(
        SignatureInformation {
            label: symbol.signature.clone(),
            documentation,
            parameters: labels,
            active_parameter,
        },
    );
    Some(SignatureHelp { signatures, active_signature: Some(0), active_parameter })
}

/// What signature help looks up for the cursor at `position`: the zero-based
/// position of the enclosing call's callee, and the argument the cursor is in.
pub open spec fn help_target(tokens: Seq<Token>, position: Position) -> Option<(Position, u32)> {
    match active_call(tokens, position) {
        Some(c) => if c.callee_index < tokens.len() {
            let t = tokens[c.callee_index as int];
            Some(
                (
                    Position { line: token_line0(t) as u32, character: token_col0(t) as u32 },
                    c.active_parameter,
                ),
            )
        } else {
            None
        },
        None => None,
    }
}

/// Where the callee of the call enclosing `position` stands, and which argument is
/// active (see [`help_target`]); the declaration found there decides the help.
pub fn signature_help_target(tokens: &Vec<Token>, position: Position) -> (r: Option<(Position, u32)>)
    requires
        tokens.len() < u32::MAX,
    ensures
        r == help_target(tokens@, position),
{
    let call = match call_at_position(tokens, position) {
        Some(call) => call,
        None => return None,
    };
    if call.callee_index >= tokens.len() {
        return None;
    }
    let callee = &tokens[call.callee_index];
    let line = token_line_index(callee);
    let character = token_column_index(callee);
    Some(
        (
            Position { line: line as u32, character: character as u32 },
            call.active_parameter,
        ),
    )
}

/// Signature help at the cursor, given the declaration found at the callee (`None`
/// when there is none) and the active argument from [`signature_help_target`].
pub fn signature_help_for_document(symbol: Option<SemanticSymbol>, call_parameter: u32) -> (r: Option<
    SignatureHelp,
>)
    requires
        symbol matches Some(s) ==> receiver_offset_fits(s, call_parameter),
    ensures
        symbol is None ==> r is None,
        symbol matches Some(s) ==> is_help_for(s, call_parameter, r),
{
    match symbol {
        Some(s) => signature_help_for_symbol(&s, call_parameter),
        None => None,
    }
}

/// Characters that delimit or nest parameters in a parameter list.
pub open spec fn is_param_delimiter(c: char) -> bool {
    c == ',' || c == '(' || c == ')' || c == '<' || c == '>' || c == '[' || c == ']'
}

/// A label that reads back as itself: non-empty, without surrounding whitespace,
/// and without delimiters.
pub open spec fn plain_label(l: Seq<char>) -> bool {
    &&& l.len() > 0
    &&& trimmed(l) == l
    &&& forall|k: int| 0 <= k < l.len() ==> !is_param_delimiter(#[trigger] l[k])
}

proof fn lemma_plain_label_ends(l: Seq<char>)
    requires
        plain_label(l),
    ensures
        !is_unicode_whitespace(l[0]),
        !is_unicode_whitespace(l[l.len() - 1]),
        trimmed(seq![' '] + l) == l,
{
    let a = leading_ws_from(l, 0);
    lemma_leading_ws_bound(l, 0);
    if is_unicode_whitespace(l[0]) {
        lemma_leading_ws_bound(l, 1);
    }
    lemma_trailing_ws_bound(l, l.len(), a);
    if is_unicode_whitespace(l[l.len() - 1]) && l.len() > a {
        lemma_trailing_ws_bound(l, (l.len() - 1) as nat, a);
    }
    assert(trimmed(l).len() == l.len());
    let y = seq![' '] + l;
    assert(y[0] == ' ' && y[1] == l[0]);
    assert(leading_ws_from(y, 1) == 1);
    assert(leading_ws_from(y, 0) == 1);
    assert(y[y.len() - 1] == l[l.len() - 1]);
    assert(trailing_ws_to(y, y.len(), 1) == y.len());
    assert(y.subrange(1, y.len() as int) =~= l);
}

/// Scanning a stretch without delimiters at depth zero changes nothing.
proof fn lemma_split_params_skip(
    p: Seq<char>,
    i: nat,
    j: nat,
    start: nat,
    acc: Seq<Seq<char>>,
)
    requires
        i <= j <= p.len(),
        forall|k: int| i <= k < j ==> !is_param_delimiter(#[trigger] p[k]),
    ensures
        split_params(p, i, 0, 0, 0, start, acc) == split_params(p, j, 0, 0, 0, start, acc),
    decreases j - i,
{
    if i < j {
        assert(!is_param_delimiter(p[i as int]));
        lemma_split_params_skip(p, i + 1, j, start, acc);
    }
}

/// The labels `ls[..n]` joined with `", "`.
pub open spec fn joined_prefix(ls: Seq<Seq<char>>, n: nat) -> Seq<char> {
    joined(ls.take(n as int), ", "@)
}

proof fn lemma_joined_step(ls: Seq<Seq<char>>, n: nat)
    requires
        1 <= n < ls.len(),
    ensures
        joined_prefix(ls, n + 1) == joined_prefix(ls, n) + ", "@ + ls[n as int],
{
    assert(ls.take((n + 1) as int).drop_last() =~= ls.take(n as int));
}

/// Scanning the joined labels `ls[..n]` (followed by anything) reaches the end of
/// the last of them with the first `n - 1` labels split off and the last one's
/// segment (itself, or after the separator's space) pending.
proof fn lemma_split_joined(ls: Seq<Seq<char>>, n: nat, t: Seq<char>)
    requires
        1 <= n <= ls.len(),
        forall|k: int| 0 <= k < ls.len() ==> plain_label(#[trigger] ls[k]),
    ensures
        ({
            let pn = joined_prefix(ls, n);
            let p = pn + t;
            let st: nat = if n == 1 {
                0
            } else {
                (joined_prefix(ls, (n - 1) as nat).len() + 1) as nat
            };
            &&& st <= pn.len()
            &&& trimmed(p.subrange(st as int, pn.len() as int)) == ls[n - 1]
            &&& split_params(p, 0, 0, 0, 0, 0, Seq::empty()) == split_params(
                p,
                pn.len(),
                0,
                0,
                0,
                st,
                ls.take(n - 1),
            )
            &&& forall|k: int| 0 <= k < pn.len() ==> #[trigger] pn[k] != '(' && pn[k] != ')'
        }),
    decreases n,
{
    reveal_strlit(", ");
    let pn = joined_prefix(ls, n);
    let p = pn + t;
    if n == 1 {
        assert(ls.take(1) =~= seq![ls[0]]);
        assert(pn == ls[0]);
        assert(plain_label(ls[0]));
        lemma_split_params_skip(p, 0, pn.len(), 0, Seq::empty());
        assert(p.subrange(0, pn.len() as int) =~= ls[0]);
        assert(trimmed(ls[0]) == ls[0]);
        assert(ls.take(0) =~= Seq::<Seq<char>>::empty());
    } else {
        let m = (n - 1) as nat;
        lemma_joined_step(ls, m);
        let pm = joined_prefix(ls, m);
        let x = ls[m as int];
        assert(plain_label(x));
        lemma_plain_label_ends(x);
        let rest = ", "@ + x + t;
        assert(p =~= pm + rest);
        lemma_split_joined(ls, m, rest);
        let stm: nat = if m == 1 {
            0
        } else {
            (joined_prefix(ls, (m - 1) as nat).len() + 1) as nat
        };
        assert(p.subrange(stm as int, pm.len() as int) =~= (pm + rest).subrange(stm as int, pm.len() as int));
        assert(p[pm.len() as int] == ',');
        let after = ls.take(m - 1).push(trimmed(p.subrange(stm as int, pm.len() as int)));
        assert(after =~= ls.take(m as int));
        assert(split_params(p, pm.len(), 0, 0, 0, stm, ls.take(m - 1)) == split_params(
            p,
            pm.len() + 1,
            0,
            0,
            0,
            pm.len() + 1,
            after,
        ));
        assert forall|k: int| pm.len() + 1 <= k < pn.len() implies !is_param_delimiter(#[trigger] p[k]) by {
            if k == pm.len() + 1 {
                assert(p[k] == ' ');
            } else {
                assert(p[k] == x[k - pm.len() - 2]);
            }
        }
        lemma_split_params_skip(p, pm.len() + 1, pn.len(), pm.len() + 1, ls.take(m as int));
        assert(p.subrange((pm.len() + 1) as int, pn.len() as int) =~= seq![' '] + x);
        assert forall|k: int| 0 <= k < pn.len() implies #[trigger] pn[k] != '(' && pn[k] != ')' by {
            if k < pm.len() {
                assert(pn[k] == pm[k]);
            } else if k >= pm.len() + 2 {
                assert(pn[k] == x[k - pm.len() - 2]);
                assert(!is_param_delimiter(x[k - pm.len() - 2]));
            }
        }
    }
}

/// Labels without delimiters or surrounding whitespace, written as a signature's
/// parameter list (joined with `", "`), read back as the same labels.
pub proof fn lemma_parameter_labels_round_trip(ls: Seq<Seq<char>>)
    requires
        forall|k: int| 0 <= k < ls.len() ==> plain_label(#[trigger] ls[k]),
    ensures
        signature_parameter_labels("fn f("@ + joined(ls, ", "@) + ") -> i64"@) == Some(ls),
{
    reveal_strlit("fn f(");
    reveal_strlit(") -> i64");
    let j = joined(ls, ", "@);
    let s = "fn f("@ + j + ") -> i64"@;
    assert(s[0] == 'f' && s[1] == 'n' && s[2] == ' ' && s[3] == 'f' && s[4] == '(');
    assert(first_index_of(s, '(', 4) == Some(4nat));
    assert(first_index_of(s, '(', 3) == Some(4nat));
    assert(first_index_of(s, '(', 2) == Some(4nat));
    assert(first_index_of(s, '(', 1) == Some(4nat));
    assert(first_index_of(s, '(', 0) == Some(4nat));
    assert(ls.take(ls.len() as int) =~= ls);
    if ls.len() > 0 {
        lemma_split_joined(ls, ls.len(), Seq::empty());
    }
    assert forall|k: int| 0 <= k < j.len() implies #[trigger] j[k] != '(' && j[k] != ')' by {
        if ls.len() > 0 {
            assert(joined_prefix(ls, ls.len()) == j);
        }
    }
    assert(s.subrange(5, (5 + j.len()) as int) =~= j);
    lemma_matching_close_run(s, 5, j);
    let close = (5 + j.len()) as nat;
    assert(s[close as int] == ')');
    assert(matching_close(s, 4, 0) == matching_close(s, 5, 1));
    assert(matching_close(s, close, 1) == Some(close));
    let params = s.subrange(5, close as int);
    assert(params =~= j);
    if ls.len() == 0 {
        assert(j.len() == 0);
        assert(trimmed(j).len() == 0);
    } else {
        let n = ls.len();
        assert(joined_prefix(ls, n as nat) == j);
        let st: nat = if n == 1 {
            0
        } else {
            (joined_prefix(ls, (n - 1) as nat).len() + 1) as nat
        };
        assert(j + Seq::<char>::empty() =~= j);
        let last = ls[n - 1];
        assert(plain_label(last));
        lemma_plain_label_ends(last);
        assert(trimmed(j.subrange(st as int, j.len() as int)) == last);
        assert(j[j.len() - 1] == last[last.len() - 1]) by {
            if n == 1 {
                assert(ls.take(1) =~= seq![ls[0]]);
            } else {
                lemma_joined_step(ls, (n - 1) as nat);
                assert(ls.take(n as int) =~= ls);
            }
        }
        lemma_leading_ws_bound(j, 0);
        lemma_trailing_ws_bound(j, j.len(), leading_ws_from(j, 0));
        assert(leading_ws_from(j, 0) < j.len()) by {
            lemma_leading_ws_not_past(j, 0, (j.len() - 1) as nat);
        }
        assert(trailing_ws_to(j, j.len(), leading_ws_from(j, 0)) == j.len());
        assert(trimmed(j).len() > 0);
        assert(split_params(j, j.len(), 0, 0, 0, st, ls.take(n - 1)) == ls.take(n - 1).push(last));
        assert(ls.take(n - 1).push(last) =~= ls);
    }
}

/// Skipping whitespace from `i` never passes a non-whitespace character at `k`.
proof fn lemma_leading_ws_not_past(s: Seq<char>, i: nat, k: nat)
    requires
        i <= k < s.len(),
        !is_unicode_whitespace(s[k as int]),
    ensures
        leading_ws_from(s, i) <= k,
    decreases k - i,
{
    if i < k && is_unicode_whitespace(s[i as int]) {
        lemma_leading_ws_not_past(s, i + 1, k);
    }
}

/// Inside a run without parentheses, the search for the closing parenthesis at
/// depth one moves to the end of the run.
proof fn lemma_matching_close_run(s: Seq<char>, from: nat, j: Seq<char>)
    requires
        from + j.len() <= s.len(),
        s.subrange(from as int, (from + j.len()) as int) == j,
        forall|k: int| 0 <= k < j.len() ==> #[trigger] j[k] != '(' && j[k] != ')',
    ensures
        matching_close(s, from, 1) == matching_close(s, from + j.len(), 1),
    decreases j.len(),
{
    if j.len() > 0 {
        assert(s[from as int] == j[0]);
        assert(j[0] != '(' && j[0] != ')');
        let rest = j.drop_first();
        assert(s.subrange((from + 1) as int, (from + 1 + rest.len()) as int) =~= rest);
        assert forall|k: int| 0 <= k < rest.len() implies #[trigger] rest[k] != '(' && rest[k] != ')' by {
            assert(rest[k] == j[k + 1]);
        }
        lemma_matching_close_run(s, from + 1, rest);
    }
}

} // verus!
