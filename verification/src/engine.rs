//! The grammar engine: a context-stack pattern-matching tokenizer working
//! line by line over arbitrary text.
//!
//! `spec_session` is the mathematical model of one tokenization session;
//! `tokenize` computes exactly what the model says, so the token sequence
//! is a function of the definition, the text and the step budget alone.
//!
//! Per line, with the cursor starting at the line's first byte:
//! the candidates are the rules of the context on top of the stack, in
//! declared order, plus that context's own end pattern; the candidate with
//! the earliest match start wins, ties go to the earlier declared rule, and
//! the end pattern loses ties to the context's own rules.  Unmatched bytes
//! in front of a winner, a line's unmatched remainder, and the line break
//! itself carry the current stack's scope path.  A zero-length winning
//! match never applies its action: the engine force-advances one byte
//! instead, so every step consumes input and the session terminates.
//! Every candidate trial costs one step of the budget; a session whose
//! budget runs out reports a timeout.

use vstd::prelude::*;
use crate::pattern::{PatElem, match_from, match_at, lemma_match_from_bounds, caps_view, substitute,
    substitute_exec};
use crate::grammar::{Rule, SyntaxDefinition, StackEntry, SpecEntry, Token, SpecToken, stack_view,
    scopes_of, scopes_of_exec, scopes_with, tokens_view, wf_def, wf_rule, wf_stack, clone_bytes};
use crate::HighlightError;

verus! {

/// What one candidate trial found: which candidate won and how much it
/// matched.  `rule` is meaningful only when `is_end` is false.
pub struct SpecFound {
    pub is_end: bool,
    pub rule: int,
    pub mlen: int,
    pub caps: Seq<(int, int)>,
}

/// Result of searching part of a line for the earliest winning candidate.
pub enum SearchResult {
    /// The step budget ran out.
    Timeout,
    /// A candidate matched, earliest at `at`.
    Found { steps: int, at: int, found: SpecFound },
    /// No candidate matched in the searched range.
    Missed { steps: int },
}

/// Result of a whole tokenization session.
pub enum SessionResult {
    /// The step budget ran out.
    Timeout,
    /// The finished token sequence.
    Done { toks: Seq<SpecToken>, steps: int },
}

/// Executable image of `SpecFound`.
pub struct Found {
    pub is_end: bool,
    pub rule: usize,
    pub mlen: usize,
    pub caps: Vec<(usize, usize)>,
}

impl View for Found {
    type V = SpecFound;

    open spec fn view(&self) -> SpecFound {
        SpecFound {
            is_end: self.is_end,
            rule: self.rule as int,
            mlen: self.mlen as int,
            caps: caps_view(self.caps@),
        }
    }
}

/// A winner and the offset it matched at.
pub struct FoundAt {
    pub at: usize,
    pub found: Found,
}

/// What an executable candidate search hands back on the non-timeout path.
pub struct SearchOut {
    pub steps: usize,
    pub winner: Option<FoundAt>,
}

/// The view of a region's optional end pattern.
pub open spec fn end_view(e: Option<Vec<PatElem>>) -> Option<Seq<PatElem>> {
    match e {
        Some(v) => Some(v@),
        None => None,
    }
}

/// The pattern a rule tries first: a plain rule's pattern, a region rule's
/// begin pattern.
pub open spec fn rule_pattern(r: Rule) -> Seq<PatElem> {
    match r {
        Rule::Plain { pat, .. } => pat@,
        Rule::Region { begin, .. } => begin@,
    }
}

/// Try the rules `rules[j..]` in declared order at offset `o`, each trial
/// costing one step of the budget.
pub open spec fn spec_try_rules(
    rules: Seq<Rule>,
    j: int,
    text: Seq<u8>,
    hi: int,
    o: int,
    steps: int,
) -> SearchResult
    decreases rules.len() - j,
{
    if j < 0 || j >= rules.len() {
        SearchResult::Missed { steps }
    } else if steps <= 0 {
        SearchResult::Timeout
    } else {
        match match_from(rule_pattern(rules[j]), 0, text, hi, o, None, Seq::empty()) {
            Some(ecv) => SearchResult::Found {
                steps: steps - 1,
                at: o,
                found: SpecFound { is_end: false, rule: j, mlen: ecv.0 - o, caps: ecv.1 },
            },
            None => spec_try_rules(rules, j + 1, text, hi, o, steps - 1),
        }
    }
}

/// Try every candidate at offset `o`: the context's rules in declared
/// order, then its own end pattern, which therefore loses ties to them.
pub open spec fn spec_try_at(
    rules: Seq<Rule>,
    endp: Option<Seq<PatElem>>,
    text: Seq<u8>,
    hi: int,
    o: int,
    steps: int,
) -> SearchResult {
    match spec_try_rules(rules, 0, text, hi, o, steps) {
        SearchResult::Timeout => SearchResult::Timeout,
        SearchResult::Found { steps, at, found } => SearchResult::Found { steps, at, found },
        SearchResult::Missed { steps: s1 } => match endp {
            None => SearchResult::Missed { steps: s1 },
            Some(ep) => if s1 <= 0 {
                SearchResult::Timeout
            } else {
                match match_from(ep, 0, text, hi, o, None, Seq::empty()) {
                    Some(ecv) => SearchResult::Found {
                        steps: s1 - 1,
                        at: o,
                        found: SpecFound {
                            is_end: true,
                            rule: 0,
                            mlen: ecv.0 - o,
                            caps: Seq::empty(),
                        },
                    },
                    None => SearchResult::Missed { steps: s1 - 1 },
                }
            },
        },
    }
}

/// The candidate with the earliest match start in `[o, hi)`; offsets are
/// searched left to right, so an earlier offset always beats a later one.
pub open spec fn spec_find(
    rules: Seq<Rule>,
    endp: Option<Seq<PatElem>>,
    text: Seq<u8>,
    hi: int,
    o: int,
    steps: int,
) -> SearchResult
    decreases hi - o,
{
    if o < 0 || o >= hi {
        SearchResult::Missed { steps }
    } else {
        match spec_try_at(rules, endp, text, hi, o, steps) {
            SearchResult::Timeout => SearchResult::Timeout,
            SearchResult::Found { steps, at, found } => SearchResult::Found { steps, at, found },
            SearchResult::Missed { steps: s1 } => spec_find(rules, endp, text, hi, o + 1, s1),
        }
    }
}

pub proof fn lemma_try_rules_bounds(
    rules: Seq<Rule>,
    j: int,
    text: Seq<u8>,
    hi: int,
    o: int,
    steps: int,
)
    requires
        0 <= o <= hi <= text.len(),
    ensures
        match spec_try_rules(rules, j, text, hi, o, steps) {
            SearchResult::Found { steps: s, at, found } => at == o && 0 <= found.mlen && o
                + found.mlen <= hi && !found.is_end && (0 <= found.rule < rules.len()),
            SearchResult::Missed { steps: s } => s <= steps,
            SearchResult::Timeout => true,
        },
    decreases rules.len() - j,
{
    if j < 0 || j >= rules.len() || steps <= 0 {
    } else {
        lemma_match_from_bounds(rule_pattern(rules[j]), 0, text, hi, o, None, Seq::empty());
        match match_from(rule_pattern(rules[j]), 0, text, hi, o, None, Seq::empty()) {
            Some(_) => {},
            None => {
                lemma_try_rules_bounds(rules, j + 1, text, hi, o, steps - 1);
            },
        }
    }
}

pub proof fn lemma_try_at_bounds(
    rules: Seq<Rule>,
    endp: Option<Seq<PatElem>>,
    text: Seq<u8>,
    hi: int,
    o: int,
    steps: int,
)
    requires
        0 <= o <= hi <= text.len(),
    ensures
        match spec_try_at(rules, endp, text, hi, o, steps) {
            SearchResult::Found { steps: s, at, found } => at == o && 0 <= found.mlen && o
                + found.mlen <= hi && (found.is_end ==> endp is Some) && (!found.is_end ==> 0
                <= found.rule < rules.len()),
            SearchResult::Missed { steps: s } => s <= steps,
            SearchResult::Timeout => true,
        },
{
    lemma_try_rules_bounds(rules, 0, text, hi, o, steps);
    match spec_try_rules(rules, 0, text, hi, o, steps) {
        SearchResult::Missed { steps: s1 } => {
            match endp {
                Some(ep) => {
                    lemma_match_from_bounds(ep, 0, text, hi, o, None, Seq::empty());
                },
                None => {},
            }
        },
        _ => {},
    }
}

pub proof fn lemma_find_bounds(
    rules: Seq<Rule>,
    endp: Option<Seq<PatElem>>,
    text: Seq<u8>,
    hi: int,
    o: int,
    steps: int,
)
    requires
        0 <= o <= hi <= text.len(),
    ensures
        match spec_find(rules, endp, text, hi, o, steps) {
            SearchResult::Found { steps: s, at, found } => o <= at < hi && 0 <= found.mlen && at
                + found.mlen <= hi && (found.is_end ==> endp is Some) && (!found.is_end ==> 0
                <= found.rule < rules.len()),
            SearchResult::Missed { steps: s } => s <= steps,
            SearchResult::Timeout => true,
        },
    decreases hi - o,
{
    if o < 0 || o >= hi {
    } else {
        lemma_try_at_bounds(rules, endp, text, hi, o, steps);
        match spec_try_at(rules, endp, text, hi, o, steps) {
            SearchResult::Missed { steps: s1 } => {
                lemma_find_bounds(rules, endp, text, hi, o + 1, s1);
            },
            _ => {},
        }
    }
}

/// First position at or after `pos` holding a line break, or the text's
/// length if the rest of the text is one unbroken line.
pub open spec fn content_end(text: Seq<u8>, pos: int) -> int
    decreases text.len() - pos,
{
    if pos < 0 || pos >= text.len() {
        text.len() as int
    } else if text[pos] == 10 {
        pos
    } else {
        content_end(text, pos + 1)
    }
}

pub proof fn lemma_content_end_bounds(text: Seq<u8>, pos: int)
    requires
        0 <= pos <= text.len(),
    ensures
        pos <= content_end(text, pos) <= text.len(),
        content_end(text, pos) < text.len() ==> text[content_end(text, pos)] == 10,
        forall|k: int| pos <= k < content_end(text, pos) ==> text[k] != 10,
    decreases text.len() - pos,
{
    if pos < text.len() && text[pos] != 10 {
        lemma_content_end_bounds(text, pos + 1);
    }
}

/// The stack a session starts from: the root context alone, carrying the
/// definition's root scope, with no end pattern.
pub open spec fn root_stack(def: SyntaxDefinition) -> Seq<SpecEntry> {
    seq![SpecEntry { ctx: 0, scope: def.scope@, end: None }]
}

/// The mathematical model of one tokenization session from position `pos`
/// with `acc` already emitted: the algorithm of the module comment.
pub open spec fn spec_session(
    def: SyntaxDefinition,
    stack: Seq<SpecEntry>,
    text: Seq<u8>,
    pos: int,
    steps: int,
    acc: Seq<SpecToken>,
) -> SessionResult
    decreases text.len() - pos,
        when wf_stack(def, stack) && 0 <= pos <= text.len()
        via spec_session_dec
{
    if pos < 0 || pos >= text.len() {
        SessionResult::Done { toks: acc, steps }
    } else {
        let ce = content_end(text, pos);
        let le: int = if ce < text.len() {
            ce + 1
        } else {
            ce
        };
        if pos == ce {
            // the line's content is exhausted; its break carries the
            // current scope path
            spec_session(
                def,
                stack,
                text,
                pos + 1,
                steps,
                acc.push(SpecToken { start: pos, end: pos + 1, scopes: scopes_of(stack) }),
            )
        } else {
            let top = stack.last();
            let rules = def.contexts@[top.ctx].rules@;
            match spec_find(rules, top.end, text, ce, pos, steps) {
                SearchResult::Timeout => SessionResult::Timeout,
                SearchResult::Missed { steps: s1 } => spec_session(
                    def,
                    stack,
                    text,
                    le,
                    s1,
                    acc.push(SpecToken { start: pos, end: le, scopes: scopes_of(stack) }),
                ),
                SearchResult::Found { steps: s1, at, found } => {
                    let acc1 = if at > pos {
                        acc.push(SpecToken { start: pos, end: at, scopes: scopes_of(stack) })
                    } else {
                        acc
                    };
                    if found.mlen == 0 {
                        // a zero-length winner: force-advance one byte
                        spec_session(
                            def,
                            stack,
                            text,
                            at + 1,
                            s1,
                            acc1.push(
                                SpecToken { start: at, end: at + 1, scopes: scopes_of(stack) },
                            ),
                        )
                    } else if found.is_end {
                        spec_session(
                            def,
                            stack.drop_last(),
                            text,
                            at + found.mlen,
                            s1,
                            acc1.push(
                                SpecToken {
                                    start: at,
                                    end: at + found.mlen,
                                    scopes: scopes_of(stack),
                                },
                            ),
                        )
                    } else {
                        match rules[found.rule] {
                            Rule::Plain { scope, .. } => spec_session(
                                def,
                                stack,
                                text,
                                at + found.mlen,
                                s1,
                                acc1.push(
                                    SpecToken {
                                        start: at,
                                        end: at + found.mlen,
                                        scopes: scopes_of(stack).push(scope@),
                                    },
                                ),
                            ),
                            Rule::Region { end, scope, child, .. } => spec_session(
                                def,
                                stack.push(
                                    SpecEntry {
                                        ctx: child as int,
                                        scope: scope@,
                                        end: Some(substitute(end@, text, found.caps)),
                                    },
                                ),
                                text,
                                at + found.mlen,
                                s1,
                                acc1.push(
                                    SpecToken {
                                        start: at,
                                        end: at + found.mlen,
                                        scopes: scopes_of(stack).push(scope@),
                                    },
                                ),
                            ),
                        }
                    }
                },
            }
        }
    }
}

#[via_fn]
proof fn spec_session_dec(
    def: SyntaxDefinition,
    stack: Seq<SpecEntry>,
    text: Seq<u8>,
    pos: int,
    steps: int,
    acc: Seq<SpecToken>,
) {
    if 0 <= pos < text.len() {
        lemma_content_end_bounds(text, pos);
        let ce = content_end(text, pos);
        if pos != ce {
            let top = stack.last();
            let rules = def.contexts@[top.ctx].rules@;
            lemma_find_bounds(rules, top.end, text, ce, pos, steps);
        }
    }
}

/// The whole session, dropping the leftover budget: what `tokenize`
/// computes.
pub open spec fn spec_tokenize(def: SyntaxDefinition, text: Seq<u8>, steps: int) -> Result<
    Seq<SpecToken>,
    (),
> {
    match spec_session(def, root_stack(def), text, 0, steps, Seq::empty()) {
        SessionResult::Done { toks, .. } => Ok(toks),
        SessionResult::Timeout => Err(()),
    }
}

/// A stack as the executable engine keeps it: the root entry never ends,
/// every pushed region carries an end pattern.  It follows that a stack
/// about to pop (its top has an end pattern) holds at least two entries.
pub open spec fn rooted(stack: Seq<SpecEntry>) -> bool {
    &&& stack.len() >= 1
    &&& stack[0].end is None
    &&& forall|k: int| 1 <= k < stack.len() ==> (#[trigger] stack[k]).end is Some
}

/// Tokens tile `[lo, hi)` exactly: each is non-empty, the first starts at
/// `lo`, each starts where its predecessor ended, and the last ends at
/// `hi` — no gaps, no overlaps.
pub open spec fn tokens_tile(toks: Seq<SpecToken>, lo: int, hi: int) -> bool {
    &&& (forall|k: int| 0 <= k < toks.len() ==> (#[trigger] toks[k]).start < toks[k].end)
    &&& (toks.len() == 0 ==> lo == hi)
    &&& (toks.len() > 0 ==> toks[0].start == lo && toks[toks.len() - 1].end == hi)
    &&& (forall|k: int| 0 <= k < toks.len() - 1 ==> (#[trigger] toks[k]).end == toks[k + 1].start)
}

/// A token never runs across a line break: a break can stand only as its
/// last byte.
pub open spec fn token_in_line(t: SpecToken, text: Seq<u8>) -> bool {
    forall|p: int| t.start <= p < t.end - 1 ==> text[p] != 10
}

pub open spec fn tokens_in_lines(toks: Seq<SpecToken>, text: Seq<u8>) -> bool {
    forall|k: int| 0 <= k < toks.len() ==> token_in_line(#[trigger] toks[k], text)
}

/// The concatenation of the token texts, in emission order.
pub open spec fn concat_texts(toks: Seq<SpecToken>, text: Seq<u8>) -> Seq<u8>
    decreases toks.len(),
{
    if toks.len() == 0 {
        Seq::empty()
    } else {
        concat_texts(toks.drop_last(), text) + text.subrange(toks.last().start, toks.last().end)
    }
}

/// Appending a non-empty token that starts where the tiling ended keeps it
/// a tiling.
proof fn lemma_tile_push(acc: Seq<SpecToken>, lo: int, hi: int, t: SpecToken, text: Seq<u8>)
    requires
        tokens_tile(acc, lo, hi),
        tokens_in_lines(acc, text),
        t.start == hi,
        t.start < t.end,
        token_in_line(t, text),
    ensures
        tokens_tile(acc.push(t), lo, t.end),
        tokens_in_lines(acc.push(t), text),
{
    let r = acc.push(t);
    assert(forall|k: int| 0 <= k < acc.len() ==> r[k] == acc[k]);
    assert(r[r.len() - 1] == t);
}

/// Tokens that tile a range concatenate to exactly that range of the text.
pub proof fn lemma_tile_concat(toks: Seq<SpecToken>, text: Seq<u8>, lo: int, hi: int)
    requires
        tokens_tile(toks, lo, hi),
        0 <= lo,
        hi <= text.len(),
    ensures
        lo <= hi,
        concat_texts(toks, text) == text.subrange(lo, hi),
    decreases toks.len(),
{
    if toks.len() == 0 {
        assert(concat_texts(toks, text) =~= text.subrange(lo, hi));
    } else {
        let m = toks.last().start;
        assert(toks.last().end == hi);
        let front = toks.drop_last();
        assert(forall|k: int| 0 <= k < front.len() ==> front[k] == toks[k]);
        if front.len() > 0 {
            assert(toks[toks.len() - 2].end == toks[toks.len() - 1].start);
        }
        assert(tokens_tile(front, lo, m));
        lemma_tile_concat(front, text, lo, m);
        assert(text.subrange(lo, hi) =~= text.subrange(lo, m) + text.subrange(m, hi));
    }
}

/// Every token of a tiling lies inside the tiled range.
pub proof fn lemma_tile_bounds(toks: Seq<SpecToken>, lo: int, hi: int)
    requires
        tokens_tile(toks, lo, hi),
    ensures
        lo <= hi,
        forall|k: int| 0 <= k < toks.len() ==> lo <= (#[trigger] toks[k]).start < toks[k].end
            <= hi,
    decreases toks.len(),
{
    if toks.len() > 0 {
        let front = toks.drop_last();
        let m = toks.last().start;
        assert(forall|k: int| 0 <= k < front.len() ==> front[k] == toks[k]);
        if front.len() > 0 {
            assert(toks[toks.len() - 2].end == toks[toks.len() - 1].start);
        }
        assert(tokens_tile(front, lo, m));
        lemma_tile_bounds(front, lo, m);
    }
}

/// The session only ever extends a tiling: whatever it finishes with tiles
/// the whole text and respects line boundaries.
proof fn lemma_session_tiles(
    def: SyntaxDefinition,
    stack: Seq<SpecEntry>,
    text: Seq<u8>,
    pos: int,
    steps: int,
    acc: Seq<SpecToken>,
)
    requires
        wf_def(def),
        wf_stack(def, stack),
        rooted(stack),
        0 <= pos <= text.len(),
        tokens_tile(acc, 0, pos),
        tokens_in_lines(acc, text),
    ensures
        match spec_session(def, stack, text, pos, steps, acc) {
            SessionResult::Done { toks, .. } => tokens_tile(toks, 0, text.len() as int)
                && tokens_in_lines(toks, text),
            SessionResult::Timeout => true,
        },
    decreases text.len() - pos,
{
    if pos >= text.len() {
    } else {
        lemma_content_end_bounds(text, pos);
        let ce = content_end(text, pos);
        let le: int = if ce < text.len() {
            ce + 1
        } else {
            ce
        };
        if pos == ce {
            let t = SpecToken { start: pos, end: pos + 1, scopes: scopes_of(stack) };
            lemma_tile_push(acc, 0, pos, t, text);
            lemma_session_tiles(def, stack, text, pos + 1, steps, acc.push(t));
        } else {
            let top = stack.last();
            let rules = def.contexts@[top.ctx].rules@;
            lemma_find_bounds(rules, top.end, text, ce, pos, steps);
            match spec_find(rules, top.end, text, ce, pos, steps) {
                SearchResult::Timeout => {},
                SearchResult::Missed { steps: s1 } => {
                    let t = SpecToken { start: pos, end: le, scopes: scopes_of(stack) };
                    assert(token_in_line(t, text));
                    lemma_tile_push(acc, 0, pos, t, text);
                    lemma_session_tiles(def, stack, text, le, s1, acc.push(t));
                },
                SearchResult::Found { steps: s1, at, found } => {
                    let acc1 = if at > pos {
                        let g = SpecToken { start: pos, end: at, scopes: scopes_of(stack) };
                        assert(token_in_line(g, text));
                        lemma_tile_push(acc, 0, pos, g, text);
                        acc.push(g)
                    } else {
                        acc
                    };
                    assert(tokens_tile(acc1, 0, at));
                    if found.mlen == 0 {
                        let t = SpecToken { start: at, end: at + 1, scopes: scopes_of(stack) };
                        assert(token_in_line(t, text));
                        lemma_tile_push(acc1, 0, at, t, text);
                        lemma_session_tiles(def, stack, text, at + 1, s1, acc1.push(t));
                    } else if found.is_end {
                        let t = SpecToken {
                            start: at,
                            end: at + found.mlen,
                            scopes: scopes_of(stack),
                        };
                        assert(token_in_line(t, text));
                        lemma_tile_push(acc1, 0, at, t, text);
                        assert(stack.len() >= 2);
                        assert(wf_stack(def, stack.drop_last()));
                        assert(rooted(stack.drop_last()));
                        lemma_session_tiles(
                            def,
                            stack.drop_last(),
                            text,
                            at + found.mlen,
                            s1,
                            acc1.push(t),
                        );
                    } else {
                        assert(wf_rule(def, def.contexts@[top.ctx].rules@[found.rule]));
                        match rules[found.rule] {
                            Rule::Plain { scope, .. } => {
                                let t = SpecToken {
                                    start: at,
                                    end: at + found.mlen,
                                    scopes: scopes_of(stack).push(scope@),
                                };
                                assert(token_in_line(t, text));
                                lemma_tile_push(acc1, 0, at, t, text);
                                lemma_session_tiles(
                                    def,
                                    stack,
                                    text,
                                    at + found.mlen,
                                    s1,
                                    acc1.push(t),
                                );
                            },
                            Rule::Region { end, scope, child, .. } => {
                                let t = SpecToken {
                                    start: at,
                                    end: at + found.mlen,
                                    scopes: scopes_of(stack).push(scope@),
                                };
                                assert(token_in_line(t, text));
                                lemma_tile_push(acc1, 0, at, t, text);
                                let entry = SpecEntry {
                                    ctx: child as int,
                                    scope: scope@,
                                    end: Some(substitute(end@, text, found.caps)),
                                };
                                assert(wf_stack(def, stack.push(entry)));
                                assert(rooted(stack.push(entry)));
                                lemma_session_tiles(
                                    def,
                                    stack.push(entry),
                                    text,
                                    at + found.mlen,
                                    s1,
                                    acc1.push(t),
                                );
                            },
                        }
                    }
                },
            }
        }
    }
}

/// For every grammar and every input, the tokens of a completed session
/// tile the text exactly: non-empty, sorted, gap-free and overlap-free,
/// they concatenate back to the very input, and none runs across a line
/// break — so the tokens of each line tile that line.
pub proof fn lemma_tokenize_tiles(
    def: SyntaxDefinition,
    text: Seq<u8>,
    steps: int,
    toks: Seq<SpecToken>,
)
    requires
        wf_def(def),
        spec_tokenize(def, text, steps) == Ok::<Seq<SpecToken>, ()>(toks),
    ensures
        tokens_tile(toks, 0, text.len() as int),
        tokens_in_lines(toks, text),
        concat_texts(toks, text) == text,
{
    lemma_session_tiles(def, root_stack(def), text, 0, steps, Seq::empty());
    lemma_tile_concat(toks, text, 0, text.len() as int);
    assert(text.subrange(0, text.len() as int) =~= text);
}

/// Tokenization is deterministic: the token sequence is a function of the
/// definition, the text and the step budget alone, so any two results of
/// `tokenize` on identical arguments are identical.
pub proof fn lemma_tokenize_deterministic(
    def: SyntaxDefinition,
    text: Seq<u8>,
    steps: int,
    r1: Seq<SpecToken>,
    r2: Seq<SpecToken>,
)
    requires
        spec_tokenize(def, text, steps) == Ok::<Seq<SpecToken>, ()>(r1),
        spec_tokenize(def, text, steps) == Ok::<Seq<SpecToken>, ()>(r2),
    ensures
        r1 == r2,
{
}

/// Where a context offers no candidate at all, the search finds nothing
/// and costs nothing.
proof fn lemma_find_nothing(
    rules: Seq<Rule>,
    endp: Option<Seq<PatElem>>,
    text: Seq<u8>,
    hi: int,
    o: int,
    steps: int,
)
    requires
        rules.len() == 0,
        (endp is None),
    ensures
        spec_find(rules, endp, text, hi, o, steps) == (SearchResult::Missed { steps }),
    decreases hi - o,
{
    if 0 <= o < hi {
        lemma_find_nothing(rules, endp, text, hi, o + 1, steps);
    }
}

/// One token per line, each spanning the whole line (break included) and
/// carrying exactly the scope path `scope`: what a patternless grammar
/// emits.
pub open spec fn plain_tokens(scope: Seq<Seq<u8>>, text: Seq<u8>, pos: int) -> Seq<SpecToken>
    decreases text.len() - pos,
        when 0 <= pos <= text.len()
        via plain_tokens_dec
{
    if pos >= text.len() {
        Seq::empty()
    } else {
        let ce = content_end(text, pos);
        let le: int = if ce < text.len() {
            ce + 1
        } else {
            ce
        };
        seq![SpecToken { start: pos, end: le, scopes: scope }] + plain_tokens(scope, text, le)
    }
}

#[via_fn]
proof fn plain_tokens_dec(scope: Seq<Seq<u8>>, text: Seq<u8>, pos: int) {
    if 0 <= pos < text.len() {
        lemma_content_end_bounds(text, pos);
    }
}

/// A session whose active context has no rules and no end pattern emits
/// exactly one token per line, scoped to the stack's path, and never
/// times out.
proof fn lemma_plain_session(
    def: SyntaxDefinition,
    stack: Seq<SpecEntry>,
    text: Seq<u8>,
    pos: int,
    steps: int,
    acc: Seq<SpecToken>,
)
    requires
        wf_stack(def, stack),
        0 <= pos <= text.len(),
        def.contexts@[stack.last().ctx].rules@.len() == 0,
        (stack.last().end is None),
    ensures
        spec_session(def, stack, text, pos, steps, acc) == (SessionResult::Done {
            toks: acc + plain_tokens(scopes_of(stack), text, pos),
            steps,
        }),
    decreases text.len() - pos,
{
    if pos >= text.len() {
        assert(acc + plain_tokens(scopes_of(stack), text, pos) =~= acc);
    } else {
        lemma_content_end_bounds(text, pos);
        let ce = content_end(text, pos);
        let le: int = if ce < text.len() {
            ce + 1
        } else {
            ce
        };
        let t = SpecToken { start: pos, end: le, scopes: scopes_of(stack) };
        if pos == ce {
            assert(le == pos + 1);
            lemma_plain_session(def, stack, text, pos + 1, steps, acc.push(t));
        } else {
            let top = stack.last();
            let rules = def.contexts@[top.ctx].rules@;
            lemma_find_nothing(rules, top.end, text, ce, pos, steps);
            lemma_plain_session(def, stack, text, le, steps, acc.push(t));
        }
        assert(acc.push(t) + plain_tokens(scopes_of(stack), text, le) =~= acc + (seq![t]
            + plain_tokens(scopes_of(stack), text, le)));
    }
}

/// The plain-text law: under a definition whose root context holds no
/// rules, tokenizing any input never times out and yields exactly one
/// token per line, scoped to the root scope alone.
pub proof fn lemma_plain_text_tokenize(def: SyntaxDefinition, text: Seq<u8>, steps: int)
    requires
        wf_def(def),
        def.contexts@[0].rules@.len() == 0,
    ensures
        spec_tokenize(def, text, steps) == Ok::<Seq<SpecToken>, ()>(
            plain_tokens(seq![def.scope@], text, 0),
        ),
{
    lemma_plain_session(def, root_stack(def), text, 0, steps, Seq::empty());
    assert(scopes_of(root_stack(def)) =~= seq![def.scope@]);
    assert(Seq::<SpecToken>::empty() + plain_tokens(seq![def.scope@], text, 0) =~= plain_tokens(
        seq![def.scope@],
        text,
        0,
    ));
}

/// Executable twin of `content_end`.
pub fn content_end_exec(text: &Vec<u8>, pos: usize) -> (r: usize)
    requires
        pos <= text.len(),
    ensures
        r == content_end(text@, pos as int),
        pos <= r <= text.len(),
{
    let mut p: usize = pos;
    while p < text.len()
        invariant
            pos <= p <= text.len(),
            content_end(text@, pos as int) == content_end(text@, p as int),
        decreases text.len() - p,
    {
        if text[p] == 10 {
            proof {
                lemma_content_end_bounds(text@, p as int);
            }
            return p;
        }
        p = p + 1;
    }
    p
}

/// Executable twin of `spec_try_rules` started at the first rule.
fn try_rules_exec(rules: &Vec<Rule>, text: &Vec<u8>, hi: usize, o: usize, steps: usize) -> (r:
    Result<SearchOut, ()>)
    requires
        o <= hi <= text.len(),
    ensures
        match r {
            Ok(t) => spec_try_rules(rules@, 0, text@, hi as int, o as int, steps as int) == (
            match t.winner {
                Some(fa) => SearchResult::Found {
                    steps: t.steps as int,
                    at: fa.at as int,
                    found: fa.found@,
                },
                None => SearchResult::Missed { steps: t.steps as int },
            }),
            Err(_) => spec_try_rules(rules@, 0, text@, hi as int, o as int, steps as int)
                == SearchResult::Timeout,
        },
{
    let mut j: usize = 0;
    let mut s: usize = steps;
    while j < rules.len()
        invariant
            j <= rules.len(),
            o <= hi <= text.len(),
            spec_try_rules(rules@, 0, text@, hi as int, o as int, steps as int) == spec_try_rules(
                rules@,
                j as int,
                text@,
                hi as int,
                o as int,
                s as int,
            ),
        decreases rules.len() - j,
    {
        if s == 0 {
            return Err(());
        }
        let pat = match &rules[j] {
            Rule::Plain { pat, .. } => pat,
            Rule::Region { begin, .. } => begin,
        };
        proof {
            assert(pat@ == rule_pattern(rules@[j as int]));
            assert(caps_view(Seq::empty()) =~= Seq::<(int, int)>::empty());
        }
        let m = match_at(pat, 0, text, hi, o, None, Vec::new());
        match m {
            Some(ecv) => {
                let found = Found { is_end: false, rule: j, mlen: ecv.0 - o, caps: ecv.1 };
                proof {
                    assert(spec_try_rules(rules@, j as int, text@, hi as int, o as int, s as int)
                        == SearchResult::Found {
                        steps: s - 1,
                        at: o as int,
                        found: found@,
                    });
                }
                return Ok(SearchOut { steps: s - 1, winner: Some(FoundAt { at: o, found }) });
            },
            None => {
                proof {
                    assert(spec_try_rules(rules@, j as int, text@, hi as int, o as int, s as int)
                        == spec_try_rules(rules@, j + 1, text@, hi as int, o as int, s - 1));
                }
                s = s - 1;
                j = j + 1;
            },
        }
    }
    Ok(SearchOut { steps: s, winner: None })
}

/// Executable twin of `spec_try_at`.
fn try_at_exec(
    rules: &Vec<Rule>,
    endp: &Option<Vec<PatElem>>,
    text: &Vec<u8>,
    hi: usize,
    o: usize,
    steps: usize,
) -> (r: Result<SearchOut, ()>)
    requires
        o <= hi <= text.len(),
    ensures
        match r {
            Ok(t) => spec_try_at(
                rules@,
                end_view(*endp),
                text@,
                hi as int,
                o as int,
                steps as int,
            ) == (match t.winner {
                Some(fa) => SearchResult::Found {
                    steps: t.steps as int,
                    at: fa.at as int,
                    found: fa.found@,
                },
                None => SearchResult::Missed { steps: t.steps as int },
            }),
            Err(_) => spec_try_at(rules@, end_view(*endp), text@, hi as int, o as int, steps as int)
                == SearchResult::Timeout,
        },
{
    let t = match try_rules_exec(rules, text, hi, o, steps) {
        Err(_) => {
            return Err(());
        },
        Ok(t) => t,
    };
    match t.winner {
        Some(fa) => Ok(SearchOut { steps: t.steps, winner: Some(fa) }),
        None => {
            match endp {
                None => Ok(SearchOut { steps: t.steps, winner: None }),
                Some(ep) => {
                    if t.steps == 0 {
                        return Err(());
                    }
                    proof {
                        assert(caps_view(Seq::empty()) =~= Seq::<(int, int)>::empty());
                    }
                    let m = match_at(ep, 0, text, hi, o, None, Vec::new());
                    match m {
                        Some(ecv) => {
                            let found = Found {
                                is_end: true,
                                rule: 0,
                                mlen: ecv.0 - o,
                                caps: Vec::new(),
                            };
                            proof {
                                assert(found@.caps =~= Seq::<(int, int)>::empty());
                            }
                            Ok(
                                SearchOut {
                                    steps: t.steps - 1,
                                    winner: Some(FoundAt { at: o, found }),
                                },
                            )
                        },
                        None => Ok(SearchOut { steps: t.steps - 1, winner: None }),
                    }
                },
            }
        },
    }
}

/// Executable twin of `spec_find`: the earliest winning candidate in
/// `[o, hi)`.
fn find_exec(
    rules: &Vec<Rule>,
    endp: &Option<Vec<PatElem>>,
    text: &Vec<u8>,
    hi: usize,
    o: usize,
    steps: usize,
) -> (r: Result<SearchOut, ()>)
    requires
        o <= hi <= text.len(),
    ensures
        match r {
            Ok(t) => spec_find(rules@, end_view(*endp), text@, hi as int, o as int, steps as int)
                == (match t.winner {
                Some(fa) => SearchResult::Found {
                    steps: t.steps as int,
                    at: fa.at as int,
                    found: fa.found@,
                },
                None => SearchResult::Missed { steps: t.steps as int },
            }),
            Err(_) => spec_find(rules@, end_view(*endp), text@, hi as int, o as int, steps as int)
                == SearchResult::Timeout,
        },
{
    let mut p: usize = o;
    let mut s: usize = steps;
    while p < hi
        invariant
            o <= p <= hi <= text.len(),
            spec_find(rules@, end_view(*endp), text@, hi as int, o as int, steps as int)
                == spec_find(rules@, end_view(*endp), text@, hi as int, p as int, s as int),
        decreases hi - p,
    {
        let t = match try_at_exec(rules, endp, text, hi, p, s) {
            Err(_) => {
                return Err(());
            },
            Ok(t) => t,
        };
        match t.winner {
            Some(fa) => {
                return Ok(SearchOut { steps: t.steps, winner: Some(fa) });
            },
            None => {
                s = t.steps;
                p = p + 1;
            },
        }
    }
    Ok(SearchOut { steps: s, winner: None })
}

/// Tokenize `text` under `def`, spending at most `steps` candidate trials:
/// computes exactly what `spec_tokenize` says, so the token sequence is a
/// function of `(def, text, steps)` alone.  When the budget runs out the
/// call fails with `TokenizerTimeout` and nothing else.
pub fn tokenize(def: &SyntaxDefinition, text: &Vec<u8>, steps: usize) -> (r: Result<
    Vec<Token>,
    HighlightError,
>)
    requires
        wf_def(*def),
    ensures
        match r {
            Ok(toks) => spec_tokenize(*def, text@, steps as int) == Ok::<Seq<SpecToken>, ()>(
                tokens_view(toks@),
            ),
            Err(e) => spec_tokenize(*def, text@, steps as int) == Err::<Seq<SpecToken>, ()>(())
                && e == HighlightError::TokenizerTimeout,
        },
{
    let mut stack: Vec<StackEntry> = Vec::new();
    stack.push(StackEntry { ctx: 0, scope: clone_bytes(&def.scope), end: None });
    proof {
        assert(stack_view(stack@) =~= root_stack(*def));
        assert(wf_stack(*def, stack_view(stack@)));
        assert(rooted(stack_view(stack@)));
    }
    let mut toks: Vec<Token> = Vec::new();
    let mut pos: usize = 0;
    let mut s: usize = steps;
    proof {
        assert(tokens_view(toks@) =~= Seq::<SpecToken>::empty());
    }
    while pos < text.len()
        invariant
            wf_def(*def),
            pos <= text.len(),
            wf_stack(*def, stack_view(stack@)),
            rooted(stack_view(stack@)),
            spec_session(
                *def,
                stack_view(stack@),
                text@,
                pos as int,
                s as int,
                tokens_view(toks@),
            ) == spec_session(*def, root_stack(*def), text@, 0, steps as int, Seq::empty()),
        decreases text.len() - pos,
    {
        let ghost stk0 = stack_view(stack@);
        let ghost acc0 = tokens_view(toks@);
        let ce = content_end_exec(text, pos);
        proof {
            lemma_content_end_bounds(text@, pos as int);
        }
        let le: usize = if ce < text.len() {
            ce + 1
        } else {
            ce
        };
        if pos == ce {
            let tok = Token { start: pos, end: pos + 1, scopes: scopes_of_exec(&stack) };
            proof {
                assert(tok@ == SpecToken {
                    start: pos as int,
                    end: pos as int + 1,
                    scopes: scopes_of(stk0),
                });
                assert(tokens_view(toks@.push(tok)) =~= acc0.push(tok@));
            }
            toks.push(tok);
            pos = pos + 1;
        } else {
            let idx = stack.len() - 1;
            let top_ctx = stack[idx].ctx;
            proof {
                assert(stack_view(stack@)[idx as int] == stack@[idx as int]@);
                assert(stk0.last() == stack@[idx as int]@);
                assert(0 <= top_ctx < def.contexts.len());
            }
            let fr = {
                let top = &stack[idx];
                find_exec(&def.contexts[top_ctx].rules, &top.end, text, ce, pos, s)
            };
            let ghost rules = def.contexts@[top_ctx as int].rules@;
            let ghost endp = stk0.last().end;
            proof {
                assert(end_view(stack@[idx as int].end) == endp);
                lemma_find_bounds(rules, endp, text@, ce as int, pos as int, s as int);
            }
            let t = match fr {
                Err(_) => {
                    proof {
                        assert(spec_session(*def, stk0, text@, pos as int, s as int, acc0)
                            == SessionResult::Timeout);
                    }
                    return Err(HighlightError::TokenizerTimeout);
                },
                Ok(t) => t,
            };
            match t.winner {
                None => {
                    let tok = Token { start: pos, end: le, scopes: scopes_of_exec(&stack) };
                    proof {
                        assert(tok@ == SpecToken {
                            start: pos as int,
                            end: le as int,
                            scopes: scopes_of(stk0),
                        });
                        assert(tokens_view(toks@.push(tok)) =~= acc0.push(tok@));
                    }
                    toks.push(tok);
                    pos = le;
                    s = t.steps;
                },
                Some(fa) => {
                    let at = fa.at;
                    let f = fa.found;
                    if at > pos {
                        let gap = Token { start: pos, end: at, scopes: scopes_of_exec(&stack) };
                        proof {
                            assert(gap@ == SpecToken {
                                start: pos as int,
                                end: at as int,
                                scopes: scopes_of(stk0),
                            });
                            assert(tokens_view(toks@.push(gap)) =~= acc0.push(gap@));
                        }
                        toks.push(gap);
                    }
                    let ghost acc1 = tokens_view(toks@);
                    if f.mlen == 0 {
                        let tok = Token { start: at, end: at + 1, scopes: scopes_of_exec(&stack) };
                        proof {
                            assert(tok@ == SpecToken {
                                start: at as int,
                                end: at as int + 1,
                                scopes: scopes_of(stk0),
                            });
                            assert(tokens_view(toks@.push(tok)) =~= acc1.push(tok@));
                        }
                        toks.push(tok);
                        pos = at + 1;
                        s = t.steps;
                    } else if f.is_end {
                        let tok = Token {
                            start: at,
                            end: at + f.mlen,
                            scopes: scopes_of_exec(&stack),
                        };
                        proof {
                            assert(stk0.last().end is Some);
                            assert(stack@.len() >= 2);
                            assert(tok@ == SpecToken {
                                start: at as int,
                                end: at as int + f.mlen as int,
                                scopes: scopes_of(stk0),
                            });
                            assert(tokens_view(toks@.push(tok)) =~= acc1.push(tok@));
                        }
                        toks.push(tok);
                        stack.pop();
                        proof {
                            assert(stack_view(stack@) =~= stk0.drop_last());
                            assert(rooted(stack_view(stack@)));
                            assert(wf_stack(*def, stack_view(stack@)));
                        }
                        pos = at + f.mlen;
                        s = t.steps;
                    } else {
                        proof {
                            assert(0 <= f.rule < rules.len());
                        }
                        let rule = &def.contexts[top_ctx].rules[f.rule];
                        match rule {
                            Rule::Plain { scope, .. } => {
                                let tok = Token {
                                    start: at,
                                    end: at + f.mlen,
                                    scopes: scopes_with(&stack, scope),
                                };
                                proof {
                                    assert(tok@ == SpecToken {
                                        start: at as int,
                                        end: at as int + f.mlen as int,
                                        scopes: scopes_of(stk0).push(scope@),
                                    });
                                    assert(tokens_view(toks@.push(tok)) =~= acc1.push(tok@));
                                }
                                toks.push(tok);
                                pos = at + f.mlen;
                                s = t.steps;
                            },
                            Rule::Region { end, scope, child, .. } => {
                                let ee = substitute_exec(end, text, &f.caps);
                                let tok = Token {
                                    start: at,
                                    end: at + f.mlen,
                                    scopes: scopes_with(&stack, scope),
                                };
                                proof {
                                    assert(tok@ == SpecToken {
                                        start: at as int,
                                        end: at as int + f.mlen as int,
                                        scopes: scopes_of(stk0).push(scope@),
                                    });
                                    assert(tokens_view(toks@.push(tok)) =~= acc1.push(tok@));
                                    assert(wf_rule(*def, def.contexts@[top_ctx as int].rules@[f.rule as int]));
                                }
                                toks.push(tok);
                                let entry = StackEntry {
                                    ctx: *child,
                                    scope: clone_bytes(scope),
                                    end: Some(ee),
                                };
                                proof {
                                    assert(entry@ == SpecEntry {
                                        ctx: *child as int,
                                        scope: scope@,
                                        end: Some(substitute(end@, text@, f@.caps)),
                                    });
                                    assert(stack_view(stack@.push(entry)) =~= stk0.push(entry@));
                                }
                                stack.push(entry);
                                proof {
                                    assert(rooted(stack_view(stack@)));
                                    assert(wf_stack(*def, stack_view(stack@)));
                                }
                                pos = at + f.mlen;
                                s = t.steps;
                            },
                        }
                    }
                },
            }
        }
    }
    proof {
        assert(spec_session(*def, stack_view(stack@), text@, pos as int, s as int, tokens_view(toks@))
            == SessionResult::Done { toks: tokens_view(toks@), steps: s as int });
    }
    Ok(toks)
}

} // verus!
