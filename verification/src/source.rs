//! Textual grammar and theme sources.
//!
//! A source is a list of lines; a line is a list of tab-separated fields,
//! the first naming a directive.  A grammar source:
//!
//! * `name` NAME, `scope` ROOT-SCOPE, `ext` EXTENSION (repeatable);
//! * `context` opens the next context, the first being the root;
//! * `match` PATTERN SCOPE adds a plain rule to the open context;
//! * `region` BEGIN END SCOPE CHILD-NUMBER adds a begin/end region rule.
//!
//! A pattern is bytes with `.` any byte, `\d` `\a` `\w` `\s` classes, `+`
//! one-or-more of the preceding class, `(` `)` a captured group, `\1`…`\9`
//! a backreference, and `\\` `\.` `\+` `\(` `\)` `\t` escapes.
//!
//! A theme source: `default` FG-HEX BG-HEX once, and `rule` SELECTOR
//! SETTING… lines, the selector space-separated scope segments, a setting
//! one of `fg=RRGGBB`, `bg=RRGGBB`, `bold=0|1`, `italic=0|1`,
//! `underline=0|1`.
//!
//! Malformed input is rejected as a whole — the registries never serve a
//! partially parsed definition or theme.

use vstd::prelude::*;
use crate::engine::{content_end, content_end_exec, lemma_content_end_bounds};
use crate::grammar::{Rule, Context, SyntaxDefinition, wf_def, clone_bytes};
use crate::registry::bytes_eq;
use crate::theme::{Color, Style, StyleMod, Theme, ThemeRule};
use crate::pattern::{Class, PatElem};

verus! {

/// First position in `[i, s.len()]` holding `b`, or the length.
pub open spec fn find_byte(s: Seq<u8>, i: int, b: u8) -> int
    decreases s.len() - i,
{
    if i < 0 || i >= s.len() {
        s.len() as int
    } else if s[i] == b {
        i
    } else {
        find_byte(s, i + 1, b)
    }
}

pub proof fn lemma_find_byte_bounds(s: Seq<u8>, i: int, b: u8)
    requires
        0 <= i <= s.len(),
    ensures
        i <= find_byte(s, i, b) <= s.len(),
    decreases s.len() - i,
{
    if i < s.len() && s[i] != b {
        lemma_find_byte_bounds(s, i + 1, b);
    }
}

/// Executable twin of `find_byte`.
pub fn find_byte_exec(s: &Vec<u8>, i: usize, b: u8) -> (r: usize)
    requires
        i <= s.len(),
    ensures
        r == find_byte(s@, i as int, b),
        i <= r <= s.len(),
    decreases s.len() - i,
{
    if i >= s.len() {
        s.len()
    } else if s[i] == b {
        i
    } else {
        find_byte_exec(s, i + 1, b)
    }
}

/// `s[i..]` split on `sep`: every separator ends a field, the end of the
/// bytes ends the last one.
pub open spec fn split_on(s: Seq<u8>, i: int, sep: u8) -> Seq<Seq<u8>>
    decreases s.len() + 1 - i,
        via split_on_dec
{
    if i < 0 || i > s.len() {
        Seq::empty()
    } else {
        let t = find_byte(s, i, sep);
        seq![s.subrange(i, t)] + split_on(s, t + 1, sep)
    }
}

#[via_fn]
proof fn split_on_dec(s: Seq<u8>, i: int, sep: u8) {
    if 0 <= i <= s.len() {
        lemma_find_byte_bounds(s, i, sep);
    }
}

/// Executable twin of `split_on`, from the start of `s`.
pub fn split_on_exec(s: &Vec<u8>, sep: u8) -> (r: Vec<Vec<u8>>)
    ensures
        r.deep_view() == split_on(s@, 0, sep),
{
    let mut fields: Vec<Vec<u8>> = Vec::new();
    let mut i: usize = 0;
    let mut fin: bool = false;
    while !fin
        invariant
            i <= s.len(),
            fields.deep_view() + (if fin {
                Seq::<Seq<u8>>::empty()
            } else {
                split_on(s@, i as int, sep)
            }) == split_on(s@, 0, sep),
        decreases (if fin { 0int } else { 1int }), s.len() - i,
    {
        let t = find_byte_exec(s, i, sep);
        let mut field: Vec<u8> = Vec::new();
        let mut p: usize = i;
        while p < t
            invariant
                i <= p <= t <= s.len(),
                field@ == s@.subrange(i as int, p as int),
            decreases t - p,
        {
            field.push(s[p]);
            proof {
                assert(s@.subrange(i as int, p + 1) =~= s@.subrange(i as int, p as int).push(
                    s@[p as int],
                ));
            }
            p = p + 1;
        }
        let ghost pre = fields.deep_view();
        fields.push(field);
        proof {
            assert(fields.deep_view() =~~= pre + seq![s@.subrange(i as int, t as int)]);
            assert(pre + (seq![s@.subrange(i as int, t as int)] + split_on(s@, t + 1, sep)) =~= (pre
                + seq![s@.subrange(i as int, t as int)]) + split_on(s@, t + 1, sep));
        }
        if t == s.len() {
            proof {
                assert(split_on(s@, t + 1, sep) =~= Seq::<Seq<u8>>::empty());
                assert(fields.deep_view() + Seq::<Seq<u8>>::empty() =~= fields.deep_view());
            }
            fin = true;
        } else {
            i = t + 1;
        }
    }
    fields
}

/// A decimal number below 10000 (enough to index any context table).
pub open spec fn parse_num_from(s: Seq<u8>, i: int, acc: int) -> Option<int>
    decreases s.len() - i,
{
    if i < 0 || acc < 0 || acc >= 10000 {
        None
    } else if i >= s.len() {
        Some(acc)
    } else if 48 <= s[i] <= 57 {
        parse_num_from(s, i + 1, acc * 10 + (s[i] - 48))
    } else {
        None
    }
}

pub open spec fn parse_num(s: Seq<u8>) -> Option<int> {
    if s.len() == 0 {
        None
    } else {
        parse_num_from(s, 0, 0)
    }
}

/// Executable twin of `parse_num`.
pub fn parse_num_exec(s: &Vec<u8>) -> (r: Option<usize>)
    ensures
        match r {
            Some(v) => parse_num(s@) == Some(v as int) && v < 10000,
            None => parse_num(s@) is None,
        },
{
    if s.len() == 0 {
        return None;
    }
    let mut acc: usize = 0;
    let mut i: usize = 0;
    while i < s.len()
        invariant
            i <= s.len(),
            0 <= acc < 10000,
            s@.len() > 0,
            parse_num_from(s@, i as int, acc as int) == parse_num(s@),
        decreases s.len() - i,
    {
        let b = s[i];
        if 48 <= b && b <= 57 {
            let next = acc * 10 + ((b - 48) as usize);
            if next >= 10000 {
                proof {
                    assert(parse_num_from(s@, i + 1, next as int) is None);
                }
                return None;
            }
            acc = next;
            i = i + 1;
        } else {
            return None;
        }
    }
    Some(acc)
}

/// One pattern element appended for a pattern escape, or nothing for an
/// unknown escape.
pub open spec fn escape_elem(b: u8) -> Option<PatElem> {
    if b == 100 {
        Some(PatElem::Cls(Class::Digit))  // \d
    } else if b == 97 {
        Some(PatElem::Cls(Class::Alpha))  // \a
    } else if b == 119 {
        Some(PatElem::Cls(Class::Word))  // \w
    } else if b == 115 {
        Some(PatElem::Cls(Class::Space))  // \s
    } else if b == 116 {
        Some(PatElem::Lit(9))  // \t
    } else if b == 92 || b == 46 || b == 43 || b == 40 || b == 41 {
        Some(PatElem::Lit(b))  // \\  \.  \+  \(  \)
    } else if 49 <= b && b <= 57 {
        Some(PatElem::Backref((b - 49) as usize))  // \1 … \9, zero-based
    } else {
        None
    }
}

/// The pattern the bytes `s[i..]` denote, `acc` already parsed and `open`
/// whether a group is unclosed; greedy and unambiguous.
pub open spec fn parse_pat_from(s: Seq<u8>, i: int, acc: Seq<PatElem>, open: bool) -> Option<
    Seq<PatElem>,
>
    decreases s.len() - i,
{
    if i < 0 {
        None
    } else if i >= s.len() {
        if open {
            None
        } else {
            Some(acc)
        }
    } else if s[i] == 92 {
        if i + 1 >= s.len() {
            None
        } else {
            match escape_elem(s[i + 1]) {
                Some(e) => parse_pat_from(s, i + 2, acc.push(e), open),
                None => None,
            }
        }
    } else if s[i] == 43 {
        if acc.len() > 0 && (acc.last() matches PatElem::Cls(_)) {
            match acc.last() {
                PatElem::Cls(c) => parse_pat_from(
                    s,
                    i + 1,
                    acc.update(acc.len() - 1, PatElem::Many(c)),
                    open,
                ),
                _ => None,
            }
        } else {
            None
        }
    } else if s[i] == 40 {
        if open {
            None
        } else {
            parse_pat_from(s, i + 1, acc.push(PatElem::Open), true)
        }
    } else if s[i] == 41 {
        if open {
            parse_pat_from(s, i + 1, acc.push(PatElem::Close), false)
        } else {
            None
        }
    } else if s[i] == 46 {
        parse_pat_from(s, i + 1, acc.push(PatElem::Cls(Class::Any)), open)
    } else if s[i] == 9 || s[i] == 10 {
        None
    } else {
        parse_pat_from(s, i + 1, acc.push(PatElem::Lit(s[i])), open)
    }
}

pub open spec fn parse_pat(s: Seq<u8>) -> Option<Seq<PatElem>> {
    parse_pat_from(s, 0, Seq::empty(), false)
}

/// Executable twin of `parse_pat`.
pub fn parse_pat_exec(s: &Vec<u8>) -> (r: Option<Vec<PatElem>>)
    ensures
        match r {
            Some(p) => parse_pat(s@) == Some(p@),
            None => parse_pat(s@) is None,
        },
{
    let mut acc: Vec<PatElem> = Vec::new();
    let mut open: bool = false;
    let mut i: usize = 0;
    proof {
        assert(acc@ =~= Seq::<PatElem>::empty());
    }
    while i < s.len()
        invariant
            i <= s.len(),
            parse_pat_from(s@, i as int, acc@, open) == parse_pat(s@),
        decreases s.len() - i,
    {
        let b = s[i];
        if b == 92 {
            if i + 1 >= s.len() {
                return None;
            }
            let e = s[i + 1];
            if e == 100 {
                acc.push(PatElem::Cls(Class::Digit));
            } else if e == 97 {
                acc.push(PatElem::Cls(Class::Alpha));
            } else if e == 119 {
                acc.push(PatElem::Cls(Class::Word));
            } else if e == 115 {
                acc.push(PatElem::Cls(Class::Space));
            } else if e == 116 {
                acc.push(PatElem::Lit(9));
            } else if e == 92 || e == 46 || e == 43 || e == 40 || e == 41 {
                acc.push(PatElem::Lit(e));
            } else if 49 <= e && e <= 57 {
                acc.push(PatElem::Backref((e - 49) as usize));
            } else {
                return None;
            }
            i = i + 2;
        } else if b == 43 {
            if acc.len() == 0 {
                return None;
            }
            let last = acc[acc.len() - 1];
            match last {
                PatElem::Cls(c) => {
                    let n = acc.len() - 1;
                    acc.set(n, PatElem::Many(c));
                    i = i + 1;
                },
                _ => {
                    return None;
                },
            }
        } else if b == 40 {
            if open {
                return None;
            }
            acc.push(PatElem::Open);
            open = true;
            i = i + 1;
        } else if b == 41 {
            if !open {
                return None;
            }
            acc.push(PatElem::Close);
            open = false;
            i = i + 1;
        } else if b == 46 {
            acc.push(PatElem::Cls(Class::Any));
            i = i + 1;
        } else if b == 9 || b == 10 {
            return None;
        } else {
            acc.push(PatElem::Lit(b));
            i = i + 1;
        }
    }
    if open {
        return None;
    }
    Some(acc)
}


// ------------------------------------------------------- grammar definitions

/// `name`
pub open spec fn kw_name() -> Seq<u8> {
    seq![110u8, 97, 109, 101]
}

fn kw_name_exec() -> (r: Vec<u8>)
    ensures
        r@ == kw_name(),
{
    let mut v: Vec<u8> = Vec::new();
    v.push(110);
    v.push(97);
    v.push(109);
    v.push(101);
    proof {
        assert(v@ =~= kw_name());
    }
    v
}

/// `scope`
pub open spec fn kw_rootscope() -> Seq<u8> {
    seq![115u8, 99, 111, 112, 101]
}

fn kw_rootscope_exec() -> (r: Vec<u8>)
    ensures
        r@ == kw_rootscope(),
{
    let mut v: Vec<u8> = Vec::new();
    v.push(115);
    v.push(99);
    v.push(111);
    v.push(112);
    v.push(101);
    proof {
        assert(v@ =~= kw_rootscope());
    }
    v
}

/// `ext`
pub open spec fn kw_ext() -> Seq<u8> {
    seq![101u8, 120, 116]
}

fn kw_ext_exec() -> (r: Vec<u8>)
    ensures
        r@ == kw_ext(),
{
    let mut v: Vec<u8> = Vec::new();
    v.push(101);
    v.push(120);
    v.push(116);
    proof {
        assert(v@ =~= kw_ext());
    }
    v
}

/// `context`
pub open spec fn kw_context() -> Seq<u8> {
    seq![99u8, 111, 110, 116, 101, 120, 116]
}

fn kw_context_exec() -> (r: Vec<u8>)
    ensures
        r@ == kw_context(),
{
    let mut v: Vec<u8> = Vec::new();
    v.push(99);
    v.push(111);
    v.push(110);
    v.push(116);
    v.push(101);
    v.push(120);
    v.push(116);
    proof {
        assert(v@ =~= kw_context());
    }
    v
}

/// `match`
pub open spec fn kw_match() -> Seq<u8> {
    seq![109u8, 97, 116, 99, 104]
}

fn kw_match_exec() -> (r: Vec<u8>)
    ensures
        r@ == kw_match(),
{
    let mut v: Vec<u8> = Vec::new();
    v.push(109);
    v.push(97);
    v.push(116);
    v.push(99);
    v.push(104);
    proof {
        assert(v@ =~= kw_match());
    }
    v
}

/// `region`
pub open spec fn kw_region() -> Seq<u8> {
    seq![114u8, 101, 103, 105, 111, 110]
}

fn kw_region_exec() -> (r: Vec<u8>)
    ensures
        r@ == kw_region(),
{
    let mut v: Vec<u8> = Vec::new();
    v.push(114);
    v.push(101);
    v.push(103);
    v.push(105);
    v.push(111);
    v.push(110);
    proof {
        assert(v@ =~= kw_region());
    }
    v
}

/// The mathematical image of a rule.
#[verifier::ext_equal]
pub struct SpecRule {
    pub is_region: bool,
    pub pat: Seq<PatElem>,
    pub endp: Seq<PatElem>,
    pub scope: Seq<u8>,
    pub child: int,
}

pub open spec fn rule_view(r: Rule) -> SpecRule {
    match r {
        Rule::Plain { pat, scope } => SpecRule {
            is_region: false,
            pat: pat@,
            endp: Seq::empty(),
            scope: scope@,
            child: 0,
        },
        Rule::Region { begin, end, scope, child } => SpecRule {
            is_region: true,
            pat: begin@,
            endp: end@,
            scope: scope@,
            child: child as int,
        },
    }
}

pub open spec fn ctx_view(c: Context) -> Seq<SpecRule> {
    c.rules@.map_values(|r: Rule| rule_view(r))
}

/// The mathematical image of a definition.
#[verifier::ext_equal]
pub struct SpecDef {
    pub name: Seq<u8>,
    pub exts: Seq<Seq<u8>>,
    pub scope: Seq<u8>,
    pub ctxs: Seq<Seq<SpecRule>>,
}

pub open spec fn def_view(d: SyntaxDefinition) -> SpecDef {
    SpecDef {
        name: d.name@,
        exts: d.extensions.deep_view(),
        scope: d.scope@,
        ctxs: d.contexts@.map_values(|c: Context| ctx_view(c)),
    }
}

/// The state a grammar source builds up, line by line.
#[verifier::ext_equal]
pub struct PState {
    pub name: Option<Seq<u8>>,
    pub scope: Option<Seq<u8>>,
    pub exts: Seq<Seq<u8>>,
    pub ctxs: Seq<Seq<SpecRule>>,
}

pub open spec fn init_pstate() -> PState {
    PState { name: None, scope: None, exts: Seq::empty(), ctxs: Seq::empty() }
}

/// One grammar line applied to the state; `None` rejects the source.
pub open spec fn parse_def_line(f: Seq<Seq<u8>>, st: PState) -> Option<PState> {
    if f.len() == 1 && f[0].len() == 0 {
        Some(st)
    } else if f.len() == 2 && f[0] == kw_name() && f[1].len() > 0 {
        Some(PState { name: Some(f[1]), scope: st.scope, exts: st.exts, ctxs: st.ctxs })
    } else if f.len() == 2 && f[0] == kw_rootscope() && f[1].len() > 0 {
        Some(PState { name: st.name, scope: Some(f[1]), exts: st.exts, ctxs: st.ctxs })
    } else if f.len() == 2 && f[0] == kw_ext() && f[1].len() > 0 {
        Some(PState { name: st.name, scope: st.scope, exts: st.exts.push(f[1]), ctxs: st.ctxs })
    } else if f.len() == 1 && f[0] == kw_context() {
        Some(
            PState {
                name: st.name,
                scope: st.scope,
                exts: st.exts,
                ctxs: st.ctxs.push(Seq::empty()),
            },
        )
    } else if f.len() == 3 && f[0] == kw_match() && f[2].len() > 0 && st.ctxs.len() > 0 {
        match parse_pat(f[1]) {
            Some(p) => Some(
                PState {
                    name: st.name,
                    scope: st.scope,
                    exts: st.exts,
                    ctxs: st.ctxs.update(
                        st.ctxs.len() - 1,
                        st.ctxs.last().push(
                            SpecRule {
                                is_region: false,
                                pat: p,
                                endp: Seq::empty(),
                                scope: f[2],
                                child: 0,
                            },
                        ),
                    ),
                },
            ),
            None => None,
        }
    } else if f.len() == 5 && f[0] == kw_region() && f[3].len() > 0 && st.ctxs.len() > 0 {
        match (parse_pat(f[1]), parse_pat(f[2]), parse_num(f[4])) {
            (Some(bp), Some(ep), Some(c)) => Some(
                PState {
                    name: st.name,
                    scope: st.scope,
                    exts: st.exts,
                    ctxs: st.ctxs.update(
                        st.ctxs.len() - 1,
                        st.ctxs.last().push(
                            SpecRule {
                                is_region: true,
                                pat: bp,
                                endp: ep,
                                scope: f[3],
                                child: c,
                            },
                        ),
                    ),
                },
            ),
            _ => None,
        }
    } else {
        None
    }
}

/// The whole source folded over the state, line by line.
pub open spec fn parse_def_lines(src: Seq<u8>, pos: int, st: PState) -> Option<PState>
    decreases src.len() - pos,
        when 0 <= pos <= src.len()
        via parse_def_lines_dec
{
    if pos >= src.len() {
        Some(st)
    } else {
        let ce = content_end(src, pos);
        let le: int = if ce < src.len() {
            ce + 1
        } else {
            ce
        };
        match parse_def_line(split_on(src.subrange(pos, ce), 0, 9), st) {
            Some(st2) => parse_def_lines(src, le, st2),
            None => None,
        }
    }
}

#[via_fn]
proof fn parse_def_lines_dec(src: Seq<u8>, pos: int, st: PState) {
    if 0 <= pos < src.len() {
        lemma_content_end_bounds(src, pos);
    }
}

/// Every region rule points inside the context table.
pub open spec fn ctxs_ok(ctxs: Seq<Seq<SpecRule>>) -> bool {
    forall|i: int, j: int|
        0 <= i < ctxs.len() && 0 <= j < ctxs[i].len() ==> ((#[trigger] ctxs[i][j]).is_region
            ==> 0 <= ctxs[i][j].child < ctxs.len())
}

/// What a grammar source denotes: `None` exactly on malformed input.
pub open spec fn parse_def(src: Seq<u8>) -> Option<SpecDef> {
    match parse_def_lines(src, 0, init_pstate()) {
        None => None,
        Some(st) => match (st.name, st.scope) {
            (Some(n), Some(sc)) => if st.ctxs.len() >= 1 && ctxs_ok(st.ctxs) {
                Some(SpecDef { name: n, exts: st.exts, scope: sc, ctxs: st.ctxs })
            } else {
                None
            },
            _ => None,
        },
    }
}


/// The state view the executable parser maintains: completed contexts plus
/// the context still open, if any.
pub open spec fn pstate_of(
    name: Option<Vec<u8>>,
    scope: Option<Vec<u8>>,
    exts: Vec<Vec<u8>>,
    done: Vec<Context>,
    cur: Vec<Rule>,
    has_ctx: bool,
) -> PState {
    PState {
        name: match name {
            Some(v) => Some(v@),
            None => None,
        },
        scope: match scope {
            Some(v) => Some(v@),
            None => None,
        },
        exts: exts.deep_view(),
        ctxs: done@.map_values(|c: Context| ctx_view(c)) + (if has_ctx {
            seq![cur@.map_values(|r: Rule| rule_view(r))]
        } else {
            Seq::empty()
        }),
    }
}

/// Parse a textual grammar description into a definition.  Succeeds on
/// exactly the sources `parse_def` accepts, and never serves a broken
/// definition: the result is well formed.
pub fn load_definition(src: &Vec<u8>) -> (r: Result<SyntaxDefinition, crate::HighlightError>)
    ensures
        match r {
            Ok(d) => parse_def(src@) == Some(def_view(d)) && wf_def(d),
            Err(e) => parse_def(src@) is None && e == crate::HighlightError::DefinitionParseError,
        },
{
    let mut name: Option<Vec<u8>> = None;
    let mut scope: Option<Vec<u8>> = None;
    let mut exts: Vec<Vec<u8>> = Vec::new();
    let mut done: Vec<Context> = Vec::new();
    let mut cur: Vec<Rule> = Vec::new();
    let mut has_ctx: bool = false;
    let mut pos: usize = 0;
    let kw_name_v = kw_name_exec();
    let kw_scope_v = kw_rootscope_exec();
    let kw_ext_v = kw_ext_exec();
    let kw_context_v = kw_context_exec();
    let kw_match_v = kw_match_exec();
    let kw_region_v = kw_region_exec();
    proof {
        assert(pstate_of(name, scope, exts, done, cur, has_ctx) =~~= init_pstate());
    }
    while pos < src.len()
        invariant
            pos <= src.len(),
            kw_name_v@ == kw_name(),
            kw_scope_v@ == kw_rootscope(),
            kw_ext_v@ == kw_ext(),
            kw_context_v@ == kw_context(),
            kw_match_v@ == kw_match(),
            kw_region_v@ == kw_region(),
            has_ctx || (done@.len() == 0 && cur@.len() == 0),
            parse_def_lines(src@, pos as int, pstate_of(name, scope, exts, done, cur, has_ctx))
                == parse_def_lines(src@, 0, init_pstate()),
        decreases src.len() - pos,
    {
        let ghost st0 = pstate_of(name, scope, exts, done, cur, has_ctx);
        let ce = content_end_exec(src, pos);
        proof {
            lemma_content_end_bounds(src@, pos as int);
        }
        let le: usize = if ce < src.len() {
            ce + 1
        } else {
            ce
        };
        let mut line: Vec<u8> = Vec::new();
        let mut p: usize = pos;
        while p < ce
            invariant
                pos <= p <= ce <= src.len(),
                line@ == src@.subrange(pos as int, p as int),
            decreases ce - p,
        {
            line.push(src[p]);
            proof {
                assert(src@.subrange(pos as int, p + 1) =~= src@.subrange(
                    pos as int,
                    p as int,
                ).push(src@[p as int]));
            }
            p = p + 1;
        }
        let fields = split_on_exec(&line, 9);
        let ghost fv = split_on(src@.subrange(pos as int, ce as int), 0, 9);
        proof {
            assert(fields.deep_view() == fv);
            assert(fields@.len() == fv.len());
            assert(forall|k: int| 0 <= k < fields@.len() ==> (#[trigger] fields@[k])@ == fv[k]);
        }
        if fields.len() == 1 && fields[0].len() == 0 {
            // an empty line
        } else if fields.len() == 2 && bytes_eq(&fields[0], &kw_name_v) && fields[1].len() > 0 {
            name = Some(clone_bytes(&fields[1]));
        } else if fields.len() == 2 && bytes_eq(&fields[0], &kw_scope_v) && fields[1].len() > 0 {
            scope = Some(clone_bytes(&fields[1]));
        } else if fields.len() == 2 && bytes_eq(&fields[0], &kw_ext_v) && fields[1].len() > 0 {
            let ghost pre = exts.deep_view();
            exts.push(clone_bytes(&fields[1]));
            proof {
                assert(exts.deep_view() =~~= pre.push(fv[1]));
            }
        } else if fields.len() == 1 && bytes_eq(&fields[0], &kw_context_v) {
            if has_ctx {
                done.push(Context { rules: cur });
                cur = Vec::new();
                proof {
                    assert(done@.map_values(|c: Context| ctx_view(c)) =~= done@.drop_last().map_values(
                        |c: Context| ctx_view(c),
                    ).push(ctx_view(done@.last())));
                    assert(cur@.map_values(|r: Rule| rule_view(r)) =~= Seq::<SpecRule>::empty());
                }
            } else {
                has_ctx = true;
                proof {
                    assert(cur@.map_values(|r: Rule| rule_view(r)) =~= Seq::<SpecRule>::empty());
                }
            }
            proof {
                assert(pstate_of(name, scope, exts, done, cur, has_ctx).ctxs =~~= st0.ctxs.push(
                    Seq::empty(),
                ));
                assert(pstate_of(name, scope, exts, done, cur, has_ctx) =~~= (PState {
                    name: st0.name,
                    scope: st0.scope,
                    exts: st0.exts,
                    ctxs: st0.ctxs.push(Seq::empty()),
                }));
            }
        } else if fields.len() == 3 && bytes_eq(&fields[0], &kw_match_v) && fields[2].len() > 0
            && has_ctx {
            let pat = match parse_pat_exec(&fields[1]) {
                Some(p) => p,
                None => {
                    proof {
                        assert(parse_def_line(fv, st0) is None);
                        assert(parse_def(src@) is None);
                    }
                    return Err(crate::HighlightError::DefinitionParseError);
                },
            };
            let rule = Rule::Plain { pat, scope: clone_bytes(&fields[2]) };
            let ghost curv = cur@.map_values(|r: Rule| rule_view(r));
            cur.push(rule);
            proof {
                assert(cur@.map_values(|r: Rule| rule_view(r)) =~= curv.push(
                    rule_view(cur@.last()),
                ));
                assert(st0.ctxs.len() > 0);
                assert(st0.ctxs.last() =~= curv);
                assert(pstate_of(name, scope, exts, done, cur, has_ctx).ctxs =~= st0.ctxs.update(
                    st0.ctxs.len() - 1,
                    st0.ctxs.last().push(rule_view(cur@.last())),
                ));
            }
        } else if fields.len() == 5 && bytes_eq(&fields[0], &kw_region_v) && fields[3].len() > 0
            && has_ctx {
            let begin = match parse_pat_exec(&fields[1]) {
                Some(p) => p,
                None => {
                    proof {
                        assert(parse_def_line(fv, st0) is None);
                        assert(parse_def(src@) is None);
                    }
                    return Err(crate::HighlightError::DefinitionParseError);
                },
            };
            let end = match parse_pat_exec(&fields[2]) {
                Some(p) => p,
                None => {
                    proof {
                        assert(parse_def_line(fv, st0) is None);
                        assert(parse_def(src@) is None);
                    }
                    return Err(crate::HighlightError::DefinitionParseError);
                },
            };
            let child = match parse_num_exec(&fields[4]) {
                Some(c) => c,
                None => {
                    proof {
                        assert(parse_def_line(fv, st0) is None);
                        assert(parse_def(src@) is None);
                    }
                    return Err(crate::HighlightError::DefinitionParseError);
                },
            };
            let rule = Rule::Region { begin, end, scope: clone_bytes(&fields[3]), child };
            let ghost curv = cur@.map_values(|r: Rule| rule_view(r));
            cur.push(rule);
            proof {
                assert(cur@.map_values(|r: Rule| rule_view(r)) =~= curv.push(
                    rule_view(cur@.last()),
                ));
                assert(st0.ctxs.len() > 0);
                assert(st0.ctxs.last() =~= curv);
                assert(pstate_of(name, scope, exts, done, cur, has_ctx).ctxs =~= st0.ctxs.update(
                    st0.ctxs.len() - 1,
                    st0.ctxs.last().push(rule_view(cur@.last())),
                ));
            }
        } else {
            proof {
                assert(parse_def_line(fv, st0) is None);
                assert(parse_def(src@) is None);
            }
            return Err(crate::HighlightError::DefinitionParseError);
        }
        proof {
            assert(parse_def_line(fv, st0) == Some(
                pstate_of(name, scope, exts, done, cur, has_ctx),
            ));
        }
        pos = le;
    }
    let ghost st_end = pstate_of(name, scope, exts, done, cur, has_ctx);
    proof {
        assert(parse_def_lines(src@, 0, init_pstate()) == Some(st_end));
    }
    let name_v = match name {
        Some(v) => v,
        None => {
            proof {
                assert(parse_def(src@) is None);
            }
            return Err(crate::HighlightError::DefinitionParseError);
        },
    };
    let scope_v = match scope {
        Some(v) => v,
        None => {
            proof {
                assert(parse_def(src@) is None);
            }
            return Err(crate::HighlightError::DefinitionParseError);
        },
    };
    if !has_ctx {
        proof {
            assert(parse_def(src@) is None);
        }
        return Err(crate::HighlightError::DefinitionParseError);
    }
    let mut contexts = done;
    contexts.push(Context { rules: cur });
    proof {
        assert(contexts@.map_values(|c: Context| ctx_view(c)) =~= contexts@.drop_last().map_values(
            |c: Context| ctx_view(c),
        ).push(ctx_view(contexts@.last())));
        assert(contexts@.map_values(|c: Context| ctx_view(c)) =~= st_end.ctxs);
    }
    // every region rule must point inside the context table
    let n_ctx = contexts.len();
    let mut i: usize = 0;
    while i < contexts.len()
        invariant
            n_ctx == contexts@.len(),
            i <= contexts@.len(),
            parse_def_lines(src@, 0, init_pstate()) == Some(st_end),
            st_end.ctxs == contexts@.map_values(|c: Context| ctx_view(c)),
            forall|a: int, b: int|
                0 <= a < i && 0 <= b < st_end.ctxs[a].len() ==> ((#[trigger] st_end.ctxs[a][b]).is_region
                    ==> 0 <= st_end.ctxs[a][b].child < st_end.ctxs.len()),
        decreases contexts@.len() - i,
    {
        let c = &contexts[i];
        let mut j: usize = 0;
        while j < c.rules.len()
            invariant
                n_ctx == contexts@.len(),
                i < contexts@.len(),
                *c == contexts@[i as int],
                j <= c.rules@.len(),
                parse_def_lines(src@, 0, init_pstate()) == Some(st_end),
                st_end.ctxs == contexts@.map_values(|cc: Context| ctx_view(cc)),
                forall|b: int| 0 <= b < j ==> ((#[trigger] st_end.ctxs[i as int][b]).is_region
                    ==> 0 <= st_end.ctxs[i as int][b].child < st_end.ctxs.len()),
            decreases c.rules@.len() - j,
        {
            proof {
                assert(st_end.ctxs[i as int][j as int] == rule_view(c.rules@[j as int]));
            }
            match &c.rules[j] {
                Rule::Region { child, .. } => {
                    if *child >= n_ctx {
                        proof {
                            assert(st_end.ctxs.len() == n_ctx as int);
                            assert(st_end.ctxs[i as int][j as int].is_region
                                && st_end.ctxs[i as int][j as int].child >= st_end.ctxs.len());
                            assert(!ctxs_ok(st_end.ctxs));
                            assert(parse_def_lines(src@, 0, init_pstate()) == Some(st_end));
                            assert(parse_def(src@) is None);
                        }
                        return Err(crate::HighlightError::DefinitionParseError);
                    }
                },
                Rule::Plain { .. } => {},
            }
            j = j + 1;
        }
        i = i + 1;
    }
    proof {
        assert(ctxs_ok(st_end.ctxs));
    }
    let d = SyntaxDefinition { name: name_v, extensions: exts, scope: scope_v, contexts };
    proof {
        assert(def_view(d) =~~= (SpecDef {
            name: st_end.name->0,
            exts: st_end.exts,
            scope: st_end.scope->0,
            ctxs: st_end.ctxs,
        }));
        assert(wf_def(d)) by {
            assert forall|a: int, b: int|
                0 <= a < d.contexts.len() && 0 <= b < d.contexts@[a].rules.len() implies crate::grammar::wf_rule(
                d,
                #[trigger] d.contexts@[a].rules@[b],
            ) by {
                assert(st_end.ctxs[a] == ctx_view(d.contexts@[a]));
                assert(st_end.ctxs[a][b] == rule_view(d.contexts@[a].rules@[b]));
            }
        }
    }
    Ok(d)
}


// ------------------------------------------------------------------- themes

/// `default`
pub open spec fn kw_default() -> Seq<u8> {
    seq![100u8, 101, 102, 97, 117, 108, 116]
}
/// `rule`
pub open spec fn kw_rule() -> Seq<u8> {
    seq![114u8, 117, 108, 101]
}
/// `fg=`
pub open spec fn kw_fg_eq() -> Seq<u8> {
    seq![102u8, 103, 61]
}
/// `bg=`
pub open spec fn kw_bg_eq() -> Seq<u8> {
    seq![98u8, 103, 61]
}
/// `bold=`
pub open spec fn kw_bold_eq() -> Seq<u8> {
    seq![98u8, 111, 108, 100, 61]
}
/// `italic=`
pub open spec fn kw_italic_eq() -> Seq<u8> {
    seq![105u8, 116, 97, 108, 105, 99, 61]
}
/// `underline=`
pub open spec fn kw_underline_eq() -> Seq<u8> {
    seq![117u8, 110, 100, 101, 114, 108, 105, 110, 101, 61]
}

fn kw_default_exec() -> (r: Vec<u8>)
    ensures
        r@ == kw_default(),
{
    let mut v: Vec<u8> = Vec::new();
    v.push(100);
    v.push(101);
    v.push(102);
    v.push(97);
    v.push(117);
    v.push(108);
    v.push(116);
    proof {
        assert(v@ =~= kw_default());
    }
    v
}

fn kw_rule_exec() -> (r: Vec<u8>)
    ensures
        r@ == kw_rule(),
{
    let mut v: Vec<u8> = Vec::new();
    v.push(114);
    v.push(117);
    v.push(108);
    v.push(101);
    proof {
        assert(v@ =~= kw_rule());
    }
    v
}

fn kw_fg_eq_exec() -> (r: Vec<u8>)
    ensures
        r@ == kw_fg_eq(),
{
    let mut v: Vec<u8> = Vec::new();
    v.push(102);
    v.push(103);
    v.push(61);
    proof {
        assert(v@ =~= kw_fg_eq());
    }
    v
}

fn kw_bg_eq_exec() -> (r: Vec<u8>)
    ensures
        r@ == kw_bg_eq(),
{
    let mut v: Vec<u8> = Vec::new();
    v.push(98);
    v.push(103);
    v.push(61);
    proof {
        assert(v@ =~= kw_bg_eq());
    }
    v
}

fn kw_bold_eq_exec() -> (r: Vec<u8>)
    ensures
        r@ == kw_bold_eq(),
{
    let mut v: Vec<u8> = Vec::new();
    v.push(98);
    v.push(111);
    v.push(108);
    v.push(100);
    v.push(61);
    proof {
        assert(v@ =~= kw_bold_eq());
    }
    v
}

fn kw_italic_eq_exec() -> (r: Vec<u8>)
    ensures
        r@ == kw_italic_eq(),
{
    let mut v: Vec<u8> = Vec::new();
    v.push(105);
    v.push(116);
    v.push(97);
    v.push(108);
    v.push(105);
    v.push(99);
    v.push(61);
    proof {
        assert(v@ =~= kw_italic_eq());
    }
    v
}

fn kw_underline_eq_exec() -> (r: Vec<u8>)
    ensures
        r@ == kw_underline_eq(),
{
    let mut v: Vec<u8> = Vec::new();
    v.push(117);
    v.push(110);
    v.push(100);
    v.push(101);
    v.push(114);
    v.push(108);
    v.push(105);
    v.push(110);
    v.push(101);
    v.push(61);
    proof {
        assert(v@ =~= kw_underline_eq());
    }
    v
}

/// The value of a lower-case hex digit, or none.
pub open spec fn hexv(b: u8) -> Option<u8> {
    if 48 <= b && b <= 57 {
        Some((b - 48) as u8)
    } else if 97 <= b && b <= 102 {
        Some((b - 87) as u8)
    } else {
        None
    }
}

/// `rrggbb` as a colour.
pub open spec fn parse_hex6(s: Seq<u8>) -> Option<Color> {
    if s.len() == 6 {
        match (hexv(s[0]), hexv(s[1]), hexv(s[2]), hexv(s[3]), hexv(s[4]), hexv(s[5])) {
            (Some(a), Some(b), Some(c), Some(d), Some(e), Some(f)) => Some(
                Color {
                    r: ((a * 16 + b) as u8),
                    g: ((c * 16 + d) as u8),
                    b: ((e * 16 + f) as u8),
                },
            ),
            _ => None,
        }
    } else {
        None
    }
}

fn hexv_exec(b: u8) -> (r: Option<u8>)
    ensures
        r == hexv(b),
{
    if 48 <= b && b <= 57 {
        Some(b - 48)
    } else if 97 <= b && b <= 102 {
        Some(b - 87)
    } else {
        None
    }
}

/// Executable twin of `parse_hex6`.
pub fn parse_hex6_exec(s: &Vec<u8>) -> (r: Option<Color>)
    ensures
        r == parse_hex6(s@),
{
    if s.len() != 6 {
        return None;
    }
    let mut v: [u8; 6] = [0, 0, 0, 0, 0, 0];
    let mut i: usize = 0;
    while i < 6
        invariant
            s@.len() == 6,
            i <= 6,
            forall|k: int| 0 <= k < i ==> hexv(s@[k]) == Some(#[trigger] v@[k]),
        decreases 6 - i,
    {
        match hexv_exec(s[i]) {
            Some(h) => {
                v[i] = h;
            },
            None => {
                return None;
            },
        }
        i = i + 1;
    }
    proof {
        assert(hexv(s@[0]) == Some(v@[0]) && hexv(s@[1]) == Some(v@[1]) && hexv(s@[2]) == Some(
            v@[2],
        ) && hexv(s@[3]) == Some(v@[3]) && hexv(s@[4]) == Some(v@[4]) && hexv(s@[5]) == Some(
            v@[5],
        ));
        assert(forall|b: u8| hexv(b) is Some ==> hexv(b)->0 < 16);
    }
    Some(Color { r: v[0] * 16 + v[1], g: v[2] * 16 + v[3], b: v[4] * 16 + v[5] })
}

/// One comma-separated setting applied to a style modification.
pub open spec fn apply_setting(m: StyleMod, s: Seq<u8>) -> Option<StyleMod> {
    if s.len() == kw_fg_eq().len() + 6 && s.subrange(0, 3) == kw_fg_eq() {
        match parse_hex6(s.skip(3)) {
            Some(c) => Some(StyleMod { fg: Some(c), ..m }),
            None => None,
        }
    } else if s.len() == kw_bg_eq().len() + 6 && s.subrange(0, 3) == kw_bg_eq() {
        match parse_hex6(s.skip(3)) {
            Some(c) => Some(StyleMod { bg: Some(c), ..m }),
            None => None,
        }
    } else if s.len() == 6 && s.subrange(0, 5) == kw_bold_eq() && (s[5] == 48 || s[5] == 49) {
        Some(StyleMod { bold: Some(s[5] == 49), ..m })
    } else if s.len() == 8 && s.subrange(0, 7) == kw_italic_eq() && (s[7] == 48 || s[7] == 49) {
        Some(StyleMod { italic: Some(s[7] == 49), ..m })
    } else if s.len() == 11 && s.subrange(0, 10) == kw_underline_eq() && (s[10] == 48 || s[10]
        == 49) {
        Some(StyleMod { underline: Some(s[10] == 49), ..m })
    } else {
        None
    }
}

/// The settings `fs[k..]` folded over a style modification.
pub open spec fn apply_settings(fs: Seq<Seq<u8>>, k: int, m: StyleMod) -> Option<StyleMod>
    decreases fs.len() - k,
{
    if k < 0 || k >= fs.len() {
        Some(m)
    } else {
        match apply_setting(m, fs[k]) {
            Some(m2) => apply_settings(fs, k + 1, m2),
            None => None,
        }
    }
}

pub open spec fn empty_mod() -> StyleMod {
    StyleMod { fg: None, bg: None, bold: None, italic: None, underline: None }
}

/// Every selector segment is non-empty, and there is at least one.
pub open spec fn segs_ok(segs: Seq<Seq<u8>>) -> bool {
    segs.len() >= 1 && forall|k: int| 0 <= k < segs.len() ==> (#[trigger] segs[k]).len() > 0
}

/// The mathematical image of a theme rule and a theme.
#[verifier::ext_equal]
pub struct SpecThemeRule {
    pub selector: Seq<Seq<u8>>,
    pub style: StyleMod,
}

#[verifier::ext_equal]
pub struct SpecTheme {
    pub rules: Seq<SpecThemeRule>,
    pub default_style: Style,
}

pub open spec fn theme_rule_view(r: ThemeRule) -> SpecThemeRule {
    SpecThemeRule { selector: r.selector.deep_view(), style: r.style }
}

pub open spec fn theme_view(t: Theme) -> SpecTheme {
    SpecTheme {
        rules: t.rules@.map_values(|r: ThemeRule| theme_rule_view(r)),
        default_style: t.default_style,
    }
}

/// The state a theme source builds up.
#[verifier::ext_equal]
pub struct TState {
    pub has_default: bool,
    pub default_style: Style,
    pub rules: Seq<SpecThemeRule>,
}

pub open spec fn init_tstate() -> TState {
    TState {
        has_default: false,
        default_style: Style {
            fg: Color { r: 0, g: 0, b: 0 },
            bg: Color { r: 0, g: 0, b: 0 },
            bold: false,
            italic: false,
            underline: false,
        },
        rules: Seq::empty(),
    }
}

/// One theme line applied to the state; `None` rejects the source.
pub open spec fn parse_theme_line(f: Seq<Seq<u8>>, st: TState) -> Option<TState> {
    if f.len() == 1 && f[0].len() == 0 {
        Some(st)
    } else if f.len() == 3 && f[0] == kw_default() {
        match (parse_hex6(f[1]), parse_hex6(f[2])) {
            (Some(fg), Some(bg)) => Some(
                TState {
                    has_default: true,
                    default_style: Style { fg, bg, bold: false, italic: false, underline: false },
                    rules: st.rules,
                },
            ),
            _ => None,
        }
    } else if f.len() == 3 && f[0] == kw_rule() {
        let segs = split_on(f[1], 0, 32);
        if segs_ok(segs) {
            match apply_settings(split_on(f[2], 0, 44), 0, empty_mod()) {
                Some(m) => Some(
                    TState {
                        has_default: st.has_default,
                        default_style: st.default_style,
                        rules: st.rules.push(SpecThemeRule { selector: segs, style: m }),
                    },
                ),
                None => None,
            }
        } else {
            None
        }
    } else {
        None
    }
}

pub open spec fn parse_theme_lines(src: Seq<u8>, pos: int, st: TState) -> Option<TState>
    decreases src.len() - pos,
        when 0 <= pos <= src.len()
        via parse_theme_lines_dec
{
    if pos >= src.len() {
        Some(st)
    } else {
        let ce = content_end(src, pos);
        let le: int = if ce < src.len() {
            ce + 1
        } else {
            ce
        };
        match parse_theme_line(split_on(src.subrange(pos, ce), 0, 9), st) {
            Some(st2) => parse_theme_lines(src, le, st2),
            None => None,
        }
    }
}

#[via_fn]
proof fn parse_theme_lines_dec(src: Seq<u8>, pos: int, st: TState) {
    if 0 <= pos < src.len() {
        lemma_content_end_bounds(src, pos);
    }
}

/// What a theme source denotes: `None` exactly on malformed input; the
/// default style is mandatory.
pub open spec fn parse_theme(src: Seq<u8>) -> Option<SpecTheme> {
    match parse_theme_lines(src, 0, init_tstate()) {
        None => None,
        Some(st) => if st.has_default {
            Some(SpecTheme { rules: st.rules, default_style: st.default_style })
        } else {
            None
        },
    }
}


/// The theme-state view the executable parser maintains.
pub open spec fn tstate_of(has_default: bool, style: Style, rules: Vec<ThemeRule>) -> TState {
    TState {
        has_default,
        default_style: style,
        rules: rules@.map_values(|r: ThemeRule| theme_rule_view(r)),
    }
}

/// Apply the comma-separated settings of one field.
fn apply_settings_exec(fs: &Vec<Vec<u8>>) -> (r: Option<StyleMod>)
    ensures
        r == apply_settings(fs.deep_view(), 0, empty_mod()),
{
    let kw_fg = kw_fg_eq_exec();
    let kw_bg = kw_bg_eq_exec();
    let kw_bold = kw_bold_eq_exec();
    let kw_italic = kw_italic_eq_exec();
    let kw_underline = kw_underline_eq_exec();
    let mut m = StyleMod { fg: None, bg: None, bold: None, italic: None, underline: None };
    let mut k: usize = 0;
    let ghost fv = fs.deep_view();
    while k < fs.len()
        invariant
            k <= fs@.len(),
            fv == fs.deep_view(),
            kw_fg@ == kw_fg_eq(),
            kw_bg@ == kw_bg_eq(),
            kw_bold@ == kw_bold_eq(),
            kw_italic@ == kw_italic_eq(),
            kw_underline@ == kw_underline_eq(),
            apply_settings(fv, k as int, m) == apply_settings(fv, 0, empty_mod()),
        decreases fs@.len() - k,
    {
        let ghost m0 = m;
        let s = &fs[k];
        proof {
            assert(fv[k as int] == s@);
        }
        let mut handled: bool = false;
        if s.len() == 9 && is_prefix(s, &kw_fg, 3) {
            let mut hexpart: Vec<u8> = Vec::new();
            let mut p: usize = 3;
            while p < 9
                invariant
                    s@.len() == 9,
                    3 <= p <= 9,
                    hexpart@ == s@.subrange(3, p as int),
                decreases 9 - p,
            {
                hexpart.push(s[p]);
                proof {
                    assert(s@.subrange(3, p + 1) =~= s@.subrange(3, p as int).push(s@[p as int]));
                }
                p = p + 1;
            }
            proof {
                assert(hexpart@ =~= s@.skip(3));
            }
            match parse_hex6_exec(&hexpart) {
                Some(c) => {
                    m.fg = Some(c);
                    handled = true;
                },
                None => {
                    return None;
                },
            }
        } else if s.len() == 9 && is_prefix(s, &kw_bg, 3) {
            let mut hexpart: Vec<u8> = Vec::new();
            let mut p: usize = 3;
            while p < 9
                invariant
                    s@.len() == 9,
                    3 <= p <= 9,
                    hexpart@ == s@.subrange(3, p as int),
                decreases 9 - p,
            {
                hexpart.push(s[p]);
                proof {
                    assert(s@.subrange(3, p + 1) =~= s@.subrange(3, p as int).push(s@[p as int]));
                }
                p = p + 1;
            }
            proof {
                assert(hexpart@ =~= s@.skip(3));
            }
            match parse_hex6_exec(&hexpart) {
                Some(c) => {
                    m.bg = Some(c);
                    handled = true;
                },
                None => {
                    return None;
                },
            }
        } else if s.len() == 6 && is_prefix(s, &kw_bold, 5) && (s[5] == 48 || s[5] == 49) {
            m.bold = Some(s[5] == 49);
            handled = true;
        } else if s.len() == 8 && is_prefix(s, &kw_italic, 7) && (s[7] == 48 || s[7] == 49) {
            m.italic = Some(s[7] == 49);
            handled = true;
        } else if s.len() == 11 && is_prefix(s, &kw_underline, 10) && (s[10] == 48 || s[10] == 49) {
            m.underline = Some(s[10] == 49);
            handled = true;
        } else {
            return None;
        }
        proof {
            assert(handled);
            assert(apply_setting(m0, fv[k as int]) == Some(m));
        }
        k = k + 1;
    }
    Some(m)
}

/// Whether the first `n` bytes of `s` equal the first `n` of `p`.
fn is_prefix(s: &Vec<u8>, p: &Vec<u8>, n: usize) -> (r: bool)
    requires
        n <= s.len(),
        n == p.len(),
    ensures
        r == (s@.subrange(0, n as int) == p@),
{
    let mut i: usize = 0;
    while i < n
        invariant
            i <= n <= s@.len(),
            n == p@.len(),
            forall|k: int| 0 <= k < i ==> s@[k] == p@[k],
        decreases n - i,
    {
        if s[i] != p[i] {
            proof {
                if s@.subrange(0, n as int) == p@ {
                    assert(s@.subrange(0, n as int)[i as int] == p@[i as int]);
                }
            }
            return false;
        }
        i = i + 1;
    }
    proof {
        assert(s@.subrange(0, n as int) =~= p@);
    }
    true
}

/// Parse a textual theme description.  Succeeds on exactly the sources
/// `parse_theme` accepts; a missing default style is malformed.
pub fn load_theme(src: &Vec<u8>) -> (r: Result<Theme, crate::HighlightError>)
    ensures
        match r {
            Ok(t) => parse_theme(src@) == Some(theme_view(t)),
            Err(e) => parse_theme(src@) is None && e == crate::HighlightError::ThemeParseError,
        },
{
    let kw_default_v = kw_default_exec();
    let kw_rule_v = kw_rule_exec();
    let mut has_default: bool = false;
    let mut style = Style {
        fg: Color { r: 0, g: 0, b: 0 },
        bg: Color { r: 0, g: 0, b: 0 },
        bold: false,
        italic: false,
        underline: false,
    };
    let mut rules: Vec<ThemeRule> = Vec::new();
    let mut pos: usize = 0;
    proof {
        assert(tstate_of(has_default, style, rules) =~~= init_tstate());
    }
    while pos < src.len()
        invariant
            pos <= src.len(),
            kw_default_v@ == kw_default(),
            kw_rule_v@ == kw_rule(),
            parse_theme_lines(src@, pos as int, tstate_of(has_default, style, rules))
                == parse_theme_lines(src@, 0, init_tstate()),
        decreases src.len() - pos,
    {
        let ghost st0 = tstate_of(has_default, style, rules);
        let ce = content_end_exec(src, pos);
        proof {
            lemma_content_end_bounds(src@, pos as int);
        }
        let le: usize = if ce < src.len() {
            ce + 1
        } else {
            ce
        };
        let mut line: Vec<u8> = Vec::new();
        let mut p: usize = pos;
        while p < ce
            invariant
                pos <= p <= ce <= src.len(),
                line@ == src@.subrange(pos as int, p as int),
            decreases ce - p,
        {
            line.push(src[p]);
            proof {
                assert(src@.subrange(pos as int, p + 1) =~= src@.subrange(
                    pos as int,
                    p as int,
                ).push(src@[p as int]));
            }
            p = p + 1;
        }
        let fields = split_on_exec(&line, 9);
        let ghost fv = split_on(src@.subrange(pos as int, ce as int), 0, 9);
        proof {
            assert(fields.deep_view() == fv);
            assert(forall|k: int| 0 <= k < fields@.len() ==> (#[trigger] fields@[k])@ == fv[k]);
        }
        if fields.len() == 1 && fields[0].len() == 0 {
            // an empty line
        } else if fields.len() == 3 && bytes_eq(&fields[0], &kw_default_v) {
            let fg = match parse_hex6_exec(&fields[1]) {
                Some(c) => c,
                None => {
                    proof {
                        assert(parse_theme_line(fv, st0) is None);
                        assert(parse_theme(src@) is None);
                    }
                    return Err(crate::HighlightError::ThemeParseError);
                },
            };
            let bg = match parse_hex6_exec(&fields[2]) {
                Some(c) => c,
                None => {
                    proof {
                        assert(parse_theme_line(fv, st0) is None);
                        assert(parse_theme(src@) is None);
                    }
                    return Err(crate::HighlightError::ThemeParseError);
                },
            };
            has_default = true;
            style = Style { fg, bg, bold: false, italic: false, underline: false };
        } else if fields.len() == 3 && bytes_eq(&fields[0], &kw_rule_v) {
            let segs = split_on_exec(&fields[1], 32);
            proof {
                assert(segs.deep_view() == split_on(fv[1], 0, 32));
            }
            let mut segs_good: bool = true;
            let mut k: usize = 0;
            while k < segs.len()
                invariant
                    k <= segs@.len(),
                    segs.deep_view() == split_on(fv[1], 0, 32),
                    segs_good == (forall|q: int|
                        0 <= q < k ==> (#[trigger] split_on(fv[1], 0, 32)[q]).len() > 0),
                decreases segs@.len() - k,
            {
                let seg_len = segs[k].len();
                proof {
                    assert(segs.deep_view()[k as int] == segs@[k as int]@);
                    assert(split_on(fv[1], 0, 32)[k as int].len() == seg_len as int);
                }
                if seg_len == 0 {
                    segs_good = false;
                }
                k = k + 1;
            }
            proof {
                assert(segs@.len() == split_on(fv[1], 0, 32).len());
                assert(split_on(fv[1], 0, 32).len() >= 1);
                assert(segs_good == segs_ok(split_on(fv[1], 0, 32)));
            }
            if !segs_good {
                proof {
                    assert(parse_theme_line(fv, st0) is None);
                    assert(parse_theme(src@) is None);
                }
                return Err(crate::HighlightError::ThemeParseError);
            }
            let settings = split_on_exec(&fields[2], 44);
            proof {
                assert(settings.deep_view() == split_on(fv[2], 0, 44));
            }
            let m = match apply_settings_exec(&settings) {
                Some(m) => m,
                None => {
                    proof {
                        assert(parse_theme_line(fv, st0) is None);
                        assert(parse_theme(src@) is None);
                    }
                    return Err(crate::HighlightError::ThemeParseError);
                },
            };
            let ghost pre = rules@.map_values(|r: ThemeRule| theme_rule_view(r));
            rules.push(ThemeRule { selector: segs, style: m });
            proof {
                assert(rules@.map_values(|r: ThemeRule| theme_rule_view(r)) =~= pre.push(
                    theme_rule_view(rules@.last()),
                ));
            }
        } else {
            proof {
                assert(parse_theme_line(fv, st0) is None);
                assert(parse_theme(src@) is None);
            }
            return Err(crate::HighlightError::ThemeParseError);
        }
        proof {
            assert(parse_theme_line(fv, st0) == Some(tstate_of(has_default, style, rules)));
        }
        pos = le;
    }
    let ghost st_end = tstate_of(has_default, style, rules);
    proof {
        assert(parse_theme_lines(src@, 0, init_tstate()) == Some(st_end));
    }
    if !has_default {
        return Err(crate::HighlightError::ThemeParseError);
    }
    let t = Theme { rules, default_style: style };
    proof {
        assert(theme_view(t) =~~= (SpecTheme { rules: st_end.rules, default_style: style }));
    }
    Ok(t)
}

} // verus!
