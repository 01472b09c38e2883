//! Themes and scope style resolution.
//!
//! A theme is an ordered list of selector→style rules plus a mandatory
//! default style.  A rule matches a token's scope path when its last
//! selector segment matches the innermost scope name and its earlier
//! segments match earlier scopes of the path, in order.  The most specific
//! matching rule (most selector segments) decides each colour, later
//! declarations winning ties; font flags merge across all matching rules,
//! a more specific rule overriding an outer one only where it sets the
//! flag itself.  Unmatched scopes keep the theme's default style.

use vstd::prelude::*;

verus! {

/// An RGB color.
#[derive(Clone, Copy, PartialEq, Eq, Structural, Debug)]
pub struct Color {
    pub r: u8,
    pub g: u8,
    pub b: u8,
}

/// The style a token is finally rendered with.
#[derive(Clone, Copy, PartialEq, Eq, Structural, Debug)]
pub struct Style {
    pub fg: Color,
    pub bg: Color,
    pub bold: bool,
    pub italic: bool,
    pub underline: bool,
}

/// What one theme rule sets; a property left `None` inherits from less
/// specific rules, or from the default style.
#[derive(Clone, Copy, PartialEq, Eq, Structural, Debug)]
pub struct StyleMod {
    pub fg: Option<Color>,
    pub bg: Option<Color>,
    pub bold: Option<bool>,
    pub italic: Option<bool>,
    pub underline: Option<bool>,
}

/// One scope-selector→style rule.
pub struct ThemeRule {
    /// Scope-name segments, outermost first; a segment matches a scope
    /// name that equals it or refines it after a dot.
    pub selector: Vec<Vec<u8>>,
    pub style: StyleMod,
}

/// An immutable theme: ordered rules and a mandatory default style.
pub struct Theme {
    pub rules: Vec<ThemeRule>,
    pub default_style: Style,
}

/// Whether selector segment `seg` matches scope name `name`: exactly
/// equal, or a dot-separated prefix of it (`keyword.control` matches
/// `keyword.control.rust`).
pub open spec fn seg_matches(seg: Seq<u8>, name: Seq<u8>) -> bool {
    seg == name || (seg.len() < name.len() && name.subrange(0, seg.len() as int) == seg
        && name[seg.len() as int] == 46)
}

/// Whether the selector segments `sel[si..]` match a subsequence of the
/// scope names `path[pi..]`, in order (segments matched greedily).
pub open spec fn segs_subseq(sel: Seq<Seq<u8>>, si: int, path: Seq<Seq<u8>>, pi: int) -> bool
    decreases path.len() - pi,
{
    if si >= sel.len() {
        true
    } else if si < 0 || pi < 0 || pi >= path.len() {
        false
    } else if seg_matches(sel[si], path[pi]) {
        segs_subseq(sel, si + 1, path, pi + 1)
    } else {
        segs_subseq(sel, si, path, pi + 1)
    }
}

/// Whether a selector matches a scope path: its last segment matches the
/// innermost scope name, its earlier segments match earlier scopes of the
/// path in order.
pub open spec fn selector_matches(sel: Seq<Seq<u8>>, path: Seq<Seq<u8>>) -> bool {
    &&& sel.len() >= 1
    &&& path.len() >= 1
    &&& seg_matches(sel.last(), path.last())
    &&& segs_subseq(sel.take(sel.len() - 1), 0, path.take(path.len() - 1), 0)
}

/// Running resolution state: the style so far, and for each property the
/// specificity of the rule that set it (0 = still the default).
pub struct ResolveState {
    pub style: Style,
    pub fg_s: int,
    pub bg_s: int,
    pub bold_s: int,
    pub italic_s: int,
    pub underline_s: int,
}

pub open spec fn init_state(d: Style) -> ResolveState {
    ResolveState { style: d, fg_s: 0, bg_s: 0, bold_s: 0, italic_s: 0, underline_s: 0 }
}

/// One rule applied to the state: where it matches, every property it sets
/// wins if the rule is at least as specific as the property's current
/// setter — so later rules override earlier ones of equal specificity.
pub open spec fn apply_rule(st: ResolveState, r: ThemeRule, path: Seq<Seq<u8>>) -> ResolveState {
    if selector_matches(r.selector.deep_view(), path) {
        let sp = r.selector.len() as int;
        ResolveState {
            style: Style {
                fg: match r.style.fg {
                    Some(c) => if sp >= st.fg_s {
                        c
                    } else {
                        st.style.fg
                    },
                    None => st.style.fg,
                },
                bg: match r.style.bg {
                    Some(c) => if sp >= st.bg_s {
                        c
                    } else {
                        st.style.bg
                    },
                    None => st.style.bg,
                },
                bold: match r.style.bold {
                    Some(v) => if sp >= st.bold_s {
                        v
                    } else {
                        st.style.bold
                    },
                    None => st.style.bold,
                },
                italic: match r.style.italic {
                    Some(v) => if sp >= st.italic_s {
                        v
                    } else {
                        st.style.italic
                    },
                    None => st.style.italic,
                },
                underline: match r.style.underline {
                    Some(v) => if sp >= st.underline_s {
                        v
                    } else {
                        st.style.underline
                    },
                    None => st.style.underline,
                },
            },
            fg_s: match r.style.fg {
                Some(_) => if sp >= st.fg_s {
                    sp
                } else {
                    st.fg_s
                },
                None => st.fg_s,
            },
            bg_s: match r.style.bg {
                Some(_) => if sp >= st.bg_s {
                    sp
                } else {
                    st.bg_s
                },
                None => st.bg_s,
            },
            bold_s: match r.style.bold {
                Some(_) => if sp >= st.bold_s {
                    sp
                } else {
                    st.bold_s
                },
                None => st.bold_s,
            },
            italic_s: match r.style.italic {
                Some(_) => if sp >= st.italic_s {
                    sp
                } else {
                    st.italic_s
                },
                None => st.italic_s,
            },
            underline_s: match r.style.underline {
                Some(_) => if sp >= st.underline_s {
                    sp
                } else {
                    st.underline_s
                },
                None => st.underline_s,
            },
        }
    } else {
        st
    }
}

/// The rules `rules[j..]` folded over the state, in declaration order.
pub open spec fn resolve_from(
    rules: Seq<ThemeRule>,
    j: int,
    path: Seq<Seq<u8>>,
    st: ResolveState,
) -> ResolveState
    decreases rules.len() - j,
{
    if j < 0 || j >= rules.len() {
        st
    } else {
        resolve_from(rules, j + 1, path, apply_rule(st, rules[j], path))
    }
}

/// The effective style of a scope path under a theme.
pub open spec fn resolve_spec(theme: Theme, path: Seq<Seq<u8>>) -> Style {
    resolve_from(theme.rules@, 0, path, init_state(theme.default_style)).style
}

/// Executable twin of `seg_matches`.
pub fn seg_matches_exec(seg: &Vec<u8>, name: &Vec<u8>) -> (r: bool)
    ensures
        r == seg_matches(seg@, name@),
{
    if seg.len() > name.len() {
        return false;
    }
    let mut i: usize = 0;
    while i < seg.len()
        invariant
            seg@.len() <= name@.len(),
            i <= seg@.len(),
            forall|k: int| 0 <= k < i ==> seg@[k] == name@[k],
        decreases seg.len() - i,
    {
        if seg[i] != name[i] {
            proof {
                assert(seg@ != name@);
                if name@.subrange(0, seg@.len() as int) == seg@ {
                    assert(name@.subrange(0, seg@.len() as int)[i as int] == name@[i as int]);
                }
            }
            return false;
        }
        i = i + 1;
    }
    if seg.len() == name.len() {
        proof {
            assert(seg@ =~= name@);
        }
        true
    } else {
        let r = name[seg.len()] == 46;
        proof {
            assert(name@.subrange(0, seg@.len() as int) =~= seg@);
        }
        r
    }
}

/// Executable twin of `segs_subseq`, over the first `sn` selector segments
/// and the first `pn` path scopes.
fn segs_subseq_exec(sel: &Vec<Vec<u8>>, sn: usize, path: &Vec<Vec<u8>>, pn: usize) -> (r: bool)
    requires
        sn <= sel.len(),
        pn <= path.len(),
    ensures
        r == segs_subseq(sel.deep_view().take(sn as int), 0, path.deep_view().take(pn as int), 0),
{
    let ghost selp = sel.deep_view().take(sn as int);
    let ghost pathp = path.deep_view().take(pn as int);
    let mut si: usize = 0;
    let mut pi: usize = 0;
    while si < sn && pi < pn
        invariant
            sn <= sel.len(),
            pn <= path.len(),
            si <= sn,
            pi <= pn,
            selp == sel.deep_view().take(sn as int),
            pathp == path.deep_view().take(pn as int),
            segs_subseq(selp, 0, pathp, 0) == segs_subseq(selp, si as int, pathp, pi as int),
        decreases pn - pi,
    {
        proof {
            assert(selp[si as int] == sel@[si as int]@);
            assert(pathp[pi as int] == path@[pi as int]@);
        }
        if seg_matches_exec(&sel[si], &path[pi]) {
            si = si + 1;
            pi = pi + 1;
        } else {
            pi = pi + 1;
        }
    }
    si == sn
}

/// Executable twin of `selector_matches`.
pub fn selector_matches_exec(sel: &Vec<Vec<u8>>, path: &Vec<Vec<u8>>) -> (r: bool)
    ensures
        r == selector_matches(sel.deep_view(), path.deep_view()),
{
    if sel.len() == 0 || path.len() == 0 {
        return false;
    }
    proof {
        assert(sel.deep_view().last() == sel@[sel@.len() - 1]@);
        assert(path.deep_view().last() == path@[path@.len() - 1]@);
        assert(sel.deep_view().take(sel.deep_view().len() - 1) =~= sel.deep_view().take(
            sel@.len() - 1,
        ));
        assert(path.deep_view().take(path.deep_view().len() - 1) =~= path.deep_view().take(
            path@.len() - 1,
        ));
    }
    if !seg_matches_exec(&sel[sel.len() - 1], &path[path.len() - 1]) {
        return false;
    }
    segs_subseq_exec(sel, sel.len() - 1, path, path.len() - 1)
}

/// The effective style of a scope path under a theme: the most specific
/// matching rule decides each colour (later rules winning ties), font
/// flags merge across all matching rules, unmatched scopes keep the
/// default style.
pub fn resolve(theme: &Theme, path: &Vec<Vec<u8>>) -> (r: Style)
    ensures
        r == resolve_spec(*theme, path.deep_view()),
{
    let mut style = theme.default_style;
    let mut fg_s: usize = 0;
    let mut bg_s: usize = 0;
    let mut bold_s: usize = 0;
    let mut italic_s: usize = 0;
    let mut underline_s: usize = 0;
    let mut j: usize = 0;
    let ghost pathv = path.deep_view();
    while j < theme.rules.len()
        invariant
            pathv == path.deep_view(),
            j <= theme.rules.len(),
            resolve_from(
                theme.rules@,
                j as int,
                pathv,
                ResolveState {
                    style,
                    fg_s: fg_s as int,
                    bg_s: bg_s as int,
                    bold_s: bold_s as int,
                    italic_s: italic_s as int,
                    underline_s: underline_s as int,
                },
            ) == resolve_from(theme.rules@, 0, pathv, init_state(theme.default_style)),
        decreases theme.rules.len() - j,
    {
        let ghost st0 = ResolveState {
            style,
            fg_s: fg_s as int,
            bg_s: bg_s as int,
            bold_s: bold_s as int,
            italic_s: italic_s as int,
            underline_s: underline_s as int,
        };
        let rule = &theme.rules[j];
        if selector_matches_exec(&rule.selector, path) {
            let sp = rule.selector.len();
            match rule.style.fg {
                Some(c) => if sp >= fg_s {
                    style.fg = c;
                    fg_s = sp;
                },
                None => {},
            }
            match rule.style.bg {
                Some(c) => if sp >= bg_s {
                    style.bg = c;
                    bg_s = sp;
                },
                None => {},
            }
            match rule.style.bold {
                Some(v) => if sp >= bold_s {
                    style.bold = v;
                    bold_s = sp;
                },
                None => {},
            }
            match rule.style.italic {
                Some(v) => if sp >= italic_s {
                    style.italic = v;
                    italic_s = sp;
                },
                None => {},
            }
            match rule.style.underline {
                Some(v) => if sp >= underline_s {
                    style.underline = v;
                    underline_s = sp;
                },
                None => {},
            }
        }
        proof {
            assert(apply_rule(st0, theme.rules@[j as int], pathv) == ResolveState {
                style,
                fg_s: fg_s as int,
                bg_s: bg_s as int,
                bold_s: bold_s as int,
                italic_s: italic_s as int,
                underline_s: underline_s as int,
            });
        }
        j = j + 1;
    }
    style
}

} // verus!
