//! The HTML renderer.
//!
//! Token text is escaped (`&`, `<`, `>`, `"`); adjacent tokens resolving to
//! the same style share one span; a span is opened only for styles that
//! differ from the enclosing default; the whole output is wrapped in one
//! `<pre>` carrying the theme's default colours, line breaks staying
//! literal bytes inside it.  `render` computes exactly `render_spec`, and
//! stripping every tag from the output and undoing the escaping provably
//! restores the input text.

use vstd::prelude::*;
use crate::grammar::{Token, SpecToken, tokens_view};
use crate::theme::{Color, Style, Theme, resolve, resolve_spec};
use crate::engine::tokens_tile;

verus! {

// ---------------------------------------------------------------- escaping

/// `&amp;`
pub open spec fn ent_amp() -> Seq<u8> {
    seq![38u8, 97, 109, 112, 59]
}

/// `&lt;`
pub open spec fn ent_lt() -> Seq<u8> {
    seq![38u8, 108, 116, 59]
}

/// `&gt;`
pub open spec fn ent_gt() -> Seq<u8> {
    seq![38u8, 103, 116, 59]
}

/// `&quot;`
pub open spec fn ent_quot() -> Seq<u8> {
    seq![38u8, 113, 117, 111, 116, 59]
}

/// What one byte renders as.
pub open spec fn escape_byte(b: u8) -> Seq<u8> {
    if b == 38 {
        ent_amp()
    } else if b == 60 {
        ent_lt()
    } else if b == 62 {
        ent_gt()
    } else if b == 34 {
        ent_quot()
    } else {
        seq![b]
    }
}

/// The first `j` bytes of `s`, escaped.
pub open spec fn escape_upto(s: Seq<u8>, j: int) -> Seq<u8>
    decreases j,
{
    if j <= 0 || j > s.len() {
        Seq::empty()
    } else {
        escape_upto(s, j - 1) + escape_byte(s[j - 1])
    }
}

/// `s` escaped for HTML.
pub open spec fn escape_bytes(s: Seq<u8>) -> Seq<u8> {
    escape_upto(s, s.len() as int)
}

pub open spec fn starts_with(s: Seq<u8>, p: Seq<u8>) -> bool {
    p.len() <= s.len() && s.subrange(0, p.len() as int) == p
}

/// The inverse of escaping: the four entities back to their bytes, every
/// other byte kept.
pub open spec fn unescape(s: Seq<u8>) -> Seq<u8>
    decreases s.len(),
{
    if s.len() == 0 {
        Seq::empty()
    } else if starts_with(s, ent_amp()) {
        seq![38u8] + unescape(s.skip(5))
    } else if starts_with(s, ent_lt()) {
        seq![60u8] + unescape(s.skip(4))
    } else if starts_with(s, ent_gt()) {
        seq![62u8] + unescape(s.skip(4))
    } else if starts_with(s, ent_quot()) {
        seq![34u8] + unescape(s.skip(6))
    } else {
        seq![s[0]] + unescape(s.skip(1))
    }
}

/// Escaping reads only the bytes it is given.
proof fn lemma_escape_upto_prefix(s: Seq<u8>, t: Seq<u8>, j: int)
    requires
        j <= s.len(),
        j <= t.len(),
        forall|k: int| 0 <= k < j ==> s[k] == t[k],
    ensures
        escape_upto(s, j) == escape_upto(t, j),
    decreases j,
{
    if j > 0 {
        lemma_escape_upto_prefix(s, t, j - 1);
        assert(s[j - 1] == t[j - 1]);
    }
}

/// Escaping distributes over concatenation.
pub proof fn lemma_escape_append(a: Seq<u8>, b: Seq<u8>)
    ensures
        escape_bytes(a + b) == escape_bytes(a) + escape_bytes(b),
    decreases b.len(),
{
    if b.len() == 0 {
        assert(a + b =~= a);
        assert(escape_bytes(a) + escape_bytes(b) =~= escape_bytes(a));
    } else {
        let b1 = b.drop_last();
        lemma_escape_append(a, b1);
        let ab = a + b;
        let ab1 = a + b1;
        assert(forall|k: int| 0 <= k < ab1.len() ==> ab[k] == ab1[k]);
        lemma_escape_upto_prefix(ab, ab1, ab.len() - 1);
        assert(escape_upto(ab1, ab1.len() as int) == escape_bytes(ab1));
        lemma_escape_upto_prefix(b, b1, b.len() - 1);
        assert(ab[ab.len() - 1] == b[b.len() - 1]);
        assert(escape_bytes(ab) == escape_bytes(ab1) + escape_byte(b[b.len() - 1]));
        assert((escape_bytes(a) + escape_bytes(b1)) + escape_byte(b[b.len() - 1]) =~= escape_bytes(
            a,
        ) + (escape_bytes(b1) + escape_byte(b[b.len() - 1])));
        assert(escape_bytes(b) == escape_bytes(b1) + escape_byte(b[b.len() - 1]));
    }
}

/// Escaping one byte, then the rest.
proof fn lemma_escape_cons(s: Seq<u8>, j: int)
    requires
        1 <= j <= s.len(),
    ensures
        escape_upto(s, j) == escape_byte(s[0]) + escape_upto(s.skip(1), j - 1),
    decreases j,
{
    if j == 1 {
        assert(escape_upto(s, 0) =~= Seq::<u8>::empty());
        assert(escape_upto(s.skip(1), 0) =~= Seq::<u8>::empty());
        assert(escape_upto(s, 1) =~= escape_byte(s[0]));
        assert(escape_byte(s[0]) + escape_upto(s.skip(1), 0) =~= escape_byte(s[0]));
    } else {
        lemma_escape_cons(s, j - 1);
        assert(s.skip(1)[j - 2] == s[j - 1]);
        assert((escape_byte(s[0]) + escape_upto(s.skip(1), j - 2)) + escape_byte(s[j - 1])
            =~= escape_byte(s[0]) + (escape_upto(s.skip(1), j - 2) + escape_byte(s[j - 1])));
    }
}

/// No angle bracket survives in escaped text.
pub open spec fn no_angles(s: Seq<u8>) -> bool {
    forall|k: int| 0 <= k < s.len() ==> (#[trigger] s[k]) != 60 && s[k] != 62
}

proof fn lemma_no_angles_append(a: Seq<u8>, b: Seq<u8>)
    requires
        no_angles(a),
        no_angles(b),
    ensures
        no_angles(a + b),
{
    assert(forall|k: int| 0 <= k < a.len() ==> (a + b)[k] == a[k]);
    assert(forall|k: int| a.len() <= k < a.len() + b.len() ==> (a + b)[k] == b[k - a.len()]);
}

pub proof fn lemma_escape_no_angle(s: Seq<u8>, j: int)
    ensures
        no_angles(escape_upto(s, j)),
    decreases j,
{
    if j <= 0 || j > s.len() {
    } else {
        lemma_escape_no_angle(s, j - 1);
        assert(no_angles(escape_byte(s[j - 1])));
        lemma_no_angles_append(escape_upto(s, j - 1), escape_byte(s[j - 1]));
    }
}

/// The escaping round trip: undoing the escaping of any byte string
/// restores it exactly.
pub proof fn lemma_unescape_escape(s: Seq<u8>)
    ensures
        unescape(escape_bytes(s)) == s,
    decreases s.len(),
{
    if s.len() == 0 {
        assert(unescape(escape_bytes(s)) =~= s);
    } else {
        let tail = s.skip(1);
        lemma_escape_cons(s, s.len() as int);
        assert(escape_upto(s.skip(1), s.len() - 1) == escape_bytes(tail));
        lemma_unescape_escape(tail);
        let esc = escape_bytes(s);
        let b = s[0];
        assert(esc == escape_byte(b) + escape_bytes(tail));
        if b == 38 {
            assert(starts_with(esc, ent_amp())) by {
                assert(esc.subrange(0, 5) =~= ent_amp());
            }
            assert(esc.skip(5) =~= escape_bytes(tail));
            assert(seq![38u8] + tail =~= s);
        } else if b == 60 {
            assert(esc[1] == 108);
            assert(!starts_with(esc, ent_amp())) by {
                if starts_with(esc, ent_amp()) {
                    assert(esc.subrange(0, 5)[1] == ent_amp()[1]);
                }
            }
            assert(starts_with(esc, ent_lt())) by {
                assert(esc.subrange(0, 4) =~= ent_lt());
            }
            assert(esc.skip(4) =~= escape_bytes(tail));
            assert(seq![60u8] + tail =~= s);
        } else if b == 62 {
            assert(esc[1] == 103);
            assert(!starts_with(esc, ent_amp())) by {
                if starts_with(esc, ent_amp()) {
                    assert(esc.subrange(0, 5)[1] == ent_amp()[1]);
                }
            }
            assert(!starts_with(esc, ent_lt())) by {
                if starts_with(esc, ent_lt()) {
                    assert(esc.subrange(0, 4)[1] == ent_lt()[1]);
                }
            }
            assert(starts_with(esc, ent_gt())) by {
                assert(esc.subrange(0, 4) =~= ent_gt());
            }
            assert(esc.skip(4) =~= escape_bytes(tail));
            assert(seq![62u8] + tail =~= s);
        } else if b == 34 {
            assert(esc[1] == 113);
            assert(!starts_with(esc, ent_amp())) by {
                if starts_with(esc, ent_amp()) {
                    assert(esc.subrange(0, 5)[1] == ent_amp()[1]);
                }
            }
            assert(!starts_with(esc, ent_lt())) by {
                if starts_with(esc, ent_lt()) {
                    assert(esc.subrange(0, 4)[1] == ent_lt()[1]);
                }
            }
            assert(!starts_with(esc, ent_gt())) by {
                if starts_with(esc, ent_gt()) {
                    assert(esc.subrange(0, 4)[1] == ent_gt()[1]);
                }
            }
            assert(starts_with(esc, ent_quot())) by {
                assert(esc.subrange(0, 6) =~= ent_quot());
            }
            assert(esc.skip(6) =~= escape_bytes(tail));
            assert(seq![34u8] + tail =~= s);
        } else {
            assert(esc[0] == b);
            assert(!starts_with(esc, ent_amp())) by {
                if starts_with(esc, ent_amp()) {
                    assert(esc.subrange(0, 5)[0] == ent_amp()[0]);
                }
            }
            assert(!starts_with(esc, ent_lt())) by {
                if starts_with(esc, ent_lt()) {
                    assert(esc.subrange(0, 4)[0] == ent_lt()[0]);
                }
            }
            assert(!starts_with(esc, ent_gt())) by {
                if starts_with(esc, ent_gt()) {
                    assert(esc.subrange(0, 4)[0] == ent_gt()[0]);
                }
            }
            assert(!starts_with(esc, ent_quot())) by {
                if starts_with(esc, ent_quot()) {
                    assert(esc.subrange(0, 6)[0] == ent_quot()[0]);
                }
            }
            assert(esc.skip(1) =~= escape_bytes(tail));
            assert(seq![b] + tail =~= s);
        }
    }
}

// ------------------------------------------------------------ tag stripping

/// Everything outside `<`…`>` pairs, scanned left to right.
pub open spec fn strip_from(s: Seq<u8>, in_tag: bool) -> Seq<u8>
    decreases s.len(),
{
    if s.len() == 0 {
        Seq::empty()
    } else if in_tag {
        if s[0] == 62 {
            strip_from(s.skip(1), false)
        } else {
            strip_from(s.skip(1), true)
        }
    } else if s[0] == 60 {
        strip_from(s.skip(1), true)
    } else {
        seq![s[0]] + strip_from(s.skip(1), false)
    }
}

/// `s` with every markup tag removed.
pub open spec fn strip_tags(s: Seq<u8>) -> Seq<u8> {
    strip_from(s, false)
}

/// A well-formed tag: `<`, an interior free of angle brackets, `>`.
pub open spec fn is_tag(t: Seq<u8>) -> bool {
    &&& t.len() >= 2
    &&& t[0] == 60
    &&& t.last() == 62
    &&& no_angles(t.subrange(1, t.len() - 1))
}

proof fn lemma_strip_in_tag(u: Seq<u8>, r: Seq<u8>)
    requires
        forall|k: int| 0 <= k < u.len() ==> (#[trigger] u[k]) != 62,
    ensures
        strip_from(u + seq![62u8] + r, true) == strip_from(r, false),
    decreases u.len(),
{
    let s = u + seq![62u8] + r;
    if u.len() == 0 {
        assert(s[0] == 62);
        assert(s.skip(1) =~= r);
    } else {
        assert(s[0] == u[0]);
        assert(s.skip(1) =~= u.skip(1) + seq![62u8] + r);
        lemma_strip_in_tag(u.skip(1), r);
    }
}

/// A leading tag strips away entirely.
pub proof fn lemma_strip_tag(t: Seq<u8>, r: Seq<u8>)
    requires
        is_tag(t),
    ensures
        strip_from(t + r, false) == strip_from(r, false),
{
    let s = t + r;
    assert(s[0] == 60);
    let u = t.subrange(1, t.len() - 1);
    assert(s.skip(1) =~= u + seq![62u8] + r);
    lemma_strip_in_tag(u, r);
}

/// Leading text free of `<` strips to itself.
pub proof fn lemma_strip_text(e: Seq<u8>, r: Seq<u8>)
    requires
        forall|k: int| 0 <= k < e.len() ==> (#[trigger] e[k]) != 60,
    ensures
        strip_from(e + r, false) == e + strip_from(r, false),
    decreases e.len(),
{
    if e.len() == 0 {
        assert(e + r =~= r);
        assert(e + strip_from(r, false) =~= strip_from(r, false));
    } else {
        let s = e + r;
        assert(s[0] == e[0]);
        assert(s.skip(1) =~= e.skip(1) + r);
        lemma_strip_text(e.skip(1), r);
        assert(seq![e[0]] + (e.skip(1) + strip_from(r, false)) =~= e + strip_from(r, false));
    }
}

// ------------------------------------------------------------------ markup

/// The lower-case hex digit of a value below 16.
pub open spec fn hexdig(n: u8) -> u8 {
    if n < 10 {
        ((48 + n) as u8)
    } else {
        ((87 + n) as u8)
    }
}

/// Two lower-case hex digits of a byte.
pub open spec fn hex2(b: u8) -> Seq<u8> {
    seq![hexdig(b / 16), hexdig(b % 16)]
}

/// `rrggbb` of a color.
pub open spec fn hex_color(c: Color) -> Seq<u8> {
    hex2(c.r) + hex2(c.g) + hex2(c.b)
}

/// `pre style="background-color:#`
pub open spec fn lit_pre_a() -> Seq<u8> {
    seq![112u8, 114, 101, 32, 115, 116, 121, 108, 101, 61, 34, 98, 97, 99, 107, 103, 114, 111, 117,
        110, 100, 45, 99, 111, 108, 111, 114, 58, 35]
}

/// `;color:#`
pub open spec fn lit_semi_color() -> Seq<u8> {
    seq![59u8, 99, 111, 108, 111, 114, 58, 35]
}

/// `;"`
pub open spec fn lit_semi_quot() -> Seq<u8> {
    seq![59u8, 34]
}

/// `/pre`
pub open spec fn lit_slash_pre() -> Seq<u8> {
    seq![47u8, 112, 114, 101]
}

/// `span style="color:#`
pub open spec fn lit_span_a() -> Seq<u8> {
    seq![115u8, 112, 97, 110, 32, 115, 116, 121, 108, 101, 61, 34, 99, 111, 108, 111, 114, 58, 35]
}

/// `;background-color:#`
pub open spec fn lit_span_bg() -> Seq<u8> {
    seq![59u8, 98, 97, 99, 107, 103, 114, 111, 117, 110, 100, 45, 99, 111, 108, 111, 114, 58, 35]
}

/// `font-weight:bold;`
pub open spec fn lit_bold() -> Seq<u8> {
    seq![102u8, 111, 110, 116, 45, 119, 101, 105, 103, 104, 116, 58, 98, 111, 108, 100, 59]
}

/// `font-style:italic;`
pub open spec fn lit_italic() -> Seq<u8> {
    seq![102u8, 111, 110, 116, 45, 115, 116, 121, 108, 101, 58, 105, 116, 97, 108, 105, 99, 59]
}

/// `text-decoration:underline;`
pub open spec fn lit_underline() -> Seq<u8> {
    seq![116u8, 101, 120, 116, 45, 100, 101, 99, 111, 114, 97, 116, 105, 111, 110, 58, 117, 110,
        100, 101, 114, 108, 105, 110, 101, 59]
}

/// `/span`
pub open spec fn lit_slash_span() -> Seq<u8> {
    seq![47u8, 115, 112, 97, 110]
}

/// A tag around an interior.
pub open spec fn tag_of(mid: Seq<u8>) -> Seq<u8> {
    seq![60u8] + mid + seq![62u8]
}

/// The interior of the container element's opening tag.
pub open spec fn pre_open_mid(st: Style) -> Seq<u8> {
    lit_pre_a() + hex_color(st.bg) + lit_semi_color() + hex_color(st.fg) + lit_semi_quot()
}

/// `<pre style="background-color:#RRGGBB;color:#RRGGBB;">`
pub open spec fn pre_open(st: Style) -> Seq<u8> {
    tag_of(pre_open_mid(st))
}

/// `</pre>`
pub open spec fn pre_close() -> Seq<u8> {
    tag_of(lit_slash_pre())
}

/// The flag properties a style switches on.
pub open spec fn flags_css(st: Style) -> Seq<u8> {
    (if st.bold {
        lit_bold()
    } else {
        Seq::empty()
    }) + (if st.italic {
        lit_italic()
    } else {
        Seq::empty()
    }) + (if st.underline {
        lit_underline()
    } else {
        Seq::empty()
    })
}

/// The interior of a span's opening tag.
pub open spec fn span_open_mid(st: Style) -> Seq<u8> {
    lit_span_a() + hex_color(st.fg) + lit_span_bg() + hex_color(st.bg) + seq![59u8] + flags_css(st)
        + seq![34u8]
}

/// `<span style="color:#RRGGBB;background-color:#RRGGBB;…">`
pub open spec fn span_open(st: Style) -> Seq<u8> {
    tag_of(span_open_mid(st))
}

/// `</span>`
pub open spec fn span_close() -> Seq<u8> {
    tag_of(lit_slash_span())
}

/// A tag with an angle-free interior is well formed.
proof fn lemma_tag_of(mid: Seq<u8>)
    requires
        no_angles(mid),
    ensures
        is_tag(tag_of(mid)),
{
    let t = tag_of(mid);
    assert(t.last() == 62);
    assert(t.subrange(1, t.len() - 1) =~= mid);
}

proof fn lemma_hex2_no_angles(b: u8)
    ensures
        no_angles(hex2(b)),
{
    assert(hexdig(b / 16) != 60 && hexdig(b / 16) != 62);
    assert(hexdig(b % 16) != 60 && hexdig(b % 16) != 62);
}

proof fn lemma_hex_no_angles(c: Color)
    ensures
        no_angles(hex_color(c)),
{
    lemma_hex2_no_angles(c.r);
    lemma_hex2_no_angles(c.g);
    lemma_hex2_no_angles(c.b);
    lemma_no_angles_append(hex2(c.r), hex2(c.g));
    lemma_no_angles_append(hex2(c.r) + hex2(c.g), hex2(c.b));
}

proof fn lemma_pre_open_tag(st: Style)
    ensures
        is_tag(pre_open(st)),
        is_tag(pre_close()),
        is_tag(span_close()),
{
    lemma_hex_no_angles(st.bg);
    lemma_hex_no_angles(st.fg);
    lemma_no_angles_append(lit_pre_a(), hex_color(st.bg));
    lemma_no_angles_append(lit_pre_a() + hex_color(st.bg), lit_semi_color());
    lemma_no_angles_append(lit_pre_a() + hex_color(st.bg) + lit_semi_color(), hex_color(st.fg));
    lemma_no_angles_append(
        lit_pre_a() + hex_color(st.bg) + lit_semi_color() + hex_color(st.fg),
        lit_semi_quot(),
    );
    lemma_tag_of(pre_open_mid(st));
    lemma_tag_of(lit_slash_pre());
    lemma_tag_of(lit_slash_span());
}

proof fn lemma_span_open_tag(st: Style)
    ensures
        is_tag(span_open(st)),
{
    lemma_hex_no_angles(st.fg);
    lemma_hex_no_angles(st.bg);
    assert(no_angles(flags_css(st))) by {
        lemma_no_angles_append(
            if st.bold {
                lit_bold()
            } else {
                Seq::empty()
            },
            if st.italic {
                lit_italic()
            } else {
                Seq::empty()
            },
        );
        lemma_no_angles_append(
            (if st.bold {
                lit_bold()
            } else {
                Seq::empty()
            }) + (if st.italic {
                lit_italic()
            } else {
                Seq::empty()
            }),
            if st.underline {
                lit_underline()
            } else {
                Seq::empty()
            },
        );
    }
    lemma_no_angles_append(lit_span_a(), hex_color(st.fg));
    lemma_no_angles_append(lit_span_a() + hex_color(st.fg), lit_span_bg());
    lemma_no_angles_append(lit_span_a() + hex_color(st.fg) + lit_span_bg(), hex_color(st.bg));
    lemma_no_angles_append(
        lit_span_a() + hex_color(st.fg) + lit_span_bg() + hex_color(st.bg),
        seq![59u8],
    );
    lemma_no_angles_append(
        lit_span_a() + hex_color(st.fg) + lit_span_bg() + hex_color(st.bg) + seq![59u8],
        flags_css(st),
    );
    lemma_no_angles_append(
        lit_span_a() + hex_color(st.fg) + lit_span_bg() + hex_color(st.bg) + seq![59u8] + flags_css(
            st,
        ),
        seq![34u8],
    );
    lemma_tag_of(span_open_mid(st));
}

// ---------------------------------------------------------------- rendering

/// The markup of the tokens `toks[k..]`, entered with `cur` the style of
/// the enclosing open span (`open`), or the default style when none is
/// open.  A token whose resolved style equals `cur` joins the enclosing
/// span; otherwise the open span is closed and, unless the new style is
/// the default, a new one is opened.
pub open spec fn render_body(
    toks: Seq<SpecToken>,
    k: int,
    text: Seq<u8>,
    theme: Theme,
    cur: Style,
    open: bool,
) -> Seq<u8>
    decreases toks.len() - k,
{
    if k < 0 || k >= toks.len() {
        if open {
            span_close()
        } else {
            Seq::empty()
        }
    } else {
        let st = resolve_spec(theme, toks[k].scopes);
        let esc = escape_bytes(text.subrange(toks[k].start, toks[k].end));
        if st == cur {
            esc + render_body(toks, k + 1, text, theme, cur, open)
        } else {
            let closer: Seq<u8> = if open {
                span_close()
            } else {
                Seq::empty()
            };
            if st == theme.default_style {
                closer + esc + render_body(toks, k + 1, text, theme, st, false)
            } else {
                closer + span_open(st) + esc + render_body(toks, k + 1, text, theme, st, true)
            }
        }
    }
}

/// The whole output: one `<pre>` container carrying the theme's default
/// colours, the tokens' markup, `</pre>`.
pub open spec fn render_spec(toks: Seq<SpecToken>, text: Seq<u8>, theme: Theme) -> Seq<u8> {
    pre_open(theme.default_style) + render_body(toks, 0, text, theme, theme.default_style, false)
        + pre_close()
}

/// Where the text still to render starts.
pub open spec fn rest_start(toks: Seq<SpecToken>, k: int, text: Seq<u8>) -> int {
    if k < toks.len() {
        toks[k].start
    } else {
        text.len() as int
    }
}

/// Stripping the markup of the remaining tokens leaves exactly the escaped
/// remaining text.
#[verifier::rlimit(100)]
proof fn lemma_strip_body(
    toks: Seq<SpecToken>,
    k: int,
    text: Seq<u8>,
    theme: Theme,
    cur: Style,
    open: bool,
)
    requires
        tokens_tile(toks, 0, text.len() as int),
        0 <= k <= toks.len(),
    ensures
        strip_from(render_body(toks, k, text, theme, cur, open) + pre_close(), false)
            == escape_bytes(text.subrange(rest_start(toks, k, text), text.len() as int)),
    decreases toks.len() - k,
{
    lemma_pre_open_tag(theme.default_style);
    crate::engine::lemma_tile_bounds(toks, 0, text.len() as int);
    if k >= toks.len() {
        if open {
            assert(span_close() + pre_close() =~= (span_close() + pre_close()) + Seq::<u8>::empty());
            lemma_strip_tag(span_close(), pre_close() + Seq::<u8>::empty());
            assert((span_close() + pre_close()) + Seq::<u8>::empty() =~= span_close() + (pre_close()
                + Seq::<u8>::empty()));
        }
        assert(pre_close() =~= pre_close() + Seq::<u8>::empty());
        lemma_strip_tag(pre_close(), Seq::<u8>::empty());
        assert(strip_from(Seq::<u8>::empty(), false) =~= Seq::<u8>::empty());
        assert(text.subrange(text.len() as int, text.len() as int) =~= Seq::<u8>::empty());
    } else {
        let st = resolve_spec(theme, toks[k].scopes);
        let start = toks[k].start;
        let tend = toks[k].end;
        let esc = escape_bytes(text.subrange(start, tend));
        lemma_escape_no_angle(text.subrange(start, tend), tend - start);
        let rest = render_body(toks, k + 1, text, theme, if st == cur {
            cur
        } else {
            st
        }, if st == cur {
            open
        } else {
            st != theme.default_style
        });
        lemma_strip_body(toks, k + 1, text, theme, if st == cur {
            cur
        } else {
            st
        }, if st == cur {
            open
        } else {
            st != theme.default_style
        });
        assert(tend == rest_start(toks, k + 1, text));
        // escaped token text + escaped remainder = escaped text from here
        lemma_escape_append(
            text.subrange(start, tend),
            text.subrange(tend, text.len() as int),
        );
        assert(text.subrange(start, tend) + text.subrange(tend, text.len() as int) =~= text.subrange(
            start,
            text.len() as int,
        ));
        if st == cur {
            assert((esc + rest) + pre_close() =~= esc + (rest + pre_close()));
            lemma_strip_text(esc, rest + pre_close());
        } else {
            lemma_span_open_tag(st);
            if st == theme.default_style {
                if open {
                    assert((span_close() + esc + rest) + pre_close() =~= span_close() + (esc + (rest
                        + pre_close())));
                    lemma_strip_tag(span_close(), esc + (rest + pre_close()));
                    lemma_strip_text(esc, rest + pre_close());
                } else {
                    assert((Seq::<u8>::empty() + esc + rest) + pre_close() =~= esc + (rest
                        + pre_close()));
                    lemma_strip_text(esc, rest + pre_close());
                }
            } else {
                if open {
                    assert((span_close() + span_open(st) + esc + rest) + pre_close()
                        =~= span_close() + (span_open(st) + (esc + (rest + pre_close()))));
                    lemma_strip_tag(span_close(), span_open(st) + (esc + (rest + pre_close())));
                    lemma_strip_tag(span_open(st), esc + (rest + pre_close()));
                    lemma_strip_text(esc, rest + pre_close());
                } else {
                    assert((Seq::<u8>::empty() + span_open(st) + esc + rest) + pre_close()
                        =~= span_open(st) + (esc + (rest + pre_close())));
                    lemma_strip_tag(span_open(st), esc + (rest + pre_close()));
                    lemma_strip_text(esc, rest + pre_close());
                }
            }
        }
    }
}

/// The escaping round trip over whole renderings: stripping every tag from
/// `render`'s output and undoing the HTML escaping restores the source
/// text exactly.
pub proof fn lemma_render_round_trip(toks: Seq<SpecToken>, text: Seq<u8>, theme: Theme)
    requires
        tokens_tile(toks, 0, text.len() as int),
    ensures
        unescape(strip_tags(render_spec(toks, text, theme))) == text,
{
    lemma_pre_open_tag(theme.default_style);
    let body = render_body(toks, 0, text, theme, theme.default_style, false);
    assert(render_spec(toks, text, theme) =~= pre_open(theme.default_style) + (body + pre_close()));
    lemma_strip_tag(pre_open(theme.default_style), body + pre_close());
    lemma_strip_body(toks, 0, text, theme, theme.default_style, false);
    if toks.len() == 0 {
        assert(text.len() == 0);
        assert(text.subrange(rest_start(toks, 0, text), text.len() as int) =~= text);
    } else {
        assert(text.subrange(rest_start(toks, 0, text), text.len() as int) =~= text);
    }
    lemma_unescape_escape(text);
}

// ------------------------------------------------------------- executable

fn hexdig_exec(n: u8) -> (r: u8)
    requires
        n < 16,
    ensures
        r == hexdig(n),
{
    if n < 10 {
        48 + n
    } else {
        87 + n
    }
}

/// Appends `rrggbb`.
fn push_hex_color(out: &mut Vec<u8>, c: Color)
    ensures
        final(out)@ == old(out)@ + hex_color(c),
{
    out.push(hexdig_exec(c.r / 16));
    out.push(hexdig_exec(c.r % 16));
    out.push(hexdig_exec(c.g / 16));
    out.push(hexdig_exec(c.g % 16));
    out.push(hexdig_exec(c.b / 16));
    out.push(hexdig_exec(c.b % 16));
    proof {
        assert(out@ =~= old(out)@ + hex_color(c));
    }
}

/// Appends `<pre style="background-color:#RRGGBB;color:#RRGGBB;">`.
fn push_pre_open(out: &mut Vec<u8>, st: Style)
    ensures
        final(out)@ == old(out)@ + pre_open(st),
{
    out.push(60);
    out.push(112);
    out.push(114);
    out.push(101);
    out.push(32);
    out.push(115);
    out.push(116);
    out.push(121);
    out.push(108);
    out.push(101);
    out.push(61);
    out.push(34);
    out.push(98);
    out.push(97);
    out.push(99);
    out.push(107);
    out.push(103);
    out.push(114);
    out.push(111);
    out.push(117);
    out.push(110);
    out.push(100);
    out.push(45);
    out.push(99);
    out.push(111);
    out.push(108);
    out.push(111);
    out.push(114);
    out.push(58);
    out.push(35);
    proof {
        assert(out@ =~= old(out)@ + seq![60u8] + lit_pre_a());
    }
    push_hex_color(out, st.bg);
    out.push(59);
    out.push(99);
    out.push(111);
    out.push(108);
    out.push(111);
    out.push(114);
    out.push(58);
    out.push(35);
    proof {
        assert(out@ =~= old(out)@ + seq![60u8] + lit_pre_a() + hex_color(st.bg)
            + lit_semi_color());
    }
    push_hex_color(out, st.fg);
    out.push(59);
    out.push(34);
    out.push(62);
    proof {
        assert(out@ =~= old(out)@ + pre_open(st));
    }
}

/// Appends `</pre>`.
fn push_pre_close(out: &mut Vec<u8>)
    ensures
        final(out)@ == old(out)@ + pre_close(),
{
    out.push(60);
    out.push(47);
    out.push(112);
    out.push(114);
    out.push(101);
    out.push(62);
    proof {
        assert(out@ =~= old(out)@ + pre_close());
    }
}

/// Appends `</span>`.
fn push_span_close(out: &mut Vec<u8>)
    ensures
        final(out)@ == old(out)@ + span_close(),
{
    out.push(60);
    out.push(47);
    out.push(115);
    out.push(112);
    out.push(97);
    out.push(110);
    out.push(62);
    proof {
        assert(out@ =~= old(out)@ + span_close());
    }
}

/// Appends the flag properties a style switches on.
#[verifier::rlimit(100)]
fn push_flags(out: &mut Vec<u8>, st: Style)
    ensures
        final(out)@ == old(out)@ + flags_css(st),
{
    if st.bold {
        out.push(102);
        out.push(111);
        out.push(110);
        out.push(116);
        out.push(45);
        out.push(119);
        out.push(101);
        out.push(105);
        out.push(103);
        out.push(104);
        out.push(116);
        out.push(58);
        out.push(98);
        out.push(111);
        out.push(108);
        out.push(100);
        out.push(59);
        proof {
            assert(out@ =~= old(out)@ + lit_bold());
        }
    }
    let ghost base2 = old(out)@ + (if st.bold {
        lit_bold()
    } else {
        Seq::<u8>::empty()
    });
    proof {
        assert(out@ =~= base2);
    }
    if st.italic {
        out.push(102);
        out.push(111);
        out.push(110);
        out.push(116);
        out.push(45);
        out.push(115);
        out.push(116);
        out.push(121);
        out.push(108);
        out.push(101);
        out.push(58);
        out.push(105);
        out.push(116);
        out.push(97);
        out.push(108);
        out.push(105);
        out.push(99);
        out.push(59);
        proof {
            assert(out@ =~= base2 + lit_italic());
        }
    }
    let ghost base3 = base2 + (if st.italic {
        lit_italic()
    } else {
        Seq::<u8>::empty()
    });
    proof {
        assert(out@ =~= base3);
    }
    if st.underline {
        out.push(116);
        out.push(101);
        out.push(120);
        out.push(116);
        out.push(45);
        out.push(100);
        out.push(101);
        out.push(99);
        out.push(111);
        out.push(114);
        out.push(97);
        out.push(116);
        out.push(105);
        out.push(111);
        out.push(110);
        out.push(58);
        out.push(117);
        out.push(110);
        out.push(100);
        out.push(101);
        out.push(114);
        out.push(108);
        out.push(105);
        out.push(110);
        out.push(101);
        out.push(59);
        proof {
            assert(out@ =~= base3 + lit_underline());
        }
    }
    proof {
        assert(out@ =~= base3 + (if st.underline {
            lit_underline()
        } else {
            Seq::<u8>::empty()
        }));
        assert(out@ =~= old(out)@ + flags_css(st));
    }
}

/// Appends `<span style="color:#RRGGBB;background-color:#RRGGBB;…">`.
#[verifier::rlimit(100)]
fn push_span_open(out: &mut Vec<u8>, st: Style)
    ensures
        final(out)@ == old(out)@ + span_open(st),
{
    out.push(60);
    out.push(115);
    out.push(112);
    out.push(97);
    out.push(110);
    out.push(32);
    out.push(115);
    out.push(116);
    out.push(121);
    out.push(108);
    out.push(101);
    out.push(61);
    out.push(34);
    out.push(99);
    out.push(111);
    out.push(108);
    out.push(111);
    out.push(114);
    out.push(58);
    out.push(35);
    proof {
        assert(out@ =~= old(out)@ + seq![60u8] + lit_span_a());
    }
    push_hex_color(out, st.fg);
    out.push(59);
    out.push(98);
    out.push(97);
    out.push(99);
    out.push(107);
    out.push(103);
    out.push(114);
    out.push(111);
    out.push(117);
    out.push(110);
    out.push(100);
    out.push(45);
    out.push(99);
    out.push(111);
    out.push(108);
    out.push(111);
    out.push(114);
    out.push(58);
    out.push(35);
    proof {
        assert(out@ =~= old(out)@ + seq![60u8] + lit_span_a() + hex_color(st.fg) + lit_span_bg());
    }
    push_hex_color(out, st.bg);
    out.push(59);
    let ghost base = old(out)@ + seq![60u8] + lit_span_a() + hex_color(st.fg) + lit_span_bg()
        + hex_color(st.bg) + seq![59u8];
    proof {
        assert(out@ =~= base);
    }
    push_flags(out, st);
    out.push(34);
    out.push(62);
    proof {
        assert(out@ =~= base + flags_css(st) + seq![34u8] + seq![62u8]);
        assert(span_open(st) =~= seq![60u8] + lit_span_a() + hex_color(st.fg) + lit_span_bg()
            + hex_color(st.bg) + seq![59u8] + flags_css(st) + seq![34u8] + seq![62u8]);
        assert(out@ =~= old(out)@ + span_open(st));
    }
}

/// Appends the bytes `text[start..end]`, escaped.
fn escape_push(out: &mut Vec<u8>, text: &Vec<u8>, start: usize, end: usize)
    requires
        start <= end <= text.len(),
    ensures
        final(out)@ == old(out)@ + escape_bytes(text@.subrange(start as int, end as int)),
{
    let ghost sub = text@.subrange(start as int, end as int);
    let mut p: usize = start;
    proof {
        assert(out@ =~= old(out)@ + escape_upto(sub, 0));
    }
    while p < end
        invariant
            start <= p <= end <= text.len(),
            sub == text@.subrange(start as int, end as int),
            out@ == old(out)@ + escape_upto(sub, p - start),
        decreases end - p,
    {
        let b = text[p];
        proof {
            assert(sub[p - start] == b);
        }
        if b == 38 {
            out.push(38);
            out.push(97);
            out.push(109);
            out.push(112);
            out.push(59);
        } else if b == 60 {
            out.push(38);
            out.push(108);
            out.push(116);
            out.push(59);
        } else if b == 62 {
            out.push(38);
            out.push(103);
            out.push(116);
            out.push(59);
        } else if b == 34 {
            out.push(38);
            out.push(113);
            out.push(117);
            out.push(111);
            out.push(116);
            out.push(59);
        } else {
            out.push(b);
        }
        proof {
            assert(escape_upto(sub, p + 1 - start) == escape_upto(sub, p - start) + escape_byte(
                sub[p - start],
            ));
            assert(out@ =~= old(out)@ + escape_upto(sub, p + 1 - start));
        }
        p = p + 1;
    }
}

/// Render styled tokens of `text` as markup: computes exactly
/// `render_spec`, so the output is a pure function of the tokens, the text
/// and the theme.
#[verifier::rlimit(100)]
pub fn render(toks: &Vec<Token>, text: &Vec<u8>, theme: &Theme) -> (r: Vec<u8>)
    requires
        forall|k: int| 0 <= k < toks@.len() ==> (#[trigger] toks@[k]).start <= toks@[k].end
            && toks@[k].end <= text@.len(),
    ensures
        r@ == render_spec(tokens_view(toks@), text@, *theme),
{
    let ghost tv = tokens_view(toks@);
    let mut out: Vec<u8> = Vec::new();
    push_pre_open(&mut out, theme.default_style);
    let mut cur: Style = theme.default_style;
    let mut opened: bool = false;
    let mut k: usize = 0;
    proof {
        assert(Seq::<u8>::empty() + pre_open(theme.default_style) =~= pre_open(
            theme.default_style,
        ));
    }
    while k < toks.len()
        invariant
            k <= toks@.len(),
            tv == tokens_view(toks@),
            forall|j: int| 0 <= j < toks@.len() ==> (#[trigger] toks@[j]).start <= toks@[j].end
                && toks@[j].end <= text@.len(),
            out@ + render_body(tv, k as int, text@, *theme, cur, opened) + pre_close()
                == render_spec(tv, text@, *theme),
        decreases toks@.len() - k,
    {
        let ghost out0 = out@;
        let ghost body0 = render_body(tv, k as int, text@, *theme, cur, opened);
        let st = {
            let tok = &toks[k];
            resolve(theme, &tok.scopes)
        };
        let tstart = toks[k].start;
        let tend = toks[k].end;
        proof {
            assert(tv[k as int] == toks@[k as int]@);
            assert(tv[k as int].scopes == toks@[k as int].scopes.deep_view());
            assert(st == resolve_spec(*theme, tv[k as int].scopes));
            assert(tv[k as int].start == tstart as int && tv[k as int].end == tend as int);
        }
        let ghost esc = escape_bytes(text@.subrange(tstart as int, tend as int));
        if st == cur {
            escape_push(&mut out, text, tstart, tend);
            proof {
                assert(body0 == esc + render_body(tv, k + 1, text@, *theme, cur, opened));
                assert((out0 + body0) + pre_close() =~= (out0 + esc) + render_body(
                    tv,
                    k + 1,
                    text@,
                    *theme,
                    cur,
                    opened,
                ) + pre_close());
                assert(out@ =~= out0 + esc);
            }
        } else {
            let ghost closer: Seq<u8> = if opened {
                span_close()
            } else {
                Seq::empty()
            };
            if opened {
                push_span_close(&mut out);
            }
            let newopen = !(st == theme.default_style);
            if newopen {
                push_span_open(&mut out, st);
                proof {
                    assert(body0 == closer + span_open(st) + esc + render_body(
                        tv,
                        k + 1,
                        text@,
                        *theme,
                        st,
                        true,
                    ));
                    assert(out@ =~= out0 + closer + span_open(st));
                }
            } else {
                proof {
                    assert(body0 == closer + esc + render_body(tv, k + 1, text@, *theme, st, false));
                    assert(out@ =~= out0 + closer);
                }
            }
            escape_push(&mut out, text, tstart, tend);
            proof {
                if newopen {
                    assert((out0 + body0) + pre_close() =~= (out0 + closer + span_open(st) + esc)
                        + render_body(tv, k + 1, text@, *theme, st, true) + pre_close());
                    assert(out@ =~= out0 + closer + span_open(st) + esc);
                } else {
                    assert((out0 + body0) + pre_close() =~= (out0 + closer + esc) + render_body(
                        tv,
                        k + 1,
                        text@,
                        *theme,
                        st,
                        false,
                    ) + pre_close());
                    assert(out@ =~= out0 + closer + esc);
                }
            }
            cur = st;
            opened = newopen;
        }
        k = k + 1;
    }
    let ghost out1 = out@;
    let ghost bodyn = render_body(tv, k as int, text@, *theme, cur, opened);
    if opened {
        push_span_close(&mut out);
        proof {
            assert(bodyn == span_close());
            assert(out@ =~= out1 + bodyn);
        }
    } else {
        proof {
            assert(bodyn =~= Seq::<u8>::empty());
            assert(out@ =~= out1 + bodyn);
        }
    }
    push_pre_close(&mut out);
    proof {
        assert(out@ =~= (out1 + bodyn) + pre_close());
    }
    out
}

/// Rendering is deterministic: the markup is a function of the tokens, the
/// text and the theme alone, so any two results of `render` on identical
/// arguments are identical.
pub proof fn lemma_render_deterministic(
    toks: Seq<SpecToken>,
    text: Seq<u8>,
    theme: Theme,
    r1: Seq<u8>,
    r2: Seq<u8>,
)
    requires
        r1 == render_spec(toks, text, theme),
        r2 == render_spec(toks, text, theme),
    ensures
        r1 == r2,
{
}

} // verus!
