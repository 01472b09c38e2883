//! The registries: loaded-once, immutable collections of grammars and
//! themes, shared read-only by every highlight call.
//!
//! A grammar is found by file extension; an unknown extension is not an
//! error but falls back to the built-in plain-text definition.  A theme is
//! found by name; a missing theme is a configuration error.

use vstd::prelude::*;
use crate::grammar::{Rule, Context, SyntaxDefinition, clone_bytes};
use crate::theme::{Color, Style, StyleMod, Theme, ThemeRule};
use crate::pattern::{Class, PatElem};
use crate::HighlightError;

verus! {

/// Whether two byte strings hold the same bytes.
pub fn bytes_eq(a: &Vec<u8>, b: &Vec<u8>) -> (r: bool)
    ensures
        r == (a@ == b@),
{
    if a.len() != b.len() {
        return false;
    }
    let mut i: usize = 0;
    while i < a.len()
        invariant
            a@.len() == b@.len(),
            i <= a@.len(),
            forall|k: int| 0 <= k < i ==> a@[k] == b@[k],
        decreases a.len() - i,
    {
        if a[i] != b[i] {
            return false;
        }
        i = i + 1;
    }
    proof {
        assert(a@ =~= b@);
    }
    true
}

/// Whether a definition serves the extension.
pub open spec fn def_has_ext(def: SyntaxDefinition, ext: Seq<u8>) -> bool {
    exists|i: int| 0 <= i < def.extensions.len() && (#[trigger] def.extensions@[i])@ == ext
}

/// The first definition of `defs[j..]` serving the extension, if any.
pub open spec fn find_ext_spec(defs: Seq<SyntaxDefinition>, j: int, ext: Seq<u8>) -> Option<int>
    decreases defs.len() - j,
{
    if j < 0 || j >= defs.len() {
        None
    } else if def_has_ext(defs[j], ext) {
        Some(j)
    } else {
        find_ext_spec(defs, j + 1, ext)
    }
}

/// The grammar registry: registered definitions plus the built-in
/// plain-text fallback.
pub struct SyntaxRegistry {
    pub defs: Vec<SyntaxDefinition>,
    pub plain: SyntaxDefinition,
}

impl SyntaxRegistry {
    /// Every held definition is well formed and the fallback is the
    /// patternless plain-text definition.
    pub open spec fn wf(&self) -> bool {
        &&& crate::grammar::wf_def(self.plain)
        &&& self.plain.contexts@.len() == 1
        &&& self.plain.contexts@[0].rules@.len() == 0
        &&& forall|i: int| 0 <= i < self.defs.len() ==> crate::grammar::wf_def(
            #[trigger] self.defs@[i],
        )
    }

    /// The definition a lookup returns: the first registered one serving
    /// the extension, else the plain-text fallback.
    pub open spec fn chosen_def(&self, ext: Seq<u8>) -> SyntaxDefinition {
        match find_ext_spec(self.defs@, 0, ext) {
            Some(i) => self.defs@[i],
            None => self.plain,
        }
    }

    /// An empty registry holding only the plain-text fallback.
    pub fn new() -> (r: Self)
        ensures
            r.wf(),
            r.defs@.len() == 0,
            r.plain.scope@ == scope_text_plain(),
    {
        SyntaxRegistry { defs: Vec::new(), plain: plain_text_definition() }
    }

    /// Adds one definition; later lookups prefer earlier registrations.
    pub fn register(&mut self, def: SyntaxDefinition)
        requires
            old(self).wf(),
            crate::grammar::wf_def(def),
        ensures
            final(self).wf(),
            final(self).defs@ == old(self).defs@.push(def),
            final(self).plain == old(self).plain,
    {
        self.defs.push(def);
    }

    /// Exact match on registered extensions; an unknown extension is not
    /// an error: the plain-text definition is the documented fallback.
    pub fn find_by_extension(&self, ext: &Vec<u8>) -> (r: &SyntaxDefinition)
        requires
            self.wf(),
        ensures
            *r == self.chosen_def(ext@),
            crate::grammar::wf_def(*r),
    {
        let mut j: usize = 0;
        while j < self.defs.len()
            invariant
                self.wf(),
                j <= self.defs@.len(),
                find_ext_spec(self.defs@, 0, ext@) == find_ext_spec(self.defs@, j as int, ext@),
            decreases self.defs@.len() - j,
        {
            let d = &self.defs[j];
            let mut e: usize = 0;
            let mut found: bool = false;
            while e < d.extensions.len()
                invariant
                    e <= d.extensions@.len(),
                    found == exists|i: int|
                        0 <= i < e && (#[trigger] d.extensions@[i])@ == ext@,
                decreases d.extensions@.len() - e,
            {
                if bytes_eq(&d.extensions[e], ext) {
                    found = true;
                }
                e = e + 1;
            }
            proof {
                assert(found == def_has_ext(*d, ext@));
            }
            if found {
                return d;
            }
            j = j + 1;
        }
        &self.plain
    }
}

/// `text.plain`
pub open spec fn scope_text_plain() -> Seq<u8> {
    seq![116u8, 101, 120, 116, 46, 112, 108, 97, 105, 110]
}

/// The built-in plain-text definition: one root scope, no patterns, so
/// every line becomes exactly one token.
pub fn plain_text_definition() -> (d: SyntaxDefinition)
    ensures
        crate::grammar::wf_def(d),
        d.contexts@.len() == 1,
        d.contexts@[0].rules@.len() == 0,
        d.scope@ == scope_text_plain(),
{
    let mut name: Vec<u8> = Vec::new();
    // "plain"
    name.push(112);
    name.push(108);
    name.push(97);
    name.push(105);
    name.push(110);
    let mut scope: Vec<u8> = Vec::new();
    // "text.plain"
    scope.push(116);
    scope.push(101);
    scope.push(120);
    scope.push(116);
    scope.push(46);
    scope.push(112);
    scope.push(108);
    scope.push(97);
    scope.push(105);
    scope.push(110);
    let mut ext: Vec<u8> = Vec::new();
    // "txt"
    ext.push(116);
    ext.push(120);
    ext.push(116);
    let mut extensions: Vec<Vec<u8>> = Vec::new();
    extensions.push(ext);
    let mut contexts: Vec<Context> = Vec::new();
    contexts.push(Context { rules: Vec::new() });
    proof {
        assert(scope@ =~= scope_text_plain());
    }
    SyntaxDefinition { name, extensions, scope, contexts }
}

/// The first theme of `names[j..]` called `name`, if any.
pub open spec fn find_name_spec(names: Seq<Seq<u8>>, j: int, name: Seq<u8>) -> Option<int>
    decreases names.len() - j,
{
    if j < 0 || j >= names.len() {
        None
    } else if names[j] == name {
        Some(j)
    } else {
        find_name_spec(names, j + 1, name)
    }
}

/// The theme registry: named, immutable themes.
pub struct ThemeRegistry {
    pub names: Vec<Vec<u8>>,
    pub themes: Vec<Theme>,
}

impl ThemeRegistry {
    pub open spec fn wf(&self) -> bool {
        self.names@.len() == self.themes@.len()
    }

    /// The index `get` finds for a name.
    pub open spec fn lookup(&self, name: Seq<u8>) -> Option<int> {
        find_name_spec(self.names.deep_view(), 0, name)
    }

    pub fn new() -> (r: Self)
        ensures
            r.wf(),
            r.names@.len() == 0,
    {
        ThemeRegistry { names: Vec::new(), themes: Vec::new() }
    }

    /// Adds one named theme.
    pub fn add(&mut self, name: Vec<u8>, theme: Theme)
        requires
            old(self).wf(),
        ensures
            final(self).wf(),
            final(self).names@ == old(self).names@.push(name),
            final(self).themes@ == old(self).themes@.push(theme),
    {
        self.names.push(name);
        self.themes.push(theme);
    }

    /// The theme of that name; a missing theme is an operator error, not
    /// masked by a fallback.
    pub fn get(&self, name: &Vec<u8>) -> (r: Result<&Theme, HighlightError>)
        requires
            self.wf(),
        ensures
            match r {
                Ok(t) => self.lookup(name@) is Some && *t == self.themes@[self.lookup(
                    name@,
                )->0],
                Err(e) => self.lookup(name@) is None && e == HighlightError::ThemeNotFound,
            },
    {
        let ghost nv = self.names.deep_view();
        let mut j: usize = 0;
        while j < self.names.len()
            invariant
                self.wf(),
                nv == self.names.deep_view(),
                j <= self.names@.len(),
                find_name_spec(nv, 0, name@) == find_name_spec(nv, j as int, name@),
            decreases self.names@.len() - j,
        {
            proof {
                assert(nv[j as int] == self.names@[j as int]@);
            }
            if bytes_eq(&self.names[j], name) {
                return Ok(&self.themes[j]);
            }
            j = j + 1;
        }
        Err(HighlightError::ThemeNotFound)
    }
}


/// A rule matching a word literally, scoped to `scope`.
fn word_rule(word: &Vec<u8>, scope: &Vec<u8>) -> (r: Rule)
    ensures
        (r matches Rule::Plain { .. }),
{
    let mut pat: Vec<PatElem> = Vec::new();
    let mut i: usize = 0;
    while i < word.len()
        decreases word.len() - i,
    {
        pat.push(PatElem::Lit(word[i]));
        i = i + 1;
    }
    Rule::Plain { pat, scope: clone_bytes(scope) }
}

/// The built-in Rust grammar: a handful of keywords, numbers, line
/// comments, double-quoted strings with escapes.
pub fn rust_definition() -> (d: SyntaxDefinition)
    ensures
        crate::grammar::wf_def(d),
{
    let mut w_fn: Vec<u8> = Vec::new();
    // "fn"
    w_fn.push(102);
    w_fn.push(110);
    let mut w_let: Vec<u8> = Vec::new();
    // "let"
    w_let.push(108);
    w_let.push(101);
    w_let.push(116);
    let mut w_pub: Vec<u8> = Vec::new();
    // "pub"
    w_pub.push(112);
    w_pub.push(117);
    w_pub.push(98);
    let mut w_use: Vec<u8> = Vec::new();
    // "use"
    w_use.push(117);
    w_use.push(115);
    w_use.push(101);
    let mut w_struct: Vec<u8> = Vec::new();
    // "struct"
    w_struct.push(115);
    w_struct.push(116);
    w_struct.push(114);
    w_struct.push(117);
    w_struct.push(99);
    w_struct.push(116);
    let mut w_enum: Vec<u8> = Vec::new();
    // "enum"
    w_enum.push(101);
    w_enum.push(110);
    w_enum.push(117);
    w_enum.push(109);
    let mut w_impl: Vec<u8> = Vec::new();
    // "impl"
    w_impl.push(105);
    w_impl.push(109);
    w_impl.push(112);
    w_impl.push(108);
    let mut w_rust: Vec<u8> = Vec::new();
    // "rust"
    w_rust.push(114);
    w_rust.push(117);
    w_rust.push(115);
    w_rust.push(116);
    let mut w_rs: Vec<u8> = Vec::new();
    // "rs"
    w_rs.push(114);
    w_rs.push(115);
    let mut sc_source: Vec<u8> = Vec::new();
    // "source.rust"
    sc_source.push(115);
    sc_source.push(111);
    sc_source.push(117);
    sc_source.push(114);
    sc_source.push(99);
    sc_source.push(101);
    sc_source.push(46);
    sc_source.push(114);
    sc_source.push(117);
    sc_source.push(115);
    sc_source.push(116);
    let mut sc_keyword: Vec<u8> = Vec::new();
    // "keyword.control.rust"
    sc_keyword.push(107);
    sc_keyword.push(101);
    sc_keyword.push(121);
    sc_keyword.push(119);
    sc_keyword.push(111);
    sc_keyword.push(114);
    sc_keyword.push(100);
    sc_keyword.push(46);
    sc_keyword.push(99);
    sc_keyword.push(111);
    sc_keyword.push(110);
    sc_keyword.push(116);
    sc_keyword.push(114);
    sc_keyword.push(111);
    sc_keyword.push(108);
    sc_keyword.push(46);
    sc_keyword.push(114);
    sc_keyword.push(117);
    sc_keyword.push(115);
    sc_keyword.push(116);
    let mut sc_number: Vec<u8> = Vec::new();
    // "constant.numeric.rust"
    sc_number.push(99);
    sc_number.push(111);
    sc_number.push(110);
    sc_number.push(115);
    sc_number.push(116);
    sc_number.push(97);
    sc_number.push(110);
    sc_number.push(116);
    sc_number.push(46);
    sc_number.push(110);
    sc_number.push(117);
    sc_number.push(109);
    sc_number.push(101);
    sc_number.push(114);
    sc_number.push(105);
    sc_number.push(99);
    sc_number.push(46);
    sc_number.push(114);
    sc_number.push(117);
    sc_number.push(115);
    sc_number.push(116);
    let mut sc_string: Vec<u8> = Vec::new();
    // "string.quoted.double.rust"
    sc_string.push(115);
    sc_string.push(116);
    sc_string.push(114);
    sc_string.push(105);
    sc_string.push(110);
    sc_string.push(103);
    sc_string.push(46);
    sc_string.push(113);
    sc_string.push(117);
    sc_string.push(111);
    sc_string.push(116);
    sc_string.push(101);
    sc_string.push(100);
    sc_string.push(46);
    sc_string.push(100);
    sc_string.push(111);
    sc_string.push(117);
    sc_string.push(98);
    sc_string.push(108);
    sc_string.push(101);
    sc_string.push(46);
    sc_string.push(114);
    sc_string.push(117);
    sc_string.push(115);
    sc_string.push(116);
    let mut sc_escape: Vec<u8> = Vec::new();
    // "constant.character.escape.rust"
    sc_escape.push(99);
    sc_escape.push(111);
    sc_escape.push(110);
    sc_escape.push(115);
    sc_escape.push(116);
    sc_escape.push(97);
    sc_escape.push(110);
    sc_escape.push(116);
    sc_escape.push(46);
    sc_escape.push(99);
    sc_escape.push(104);
    sc_escape.push(97);
    sc_escape.push(114);
    sc_escape.push(97);
    sc_escape.push(99);
    sc_escape.push(116);
    sc_escape.push(101);
    sc_escape.push(114);
    sc_escape.push(46);
    sc_escape.push(101);
    sc_escape.push(115);
    sc_escape.push(99);
    sc_escape.push(97);
    sc_escape.push(112);
    sc_escape.push(101);
    sc_escape.push(46);
    sc_escape.push(114);
    sc_escape.push(117);
    sc_escape.push(115);
    sc_escape.push(116);
    let mut sc_comment: Vec<u8> = Vec::new();
    // "comment.line.double-slash.rust"
    sc_comment.push(99);
    sc_comment.push(111);
    sc_comment.push(109);
    sc_comment.push(109);
    sc_comment.push(101);
    sc_comment.push(110);
    sc_comment.push(116);
    sc_comment.push(46);
    sc_comment.push(108);
    sc_comment.push(105);
    sc_comment.push(110);
    sc_comment.push(101);
    sc_comment.push(46);
    sc_comment.push(100);
    sc_comment.push(111);
    sc_comment.push(117);
    sc_comment.push(98);
    sc_comment.push(108);
    sc_comment.push(101);
    sc_comment.push(45);
    sc_comment.push(115);
    sc_comment.push(108);
    sc_comment.push(97);
    sc_comment.push(115);
    sc_comment.push(104);
    sc_comment.push(46);
    sc_comment.push(114);
    sc_comment.push(117);
    sc_comment.push(115);
    sc_comment.push(116);
    let mut keywords: Vec<Vec<u8>> = Vec::new();
    keywords.push(w_fn);
    keywords.push(w_let);
    keywords.push(w_pub);
    keywords.push(w_use);
    keywords.push(w_struct);
    keywords.push(w_enum);
    keywords.push(w_impl);
    let mut root_rules: Vec<Rule> = Vec::new();
    // line comments: `//` to the end of the line
    let mut comment_pat: Vec<PatElem> = Vec::new();
    comment_pat.push(PatElem::Lit(47));
    comment_pat.push(PatElem::Lit(47));
    comment_pat.push(PatElem::Many(Class::Any));
    root_rules.push(Rule::Plain { pat: comment_pat, scope: sc_comment });
    // double-quoted strings, a region with escape rules inside
    let mut quote_b: Vec<PatElem> = Vec::new();
    quote_b.push(PatElem::Lit(34));
    let mut quote_e: Vec<PatElem> = Vec::new();
    quote_e.push(PatElem::Lit(34));
    root_rules.push(
        Rule::Region { begin: quote_b, end: quote_e, scope: sc_string, child: 1 },
    );
    let mut k: usize = 0;
    while k < keywords.len()
        invariant
            forall|i: int| 0 <= i < root_rules@.len() ==> (match #[trigger] root_rules@[i] {
                Rule::Region { child, .. } => child < 2,
                Rule::Plain { .. } => true,
            }),
        decreases keywords.len() - k,
    {
        let r = word_rule(&keywords[k], &sc_keyword);
        root_rules.push(r);
        k = k + 1;
    }
    // integer literals
    let mut num_pat: Vec<PatElem> = Vec::new();
    num_pat.push(PatElem::Many(Class::Digit));
    root_rules.push(Rule::Plain { pat: num_pat, scope: sc_number });
    // inside a string: an escaped character
    let mut esc_pat: Vec<PatElem> = Vec::new();
    esc_pat.push(PatElem::Lit(92));
    esc_pat.push(PatElem::Cls(Class::Any));
    let mut string_rules: Vec<Rule> = Vec::new();
    string_rules.push(Rule::Plain { pat: esc_pat, scope: sc_escape });
    let mut contexts: Vec<Context> = Vec::new();
    contexts.push(Context { rules: root_rules });
    contexts.push(Context { rules: string_rules });
    let mut extensions: Vec<Vec<u8>> = Vec::new();
    extensions.push(w_rs);
    let d = SyntaxDefinition { name: w_rust, extensions, scope: sc_source, contexts };
    proof {
        assert(crate::grammar::wf_def(d));
    }
    d
}

/// One selector of space-free segments.
fn one_seg_selector(seg: Vec<u8>) -> (r: Vec<Vec<u8>>)
    ensures
        r.deep_view() == seq![seg@],
{
    let mut sel: Vec<Vec<u8>> = Vec::new();
    sel.push(seg);
    proof {
        assert(sel.deep_view() =~~= seq![sel@[0]@]);
    }
    sel
}

/// A rule giving one selector segment a foreground colour.
fn fg_rule(seg: Vec<u8>, c: Color) -> (r: ThemeRule) {
    ThemeRule {
        selector: one_seg_selector(seg),
        style: StyleMod { fg: Some(c), bg: None, bold: None, italic: None, underline: None },
    }
}

/// The built-in dark theme.
pub fn default_dark_theme() -> (t: Theme) {
    let mut t_keyword: Vec<u8> = Vec::new();
    // "keyword"
    t_keyword.push(107);
    t_keyword.push(101);
    t_keyword.push(121);
    t_keyword.push(119);
    t_keyword.push(111);
    t_keyword.push(114);
    t_keyword.push(100);
    let mut t_kw_control: Vec<u8> = Vec::new();
    // "keyword.control"
    t_kw_control.push(107);
    t_kw_control.push(101);
    t_kw_control.push(121);
    t_kw_control.push(119);
    t_kw_control.push(111);
    t_kw_control.push(114);
    t_kw_control.push(100);
    t_kw_control.push(46);
    t_kw_control.push(99);
    t_kw_control.push(111);
    t_kw_control.push(110);
    t_kw_control.push(116);
    t_kw_control.push(114);
    t_kw_control.push(111);
    t_kw_control.push(108);
    let mut t_string: Vec<u8> = Vec::new();
    // "string"
    t_string.push(115);
    t_string.push(116);
    t_string.push(114);
    t_string.push(105);
    t_string.push(110);
    t_string.push(103);
    let mut t_number: Vec<u8> = Vec::new();
    // "constant.numeric"
    t_number.push(99);
    t_number.push(111);
    t_number.push(110);
    t_number.push(115);
    t_number.push(116);
    t_number.push(97);
    t_number.push(110);
    t_number.push(116);
    t_number.push(46);
    t_number.push(110);
    t_number.push(117);
    t_number.push(109);
    t_number.push(101);
    t_number.push(114);
    t_number.push(105);
    t_number.push(99);
    let mut t_comment: Vec<u8> = Vec::new();
    // "comment"
    t_comment.push(99);
    t_comment.push(111);
    t_comment.push(109);
    t_comment.push(109);
    t_comment.push(101);
    t_comment.push(110);
    t_comment.push(116);
    let mut rules: Vec<ThemeRule> = Vec::new();
    rules.push(fg_rule(t_keyword, Color { r: 180, g: 142, b: 173 }));
    rules.push(fg_rule(t_kw_control, Color { r: 191, g: 97, b: 106 }));
    rules.push(fg_rule(t_string, Color { r: 163, g: 190, b: 140 }));
    rules.push(fg_rule(t_number, Color { r: 208, g: 135, b: 112 }));
    let mut comment_rule = fg_rule(t_comment, Color { r: 101, g: 115, b: 126 });
    comment_rule.style.italic = Some(true);
    rules.push(comment_rule);
    Theme {
        rules,
        default_style: Style {
            fg: Color { r: 192, g: 197, b: 206 },
            bg: Color { r: 43, g: 48, b: 59 },
            bold: false,
            italic: false,
            underline: false,
        },
    }
}

/// The registries a process starts from: the built-in grammars and the
/// built-in theme, frozen and shared by every call.
pub fn builtin_syntaxes() -> (r: SyntaxRegistry)
    ensures
        r.wf(),
{
    let mut reg = SyntaxRegistry::new();
    reg.register(rust_definition());
    reg
}

/// `default-dark`
pub open spec fn default_theme_name() -> Seq<u8> {
    seq![100u8, 101, 102, 97, 117, 108, 116, 45, 100, 97, 114, 107]
}

/// The default theme's name as bytes.
pub fn default_theme_name_exec() -> (r: Vec<u8>)
    ensures
        r@ == default_theme_name(),
{
    let mut n: Vec<u8> = Vec::new();
    // "default-dark"
    n.push(100);
    n.push(101);
    n.push(102);
    n.push(97);
    n.push(117);
    n.push(108);
    n.push(116);
    n.push(45);
    n.push(100);
    n.push(97);
    n.push(114);
    n.push(107);
    proof {
        assert(n@ =~= default_theme_name());
    }
    n
}

pub fn builtin_themes() -> (r: ThemeRegistry)
    ensures
        r.wf(),
        (r.lookup(default_theme_name()) is Some),
{
    let mut reg = ThemeRegistry::new();
    reg.add(default_theme_name_exec(), default_dark_theme());
    proof {
        assert(reg.names.deep_view()[0] == default_theme_name());
    }
    reg
}

} // verus!
