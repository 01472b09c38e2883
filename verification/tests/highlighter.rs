use syntax_highlighter::engine::tokenize;
use syntax_highlighter::grammar::{Context, Rule, SyntaxDefinition, Token};
use syntax_highlighter::pattern::{Class, PatElem};
use syntax_highlighter::registry::{
    builtin_syntaxes, builtin_themes, default_dark_theme, default_theme_name_exec,
    plain_text_definition, rust_definition, SyntaxRegistry, ThemeRegistry,
};
use syntax_highlighter::render::render;
use syntax_highlighter::theme::{resolve, Color, Style, StyleMod, Theme, ThemeRule};
use syntax_highlighter::{highlight, highlight_html, step_budget, HighlightError};

fn default_style() -> Style {
    Style {
        fg: Color { r: 192, g: 197, b: 206 },
        bg: Color { r: 43, g: 48, b: 59 },
        bold: false,
        italic: false,
        underline: false,
    }
}

fn tokenize_rust(input: &[u8]) -> Vec<Token> {
    let def = rust_definition();
    let text: Vec<u8> = input.to_vec();
    tokenize(&def, &text, step_budget(text.len())).expect("tokenization must finish")
}

/// Tokens tile each line exactly: contiguous, non-empty, and their
/// concatenated bytes reproduce the input.
#[test]
fn tokens_tile_the_input() {
    let input = b"fn main() {}\nlet x = 42; // answer\n";
    let toks = tokenize_rust(input);
    assert!(!toks.is_empty());
    let mut expected_start = 0usize;
    let mut rebuilt: Vec<u8> = Vec::new();
    for t in &toks {
        assert_eq!(t.start, expected_start);
        assert!(t.start < t.end);
        assert!(t.end <= input.len());
        rebuilt.extend_from_slice(&input[t.start..t.end]);
        expected_start = t.end;
    }
    assert_eq!(expected_start, input.len());
    assert_eq!(rebuilt, input.to_vec());
}

/// No token runs across a line break: a break stands only as a token's
/// last byte.
#[test]
fn tokens_stay_within_lines() {
    let input = b"fn a() {\n  \"two\nlines\"\n}\n";
    let toks = tokenize_rust(input);
    for t in &toks {
        for p in t.start..t.end - 1 {
            assert_ne!(input[p], b'\n');
        }
    }
}

/// Two calls on identical arguments yield an identical token sequence.
#[test]
fn tokenize_is_deterministic() {
    let input = b"fn main() { let s = \"a&b\"; }\n";
    let a = tokenize_rust(input);
    let b = tokenize_rust(input);
    assert_eq!(a.len(), b.len());
    for (x, y) in a.iter().zip(b.iter()) {
        assert_eq!(x.start, y.start);
        assert_eq!(x.end, y.end);
        assert_eq!(x.scopes, y.scopes);
    }
}

/// `render` is a pure function of tokens and theme.
#[test]
fn render_is_deterministic() {
    let input: Vec<u8> = b"let x = 1;\n".to_vec();
    let toks = tokenize_rust(&input);
    let theme = default_dark_theme();
    let a = render(&toks, &input, &theme);
    let b = render(&toks, &input, &theme);
    assert_eq!(a, b);
}

fn strip_and_unescape(html: &[u8]) -> Vec<u8> {
    let mut stripped: Vec<u8> = Vec::new();
    let mut in_tag = false;
    for &b in html {
        if in_tag {
            if b == b'>' {
                in_tag = false;
            }
        } else if b == b'<' {
            in_tag = true;
        } else {
            stripped.push(b);
        }
    }
    let mut out: Vec<u8> = Vec::new();
    let mut i = 0usize;
    while i < stripped.len() {
        if stripped[i..].starts_with(b"&amp;") {
            out.push(b'&');
            i += 5;
        } else if stripped[i..].starts_with(b"&lt;") {
            out.push(b'<');
            i += 4;
        } else if stripped[i..].starts_with(b"&gt;") {
            out.push(b'>');
            i += 4;
        } else if stripped[i..].starts_with(b"&quot;") {
            out.push(b'"');
            i += 6;
        } else {
            out.push(stripped[i]);
            i += 1;
        }
    }
    out
}

/// Stripping all tags from the output and reversing the escaping
/// reproduces the source exactly.
#[test]
fn escaping_round_trip() {
    let input: Vec<u8> = b"fn f() { let s = \"x<y & z>w\"; } // \"quote\"\n".to_vec();
    let toks = tokenize_rust(&input);
    let theme = default_dark_theme();
    let html = render(&toks, &input, &theme);
    assert_eq!(strip_and_unescape(&html), input);
}

/// The escaped entities themselves appear in the markup.
#[test]
fn escapes_special_bytes() {
    let input: Vec<u8> = b"a < b && c > \"d\"\n".to_vec();
    let reg = builtin_syntaxes();
    let theme = default_dark_theme();
    let html = highlight_html(&reg, &theme, &input, &b"txt".to_vec());
    let s = String::from_utf8(html).unwrap();
    assert!(s.contains("a &lt; b &amp;&amp; c &gt; &quot;d&quot;"));
}

/// An unknown extension is not an error: it falls back to the plain-text
/// definition, which emits exactly one token per line, scoped to the root
/// scope alone.
#[test]
fn unknown_extension_falls_back_to_plain_text() {
    let reg = builtin_syntaxes();
    let def = reg.find_by_extension(&b"xyz123".to_vec());
    assert_eq!(def.name, b"plain".to_vec());
    assert_eq!(def.scope, b"text.plain".to_vec());
    let input: Vec<u8> = b"fn looks_like(rust: bool) {}\nsecond line\nthird\n".to_vec();
    let toks = tokenize(def, &input, step_budget(input.len())).unwrap();
    assert_eq!(toks.len(), 3);
    assert_eq!((toks[0].start, toks[0].end), (0, 29));
    assert_eq!((toks[1].start, toks[1].end), (29, 41));
    assert_eq!((toks[2].start, toks[2].end), (41, 47));
    for t in &toks {
        assert_eq!(t.scopes, vec![b"text.plain".to_vec()]);
    }
}

/// A trailing line without a break still becomes one token.
#[test]
fn plain_text_without_trailing_break() {
    let def = plain_text_definition();
    let input: Vec<u8> = b"one\ntwo".to_vec();
    let toks = tokenize(&def, &input, step_budget(input.len())).unwrap();
    assert_eq!(toks.len(), 2);
    assert_eq!((toks[0].start, toks[0].end), (0, 4));
    assert_eq!((toks[1].start, toks[1].end), (4, 7));
}

/// Empty input yields no tokens and an empty container.
#[test]
fn empty_input() {
    let def = plain_text_definition();
    let input: Vec<u8> = Vec::new();
    let toks = tokenize(&def, &input, 100).unwrap();
    assert_eq!(toks.len(), 0);
    let theme = default_dark_theme();
    let html = render(&toks, &input, &theme);
    let s = String::from_utf8(html).unwrap();
    assert_eq!(s, "<pre style=\"background-color:#2b303b;color:#c0c5ce;\"></pre>");
}

/// The scenario of the design: `fn main() {}` with hint `rs` under a theme
/// mapping `keyword.control` to a distinct foreground yields at least two
/// differently styled spans, and the container carries the theme's
/// background.
#[test]
fn rust_keyword_scenario() {
    let reg = builtin_syntaxes();
    let theme = default_dark_theme();
    let input: Vec<u8> = b"fn main() {}\n".to_vec();
    let html = highlight_html(&reg, &theme, &input, &b"rs".to_vec());
    let s = String::from_utf8(html).unwrap();
    // container background = the theme's configured background
    assert!(s.starts_with("<pre style=\"background-color:#2b303b;color:#c0c5ce;\">"));
    // `fn` gets the keyword.control foreground, distinct from the default
    assert!(s.contains("<span style=\"color:#bf616a;background-color:#2b303b;\">fn</span>"));
    // `main() {}` keeps the default style: no span around it
    assert!(s.contains("</span> main() {}\n</pre>"));
}

/// A pattern matching the empty string repeatedly cannot hang: under the
/// step ceiling the engine either finishes (force-advancing one byte per
/// zero-length winner) or reports a timeout.
#[test]
fn zero_length_matches_terminate() {
    let def = SyntaxDefinition {
        name: b"empty".to_vec(),
        extensions: vec![b"e".to_vec()],
        scope: b"text.empty".to_vec(),
        contexts: vec![Context {
            rules: vec![Rule::Plain { pat: vec![], scope: b"nothing".to_vec() }],
        }],
    };
    let input: Vec<u8> = b"abc\ndef\n".to_vec();
    match tokenize(&def, &input, step_budget(input.len())) {
        Ok(toks) => {
            let mut expected_start = 0usize;
            for t in &toks {
                assert_eq!(t.start, expected_start);
                assert!(t.start < t.end);
                expected_start = t.end;
            }
            assert_eq!(expected_start, input.len());
        },
        Err(e) => assert_eq!(e, HighlightError::TokenizerTimeout),
    }
}

/// A starved step budget reports `TokenizerTimeout` instead of hanging.
#[test]
fn exhausted_budget_times_out() {
    let def = rust_definition();
    let input: Vec<u8> = b"fn main() {}\n".to_vec();
    match tokenize(&def, &input, 1) {
        Err(e) => assert_eq!(e, HighlightError::TokenizerTimeout),
        Ok(_) => panic!("a one-step budget cannot finish this input"),
    }
}

/// A region's end pattern may reference what the begin pattern captured.
#[test]
fn backreference_closes_region() {
    let def = SyntaxDefinition {
        name: b"fence".to_vec(),
        extensions: vec![b"f".to_vec()],
        scope: b"text.fence".to_vec(),
        contexts: vec![
            Context {
                rules: vec![Rule::Region {
                    begin: vec![PatElem::Open, PatElem::Many(Class::Word), PatElem::Close],
                    end: vec![PatElem::Backref(0)],
                    scope: b"markup.raw".to_vec(),
                    child: 1,
                }],
            },
            Context { rules: vec![] },
        ],
    };
    let input: Vec<u8> = b"ab cd ab".to_vec();
    let toks = tokenize(&def, &input, step_budget(input.len())).unwrap();
    // begin "ab", interior " cd " … wait: the interior starts right after
    // the begin match; the end pattern "ab" next matches at offset 6.
    assert_eq!((toks[0].start, toks[0].end), (0, 2));
    assert_eq!(toks[0].scopes, vec![b"text.fence".to_vec(), b"markup.raw".to_vec()]);
    assert_eq!((toks[1].start, toks[1].end), (2, 6));
    assert_eq!(toks[1].scopes, vec![b"text.fence".to_vec(), b"markup.raw".to_vec()]);
    assert_eq!((toks[2].start, toks[2].end), (6, 8));
    assert_eq!(toks[2].scopes, vec![b"text.fence".to_vec(), b"markup.raw".to_vec()]);
}

/// A region spanning several lines keeps its scope until the end pattern
/// matches.
#[test]
fn multi_line_region() {
    let input = b"a = \"one\ntwo\" b\n";
    let toks = tokenize_rust(input);
    let string_scope = b"string.quoted.double.rust".to_vec();
    // the byte right after the line break (offset 9, 't' of "two") is
    // still inside the string region
    let inside = toks.iter().find(|t| t.start <= 9 && 9 < t.end).unwrap();
    assert!(inside.scopes.contains(&string_scope));
    // the final ` b` after the closing quote is not
    let outside = toks.iter().find(|t| t.start <= 14 && 14 < t.end).unwrap();
    assert!(!outside.scopes.contains(&string_scope));
}

/// The most specific matching rule decides a colour; an outer rule's font
/// flag survives unless a more specific rule switches it off.
#[test]
fn style_resolution_specificity_and_flags() {
    let theme = Theme {
        rules: vec![
            ThemeRule {
                selector: vec![b"keyword".to_vec()],
                style: StyleMod {
                    fg: Some(Color { r: 1, g: 1, b: 1 }),
                    bg: None,
                    bold: Some(true),
                    italic: None,
                    underline: None,
                },
            },
            ThemeRule {
                selector: vec![b"keyword.control".to_vec()],
                style: StyleMod {
                    fg: Some(Color { r: 2, g: 2, b: 2 }),
                    bg: None,
                    bold: None,
                    italic: None,
                    underline: None,
                },
            },
        ],
        default_style: default_style(),
    };
    let path = vec![b"source.rust".to_vec(), b"keyword.control.rust".to_vec()];
    let st = resolve(&theme, &path);
    // the two-segment-deep dotted prefix wins the colour
    assert_eq!(st.fg, Color { r: 2, g: 2, b: 2 });
    // the outer rule's bold flag is merged in, not erased
    assert!(st.bold);
    assert!(!st.italic);
}

/// Equal specificity: the later declaration wins.
#[test]
fn style_resolution_later_declaration_wins() {
    let mk = |c: u8| ThemeRule {
        selector: vec![b"string".to_vec()],
        style: StyleMod {
            fg: Some(Color { r: c, g: c, b: c }),
            bg: None,
            bold: None,
            italic: None,
            underline: None,
        },
    };
    let theme = Theme { rules: vec![mk(1), mk(2)], default_style: default_style() };
    let st = resolve(&theme, &vec![b"string.quoted".to_vec()]);
    assert_eq!(st.fg, Color { r: 2, g: 2, b: 2 });
}

/// A scope the theme does not mention keeps the default style.
#[test]
fn unmatched_scope_keeps_default() {
    let theme = default_dark_theme();
    let st = resolve(&theme, &vec![b"text.plain".to_vec()]);
    assert_eq!(st, theme.default_style);
}

/// A missing theme name is an operator error, not a fallback.
#[test]
fn missing_theme_is_an_error() {
    let syntaxes = builtin_syntaxes();
    let themes = builtin_themes();
    let r = highlight(
        &syntaxes,
        &themes,
        &b"x\n".to_vec(),
        &b"rs".to_vec(),
        &b"no-such-theme".to_vec(),
    );
    assert_eq!(r, Err(HighlightError::ThemeNotFound));
}

/// The full pipeline with the built-in registries.
#[test]
fn highlight_with_registries() {
    let syntaxes = builtin_syntaxes();
    let themes = builtin_themes();
    let r = highlight(
        &syntaxes,
        &themes,
        &b"let answer = 42;\n".to_vec(),
        &b"rs".to_vec(),
        &default_theme_name_exec(),
    );
    let s = String::from_utf8(r.unwrap()).unwrap();
    assert!(s.contains("<span style=\"color:#bf616a;background-color:#2b303b;\">let</span>"));
    // the number gets the numeric constant colour
    assert!(s.contains("<span style=\"color:#d08770;background-color:#2b303b;\">42</span>"));
    assert!(s.ends_with("</pre>"));
}

/// Registering a grammar makes its extension win over the fallback, and
/// registrations do not disturb each other.
#[test]
fn registry_lookup_order() {
    let mut reg = SyntaxRegistry::new();
    reg.register(rust_definition());
    assert_eq!(reg.find_by_extension(&b"rs".to_vec()).name, b"rust".to_vec());
    assert_eq!(reg.find_by_extension(&b"txt".to_vec()).name, b"plain".to_vec());
}

/// Theme registry lookup by name.
#[test]
fn theme_registry_get() {
    let mut reg = ThemeRegistry::new();
    reg.add(b"dark".to_vec(), default_dark_theme());
    assert!(reg.get(&b"dark".to_vec()).is_ok());
    match reg.get(&b"light".to_vec()) {
        Err(e) => assert_eq!(e, HighlightError::ThemeNotFound),
        Ok(_) => panic!("an unregistered theme name must be an error"),
    }
}

/// Line comments run to the end of their line only.
#[test]
fn line_comment_scope() {
    let toks = tokenize_rust(b"x // note\ny\n");
    let comment_scope = b"comment.line.double-slash.rust".to_vec();
    let c = toks.iter().find(|t| t.scopes.contains(&comment_scope)).unwrap();
    assert_eq!((c.start, c.end), (2, 9));
    // the next line is not a comment
    let y = toks.iter().find(|t| t.start <= 10 && 10 < t.end).unwrap();
    assert!(!y.scopes.contains(&comment_scope));
}
