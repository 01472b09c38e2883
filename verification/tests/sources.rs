use syntax_highlighter::engine::tokenize;
use syntax_highlighter::registry::{SyntaxRegistry, ThemeRegistry};
use syntax_highlighter::source::{load_definition, load_theme};
use syntax_highlighter::theme::Color;
use syntax_highlighter::{highlight, step_budget, HighlightError};

/// A small grammar over tab-separated directive lines.
fn toy_grammar() -> Vec<u8> {
    let mut s = String::new();
    s.push_str("name\ttoy\n");
    s.push_str("scope\tsource.toy\n");
    s.push_str("ext\ttoy\n");
    s.push_str("context\n");
    s.push_str("match\t\\d+\tconstant.numeric.toy\n");
    s.push_str("region\t(\\w+):\t:\\1\tmarkup.fenced.toy\t1\n");
    s.push_str("context\n");
    s.push_str("match\tx\tkeyword.inner.toy\n");
    s.into_bytes()
}

fn toy_theme() -> Vec<u8> {
    let mut s = String::new();
    s.push_str("default\tc0c5ce\t2b303b\n");
    s.push_str("rule\tconstant.numeric\tfg=d08770,bold=1\n");
    s.push_str("rule\tmarkup\tfg=a3be8c,italic=1\n");
    s.into_bytes()
}

/// Loading a well-formed grammar source succeeds, and the definition
/// drives the tokenizer: numbers, a backreference-closed region, and the
/// region's inner rules all work.
#[test]
fn load_and_tokenize_toy_grammar() {
    let def = load_definition(&toy_grammar()).expect("well-formed grammar");
    assert_eq!(def.name, b"toy".to_vec());
    assert_eq!(def.scope, b"source.toy".to_vec());
    assert_eq!(def.extensions, vec![b"toy".to_vec()]);
    assert_eq!(def.contexts.len(), 2);

    // "ab: x 12 :ab 34\n": the region opens at "ab:" and closes at ":ab";
    // "x" inside uses the inner context's rule; "34" outside is a number.
    let input: Vec<u8> = b"ab: x 12 :ab 34\n".to_vec();
    let toks = tokenize(&def, &input, step_budget(input.len())).unwrap();
    let scope_of = |p: usize| -> Vec<Vec<u8>> {
        toks.iter().find(|t| t.start <= p && p < t.end).unwrap().scopes.clone()
    };
    // the region token itself
    assert_eq!(
        scope_of(0),
        vec![b"source.toy".to_vec(), b"markup.fenced.toy".to_vec()]
    );
    // `x` inside the region: inner context rule applies
    assert_eq!(
        scope_of(4),
        vec![
            b"source.toy".to_vec(),
            b"markup.fenced.toy".to_vec(),
            b"keyword.inner.toy".to_vec()
        ]
    );
    // `12` inside the region: the root's number rule is NOT active there
    assert_eq!(
        scope_of(6),
        vec![b"source.toy".to_vec(), b"markup.fenced.toy".to_vec()]
    );
    // `:ab` closes the region via the backreference
    assert_eq!(
        scope_of(9),
        vec![b"source.toy".to_vec(), b"markup.fenced.toy".to_vec()]
    );
    // `34` after the region: the root's number rule applies again
    assert_eq!(
        scope_of(13),
        vec![b"source.toy".to_vec(), b"constant.numeric.toy".to_vec()]
    );
}

/// Malformed grammar sources are rejected as a whole.
#[test]
fn malformed_grammars_are_rejected() {
    let cases: Vec<&str> = vec![
        // unknown directive
        "name\tt\nscope\ts\nfoo\tbar\ncontext\n",
        // a rule outside any context
        "name\tt\nscope\ts\nmatch\ta\tsc\n",
        // no name
        "scope\ts\ncontext\nmatch\ta\tsc\n",
        // no root scope
        "name\tt\ncontext\nmatch\ta\tsc\n",
        // no context at all
        "name\tt\nscope\ts\n",
        // unbalanced group in a pattern
        "name\tt\nscope\ts\ncontext\nmatch\t(ab\tsc\n",
        // `+` without a preceding class
        "name\tt\nscope\ts\ncontext\nmatch\t+a\tsc\n",
        // unknown escape
        "name\tt\nscope\ts\ncontext\nmatch\t\\q\tsc\n",
        // a region pointing outside the context table
        "name\tt\nscope\ts\ncontext\nregion\ta\tb\tsc\t7\n",
        // a region child that is not a number
        "name\tt\nscope\ts\ncontext\nregion\ta\tb\tsc\tx\n",
        // an empty scope
        "name\tt\nscope\ts\ncontext\nmatch\ta\t\n",
    ];
    for c in cases {
        match load_definition(&c.as_bytes().to_vec()) {
            Err(e) => assert_eq!(e, HighlightError::DefinitionParseError),
            Ok(_) => panic!("malformed grammar accepted: {}", c),
        }
    }
}

/// Loading a well-formed theme succeeds and resolves as written.
#[test]
fn load_and_use_toy_theme() {
    let theme = load_theme(&toy_theme()).expect("well-formed theme");
    assert_eq!(theme.default_style.fg, Color { r: 0xc0, g: 0xc5, b: 0xce });
    assert_eq!(theme.default_style.bg, Color { r: 0x2b, g: 0x30, b: 0x3b });
    assert_eq!(theme.rules.len(), 2);
    assert_eq!(theme.rules[0].style.fg, Some(Color { r: 0xd0, g: 0x87, b: 0x70 }));
    assert_eq!(theme.rules[0].style.bold, Some(true));
    assert_eq!(theme.rules[1].style.italic, Some(true));
}

/// Malformed theme sources are rejected; a missing default is fatal.
#[test]
fn malformed_themes_are_rejected() {
    let cases: Vec<&str> = vec![
        // no default style at all
        "rule\tkeyword\tfg=aabbcc\n",
        // a bad colour
        "default\tzzzzzz\t2b303b\n",
        // a bad colour length
        "default\tabc\t2b303b\n",
        // an unknown setting
        "default\tc0c5ce\t2b303b\nrule\tkeyword\tblink=1\n",
        // an empty selector segment
        "default\tc0c5ce\t2b303b\nrule\tkeyword \tfg=aabbcc\n",
        // an unknown directive
        "default\tc0c5ce\t2b303b\npalette\tx\n",
    ];
    for c in cases {
        match load_theme(&c.as_bytes().to_vec()) {
            Err(e) => assert_eq!(e, HighlightError::ThemeParseError),
            Ok(_) => panic!("malformed theme accepted: {}", c),
        }
    }
}

/// Loaded grammars and themes drive the whole pipeline.
#[test]
fn highlight_with_loaded_sources() {
    let mut syntaxes = SyntaxRegistry::new();
    syntaxes.register(load_definition(&toy_grammar()).unwrap());
    let mut themes = ThemeRegistry::new();
    themes.add(b"toy-dark".to_vec(), load_theme(&toy_theme()).unwrap());
    let out = highlight(
        &syntaxes,
        &themes,
        &b"count 123\n".to_vec(),
        &b"toy".to_vec(),
        &b"toy-dark".to_vec(),
    )
    .unwrap();
    let s = String::from_utf8(out).unwrap();
    assert!(s.contains(
        "<span style=\"color:#d08770;background-color:#2b303b;font-weight:bold;\">123</span>"
    ));
}
