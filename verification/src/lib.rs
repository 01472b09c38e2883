//! A grammar-driven syntax highlighter.
//!
//! A block of source text plus a language hint is turned into
//! syntax-highlighted HTML: a context-stack pattern-matching engine
//! classifies each lexical unit of the input into a hierarchical scope,
//! a theme resolves the visual style of each scope path, and a renderer
//! emits escaped, structured markup.
//!
//! Grammars and themes are loaded once into immutable registries and
//! shared read-only by arbitrarily many highlight calls; a call is pure
//! computation bounded by the input length and a step-count ceiling.

use vstd::prelude::*;

pub mod engine;
pub mod grammar;
pub mod pattern;
pub mod registry;
pub mod render;
pub mod source;
pub mod theme;

use crate::engine::{tokenize, spec_tokenize, plain_tokens, lemma_tokenize_tiles,
    lemma_tile_bounds, lemma_plain_text_tokenize};
use crate::grammar::{SyntaxDefinition, SpecToken, tokens_view, wf_def};
use crate::registry::{SyntaxRegistry, ThemeRegistry};
use crate::render::{render, render_spec, strip_tags, unescape, lemma_render_round_trip};
use crate::theme::Theme;

verus! {

/// The errors a highlight call or a registry operation can report.
#[derive(Clone, Copy, PartialEq, Eq, Structural, Debug)]
pub enum HighlightError {
    /// Malformed grammar source handed to the definition registry.
    DefinitionParseError,
    /// Malformed theme source handed to the theme registry.
    ThemeParseError,
    /// A theme name that the theme registry does not hold.
    ThemeNotFound,
    /// The step-count ceiling was exceeded during one highlight call.
    TokenizerTimeout,
}

/// The step ceiling a highlight call grants the tokenizer: generous and
/// proportional to the input, so only adversarial grammars reach it.
pub open spec fn spec_budget(n: int) -> int {
    if 64 * n + 4096 <= usize::MAX {
        64 * n + 4096
    } else {
        usize::MAX as int
    }
}

/// Executable twin of `spec_budget`.
pub fn step_budget(n: usize) -> (r: usize)
    ensures
        r as int == spec_budget(n as int),
{
    match n.checked_mul(64) {
        Some(m) => match m.checked_add(4096) {
            Some(b) => b,
            None => usize::MAX,
        },
        None => usize::MAX,
    }
}

/// The tokens a tokenization result carries, none on a timeout.
pub open spec fn ok_tokens(r: Result<Seq<SpecToken>, ()>) -> Seq<SpecToken> {
    match r {
        Ok(t) => t,
        Err(_) => Seq::empty(),
    }
}

/// Highlight `text` as markup: the hint picks a grammar (an unknown hint
/// falls back to plain text — not an error), the named theme styles the
/// tokens.  Fails with `ThemeNotFound` for a name the registry does not
/// hold, and with `TokenizerTimeout` when the step ceiling is exceeded;
/// shared state is never touched.
pub fn highlight(
    syntaxes: &SyntaxRegistry,
    themes: &ThemeRegistry,
    text: &Vec<u8>,
    hint: &Vec<u8>,
    theme_name: &Vec<u8>,
) -> (r: Result<Vec<u8>, HighlightError>)
    requires
        syntaxes.wf(),
        themes.wf(),
    ensures
        ({
            let d = syntaxes.chosen_def(hint@);
            let ti = themes.lookup(theme_name@);
            let tk = spec_tokenize(d, text@, spec_budget(text@.len() as int));
            match r {
                Ok(out) => (ti is Some) && (tk is Ok) && out@ == render_spec(
                    ok_tokens(tk),
                    text@,
                    themes.themes@[ti->0],
                ),
                Err(e) => (e == HighlightError::ThemeNotFound && ti is None) || (e
                    == HighlightError::TokenizerTimeout && ti is Some && tk is Err),
            }
        }),
{
    let theme = match themes.get(theme_name) {
        Ok(t) => t,
        Err(e) => {
            return Err(e);
        },
    };
    let def = syntaxes.find_by_extension(hint);
    let budget = step_budget(text.len());
    let toks = match tokenize(def, text, budget) {
        Ok(t) => t,
        Err(e) => {
            return Err(e);
        },
    };
    proof {
        lemma_tokenize_tiles(*def, text@, budget as int, tokens_view(toks@));
        lemma_tile_bounds(tokens_view(toks@), 0, text@.len() as int);
        assert forall|k: int| 0 <= k < toks@.len() implies (#[trigger] toks@[k]).start
            <= toks@[k].end && toks@[k].end <= text@.len() by {
            assert(tokens_view(toks@)[k] == toks@[k]@);
        }
    }
    let out = render(&toks, text, theme);
    Ok(out)
}

/// Highlight `input` as one self-contained HTML block, never failing: an
/// unknown extension falls back to the plain-text grammar, and a timed-out
/// tokenization retries with that same plain-text grammar, which provably
/// never times out.
pub fn highlight_html(
    syntaxes: &SyntaxRegistry,
    theme: &Theme,
    input: &Vec<u8>,
    extension: &Vec<u8>,
) -> (r: Vec<u8>)
    requires
        syntaxes.wf(),
    ensures
        ({
            let d = syntaxes.chosen_def(extension@);
            let tk = spec_tokenize(d, input@, spec_budget(input@.len() as int));
            match tk {
                Ok(toks) => r@ == render_spec(toks, input@, *theme),
                Err(_) => r@ == render_spec(
                    plain_tokens(seq![syntaxes.plain.scope@], input@, 0),
                    input@,
                    *theme,
                ),
            }
        }),
{
    let def = syntaxes.find_by_extension(extension);
    let budget = step_budget(input.len());
    match tokenize(def, input, budget) {
        Ok(toks) => {
            proof {
                lemma_tokenize_tiles(*def, input@, budget as int, tokens_view(toks@));
                lemma_tile_bounds(tokens_view(toks@), 0, input@.len() as int);
                assert forall|k: int| 0 <= k < toks@.len() implies (#[trigger] toks@[k]).start
                    <= toks@[k].end && toks@[k].end <= input@.len() by {
                    assert(tokens_view(toks@)[k] == toks@[k]@);
                }
            }
            render(&toks, input, theme)
        },
        Err(_) => {
            proof {
                lemma_plain_text_tokenize(syntaxes.plain, input@, budget as int);
            }
            match tokenize(&syntaxes.plain, input, budget) {
                Ok(toks) => {
                    proof {
                        lemma_tokenize_tiles(
                            syntaxes.plain,
                            input@,
                            budget as int,
                            tokens_view(toks@),
                        );
                        lemma_tile_bounds(tokens_view(toks@), 0, input@.len() as int);
                        assert forall|k: int|
                            0 <= k < toks@.len() implies (#[trigger] toks@[k]).start
                            <= toks@[k].end && toks@[k].end <= input@.len() by {
                            assert(tokens_view(toks@)[k] == toks@[k]@);
                        }
                    }
                    render(&toks, input, theme)
                },
                Err(_) => {
                    proof {
                        assert(false);
                    }
                    Vec::new()
                },
            }
        },
    }
}

/// The whole pipeline keeps the text: stripping every tag from the markup
/// of a completed highlight call and undoing the HTML escaping restores
/// the input exactly.
pub proof fn lemma_highlight_round_trip(
    def: SyntaxDefinition,
    text: Seq<u8>,
    steps: int,
    toks: Seq<SpecToken>,
    theme: Theme,
)
    requires
        wf_def(def),
        spec_tokenize(def, text, steps) == Ok::<Seq<SpecToken>, ()>(toks),
    ensures
        unescape(strip_tags(render_spec(toks, text, theme))) == text,
{
    lemma_tokenize_tiles(def, text, steps, toks);
    lemma_render_round_trip(toks, text, theme);
}

} // verus!
