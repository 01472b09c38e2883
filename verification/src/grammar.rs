//! The grammar data model: syntax definitions, rule trees, context stacks
//! and the tokens the engine emits.

use vstd::prelude::*;
use crate::pattern::PatElem;

verus! {

/// One rule of a context.  Rules within a context are ordered; the order
/// breaks ties between candidates matching at the same offset.
pub enum Rule {
    /// A plain match rule: its token gets the current scope path extended
    /// by `scope`.
    Plain { pat: Vec<PatElem>, scope: Vec<u8> },
    /// A begin/end region rule.  When `begin` matches, a context holding
    /// the rules of `child` (an index into the definition's context table)
    /// is pushed; its end pattern is `end` with every backreference
    /// replaced by what `begin`'s captured groups matched.
    Region { begin: Vec<PatElem>, end: Vec<PatElem>, scope: Vec<u8>, child: usize },
}

/// An ordered list of rules that are active together.
pub struct Context {
    pub rules: Vec<Rule>,
}

/// An immutable grammar: a name, the file extensions it serves, a root
/// scope name, and a table of contexts whose first entry is the root
/// context.
pub struct SyntaxDefinition {
    pub name: Vec<u8>,
    pub extensions: Vec<Vec<u8>>,
    pub scope: Vec<u8>,
    pub contexts: Vec<Context>,
}

/// Whether a rule's child context index stays inside the table.
pub open spec fn wf_rule(def: SyntaxDefinition, r: Rule) -> bool {
    match r {
        Rule::Plain { .. } => true,
        Rule::Region { child, .. } => child < def.contexts.len(),
    }
}

/// A well-formed definition: a root context exists and every region rule
/// points at a context of the table.
pub open spec fn wf_def(def: SyntaxDefinition) -> bool {
    &&& def.contexts.len() >= 1
    &&& forall|i: int, j: int|
        0 <= i < def.contexts.len() && 0 <= j < def.contexts@[i].rules.len() ==> wf_rule(
            def,
            #[trigger] def.contexts@[i].rules@[j],
        )
}

/// One active region on the context stack.
pub struct StackEntry {
    /// Index of the context whose rules are active.
    pub ctx: usize,
    /// The scope name this region contributes to every token inside it.
    pub scope: Vec<u8>,
    /// The region's end pattern, backreferences already substituted;
    /// `None` only for the root entry, which never ends.
    pub end: Option<Vec<PatElem>>,
}

/// The mathematical image of a stack entry.
pub struct SpecEntry {
    pub ctx: int,
    pub scope: Seq<u8>,
    pub end: Option<Seq<PatElem>>,
}

impl View for StackEntry {
    type V = SpecEntry;

    open spec fn view(&self) -> SpecEntry {
        SpecEntry {
            ctx: self.ctx as int,
            scope: self.scope@,
            end: match self.end {
                Some(ref v) => Some(v@),
                None => None,
            },
        }
    }
}

/// The view of a whole stack.
pub open spec fn stack_view(s: Seq<StackEntry>) -> Seq<SpecEntry> {
    s.map_values(|e: StackEntry| e@)
}

/// The scope path a stack induces, outermost first.
pub open spec fn scopes_of(stack: Seq<SpecEntry>) -> Seq<Seq<u8>> {
    stack.map_values(|e: SpecEntry| e.scope)
}

/// A well-formed stack: never empty, and every entry's context index
/// points into the definition's table.
pub open spec fn wf_stack(def: SyntaxDefinition, stack: Seq<SpecEntry>) -> bool {
    &&& stack.len() >= 1
    &&& forall|k: int| 0 <= k < stack.len() ==> 0 <= (#[trigger] stack[k]).ctx
        < def.contexts.len()
}

/// A contiguous, non-empty byte range of the input, tagged with the scope
/// path active when it was emitted (outermost scope first).
pub struct Token {
    pub start: usize,
    pub end: usize,
    pub scopes: Vec<Vec<u8>>,
}

/// The mathematical image of a token.
pub struct SpecToken {
    pub start: int,
    pub end: int,
    pub scopes: Seq<Seq<u8>>,
}

impl View for Token {
    type V = SpecToken;

    open spec fn view(&self) -> SpecToken {
        SpecToken { start: self.start as int, end: self.end as int, scopes: self.scopes.deep_view() }
    }
}

/// The view of a token list.
pub open spec fn tokens_view(s: Seq<Token>) -> Seq<SpecToken> {
    s.map_values(|t: Token| t@)
}

/// An exact copy of a byte string.
pub fn clone_bytes(v: &Vec<u8>) -> (r: Vec<u8>)
    ensures
        r@ == v@,
{
    let mut out: Vec<u8> = Vec::new();
    let mut i: usize = 0;
    while i < v.len()
        invariant
            i <= v.len(),
            out@ == v@.take(i as int),
        decreases v.len() - i,
    {
        out.push(v[i]);
        proof {
            assert(v@.take(i + 1) =~= v@.take(i as int).push(v@[i as int]));
        }
        i = i + 1;
    }
    proof {
        assert(v@.take(v@.len() as int) =~= v@);
    }
    out
}

/// The scope path the stack currently induces, as owned byte strings.
pub fn scopes_of_exec(stack: &Vec<StackEntry>) -> (r: Vec<Vec<u8>>)
    ensures
        r.deep_view() == scopes_of(stack_view(stack@)),
{
    let mut out: Vec<Vec<u8>> = Vec::new();
    let mut i: usize = 0;
    while i < stack.len()
        invariant
            i <= stack.len(),
            out@.len() == i,
            forall|k: int| 0 <= k < i ==> #[trigger] out@[k]@ == stack@[k].scope@,
        decreases stack.len() - i,
    {
        out.push(clone_bytes(&stack[i].scope));
        i = i + 1;
    }
    proof {
        assert(out.deep_view() =~~= scopes_of(stack_view(stack@)));
    }
    out
}

/// The stack's scope path extended by one more scope name.
pub fn scopes_with(stack: &Vec<StackEntry>, scope: &Vec<u8>) -> (r: Vec<Vec<u8>>)
    ensures
        r.deep_view() == scopes_of(stack_view(stack@)).push(scope@),
{
    let mut sc = scopes_of_exec(stack);
    sc.push(clone_bytes(scope));
    proof {
        assert(sc.deep_view() =~~= scopes_of(stack_view(stack@)).push(scope@));
    }
    sc
}

} // verus!
