//! The renderer: evaluating a node tree against a context value.
//!
//! Partials come from a user-supplied resolver whose answers are not known
//! in advance. The model therefore takes the resolver's answers as an input
//! `replies`, the answers in the order the renderer asked for them, and
//! reports how many of them a rendering consumed.

use vstd::prelude::*;

use crate::ast::{lemma_nodes_view, node_view, nodes_view, Node, SourcePosition, SpecNode, SpecPos};
use crate::error::{
    mk_render_error, spec_parse_error, spec_render_error, RenderError, RenderErrorKind,
    SpecRenderError, SpecRenderErrorKind,
};
use crate::parser::{parse, parse_result_view, spec_parse};
use crate::partial::{reply_view, PartialResolver};
use crate::text::{chars_of, int_text, push_char, push_chars, push_i64_text, str_eq, string_of};
use crate::value::{spec_is_truthy, spec_value_get, Value};

verus! {

/// How deep sections and partials may nest.
pub const MAX_NESTING_DEPTH: usize = 100;

// ---------------------------------------------------------------------------
// The model
// ---------------------------------------------------------------------------
/// The settings a rendering runs under.
pub struct RenderEnv {
    /// Undefined variables and unresolved partials are errors.
    pub strict: bool,
    /// A partial resolver is configured.
    pub has_resolver: bool,
}

/// The resolver's answers, in the order they were asked for.
pub type Replies = Seq<Option<Seq<char>>>;

/// The partial names the resolver is asked for, in order.
pub type Asked = Seq<Seq<char>>;

/// What a rendering gives: the output or the first error, the partial
/// names it asked the resolver for (one reply used for each), and the text
/// it wrote before it stopped (on success, the output).
pub type Outcome = (Result<Seq<char>, SpecRenderError>, Asked, Seq<char>);

/// What a rendering asked the resolver and what it answered: the replies
/// and, position by position, the names they were given for.
pub type Transcript = (Replies, Asked);

/// The innermost context in `ctx` that has `key`, and the value there.
pub open spec fn resolve_single(ctx: Seq<Value>, key: Seq<char>) -> Option<Value>
    decreases ctx.len(),
{
    if ctx.len() == 0 {
        None
    } else {
        match spec_value_get(ctx.last(), key) {
            Some(v) => Some(v),
            None => resolve_single(ctx.drop_last(), key),
        }
    }
}

/// Splitting at dots, given the segment `cur` read so far (as `str::split('.')`).
pub open spec fn split_dots_from(s: Seq<char>, cur: Seq<char>) -> Seq<Seq<char>>
    decreases s.len(),
{
    if s.len() == 0 {
        seq![cur]
    } else if s[0] == '.' {
        seq![cur] + split_dots_from(s.drop_first(), Seq::empty())
    } else {
        split_dots_from(s.drop_first(), cur.push(s[0]))
    }
}

/// The dot-separated segments of a name (always at least one).
pub open spec fn split_dots(s: Seq<char>) -> Seq<Seq<char>> {
    split_dots_from(s, Seq::empty())
}

/// Following the keys `segs` from `v`, one map lookup each.
pub open spec fn follow_path(v: Value, segs: Seq<Seq<char>>) -> Option<Value>
    decreases segs.len(),
{
    if segs.len() == 0 {
        Some(v)
    } else {
        match spec_value_get(v, segs[0]) {
            Some(w) => follow_path(w, segs.drop_first()),
            None => None,
        }
    }
}

/// The value a name refers to: `.` is the current context; a dotted name
/// looks its first segment up through the context stack and the rest
/// directly in the value found (never as one flat key).
pub open spec fn spec_lookup(ctx: Seq<Value>, name: Seq<char>) -> Option<Value> {
    if name == seq!['.'] {
        if ctx.len() > 0 {
            Some(ctx.last())
        } else {
            None
        }
    } else {
        let segs = split_dots(name);
        match resolve_single(ctx, segs[0]) {
            Some(v) => follow_path(v, segs.drop_first()),
            None => None,
        }
    }
}

/// A value as text: `null`, arrays and maps print as nothing.
pub open spec fn spec_stringify(v: Value) -> Seq<char> {
    match v {
        Value::Null => Seq::empty(),
        Value::Bool(b) => if b {
            "true"@
        } else {
            "false"@
        },
        Value::Integer(i) => int_text(i as int),
        Value::Float(t) => t@,
        Value::String(s) => s@,
        Value::Array(_) => Seq::empty(),
        Value::Object(_) => Seq::empty(),
    }
}

/// The HTML escape of one character.
pub open spec fn escape_char(c: char) -> Seq<char> {
    if c == '&' {
        "&amp;"@
    } else if c == '<' {
        "&lt;"@
    } else if c == '>' {
        "&gt;"@
    } else if c == '"' {
        "&quot;"@
    } else if c == '\'' {
        "&#39;"@
    } else {
        seq![c]
    }
}

/// HTML escaping: `& < > " '` become entities, everything else stays.
pub open spec fn escape_html(s: Seq<char>) -> Seq<char>
    decreases s.len(),
{
    if s.len() == 0 {
        Seq::empty()
    } else {
        escape_char(s[0]) + escape_html(s.drop_first())
    }
}

/// `s` with `indent` inserted after every line break.
pub open spec fn indent_after_breaks(s: Seq<char>, indent: Seq<char>) -> Seq<char>
    decreases s.len(),
{
    if s.len() == 0 {
        Seq::empty()
    } else if s[0] == '\n' {
        seq!['\n'] + indent + indent_after_breaks(s.drop_first(), indent)
    } else {
        seq![s[0]] + indent_after_breaks(s.drop_first(), indent)
    }
}

/// A partial's text indented as its standalone tag was: `indent` before
/// every line, except after a final line break.
pub open spec fn spec_indent_source(content: Seq<char>, indent: Seq<char>) -> Seq<char> {
    if content.len() == 0 {
        Seq::empty()
    } else if content.last() == '\n' {
        indent + indent_after_breaks(content.drop_last(), indent) + seq!['\n']
    } else {
        indent + indent_after_breaks(content, indent)
    }
}

/// A partial's text as it is parsed: indented as its standalone tag was.
pub open spec fn partial_source(content: Seq<char>, indent: Seq<char>) -> Seq<char> {
    if indent.len() == 0 {
        content
    } else {
        spec_indent_source(content, indent)
    }
}

/// The error for nesting too deep.
pub open spec fn depth_error(depth: nat, pos: SpecPos) -> SpecRenderError {
    spec_render_error(SpecRenderErrorKind::MaxNestingDepthExceeded { depth }, pos)
}

/// The error for a partial whose text does not parse.
pub open spec fn partial_parse_error_spec(name: Seq<char>, e: crate::error::SpecParseError) -> SpecRenderError {
    SpecRenderError {
        kind: SpecRenderErrorKind::PartialParseError { name, message: e.message },
        line: e.line,
        column: e.column,
        message: "failed to parse partial '"@ + name + "': "@ + e.message,
    }
}

/// The output of a rendering followed by more: `out` before the other's text.
pub open spec fn prepend(out: Seq<char>, used: Asked, rest: Outcome) -> Outcome {
    (
        match rest.0 {
            Ok(s) => Ok(out + s),
            Err(e) => Err(e),
        },
        used + rest.1,
        out + rest.2,
    )
}

/// Rendering a node sequence at nesting depth `depth` with context stack
/// `ctx`.
pub open spec fn spec_render_nodes(
    nodes: Seq<SpecNode>,
    ctx: Seq<Value>,
    depth: nat,
    env: RenderEnv,
    replies: Replies,
) -> Outcome
    decreases 101 - depth, nodes, 0nat,
{
    if nodes.len() == 0 {
        (Ok(Seq::empty()), Seq::empty(), Seq::empty())
    } else {
        let (r0, k0, w0) = spec_render_node(nodes[0], ctx, depth, env, replies);
        match r0 {
            Err(e) => (Err(e), k0, w0),
            Ok(s0) => prepend(
                s0,
                k0,
                spec_render_nodes(nodes.drop_first(), ctx, depth, env, replies.skip(k0.len() as int)),
            ),
        }
    }
}

/// Rendering a section's children once per array item, at depth `depth`.
pub open spec fn spec_render_items(
    children: Seq<SpecNode>,
    items: Seq<Value>,
    ctx: Seq<Value>,
    depth: nat,
    env: RenderEnv,
    replies: Replies,
) -> Outcome
    decreases 101 - depth, children, items.len(),
{
    if items.len() == 0 {
        (Ok(Seq::empty()), Seq::empty(), Seq::empty())
    } else {
        let (r0, k0, w0) = spec_render_nodes(children, ctx.push(items[0]), depth, env, replies);
        match r0 {
            Err(e) => (Err(e), k0, w0),
            Ok(s0) => prepend(
                s0,
                k0,
                spec_render_items(
                    children,
                    items.drop_first(),
                    ctx,
                    depth,
                    env,
                    replies.skip(k0.len() as int),
                ),
            ),
        }
    }
}

/// Rendering one node.
pub open spec fn spec_render_node(
    node: SpecNode,
    ctx: Seq<Value>,
    depth: nat,
    env: RenderEnv,
    replies: Replies,
) -> Outcome
    decreases 101 - depth, node, 0nat,
{
    match node {
        SpecNode::Text(t) => (Ok(t), Seq::empty(), t),
        SpecNode::Variable { name, escape, pos } => match spec_lookup(ctx, name) {
            None => if env.strict {
                (
                    Err(
                        spec_render_error(SpecRenderErrorKind::UndefinedVariable { name }, pos),
                    ),
                    Seq::empty(),
                    Seq::empty(),
                )
            } else {
                (Ok(Seq::empty()), Seq::empty(), Seq::empty())
            },
            Some(v) => {
                let text = spec_stringify(v);
                let shown = if escape {
                    escape_html(text)
                } else {
                    text
                };
                (Ok(shown), Seq::empty(), shown)
            },
        },
        SpecNode::Section { name, inverted, children, pos } => {
            let value = spec_lookup(ctx, name);
            let truthy = value matches Some(v) && spec_is_truthy(v);
            if inverted == truthy {
                (Ok(Seq::empty()), Seq::empty(), Seq::empty())
            } else if depth + 1 > 100 {
                (Err(depth_error(depth + 1, pos)), Seq::empty(), Seq::empty())
            } else if inverted {
                spec_render_nodes(children, ctx, depth + 1, env, replies)
            } else {
                match value {
                    Some(Value::Array(items)) => spec_render_items(
                        children,
                        items@,
                        ctx,
                        depth + 1,
                        env,
                        replies,
                    ),
                    Some(v) => spec_render_nodes(children, ctx.push(v), depth + 1, env, replies),
                    None => (Ok(Seq::empty()), Seq::empty(), Seq::empty()),
                }
            }
        },
        SpecNode::Partial { name, indent, pos } => {
            if !env.has_resolver {
                if env.strict {
                    (
                        Err(spec_render_error(SpecRenderErrorKind::PartialNotFound { name }, pos)),
                        Seq::empty(),
                        Seq::empty(),
                    )
                } else {
                    (Ok(Seq::empty()), Seq::empty(), Seq::empty())
                }
            } else {
                match replies[0] {
                    None => if env.strict {
                        (
                            Err(
                                spec_render_error(
                                    SpecRenderErrorKind::PartialNotFound { name },
                                    pos,
                                ),
                            ),
                            seq![name],
                            Seq::empty(),
                        )
                    } else {
                        (Ok(Seq::empty()), seq![name], Seq::empty())
                    },
                    Some(content) => {
                        let source = partial_source(content, indent);
                        match spec_parse(source) {
                            Err(e) => (Err(partial_parse_error_spec(name, e)), seq![name], Seq::empty()),
                            Ok(nodes) => if depth + 1 > 100 {
                                (Err(depth_error(depth + 1, pos)), seq![name], Seq::empty())
                            } else {
                                let (r, k, w) = spec_render_nodes(
                                    nodes,
                                    ctx,
                                    depth + 1,
                                    env,
                                    replies.skip(1),
                                );
                                (r, seq![name] + k, w)
                            },
                        }
                    },
                }
            }
        },
    }
}

// ---------------------------------------------------------------------------
// Facts about the model
// ---------------------------------------------------------------------------
/// Escaping distributes over concatenation.
pub proof fn lemma_escape_append(a: Seq<char>, b: Seq<char>)
    ensures
        escape_html(a + b) == escape_html(a) + escape_html(b),
    decreases a.len(),
{
    if a.len() == 0 {
        assert(a + b =~= b);
        assert(escape_html(a) =~= Seq::<char>::empty());
        assert(escape_html(a) + escape_html(b) =~= escape_html(b));
    } else {
        lemma_escape_append(a.drop_first(), b);
        assert((a + b).drop_first() =~= a.drop_first() + b);
        assert((a + b)[0] == a[0]);
        assert(escape_html(a + b) =~= escape_char(a[0]) + escape_html(a.drop_first() + b));
        assert(escape_html(a) + escape_html(b) =~= escape_char(a[0]) + (escape_html(a.drop_first())
            + escape_html(b)));
    }
}

/// The escape of a single character.
pub proof fn lemma_escape_single(c: char)
    ensures
        escape_html(seq![c]) == escape_char(c),
{
    let s = seq![c];
    assert(s[0] == c);
    assert(s.drop_first() =~= Seq::<char>::empty());
    assert(escape_html(Seq::<char>::empty()) =~= Seq::<char>::empty());
    assert(escape_html(s) == escape_char(s[0]) + escape_html(s.drop_first()));
    assert(escape_char(c) + Seq::<char>::empty() =~= escape_char(c));
}

/// Indenting distributes over concatenation.
pub proof fn lemma_indent_append(a: Seq<char>, b: Seq<char>, indent: Seq<char>)
    ensures
        indent_after_breaks(a + b, indent) == indent_after_breaks(a, indent) + indent_after_breaks(
            b,
            indent,
        ),
    decreases a.len(),
{
    if a.len() == 0 {
        assert(a + b =~= b);
        assert(indent_after_breaks(a, indent) + indent_after_breaks(b, indent) =~= indent_after_breaks(
            b,
            indent,
        ));
    } else {
        lemma_indent_append(a.drop_first(), b, indent);
        assert((a + b).drop_first() =~= a.drop_first() + b);
        assert((a + b)[0] == a[0]);
        if a[0] == '\n' {
            assert(indent_after_breaks(a + b, indent) =~= seq!['\n'] + indent + (indent_after_breaks(
                a.drop_first(),
                indent,
            ) + indent_after_breaks(b, indent)));
        } else {
            assert(indent_after_breaks(a + b, indent) =~= seq![a[0]] + (indent_after_breaks(
                a.drop_first(),
                indent,
            ) + indent_after_breaks(b, indent)));
        }
    }
}

/// A name always has a first segment.
pub proof fn lemma_split_dots_from_len(s: Seq<char>, cur: Seq<char>)
    ensures
        split_dots_from(s, cur).len() >= 1,
    decreases s.len(),
{
    if s.len() > 0 {
        if s[0] == '.' {
            lemma_split_dots_from_len(s.drop_first(), Seq::empty());
        } else {
            lemma_split_dots_from_len(s.drop_first(), cur.push(s[0]));
        }
    }
}

// ---------------------------------------------------------------------------
// Text helpers
// ---------------------------------------------------------------------------
/// Appends `s`, HTML-escaped, to `out`.
pub fn push_escaped(out: &mut String, s: &str)
    ensures
        final(out)@ == old(out)@ + escape_html(s@),
{
    let cs = chars_of(s);
    let mut i: usize = 0;
    assert(cs@.take(0) =~= Seq::<char>::empty());
    while i < cs.len()
        invariant
            i <= cs.len(),
            cs@ == s@,
            out@ == old(out)@ + escape_html(cs@.take(i as int)),
        decreases cs.len() - i,
    {
        let c = cs[i];
        let ghost before = out@;
        if c == '&' {
            out.append("&amp;");
        } else if c == '<' {
            out.append("&lt;");
        } else if c == '>' {
            out.append("&gt;");
        } else if c == '"' {
            out.append("&quot;");
        } else if c == '\'' {
            out.append("&#39;");
        } else {
            push_char(out, c);
        }
        proof {
            assert(out@ =~= before + escape_char(c));
            assert(cs@.take(i + 1) =~= cs@.take(i as int) + seq![c]);
            lemma_escape_append(cs@.take(i as int), seq![c]);
            lemma_escape_single(c);
        }
        i = i + 1;
    }
    assert(cs@.take(cs.len() as int) =~= cs@);
}

/// Indents a partial's text as its standalone tag was indented.
pub fn indent_source(content: &str, indent: &str) -> (r: String)
    ensures
        r@ == spec_indent_source(content@, indent@),
{
    let cs = chars_of(content);
    if cs.len() == 0 {
        return String::new();
    }
    let ends_with_newline = cs[cs.len() - 1] == '\n';
    let body_len = if ends_with_newline {
        cs.len() - 1
    } else {
        cs.len()
    };
    let mut result = String::new();
    result.append(indent);
    let mut i: usize = 0;
    assert(cs@.take(0) =~= Seq::<char>::empty());
    assert(result@ =~= indent@ + indent_after_breaks(cs@.take(0), indent@));
    while i < body_len
        invariant
            i <= body_len <= cs.len(),
            cs@ == content@,
            result@ == indent@ + indent_after_breaks(cs@.take(i as int), indent@),
        decreases body_len - i,
    {
        let c = cs[i];
        let ghost before = result@;
        if c == '\n' {
            push_char(&mut result, '\n');
            result.append(indent);
        } else {
            push_char(&mut result, c);
        }
        proof {
            assert(cs@.take(i + 1) =~= cs@.take(i as int) + seq![c]);
            lemma_indent_append(cs@.take(i as int), seq![c], indent@);
            let single = seq![c];
            assert(single[0] == c);
            assert(single.drop_first() =~= Seq::<char>::empty());
            assert(indent_after_breaks(Seq::<char>::empty(), indent@) =~= Seq::<char>::empty());
            if c == '\n' {
                assert(indent_after_breaks(seq![c], indent@) =~= seq!['\n'] + indent@);
            } else {
                assert(indent_after_breaks(seq![c], indent@) =~= seq![c]);
            }
            assert(result@ =~= before + indent_after_breaks(seq![c], indent@));
        }
        i = i + 1;
    }
    if ends_with_newline {
        push_char(&mut result, '\n');
        assert(cs@.take(body_len as int) =~= cs@.drop_last());
    } else {
        assert(cs@.take(body_len as int) =~= cs@);
    }
    result
}

/// A value as text.
pub fn stringify(v: &Value) -> (s: String)
    ensures
        s@ == spec_stringify(*v),
{
    match v {
        Value::Null => String::new(),
        Value::Bool(b) => if *b {
            string_of("true")
        } else {
            string_of("false")
        },
        Value::Integer(i) => {
            let mut s = String::new();
            push_i64_text(&mut s, *i);
            s
        },
        Value::Float(t) => t.clone(),
        Value::String(s) => s.clone(),
        Value::Array(_) => String::new(),
        Value::Object(_) => String::new(),
    }
}

// ---------------------------------------------------------------------------
// Name lookup
// ---------------------------------------------------------------------------
/// The values of a context stack.
pub open spec fn ctx_view(ctx: Seq<&Value>) -> Seq<Value> {
    ctx.map_values(|v: &Value| *v)
}

/// The value an optional reference points to.
pub open spec fn opt_value(r: Option<&Value>) -> Option<Value> {
    match r {
        Some(v) => Some(*v),
        None => None,
    }
}

/// The characters of each string.
pub open spec fn strings_view(ss: Seq<String>) -> Seq<Seq<char>> {
    ss.map_values(|s: String| s@)
}

/// Looks `key` up through the context stack, innermost first.
fn lookup_single<'a>(ctx: &Vec<&'a Value>, key: &str) -> (r: Option<&'a Value>)
    ensures
        opt_value(r) == resolve_single(ctx_view(ctx@), key@),
{
    let mut i = ctx.len();
    assert(ctx_view(ctx@).take(ctx.len() as int) =~= ctx_view(ctx@));
    while i > 0
        invariant
            i <= ctx.len(),
            resolve_single(ctx_view(ctx@), key@) == resolve_single(
                ctx_view(ctx@).take(i as int),
                key@,
            ),
        decreases i,
    {
        let v: &'a Value = ctx[i - 1];
        assert(ctx_view(ctx@).take(i as int).last() == *v);
        assert(ctx_view(ctx@).take(i as int).drop_last() =~= ctx_view(ctx@).take(i - 1));
        match v.get(key) {
            Some(w) => {
                return Some(w);
            },
            None => {},
        }
        i = i - 1;
    }
    None
}

/// The dot-separated segments of a name.
fn split_dots_exec(name: &str) -> (r: Vec<String>)
    ensures
        strings_view(r@) == split_dots(name@),
{
    let cs = chars_of(name);
    let mut segs: Vec<String> = Vec::new();
    let mut cur = String::new();
    let mut i: usize = 0;
    assert(cs@.skip(0) =~= cs@);
    assert(strings_view(segs@) =~= Seq::<Seq<char>>::empty());
    while i < cs.len()
        invariant
            i <= cs.len(),
            cs@ == name@,
            split_dots(name@) == strings_view(segs@) + split_dots_from(cs@.skip(i as int), cur@),
        decreases cs.len() - i,
    {
        let c = cs[i];
        assert(cs@.skip(i as int)[0] == c);
        assert(cs@.skip(i as int).drop_first() =~= cs@.skip(i + 1));
        if c == '.' {
            let ghost old_segs = strings_view(segs@);
            let ghost cur_v = cur@;
            segs.push(cur);
            cur = String::new();
            assert(strings_view(segs@) =~= old_segs.push(cur_v));
            assert(old_segs + (seq![cur_v] + split_dots_from(cs@.skip(i + 1), Seq::empty()))
                =~= old_segs.push(cur_v) + split_dots_from(cs@.skip(i + 1), Seq::empty()));
        } else {
            push_char(&mut cur, c);
        }
        i = i + 1;
    }
    let ghost old_segs = strings_view(segs@);
    let ghost cur_v = cur@;
    segs.push(cur);
    assert(strings_view(segs@) =~= old_segs.push(cur_v));
    assert(cs@.skip(cs.len() as int) =~= Seq::<char>::empty());
    assert(old_segs + seq![cur_v] =~= old_segs.push(cur_v));
    segs
}

/// The value a name refers to in the context stack.
fn lookup<'a>(ctx: &Vec<&'a Value>, name: &str) -> (r: Option<&'a Value>)
    ensures
        opt_value(r) == spec_lookup(ctx_view(ctx@), name@),
{
    proof {
        reveal_strlit(".");
        assert("."@ =~= seq!['.']);
    }
    if str_eq(name, ".") {
        assert(name@ =~= seq!['.']);
        if ctx.len() > 0 {
            return Some(ctx[ctx.len() - 1]);
        } else {
            return None;
        }
    }
    assert(name@ != seq!['.']);
    let segs = split_dots_exec(name);
    proof {
        lemma_split_dots_from_len(name@, Seq::empty());
    }
    let ghost segs_v = strings_view(segs@);
    assert(segs_v[0] == segs@[0]@);
    let first = lookup_single(ctx, segs[0].as_str());
    match first {
        None => None,
        Some(v0) => {
            let mut cur: &'a Value = v0;
            let mut i: usize = 1;
            assert(segs_v.skip(1) =~= segs_v.drop_first());
            while i < segs.len()
                invariant
                    1 <= i <= segs.len(),
                    segs_v == strings_view(segs@),
                    segs_v == split_dots(name@),
                    name@ != seq!['.'],
                    resolve_single(ctx_view(ctx@), segs_v[0]) == Some(*v0),
                    follow_path(*v0, segs_v.drop_first()) == follow_path(*cur, segs_v.skip(i as int)),
                decreases segs.len() - i,
            {
                assert(segs_v.skip(i as int)[0] == segs@[i as int]@);
                assert(segs_v.skip(i as int).drop_first() =~= segs_v.skip(i + 1));
                match cur.get(segs[i].as_str()) {
                    Some(w) => {
                        cur = w;
                    },
                    None => {
                        assert(follow_path(*cur, segs_v.skip(i as int)) is None);
                        return None;
                    },
                }
                i = i + 1;
            }
            assert(segs_v.skip(segs.len() as int) =~= Seq::<Seq<char>>::empty());
            Some(cur)
        },
    }
}

// ---------------------------------------------------------------------------
// Rendering
// ---------------------------------------------------------------------------
/// The state shared by a rendering: the context stack (innermost last) and
/// whether strict mode is on.
pub struct RenderState<'a> {
    context_stack: Vec<&'a Value>,
    strict: bool,
}

impl<'a> RenderState<'a> {
    /// The context values, innermost last.
    pub closed spec fn ctx(&self) -> Seq<Value> {
        ctx_view(self.context_stack@)
    }

    /// Whether strict mode is on.
    pub closed spec fn is_strict(&self) -> bool {
        self.strict
    }

    /// A state whose context stack holds only `root`.
    pub fn new(root: &'a Value, strict: bool) -> (st: Self)
        ensures
            st.ctx() == seq![*root],
            st.is_strict() == strict,
    {
        let mut context_stack: Vec<&'a Value> = Vec::new();
        context_stack.push(root);
        let st = RenderState { context_stack, strict };
        assert(st.ctx() =~= seq![*root]);
        st
    }
}

/// The settings of a rendering with these options.
pub open spec fn env_of(strict: bool, resolver: Option<&(dyn PartialResolver + 'static)>) -> RenderEnv {
    RenderEnv { strict, has_resolver: resolver is Some }
}

/// A rendering step that reported `res`, took the output from `out0` to
/// `out1` and asked the resolver for the names `asked` agrees with the
/// model's `expected`: the same result, the same names, and exactly the
/// text the model writes appended, on success and on error alike.
pub open spec fn outcome_matches(
    res: Result<(), RenderError>,
    out0: Seq<char>,
    out1: Seq<char>,
    asked: Asked,
    expected: Outcome,
) -> bool {
    &&& expected.1 == asked
    &&& out1 == out0 + expected.2
    &&& match expected.0 {
        Ok(s) => res is Ok && out1 == out0 + s,
        Err(e) => res matches Err(re) && re.view() == e,
    }
}

/// Chaining two renderings' outputs and asked names is associative.
pub proof fn lemma_prepend_assoc(
    a: Seq<char>,
    n: Asked,
    b: Seq<char>,
    m: Asked,
    x: Outcome,
)
    ensures
        prepend(a, n, prepend(b, m, x)) == prepend(a + b, n + m, x),
{
    assert(n + (m + x.1) =~= (n + m) + x.1);
    assert(a + (b + x.2) =~= (a + b) + x.2);
    match x.0 {
        Ok(s) => {
            assert(a + (b + s) =~= (a + b) + s);
        },
        Err(_) => {},
    }
}

/// Every reply of a transcript, one per name, is an answer the resolver
/// may give for that name; with no resolver there are none.
pub open spec fn answered_by(resolver: Option<&(dyn PartialResolver + 'static)>, t: Transcript) -> bool {
    &&& t.0.len() == t.1.len()
    &&& match resolver {
        None => t.0.len() == 0,
        Some(rv) => forall|i: int| 0 <= i < t.0.len() ==> rv.answers(#[trigger] t.1[i], t.0[i]),
    }
}

/// Two transcripts one after the other.
pub open spec fn join(a: Transcript, b: Transcript) -> Transcript {
    (a.0 + b.0, a.1 + b.1)
}

/// Transcripts the resolver answered stay so when joined.
pub proof fn lemma_answered_join(resolver: Option<&(dyn PartialResolver + 'static)>, a: Transcript, b: Transcript)
    requires
        answered_by(resolver, a),
        answered_by(resolver, b),
    ensures
        answered_by(resolver, join(a, b)),
{
    let j = join(a, b);
    match resolver {
        None => {},
        Some(rv) => {
            assert forall|i: int| 0 <= i < j.0.len() implies rv.answers(#[trigger] j.1[i], j.0[i]) by {
                if i < a.0.len() {
                    assert(j.1[i] == a.1[i] && j.0[i] == a.0[i]);
                } else {
                    assert(j.1[i] == b.1[i - a.0.len()] && j.0[i] == b.0[i - a.0.len()]);
                }
            }
        },
    }
}

/// One more node of a sequence rendered with the replies `sub`.
pub proof fn lemma_render_seq_step(
    nv: Seq<SpecNode>,
    i: int,
    ctx: Seq<Value>,
    d: nat,
    env: RenderEnv,
    log: Transcript,
    sub: Transcript,
    done: Seq<char>,
    r0: Result<Seq<char>, SpecRenderError>,
    w0: Seq<char>,
)
    requires
        0 <= i < nv.len(),
        sub.0.len() == sub.1.len(),
        forall|rest: Replies| #[trigger]
            spec_render_nodes(nv, ctx, d, env, log.0 + rest) == prepend(
                done,
                log.1,
                spec_render_nodes(nv.skip(i), ctx, d, env, rest),
            ),
        forall|rest: Replies| #[trigger] spec_render_node(nv[i], ctx, d, env, sub.0 + rest) == (r0, sub.1, w0),
    ensures
        forall|rest: Replies| #[trigger]
            spec_render_nodes(nv, ctx, d, env, join(log, sub).0 + rest) == match r0 {
                Ok(s) => prepend(
                    done + s,
                    join(log, sub).1,
                    spec_render_nodes(nv.skip(i + 1), ctx, d, env, rest),
                ),
                Err(e) => (Err(e), join(log, sub).1, done + w0),
            },
{
    assert forall|rest: Replies| #[trigger]
        spec_render_nodes(nv, ctx, d, env, join(log, sub).0 + rest) == match r0 {
            Ok(s) => prepend(
                done + s,
                join(log, sub).1,
                spec_render_nodes(nv.skip(i + 1), ctx, d, env, rest),
            ),
            Err(e) => (Err(e), join(log, sub).1, done + w0),
        } by {
        assert(join(log, sub).0 + rest =~= log.0 + (sub.0 + rest));
        let tail = nv.skip(i);
        assert(tail[0] == nv[i]);
        assert(tail.drop_first() =~= nv.skip(i + 1));
        assert((sub.0 + rest).skip(sub.1.len() as int) =~= rest);
        assert(spec_render_node(tail[0], ctx, d, env, sub.0 + rest) == (r0, sub.1, w0));
        match r0 {
            Ok(s) => {
                assert(spec_render_nodes(tail, ctx, d, env, sub.0 + rest) == prepend(
                    s,
                    sub.1,
                    spec_render_nodes(nv.skip(i + 1), ctx, d, env, rest),
                ));
                lemma_prepend_assoc(
                    done,
                    log.1,
                    s,
                    sub.1,
                    spec_render_nodes(nv.skip(i + 1), ctx, d, env, rest),
                );
            },
            Err(e) => {
                assert(spec_render_nodes(tail, ctx, d, env, sub.0 + rest) == (
                    Err::<Seq<char>, SpecRenderError>(e),
                    sub.1,
                    w0,
                ));
            },
        }
    }
}

/// One more array item rendered with the replies `sub`.
pub proof fn lemma_render_items_step(
    cv: Seq<SpecNode>,
    iv: Seq<Value>,
    j: int,
    ctx: Seq<Value>,
    d: nat,
    env: RenderEnv,
    log: Transcript,
    sub: Transcript,
    done: Seq<char>,
    r0: Result<Seq<char>, SpecRenderError>,
    w0: Seq<char>,
)
    requires
        0 <= j < iv.len(),
        sub.0.len() == sub.1.len(),
        forall|rest: Replies| #[trigger]
            spec_render_items(cv, iv, ctx, d, env, log.0 + rest) == prepend(
                done,
                log.1,
                spec_render_items(cv, iv.skip(j), ctx, d, env, rest),
            ),
        forall|rest: Replies| #[trigger]
            spec_render_nodes(cv, ctx.push(iv[j]), d, env, sub.0 + rest) == (r0, sub.1, w0),
    ensures
        forall|rest: Replies| #[trigger]
            spec_render_items(cv, iv, ctx, d, env, join(log, sub).0 + rest) == match r0 {
                Ok(s) => prepend(
                    done + s,
                    join(log, sub).1,
                    spec_render_items(cv, iv.skip(j + 1), ctx, d, env, rest),
                ),
                Err(e) => (Err(e), join(log, sub).1, done + w0),
            },
{
    assert forall|rest: Replies| #[trigger]
        spec_render_items(cv, iv, ctx, d, env, join(log, sub).0 + rest) == match r0 {
            Ok(s) => prepend(
                done + s,
                join(log, sub).1,
                spec_render_items(cv, iv.skip(j + 1), ctx, d, env, rest),
            ),
            Err(e) => (Err(e), join(log, sub).1, done + w0),
        } by {
        assert(join(log, sub).0 + rest =~= log.0 + (sub.0 + rest));
        let tail = iv.skip(j);
        assert(tail[0] == iv[j]);
        assert(tail.drop_first() =~= iv.skip(j + 1));
        assert((sub.0 + rest).skip(sub.1.len() as int) =~= rest);
        assert(spec_render_nodes(cv, ctx.push(tail[0]), d, env, sub.0 + rest) == (r0, sub.1, w0));
        match r0 {
            Ok(s) => {
                assert(spec_render_items(cv, tail, ctx, d, env, sub.0 + rest) == prepend(
                    s,
                    sub.1,
                    spec_render_items(cv, iv.skip(j + 1), ctx, d, env, rest),
                ));
                lemma_prepend_assoc(
                    done,
                    log.1,
                    s,
                    sub.1,
                    spec_render_items(cv, iv.skip(j + 1), ctx, d, env, rest),
                );
            },
            Err(e) => {
                assert(spec_render_items(cv, tail, ctx, d, env, sub.0 + rest) == (
                    Err::<Seq<char>, SpecRenderError>(e),
                    sub.1,
                    w0,
                ));
            },
        }
    }
}

/// Renders a node sequence, appending to `out`; hands back what it asked
/// the resolver and what the resolver answered.
pub(crate) fn render_nodes<'a>(
    nodes: &Vec<Node>,
    state: &mut RenderState<'a>,
    depth: usize,
    resolver: Option<&(dyn PartialResolver + 'static)>,
    out: &mut String,
) -> (r: (Result<(), RenderError>, Ghost<Transcript>))
    requires
        depth <= 100,
    ensures
        answered_by(resolver, r.1@),
        final(state).is_strict() == old(state).is_strict(),
        final(state).ctx() == old(state).ctx(),
        forall|rest: Replies|
            outcome_matches(
                r.0,
                old(out)@,
                final(out)@,
                r.1@.1,
                #[trigger] spec_render_nodes(
                    nodes_view(nodes@),
                    old(state).ctx(),
                    depth as nat,
                    env_of(old(state).is_strict(), resolver),
                    r.1@.0 + rest,
                ),
            ),
    decreases 101 - depth, 2nat,
{
    let ghost ctx0 = state.ctx();
    let ghost env0 = env_of(state.is_strict(), resolver);
    let ghost nv = nodes_view(nodes@);
    let ghost out0 = out@;
    let ghost mut log: Transcript = (Seq::empty(), Seq::empty());
    let ghost mut done: Seq<char> = Seq::empty();
    proof {
        lemma_nodes_view(nodes@);
        assert(nv.skip(0) =~= nv);
        assert forall|rest: Replies| #[trigger]
            spec_render_nodes(nv, ctx0, depth as nat, env0, log.0 + rest) == prepend(
                done,
                log.1,
                spec_render_nodes(nv.skip(0), ctx0, depth as nat, env0, rest),
            ) by {
            assert(log.0 + rest =~= rest);
            let x = spec_render_nodes(nv, ctx0, depth as nat, env0, rest);
            assert(log.1 + x.1 =~= x.1);
            assert(done + x.2 =~= x.2);
            match x.0 {
                Ok(t) => {
                    assert(done + t =~= t);
                },
                Err(_) => {},
            }
        }
        assert(out@ =~= out0 + done);
    }
    let mut i: usize = 0;
    while i < nodes.len()
        invariant
            depth <= 100,
            i <= nodes.len(),
            nv == nodes_view(nodes@),
            nv.len() == nodes.len(),
            forall|k: int| 0 <= k < nodes.len() ==> #[trigger] nv[k] == node_view(nodes@[k]),
            state.is_strict() == env0.strict,
            state.ctx() == ctx0,
            env0 == env_of(old(state).is_strict(), resolver),
            ctx0 == old(state).ctx(),
            out0 == old(out)@,
            out@ == out0 + done,
            answered_by(resolver, log),
            forall|rest: Replies| #[trigger]
                spec_render_nodes(nv, ctx0, depth as nat, env0, log.0 + rest) == prepend(
                    done,
                    log.1,
                    spec_render_nodes(nv.skip(i as int), ctx0, depth as nat, env0, rest),
                ),
        decreases nodes.len() - i,
    {
        let ghost out_before = out@;
        let (res, sub) = render_one(&nodes[i], state, depth, resolver, out);
        assert(nv[i as int] == node_view(nodes@[i as int]));
        proof {
            lemma_answered_join(resolver, log, sub@);
        }
        match res {
            Err(e) => {
                proof {
                    let x0 = spec_render_node(
                        nv[i as int],
                        ctx0,
                        depth as nat,
                        env0,
                        sub@.0 + Seq::<Option<Seq<char>>>::empty(),
                    );
                    assert(outcome_matches(Err(e), out_before, out@, sub@.1, x0));
                    let w = out@.skip(out_before.len() as int);
                    assert(out@ =~= out_before + w);
                    assert forall|rest: Replies| #[trigger]
                        spec_render_node(nv[i as int], ctx0, depth as nat, env0, sub@.0 + rest) == (
                            Err::<Seq<char>, SpecRenderError>(e.view()),
                            sub@.1,
                            w,
                        ) by {
                        let x = spec_render_node(nv[i as int], ctx0, depth as nat, env0, sub@.0 + rest);
                        assert(outcome_matches(Err(e), out_before, out@, sub@.1, x));
                        assert(x.2 =~= w);
                    }
                    lemma_render_seq_step(
                        nv,
                        i as int,
                        ctx0,
                        depth as nat,
                        env0,
                        log,
                        sub@,
                        done,
                        Err(e.view()),
                        w,
                    );
                    log = join(log, sub@);
                    assert(out@ =~= out0 + (done + w));
                }
                return (Err(e), Ghost(log));
            },
            Ok(()) => {
                proof {
                    let x0 = spec_render_node(
                        nv[i as int],
                        ctx0,
                        depth as nat,
                        env0,
                        sub@.0 + Seq::<Option<Seq<char>>>::empty(),
                    );
                    assert(outcome_matches(Ok(()), out_before, out@, sub@.1, x0));
                    let s = out@.skip(out_before.len() as int);
                    assert(out@ =~= out_before + s);
                    assert forall|rest: Replies| #[trigger]
                        spec_render_node(nv[i as int], ctx0, depth as nat, env0, sub@.0 + rest) == (
                            Ok::<Seq<char>, SpecRenderError>(s),
                            sub@.1,
                            s,
                        ) by {
                        let x = spec_render_node(nv[i as int], ctx0, depth as nat, env0, sub@.0 + rest);
                        assert(outcome_matches(Ok(()), out_before, out@, sub@.1, x));
                        assert(x.2 =~= s);
                        match x.0 {
                            Ok(t) => {
                                assert(t =~= s);
                            },
                            Err(_) => {},
                        }
                    }
                    lemma_render_seq_step(
                        nv,
                        i as int,
                        ctx0,
                        depth as nat,
                        env0,
                        log,
                        sub@,
                        done,
                        Ok(s),
                        s,
                    );
                    log = join(log, sub@);
                    done = done + s;
                    assert(out@ =~= out0 + done);
                }
            },
        }
        i = i + 1;
    }
    proof {
        assert(nv.skip(i as int) =~= Seq::<SpecNode>::empty());
        assert forall|rest: Replies|
            outcome_matches(
                Ok(()),
                out0,
                out@,
                log.1,
                #[trigger] spec_render_nodes(nv, ctx0, depth as nat, env0, log.0 + rest),
            ) by {
            assert(spec_render_nodes(nv.skip(i as int), ctx0, depth as nat, env0, rest) == (
                Ok::<Seq<char>, SpecRenderError>(Seq::empty()),
                Seq::<Seq<char>>::empty(),
                Seq::<char>::empty(),
            ));
            assert(done + Seq::<char>::empty() =~= done);
            assert(log.1 + Seq::<Seq<char>>::empty() =~= log.1);
        }
    }
    (Ok(()), Ghost(log))
}

/// Renders one node, appending to `out`. An undefined variable in strict
/// mode leaves `out` as it was.
fn render_one<'a>(
    node: &Node,
    state: &mut RenderState<'a>,
    depth: usize,
    resolver: Option<&(dyn PartialResolver + 'static)>,
    out: &mut String,
) -> (r: (Result<(), RenderError>, Ghost<Transcript>))
    requires
        depth <= 100,
    ensures
        answered_by(resolver, r.1@),
        final(state).is_strict() == old(state).is_strict(),
        final(state).ctx() == old(state).ctx(),
        *node is Variable && r.0 is Err ==> final(out)@ == old(out)@,
        forall|rest: Replies|
            outcome_matches(
                r.0,
                old(out)@,
                final(out)@,
                r.1@.1,
                #[trigger] spec_render_node(
                    node_view(*node),
                    old(state).ctx(),
                    depth as nat,
                    env_of(old(state).is_strict(), resolver),
                    r.1@.0 + rest,
                ),
            ),
    decreases 101 - depth, 1nat,
{
    match node {
        Node::Text(t) => {
            out.append(t.as_str());
            (Ok(()), Ghost((Seq::empty(), Seq::empty())))
        },
        Node::Variable { name, escape, pos } => {
            match lookup(&state.context_stack, name.as_str()) {
                None => {
                    if state.strict {
                        let e = mk_render_error(
                            RenderErrorKind::UndefinedVariable { name: name.clone() },
                            *pos,
                        );
                        (Err(e), Ghost((Seq::empty(), Seq::empty())))
                    } else {
                        assert(out@ =~= old(out)@ + Seq::<char>::empty());
                        (Ok(()), Ghost((Seq::empty(), Seq::empty())))
                    }
                },
                Some(v) => {
                    let rendered = stringify(v);
                    if *escape {
                        push_escaped(out, rendered.as_str());
                    } else {
                        out.append(rendered.as_str());
                    }
                    (Ok(()), Ghost((Seq::empty(), Seq::empty())))
                },
            }
        },
        Node::Section { name, inverted, children, pos } => render_section(
            name,
            *inverted,
            children,
            *pos,
            state,
            depth,
            resolver,
            out,
        ),
        Node::Partial { name, indent, pos } => render_partial(
            name,
            indent,
            *pos,
            state,
            depth,
            resolver,
            out,
        ),
    }
}

/// Renders a section, appending to `out`. The context stack is the same
/// afterwards, whatever happened; a section too deep to open leaves `out`
/// as it was.
fn render_section<'a>(
    name: &String,
    inverted: bool,
    children: &Vec<Node>,
    pos: SourcePosition,
    state: &mut RenderState<'a>,
    depth: usize,
    resolver: Option<&(dyn PartialResolver + 'static)>,
    out: &mut String,
) -> (r: (Result<(), RenderError>, Ghost<Transcript>))
    requires
        depth <= 100,
    ensures
        answered_by(resolver, r.1@),
        final(state).is_strict() == old(state).is_strict(),
        final(state).ctx() == old(state).ctx(),
        depth + 1 > MAX_NESTING_DEPTH ==> final(out)@ == old(out)@,
        forall|rest: Replies|
            outcome_matches(
                r.0,
                old(out)@,
                final(out)@,
                r.1@.1,
                #[trigger] spec_render_node(
                    SpecNode::Section {
                        name: name@,
                        inverted,
                        children: nodes_view(children@),
                        pos: pos.view(),
                    },
                    old(state).ctx(),
                    depth as nat,
                    env_of(old(state).is_strict(), resolver),
                    r.1@.0 + rest,
                ),
            ),
    decreases 101 - depth, 0nat,
{
    let ghost ctx0 = state.ctx();
    let ghost env0 = env_of(state.is_strict(), resolver);
    let ghost cv = nodes_view(children@);
    let ghost node = SpecNode::Section { name: name@, inverted, children: cv, pos: pos.view() };
    let ghost none: Transcript = (Seq::empty(), Seq::empty());
    let value = lookup(&state.context_stack, name.as_str());
    let truthy = match value {
        Some(v) => v.is_truthy(),
        None => false,
    };
    if inverted == truthy {
        assert(out@ =~= old(out)@ + Seq::<char>::empty());
        return (Ok(()), Ghost(none));
    }
    if depth + 1 > MAX_NESTING_DEPTH {
        let e = mk_render_error(RenderErrorKind::MaxNestingDepthExceeded { depth: depth + 1 }, pos);
        return (Err(e), Ghost(none));
    }
    proof {
        assert(opt_value(value) == spec_lookup(ctx0, name@));
    }
    if inverted {
        let r = render_nodes(children, state, depth + 1, resolver, out);
        assert forall|rest: Replies|
            outcome_matches(
                r.0,
                old(out)@,
                out@,
                r.1@.1,
                #[trigger] spec_render_node(node, ctx0, depth as nat, env0, r.1@.0 + rest),
            ) by {
            assert(spec_render_node(node, ctx0, depth as nat, env0, r.1@.0 + rest)
                == spec_render_nodes(cv, ctx0, (depth + 1) as nat, env0, r.1@.0 + rest));
        }
        return r;
    }
    match value {
        None => {
            assert(out@ =~= old(out)@ + Seq::<char>::empty());
            (Ok(()), Ghost(none))
        },
        Some(v) => match v {
            Value::Array(items) => {
                let ghost iv = items@;
                let ghost out0 = out@;
                let ghost mut log: Transcript = (Seq::empty(), Seq::empty());
                let ghost mut done: Seq<char> = Seq::empty();
                proof {
                    assert(iv.skip(0) =~= iv);
                    assert forall|rest: Replies| #[trigger]
                        spec_render_items(cv, iv, ctx0, (depth + 1) as nat, env0, log.0 + rest) == prepend(
                            done,
                            log.1,
                            spec_render_items(cv, iv.skip(0), ctx0, (depth + 1) as nat, env0, rest),
                        ) by {
                        assert(log.0 + rest =~= rest);
                        let x = spec_render_items(cv, iv, ctx0, (depth + 1) as nat, env0, rest);
                        assert(log.1 + x.1 =~= x.1);
                        assert(done + x.2 =~= x.2);
                        match x.0 {
                            Ok(t) => {
                                assert(done + t =~= t);
                            },
                            Err(_) => {},
                        }
                    }
                    assert(out@ =~= out0 + done);
                }
                let mut j: usize = 0;
                while j < items.len()
                    invariant
                        depth + 1 <= 100,
                        !inverted,
                        node == (SpecNode::Section { name: name@, inverted, children: cv, pos: pos.view() }),
                        spec_lookup(ctx0, name@) == Some(Value::Array(*items)),
                        j <= items.len(),
                        iv == items@,
                        cv == nodes_view(children@),
                        state.is_strict() == env0.strict,
                        state.ctx() == ctx0,
                        env0 == env_of(old(state).is_strict(), resolver),
                        ctx0 == old(state).ctx(),
                        out0 == old(out)@,
                        out@ == out0 + done,
                        answered_by(resolver, log),
                        forall|rest: Replies| #[trigger]
                            spec_render_items(cv, iv, ctx0, (depth + 1) as nat, env0, log.0 + rest)
                                == prepend(
                                done,
                                log.1,
                                spec_render_items(
                                    cv,
                                    iv.skip(j as int),
                                    ctx0,
                                    (depth + 1) as nat,
                                    env0,
                                    rest,
                                ),
                            ),
                    decreases items.len() - j,
                {
                    let item: &'a Value = &items[j];
                    let ghost out_before = out@;
                    state.context_stack.push(item);
                    assert(state.ctx() =~= ctx0.push(iv[j as int]));
                    let (res, sub) = render_nodes(children, state, depth + 1, resolver, out);
                    let ghost after_stack = state.context_stack@;
                    state.context_stack.pop();
                    proof {
                        assert(ctx_view(after_stack) == ctx0.push(iv[j as int]));
                        assert(state.ctx() =~= ctx_view(after_stack).drop_last());
                        lemma_answered_join(resolver, log, sub@);
                    }
                    match res {
                        Err(e) => {
                            proof {
                                let x0 = spec_render_nodes(
                                    cv,
                                    ctx0.push(iv[j as int]),
                                    (depth + 1) as nat,
                                    env0,
                                    sub@.0 + Seq::<Option<Seq<char>>>::empty(),
                                );
                                assert(outcome_matches(Err(e), out_before, out@, sub@.1, x0));
                                let w = out@.skip(out_before.len() as int);
                                assert(out@ =~= out_before + w);
                                assert forall|rest: Replies| #[trigger]
                                    spec_render_nodes(
                                        cv,
                                        ctx0.push(iv[j as int]),
                                        (depth + 1) as nat,
                                        env0,
                                        sub@.0 + rest,
                                    ) == (Err::<Seq<char>, SpecRenderError>(e.view()), sub@.1, w) by {
                                    let x = spec_render_nodes(
                                        cv,
                                        ctx0.push(iv[j as int]),
                                        (depth + 1) as nat,
                                        env0,
                                        sub@.0 + rest,
                                    );
                                    assert(x.2 =~= w) by {
                                        assert(outcome_matches(Err(e), out_before, out@, sub@.1, x));
                                    }
                                    assert(outcome_matches(
                                        Err(e),
                                        out_before,
                                        out@,
                                        sub@.1,
                                        spec_render_nodes(
                                            cv,
                                            ctx0.push(iv[j as int]),
                                            (depth + 1) as nat,
                                            env0,
                                            sub@.0 + rest,
                                        ),
                                    ));
                                }
                                lemma_render_items_step(
                                    cv,
                                    iv,
                                    j as int,
                                    ctx0,
                                    (depth + 1) as nat,
                                    env0,
                                    log,
                                    sub@,
                                    done,
                                    Err(e.view()),
                                    w,
                                );
                                log = join(log, sub@);
                                assert(out@ =~= out0 + (done + w));
                                assert forall|rest: Replies|
                                    outcome_matches(
                                        Err(e),
                                        old(out)@,
                                        out@,
                                        log.1,
                                        #[trigger] spec_render_node(node, ctx0, depth as nat, env0, log.0 + rest),
                                    ) by {
                                    assert(spec_render_node(node, ctx0, depth as nat, env0, log.0 + rest)
                                        == spec_render_items(
                                        cv,
                                        iv,
                                        ctx0,
                                        (depth + 1) as nat,
                                        env0,
                                        log.0 + rest,
                                    ));
                                }
                            }
                            return (Err(e), Ghost(log));
                        },
                        Ok(()) => {
                            proof {
                                let x0 = spec_render_nodes(
                                    cv,
                                    ctx0.push(iv[j as int]),
                                    (depth + 1) as nat,
                                    env0,
                                    sub@.0 + Seq::<Option<Seq<char>>>::empty(),
                                );
                                assert(outcome_matches(Ok(()), out_before, out@, sub@.1, x0));
                                let s = out@.skip(out_before.len() as int);
                                assert(out@ =~= out_before + s);
                                assert forall|rest: Replies| #[trigger]
                                    spec_render_nodes(
                                        cv,
                                        ctx0.push(iv[j as int]),
                                        (depth + 1) as nat,
                                        env0,
                                        sub@.0 + rest,
                                    ) == (Ok::<Seq<char>, SpecRenderError>(s), sub@.1, s) by {
                                    let x = spec_render_nodes(
                                        cv,
                                        ctx0.push(iv[j as int]),
                                        (depth + 1) as nat,
                                        env0,
                                        sub@.0 + rest,
                                    );
                                    assert(outcome_matches(Ok(()), out_before, out@, sub@.1, x));
                                    assert(x.2 =~= s);
                                    match x.0 {
                                        Ok(t) => {
                                            assert(t =~= s);
                                        },
                                        Err(_) => {},
                                    }
                                }
                                lemma_render_items_step(
                                    cv,
                                    iv,
                                    j as int,
                                    ctx0,
                                    (depth + 1) as nat,
                                    env0,
                                    log,
                                    sub@,
                                    done,
                                    Ok(s),
                                    s,
                                );
                                log = join(log, sub@);
                                done = done + s;
                                assert(out@ =~= out0 + done);
                            }
                        },
                    }
                    j = j + 1;
                }
                proof {
                    assert(iv.skip(j as int) =~= Seq::<Value>::empty());
                    assert forall|rest: Replies|
                        outcome_matches(
                            Ok(()),
                            old(out)@,
                            out@,
                            log.1,
                            #[trigger] spec_render_node(node, ctx0, depth as nat, env0, log.0 + rest),
                        ) by {
                        assert(spec_render_node(node, ctx0, depth as nat, env0, log.0 + rest)
                            == spec_render_items(cv, iv, ctx0, (depth + 1) as nat, env0, log.0 + rest));
                        assert(spec_render_items(cv, iv.skip(j as int), ctx0, (depth + 1) as nat, env0, rest)
                            == (
                            Ok::<Seq<char>, SpecRenderError>(Seq::empty()),
                            Seq::<Seq<char>>::empty(),
                            Seq::<char>::empty(),
                        ));
                        assert(done + Seq::<char>::empty() =~= done);
                        assert(log.1 + Seq::<Seq<char>>::empty() =~= log.1);
                    }
                }
                (Ok(()), Ghost(log))
            },
            _ => {
                state.context_stack.push(v);
                assert(state.ctx() =~= ctx0.push(*v));
                let r = render_nodes(children, state, depth + 1, resolver, out);
                let ghost after_stack = state.context_stack@;
                state.context_stack.pop();
                proof {
                    assert(state.ctx() =~= ctx_view(after_stack).drop_last());
                    assert forall|rest: Replies|
                        outcome_matches(
                            r.0,
                            old(out)@,
                            out@,
                            r.1@.1,
                            #[trigger] spec_render_node(node, ctx0, depth as nat, env0, r.1@.0 + rest),
                        ) by {
                        assert(spec_render_node(node, ctx0, depth as nat, env0, r.1@.0 + rest)
                            == spec_render_nodes(cv, ctx0.push(*v), (depth + 1) as nat, env0, r.1@.0 + rest));
                    }
                }
                r
            },
        },
    }
}

/// The render error for a partial whose text does not parse.
fn partial_parse_error(name: &String, e: &crate::error::ParseError) -> (r: RenderError)
    ensures
        r.view() == partial_parse_error_spec(name@, e.view()),
{
    let mut message = string_of("failed to parse partial '");
    message.append(name.as_str());
    message.append("': ");
    message.append(e.message.as_str());
    RenderError {
        kind: RenderErrorKind::PartialParseError { name: name.clone(), message: e.message.clone() },
        line: e.line,
        column: e.column,
        message,
    }
}

/// Renders a partial, appending to `out`: asks the resolver once, for the
/// tag's name, then renders what it answered. When the partial is not
/// rendered (no resolver, no answer, an answer that does not parse, or
/// nesting too deep) `out` is left as it was.
fn render_partial<'a>(
    name: &String,
    indent: &String,
    pos: SourcePosition,
    state: &mut RenderState<'a>,
    depth: usize,
    resolver: Option<&(dyn PartialResolver + 'static)>,
    out: &mut String,
) -> (r: (Result<(), RenderError>, Ghost<Transcript>))
    requires
        depth <= 100,
    ensures
        answered_by(resolver, r.1@),
        final(state).is_strict() == old(state).is_strict(),
        final(state).ctx() == old(state).ctx(),
        resolver is Some ==> r.1@.1.len() > 0 && r.1@.1[0] == name@,
        resolver is None || depth + 1 > MAX_NESTING_DEPTH || r.1@.0[0] is None || spec_parse(
            partial_source(r.1@.0[0]->0, indent@),
        ) is Err ==> final(out)@ == old(out)@,
        forall|rest: Replies|
            outcome_matches(
                r.0,
                old(out)@,
                final(out)@,
                r.1@.1,
                #[trigger] spec_render_node(
                    SpecNode::Partial { name: name@, indent: indent@, pos: pos.view() },
                    old(state).ctx(),
                    depth as nat,
                    env_of(old(state).is_strict(), resolver),
                    r.1@.0 + rest,
                ),
            ),
    decreases 101 - depth, 0nat,
{
    let ghost ctx0 = state.ctx();
    let ghost env0 = env_of(state.is_strict(), resolver);
    let ghost node = SpecNode::Partial { name: name@, indent: indent@, pos: pos.view() };
    match resolver {
        None => {
            if state.strict {
                let e = mk_render_error(RenderErrorKind::PartialNotFound { name: name.clone() }, pos);
                (Err(e), Ghost((Seq::empty(), Seq::empty())))
            } else {
                assert(out@ =~= old(out)@ + Seq::<char>::empty());
                (Ok(()), Ghost((Seq::empty(), Seq::empty())))
            }
        },
        Some(partials) => {
            let content = partials.resolve(name.as_str());
            let ghost reply: Option<Seq<char>> = reply_view(content);
            let ghost log: Transcript = (seq![reply], seq![name@]);
            proof {
                assert(log.1[0] == name@ && log.0[0] == reply);
                assert(answered_by(resolver, log));
            }
            assert forall|rest: Replies| (#[trigger] (log.0 + rest))[0] == reply by {}
            match content {
                None => {
                    if state.strict {
                        let e = mk_render_error(
                            RenderErrorKind::PartialNotFound { name: name.clone() },
                            pos,
                        );
                        (Err(e), Ghost(log))
                    } else {
                        assert(out@ =~= old(out)@ + Seq::<char>::empty());
                        (Ok(()), Ghost(log))
                    }
                },
                Some(text) => {
                    let source = if indent.as_str().is_empty() {
                        text
                    } else {
                        indent_source(text.as_str(), indent.as_str())
                    };
                    assert(source@ == partial_source(reply->0, indent@));
                    match parse(source.as_str()) {
                        Err(pe) => (Err(partial_parse_error(name, &pe)), Ghost(log)),
                        Ok(nodes) => {
                            if depth + 1 > MAX_NESTING_DEPTH {
                                let e = mk_render_error(
                                    RenderErrorKind::MaxNestingDepthExceeded { depth: depth + 1 },
                                    pos,
                                );
                                return (Err(e), Ghost(log));
                            }
                            let (res, sub) = render_nodes(&nodes, state, depth + 1, resolver, out);
                            let ghost full = join(log, sub@);
                            proof {
                                lemma_answered_join(resolver, log, sub@);
                                assert(full.0[0] == reply);
                                assert(full.1[0] == name@);
                                assert(full.1 == seq![name@] + sub@.1);
                                assert forall|rest: Replies|
                                    outcome_matches(
                                        res,
                                        old(out)@,
                                        out@,
                                        full.1,
                                        #[trigger] spec_render_node(node, ctx0, depth as nat, env0, full.0 + rest),
                                    ) by {
                                    assert((full.0 + rest)[0] == reply);
                                    assert((full.0 + rest).skip(1) =~= sub@.0 + rest);
                                    let x = spec_render_nodes(
                                        nodes_view(nodes@),
                                        ctx0,
                                        (depth + 1) as nat,
                                        env0,
                                        sub@.0 + rest,
                                    );
                                    assert(outcome_matches(res, old(out)@, out@, sub@.1, x));
                                }
                            }
                            (res, Ghost(full))
                        },
                    }
                },
            }
        },
    }
}

// ---------------------------------------------------------------------------
// Laws
// ---------------------------------------------------------------------------
/// HTML escaping loses nothing: different strings escape differently, so
/// the escaped text can always be unescaped back to the text it came from.
pub proof fn law_escape_injective(a: Seq<char>, b: Seq<char>)
    requires
        escape_html(a) == escape_html(b),
    ensures
        a == b,
    decreases a.len() + b.len(),
{
    reveal_strlit("&amp;");
    reveal_strlit("&lt;");
    reveal_strlit("&gt;");
    reveal_strlit("&quot;");
    reveal_strlit("&#39;");
    if a.len() == 0 || b.len() == 0 {
        if a.len() != 0 {
            assert(escape_html(a).len() >= escape_char(a[0]).len());
            assert(escape_char(a[0]).len() > 0);
        }
        if b.len() != 0 {
            assert(escape_html(b).len() >= escape_char(b[0]).len());
            assert(escape_char(b[0]).len() > 0);
        }
        assert(a =~= b);
    } else {
        let ca = escape_char(a[0]);
        let cb = escape_char(b[0]);
        let ea = escape_html(a);
        assert(ea == ca + escape_html(a.drop_first()));
        assert(escape_html(b) == cb + escape_html(b.drop_first()));
        // The first code is determined by its first two characters.
        assert(ea[0] == ca[0]);
        assert(ea[0] == cb[0]);
        if ca.len() > 1 && cb.len() > 1 {
            assert(ea[1] == ca[1]);
            assert(ea[1] == cb[1]);
        }
        assert(a[0] == b[0]) by {
            if ca.len() > 1 || cb.len() > 1 {
                lemma_escape_rest_nonempty_or_end(a.drop_first());
                lemma_escape_rest_nonempty_or_end(b.drop_first());
            }
        }
        assert(ca == cb);
        assert(escape_html(a.drop_first()) =~= ea.skip(ca.len() as int));
        assert(escape_html(b.drop_first()) =~= ea.skip(cb.len() as int));
        law_escape_injective(a.drop_first(), b.drop_first());
        assert(a =~= seq![a[0]] + a.drop_first());
        assert(b =~= seq![b[0]] + b.drop_first());
    }
}

/// An escaped text that is not empty starts with a character's code.
proof fn lemma_escape_rest_nonempty_or_end(s: Seq<char>)
    ensures
        s.len() == 0 ==> escape_html(s).len() == 0,
        s.len() > 0 ==> escape_html(s).len() > 0,
{
    reveal_strlit("&amp;");
    reveal_strlit("&lt;");
    reveal_strlit("&gt;");
    reveal_strlit("&quot;");
    reveal_strlit("&#39;");
    if s.len() > 0 {
        assert(escape_html(s) == escape_char(s[0]) + escape_html(s.drop_first()));
    }
}

/// Escaped text never holds `<`, `>`, `"` or `'`.
pub proof fn law_escape_no_markup(s: Seq<char>)
    ensures
        forall|i: int|
            0 <= i < escape_html(s).len() ==> #[trigger] escape_html(s)[i] != '<' && escape_html(s)[i]
                != '>' && escape_html(s)[i] != '"' && escape_html(s)[i] != '\'',
    decreases s.len(),
{
    reveal_strlit("&amp;");
    reveal_strlit("&lt;");
    reveal_strlit("&gt;");
    reveal_strlit("&quot;");
    reveal_strlit("&#39;");
    if s.len() > 0 {
        law_escape_no_markup(s.drop_first());
        let c = escape_char(s[0]);
        let rest = escape_html(s.drop_first());
        assert(escape_html(s) == c + rest);
        assert forall|i: int| 0 <= i < escape_html(s).len() implies #[trigger] escape_html(s)[i]
            != '<' && escape_html(s)[i] != '>' && escape_html(s)[i] != '"' && escape_html(s)[i]
            != '\'' by {
            if i < c.len() {
                assert(escape_html(s)[i] == c[i]);
            } else {
                assert(escape_html(s)[i] == rest[i - c.len()]);
            }
        }
    }
}

/// `n` copies of `s`.
pub open spec fn repeat(s: Seq<char>, n: nat) -> Seq<char>
    decreases n,
{
    if n == 0 {
        Seq::empty()
    } else {
        s + repeat(s, (n - 1) as nat)
    }
}

/// A successful rendering of `t` that asks for no partials.
pub open spec fn ok_text(t: Seq<char>) -> Outcome {
    (Ok(t), Seq::empty(), t)
}

/// A body of one text node renders as that text.
pub proof fn lemma_text_body(t: Seq<char>, ctx: Seq<Value>, depth: nat, env: RenderEnv, replies: Replies)
    ensures
        spec_render_nodes(seq![SpecNode::Text(t)], ctx, depth, env, replies) == ok_text(t),
{
    let body = seq![SpecNode::Text(t)];
    assert(body[0] == SpecNode::Text(t));
    assert(body.drop_first() =~= Seq::<SpecNode>::empty());
    assert(spec_render_nodes(body.drop_first(), ctx, depth, env, replies.skip(0)) == ok_text(Seq::empty()));
    assert(t + Seq::<char>::empty() =~= t);
    assert(spec_render_node(body[0], ctx, depth, env, replies) == ok_text(t));
    assert(body.len() == 1);
    assert(spec_render_nodes(body, ctx, depth, env, replies) == prepend(t, Seq::<Seq<char>>::empty(), spec_render_nodes(body.drop_first(), ctx, depth, env, replies.skip(0))));
}

/// A text-only body renders once per array item.
proof fn lemma_items_of_text(
    t: Seq<char>,
    pos_items: Seq<Value>,
    ctx: Seq<Value>,
    depth: nat,
    env: RenderEnv,
    replies: Replies,
)
    requires
        depth <= 100,
    ensures
        spec_render_items(seq![SpecNode::Text(t)], pos_items, ctx, depth, env, replies) == ok_text(repeat(t, pos_items.len())),
    decreases pos_items.len(),
{
    let body = seq![SpecNode::Text(t)];
    assert(body.drop_first() =~= Seq::<SpecNode>::empty());
    if pos_items.len() > 0 {
        lemma_items_of_text(t, pos_items.drop_first(), ctx, depth, env, replies.skip(0));
        assert(replies.skip(0) =~= replies);
        lemma_text_body(t, ctx.push(pos_items[0]), depth, env, replies);
    }
}

/// The truth of a name in a context.
pub open spec fn name_is_truthy(ctx: Seq<Value>, name: Seq<char>) -> bool {
    spec_lookup(ctx, name) matches Some(v) && spec_is_truthy(v)
}

/// How many times a truthy section shows its body: once per item of an
/// array, once for any other value.
pub open spec fn section_repeats(ctx: Seq<Value>, name: Seq<char>) -> nat {
    match spec_lookup(ctx, name) {
        Some(Value::Array(items)) => items@.len(),
        _ => 1,
    }
}

/// A section and an inverted section on the same name complement each
/// other: exactly one of them shows its body (the section once per array
/// item), whatever the name refers to.
pub proof fn law_section_inverted_complement(
    name: Seq<char>,
    a: Seq<char>,
    b: Seq<char>,
    p1: SpecPos,
    p2: SpecPos,
    ctx: Seq<Value>,
    depth: nat,
    env: RenderEnv,
    replies: Replies,
)
    requires
        depth < 100,
    ensures
        spec_render_nodes(
            seq![
                SpecNode::Section { name, inverted: false, children: seq![SpecNode::Text(a)], pos: p1 },
                SpecNode::Section { name, inverted: true, children: seq![SpecNode::Text(b)], pos: p2 },
            ],
            ctx,
            depth,
            env,
            replies,
        ).0 == Ok::<Seq<char>, SpecRenderError>(
            if name_is_truthy(ctx, name) {
                repeat(a, section_repeats(ctx, name))
            } else {
                b
            },
        ),
{
    let body_a = seq![SpecNode::Text(a)];
    let body_b = seq![SpecNode::Text(b)];
    let s1 = SpecNode::Section { name, inverted: false, children: body_a, pos: p1 };
    let s2 = SpecNode::Section { name, inverted: true, children: body_b, pos: p2 };
    let ok_empty = ok_text(Seq::<char>::empty());
    if name_is_truthy(ctx, name) {
        let shown = repeat(a, section_repeats(ctx, name));
        match spec_lookup(ctx, name) {
            Some(Value::Array(items)) => {
                lemma_items_of_text(a, items@, ctx, depth + 1, env, replies);
            },
            Some(v) => {
                lemma_text_body(a, ctx.push(v), depth + 1, env, replies);
                assert(repeat(a, 0) =~= Seq::<char>::empty());
                assert(repeat(a, 1) =~= a);
            },
            None => {},
        }
        assert(spec_render_node(s1, ctx, depth, env, replies) == ok_text(shown));
        assert(spec_render_node(s2, ctx, depth, env, replies) == ok_empty);
        lemma_two_nodes(s1, s2, shown, Seq::empty(), ctx, depth, env, replies);
        assert(shown + Seq::<char>::empty() =~= shown);
    } else {
        lemma_text_body(b, ctx, depth + 1, env, replies);
        assert(spec_render_node(s1, ctx, depth, env, replies) == ok_empty);
        assert(spec_render_node(s2, ctx, depth, env, replies) == ok_text(b));
        lemma_two_nodes(s1, s2, Seq::empty(), b, ctx, depth, env, replies);
        assert(Seq::<char>::empty() + b =~= b);
    }
}

/// Two nodes that render without using replies render one after the other.
proof fn lemma_two_nodes(
    n1: SpecNode,
    n2: SpecNode,
    t1: Seq<char>,
    t2: Seq<char>,
    ctx: Seq<Value>,
    depth: nat,
    env: RenderEnv,
    replies: Replies,
)
    requires
        spec_render_node(n1, ctx, depth, env, replies) == ok_text(t1),
        spec_render_node(n2, ctx, depth, env, replies) == ok_text(t2),
    ensures
        spec_render_nodes(seq![n1, n2], ctx, depth, env, replies) == ok_text(t1 + t2),
{
    let both = seq![n1, n2];
    let tail = seq![n2];
    assert(both[0] == n1);
    assert(both.drop_first() =~= tail);
    assert(tail[0] == n2);
    assert(tail.drop_first() =~= Seq::<SpecNode>::empty());
    assert(replies.skip(0) =~= replies);
    assert(spec_render_nodes(tail.drop_first(), ctx, depth, env, replies) == ok_text(Seq::empty()));
    assert(spec_render_nodes(tail, ctx, depth, env, replies) == prepend(
        t2,
        Seq::<Seq<char>>::empty(),
        spec_render_nodes(tail.drop_first(), ctx, depth, env, replies.skip(0)),
    ));
    assert(t2 + Seq::<char>::empty() =~= t2);
    assert(spec_render_nodes(both, ctx, depth, env, replies) == prepend(
        t1,
        Seq::<Seq<char>>::empty(),
        spec_render_nodes(both.drop_first(), ctx, depth, env, replies.skip(0)),
    ));
}

/// Every reply, as far as the first `k`, is a partial that parses to a single
/// unindented partial tag (such as a partial that includes itself).
pub open spec fn replies_only_include_partials(replies: Replies, k: nat) -> bool {
    forall|i: int| 0 <= i < k ==> includes_one_partial(#[trigger] replies[i])
}

/// A reply whose text is exactly one unindented partial tag.
pub open spec fn includes_one_partial(reply: Option<Seq<char>>) -> bool {
    match reply {
        Some(c) => match spec_parse(c) {
            Ok(ns) => ns.len() == 1 && match ns[0] {
                SpecNode::Partial { indent, .. } => indent.len() == 0,
                _ => false,
            },
            Err(_) => false,
        },
        None => false,
    }
}

/// Partials that keep including partials do not recurse forever: the
/// rendering stops with a nesting-depth error, having written nothing.
pub proof fn law_partial_recursion_is_bounded(
    name: Seq<char>,
    pos: SpecPos,
    ctx: Seq<Value>,
    depth: nat,
    env: RenderEnv,
    replies: Replies,
)
    requires
        depth <= 100,
        env.has_resolver,
        replies.len() >= 101 - depth,
        replies_only_include_partials(replies, (101 - depth) as nat),
    ensures
        spec_render_node(
            SpecNode::Partial { name, indent: Seq::empty(), pos },
            ctx,
            depth,
            env,
            replies,
        ).0 matches Err(e) && e.kind is MaxNestingDepthExceeded,
        spec_render_node(
            SpecNode::Partial { name, indent: Seq::empty(), pos },
            ctx,
            depth,
            env,
            replies,
        ).2 == Seq::<char>::empty(),
    decreases 101 - depth,
{
    assert(includes_one_partial(replies[0]));
    if depth < 100 {
        let c = replies[0]->0;
        let ns = spec_parse(c)->Ok_0;
        let inner = ns[0];
        let rest = replies.skip(1);
        assert forall|i: int| 0 <= i < (101 - (depth + 1)) as nat implies includes_one_partial(
            #[trigger] rest[i],
        ) by {
            assert(rest[i] == replies[i + 1]);
        }
        match inner {
            SpecNode::Partial { name: n2, indent, pos: p2 } => {
                assert(indent =~= Seq::<char>::empty());
                law_partial_recursion_is_bounded(n2, p2, ctx, depth + 1, env, rest);
                assert(inner == SpecNode::Partial { name: n2, indent: Seq::empty(), pos: p2 });
            },
            _ => {},
        }
    }
}

/// The same settings with strict mode off.
pub open spec fn lenient(env: RenderEnv) -> RenderEnv {
    RenderEnv { strict: false, has_resolver: env.has_resolver }
}

/// A rendering outcome that is not an undefined-variable or missing-partial error.
pub open spec fn never_missing(r: Result<Seq<char>, SpecRenderError>) -> bool {
    match r {
        Ok(_) => true,
        Err(e) => !(e.kind is UndefinedVariable) && !(e.kind is PartialNotFound),
    }
}

/// Strict mode only adds errors. With it off, a rendering never fails for
/// an undefined variable or a missing partial; and a rendering that
/// succeeds in strict mode gives the same output, using the same replies,
/// with strict mode off.
pub proof fn law_strict_only_adds_errors(
    nodes: Seq<SpecNode>,
    ctx: Seq<Value>,
    depth: nat,
    env: RenderEnv,
    replies: Replies,
)
    ensures
        never_missing(spec_render_nodes(nodes, ctx, depth, lenient(env), replies).0),
        spec_render_nodes(nodes, ctx, depth, env, replies).0 is Ok ==> spec_render_nodes(
            nodes,
            ctx,
            depth,
            lenient(env),
            replies,
        ) == spec_render_nodes(nodes, ctx, depth, env, replies),
    decreases 101 - depth, nodes, 0nat,
{
    if nodes.len() > 0 {
        lemma_strict_node(nodes[0], ctx, depth, env, replies);
        let k0 = spec_render_node(nodes[0], ctx, depth, env, replies).1;
        let k1 = spec_render_node(nodes[0], ctx, depth, lenient(env), replies).1;
        law_strict_only_adds_errors(nodes.drop_first(), ctx, depth, env, replies.skip(k0.len() as int));
        law_strict_only_adds_errors(nodes.drop_first(), ctx, depth, env, replies.skip(k1.len() as int));
    }
}

/// The same for a section's body repeated over array items.
proof fn lemma_strict_items(
    children: Seq<SpecNode>,
    items: Seq<Value>,
    ctx: Seq<Value>,
    depth: nat,
    env: RenderEnv,
    replies: Replies,
)
    ensures
        never_missing(spec_render_items(children, items, ctx, depth, lenient(env), replies).0),
        spec_render_items(children, items, ctx, depth, env, replies).0 is Ok ==> spec_render_items(
            children,
            items,
            ctx,
            depth,
            lenient(env),
            replies,
        ) == spec_render_items(children, items, ctx, depth, env, replies),
    decreases 101 - depth, children, items.len(),
{
    if items.len() > 0 {
        law_strict_only_adds_errors(children, ctx.push(items[0]), depth, env, replies);
        let k0 = spec_render_nodes(children, ctx.push(items[0]), depth, env, replies).1;
        let k1 = spec_render_nodes(children, ctx.push(items[0]), depth, lenient(env), replies).1;
        lemma_strict_items(children, items.drop_first(), ctx, depth, env, replies.skip(k0.len() as int));
        lemma_strict_items(children, items.drop_first(), ctx, depth, env, replies.skip(k1.len() as int));
    }
}

/// The same for one node.
proof fn lemma_strict_node(node: SpecNode, ctx: Seq<Value>, depth: nat, env: RenderEnv, replies: Replies)
    ensures
        never_missing(spec_render_node(node, ctx, depth, lenient(env), replies).0),
        spec_render_node(node, ctx, depth, env, replies).0 is Ok ==> spec_render_node(
            node,
            ctx,
            depth,
            lenient(env),
            replies,
        ) == spec_render_node(node, ctx, depth, env, replies),
    decreases 101 - depth, node, 0nat,
{
    match node {
        SpecNode::Section { name, inverted, children, pos } => {
            let value = spec_lookup(ctx, name);
            let truthy = value matches Some(v) && spec_is_truthy(v);
            if inverted != truthy && depth + 1 <= 100 {
                if inverted {
                    law_strict_only_adds_errors(children, ctx, depth + 1, env, replies);
                } else {
                    match value {
                        Some(Value::Array(items)) => {
                            lemma_strict_items(children, items@, ctx, depth + 1, env, replies);
                        },
                        Some(v) => {
                            law_strict_only_adds_errors(children, ctx.push(v), depth + 1, env, replies);
                        },
                        None => {},
                    }
                }
            }
        },
        SpecNode::Partial { name, indent, pos } => {
            if env.has_resolver {
                match replies[0] {
                    Some(content) => {
                        let source = if indent.len() == 0 {
                            content
                        } else {
                            spec_indent_source(content, indent)
                        };
                        match spec_parse(source) {
                            Ok(nodes) => if depth + 1 <= 100 {
                                law_strict_only_adds_errors(nodes, ctx, depth + 1, env, replies.skip(1));
                            },
                            Err(_) => {},
                        }
                    },
                    None => {},
                }
            }
        },
        _ => {},
    }
}

/// Replies that are, for each name asked, what `f` gives for that name.
pub open spec fn replies_follow(replies: Replies, asked: Asked, f: spec_fn(Seq<char>) -> Option<Seq<char>>) -> bool {
    &&& asked.len() <= replies.len()
    &&& forall|i: int| 0 <= i < asked.len() ==> #[trigger] replies[i] == f(asked[i])
}

/// Replies that follow `f` on a longer list of names follow it on a prefix,
/// and past the prefix on the rest.
proof fn lemma_follow_split(replies: Replies, asked: Asked, k: Asked, f: spec_fn(Seq<char>) -> Option<Seq<char>>)
    requires
        replies_follow(replies, asked, f),
        k.len() <= asked.len(),
        asked.take(k.len() as int) == k,
    ensures
        replies_follow(replies, k, f),
        replies_follow(replies.skip(k.len() as int), asked.skip(k.len() as int), f),
{
    assert forall|i: int| 0 <= i < k.len() implies #[trigger] replies[i] == f(k[i]) by {
        assert(asked.take(k.len() as int)[i] == asked[i]);
    }
    let n = k.len() as int;
    assert forall|i: int| 0 <= i < asked.skip(n).len() implies #[trigger] replies.skip(n)[i] == f(
        asked.skip(n)[i],
    ) by {
        assert(replies[i + n] == f(asked[i + n]));
    }
}

/// When the replies are, for every name asked, a fixed answer for that
/// name, the rendering does not depend on anything else in the replies.
pub proof fn lemma_follow_nodes(
    nodes: Seq<SpecNode>,
    ctx: Seq<Value>,
    depth: nat,
    env: RenderEnv,
    r1: Replies,
    r2: Replies,
    f: spec_fn(Seq<char>) -> Option<Seq<char>>,
)
    requires
        replies_follow(r1, spec_render_nodes(nodes, ctx, depth, env, r1).1, f),
        replies_follow(r2, spec_render_nodes(nodes, ctx, depth, env, r2).1, f),
    ensures
        spec_render_nodes(nodes, ctx, depth, env, r1) == spec_render_nodes(nodes, ctx, depth, env, r2),
    decreases 101 - depth, nodes, 0nat,
{
    if nodes.len() > 0 {
        let x1 = spec_render_node(nodes[0], ctx, depth, env, r1);
        let x2 = spec_render_node(nodes[0], ctx, depth, env, r2);
        let a1 = spec_render_nodes(nodes, ctx, depth, env, r1).1;
        let a2 = spec_render_nodes(nodes, ctx, depth, env, r2).1;
        assert(a1.take(x1.1.len() as int) =~= x1.1);
        assert(a2.take(x2.1.len() as int) =~= x2.1);
        lemma_follow_split(r1, a1, x1.1, f);
        lemma_follow_split(r2, a2, x2.1, f);
        lemma_follow_node(nodes[0], ctx, depth, env, r1, r2, f);
        if x1.0 is Ok {
            let k = x1.1.len() as int;
            assert(a1.skip(k) =~= spec_render_nodes(nodes.drop_first(), ctx, depth, env, r1.skip(k)).1);
            assert(a2.skip(k) =~= spec_render_nodes(nodes.drop_first(), ctx, depth, env, r2.skip(k)).1);
            lemma_follow_nodes(nodes.drop_first(), ctx, depth, env, r1.skip(k), r2.skip(k), f);
        }
    }
}

/// The same for a section's body repeated over array items.
proof fn lemma_follow_items(
    children: Seq<SpecNode>,
    items: Seq<Value>,
    ctx: Seq<Value>,
    depth: nat,
    env: RenderEnv,
    r1: Replies,
    r2: Replies,
    f: spec_fn(Seq<char>) -> Option<Seq<char>>,
)
    requires
        replies_follow(r1, spec_render_items(children, items, ctx, depth, env, r1).1, f),
        replies_follow(r2, spec_render_items(children, items, ctx, depth, env, r2).1, f),
    ensures
        spec_render_items(children, items, ctx, depth, env, r1) == spec_render_items(
            children,
            items,
            ctx,
            depth,
            env,
            r2,
        ),
    decreases 101 - depth, children, items.len(),
{
    if items.len() > 0 {
        let x1 = spec_render_nodes(children, ctx.push(items[0]), depth, env, r1);
        let x2 = spec_render_nodes(children, ctx.push(items[0]), depth, env, r2);
        let a1 = spec_render_items(children, items, ctx, depth, env, r1).1;
        let a2 = spec_render_items(children, items, ctx, depth, env, r2).1;
        assert(a1.take(x1.1.len() as int) =~= x1.1);
        assert(a2.take(x2.1.len() as int) =~= x2.1);
        lemma_follow_split(r1, a1, x1.1, f);
        lemma_follow_split(r2, a2, x2.1, f);
        lemma_follow_nodes(children, ctx.push(items[0]), depth, env, r1, r2, f);
        if x1.0 is Ok {
            let k = x1.1.len() as int;
            assert(a1.skip(k) =~= spec_render_items(children, items.drop_first(), ctx, depth, env, r1.skip(k)).1);
            assert(a2.skip(k) =~= spec_render_items(children, items.drop_first(), ctx, depth, env, r2.skip(k)).1);
            lemma_follow_items(children, items.drop_first(), ctx, depth, env, r1.skip(k), r2.skip(k), f);
        }
    }
}

/// The same for one node.
proof fn lemma_follow_node(
    node: SpecNode,
    ctx: Seq<Value>,
    depth: nat,
    env: RenderEnv,
    r1: Replies,
    r2: Replies,
    f: spec_fn(Seq<char>) -> Option<Seq<char>>,
)
    requires
        replies_follow(r1, spec_render_node(node, ctx, depth, env, r1).1, f),
        replies_follow(r2, spec_render_node(node, ctx, depth, env, r2).1, f),
    ensures
        spec_render_node(node, ctx, depth, env, r1) == spec_render_node(node, ctx, depth, env, r2),
    decreases 101 - depth, node, 0nat,
{
    match node {
        SpecNode::Section { name, inverted, children, pos } => {
            let value = spec_lookup(ctx, name);
            let truthy = value matches Some(v) && spec_is_truthy(v);
            if inverted != truthy && depth + 1 <= 100 {
                if inverted {
                    lemma_follow_nodes(children, ctx, depth + 1, env, r1, r2, f);
                } else {
                    match value {
                        Some(Value::Array(items)) => {
                            lemma_follow_items(children, items@, ctx, depth + 1, env, r1, r2, f);
                        },
                        Some(v) => {
                            lemma_follow_nodes(children, ctx.push(v), depth + 1, env, r1, r2, f);
                        },
                        None => {},
                    }
                }
            }
        },
        SpecNode::Partial { name, indent, pos } => {
            if env.has_resolver {
                let a1 = spec_render_node(node, ctx, depth, env, r1).1;
                let a2 = spec_render_node(node, ctx, depth, env, r2).1;
                assert(a1[0] == name && a2[0] == name);
                assert(r1[0] == f(name) && r2[0] == f(name));
                match r1[0] {
                    Some(content) => {
                        match spec_parse(partial_source(content, indent)) {
                            Ok(nodes) => if depth + 1 <= 100 {
                                let k1 = spec_render_nodes(nodes, ctx, depth + 1, env, r1.skip(1)).1;
                                let k2 = spec_render_nodes(nodes, ctx, depth + 1, env, r2.skip(1)).1;
                                assert(a1 == seq![name] + k1);
                                assert(a2 == seq![name] + k2);
                                assert(a1.take(1) =~= seq![name]);
                                assert(a2.take(1) =~= seq![name]);
                                lemma_follow_split(r1, a1, seq![name], f);
                                lemma_follow_split(r2, a2, seq![name], f);
                                assert(a1.skip(1) =~= k1);
                                assert(a2.skip(1) =~= k2);
                                lemma_follow_nodes(nodes, ctx, depth + 1, env, r1.skip(1), r2.skip(1), f);
                            },
                            Err(_) => {},
                        }
                    },
                    None => {},
                }
            }
        },
        _ => {},
    }
}

/// A section whose name refers to a truthy value that is not an array
/// renders its body once, one level deeper, with that value pushed as the
/// innermost context, whatever kind of value it is.
pub proof fn law_section_pushes_its_value(
    name: Seq<char>,
    children: Seq<SpecNode>,
    pos: SpecPos,
    ctx: Seq<Value>,
    depth: nat,
    env: RenderEnv,
    replies: Replies,
    v: Value,
)
    requires
        depth < 100,
        spec_lookup(ctx, name) == Some(v),
        spec_is_truthy(v),
        !(v is Array),
    ensures
        spec_render_node(
            SpecNode::Section { name, inverted: false, children, pos },
            ctx,
            depth,
            env,
            replies,
        ) == spec_render_nodes(children, ctx.push(v), depth + 1, env, replies),
{
}

/// Inside a section on a truthy value that is not an array, `{{.}}` is that
/// value: rendering `{{#name}}{{.}}{{/name}}` gives the value's text (escaped
/// as the tag asks), whatever the enclosing contexts hold.
pub proof fn law_dot_in_section_is_the_value(
    name: Seq<char>,
    escape: bool,
    p1: SpecPos,
    p2: SpecPos,
    ctx: Seq<Value>,
    depth: nat,
    env: RenderEnv,
    replies: Replies,
    v: Value,
)
    requires
        depth < 100,
        spec_lookup(ctx, name) == Some(v),
        spec_is_truthy(v),
        !(v is Array),
    ensures
        spec_render_node(
            SpecNode::Section {
                name,
                inverted: false,
                children: seq![SpecNode::Variable { name: seq!['.'], escape, pos: p2 }],
                pos: p1,
            },
            ctx,
            depth,
            env,
            replies,
        ).0 == Ok::<Seq<char>, SpecRenderError>(
            if escape {
                escape_html(spec_stringify(v))
            } else {
                spec_stringify(v)
            },
        ),
{
    let inner = ctx.push(v);
    assert(inner.last() == v);
    assert(spec_lookup(inner, seq!['.']) == Some(v));
    let dot = SpecNode::Variable { name: seq!['.'], escape, pos: p2 };
    let shown = if escape {
        escape_html(spec_stringify(v))
    } else {
        spec_stringify(v)
    };
    assert(spec_render_node(dot, inner, depth + 1, env, replies) == ok_text(shown));
    let body = seq![dot];
    assert(body[0] == dot);
    assert(body.drop_first() =~= Seq::<SpecNode>::empty());
    assert(replies.skip(0) =~= replies);
    assert(spec_render_nodes(body.drop_first(), inner, depth + 1, env, replies) == ok_text(
        Seq::empty(),
    ));
    assert(shown + Seq::<char>::empty() =~= shown);
}

/// `s` holds no `.`.
pub open spec fn no_dots(s: Seq<char>) -> bool {
    forall|i: int| 0 <= i < s.len() ==> #[trigger] s[i] != '.'
}

/// Splitting text without dots gives the text read so far and the rest as
/// one segment.
proof fn lemma_split_no_dots(s: Seq<char>, cur: Seq<char>)
    requires
        no_dots(s),
    ensures
        split_dots_from(s, cur) == seq![cur + s],
    decreases s.len(),
{
    if s.len() == 0 {
        assert(cur + s =~= cur);
    } else {
        assert(s[0] != '.');
        assert(no_dots(s.drop_first())) by {
            assert forall|i: int| 0 <= i < s.drop_first().len() implies #[trigger] s.drop_first()[i]
                != '.' by {
                assert(s.drop_first()[i] == s[i + 1]);
            }
        }
        lemma_split_no_dots(s.drop_first(), cur.push(s[0]));
        assert(cur.push(s[0]) + s.drop_first() =~= cur + s);
    }
}

/// Splitting `a.b` (neither holding a dot) gives `a` and `b`.
proof fn lemma_split_two(a: Seq<char>, b: Seq<char>)
    requires
        no_dots(a),
        no_dots(b),
    ensures
        split_dots(a + seq!['.'] + b) == seq![a, b],
{
    lemma_split_two_from(a, b, Seq::empty());
    assert(Seq::<char>::empty() + a =~= a);
}

proof fn lemma_split_two_from(a: Seq<char>, b: Seq<char>, cur: Seq<char>)
    requires
        no_dots(a),
        no_dots(b),
    ensures
        split_dots_from(a + seq!['.'] + b, cur) == seq![cur + a, b],
    decreases a.len(),
{
    let s = a + seq!['.'] + b;
    if a.len() == 0 {
        assert(s[0] == '.');
        assert(s.drop_first() =~= b);
        lemma_split_no_dots(b, Seq::empty());
        assert(Seq::<char>::empty() + b =~= b);
        assert(cur + a =~= cur);
        assert(seq![cur] + seq![b] =~= seq![cur + a, b]);
    } else {
        assert(s[0] == a[0]);
        assert(a[0] != '.');
        assert(s.drop_first() =~= a.drop_first() + seq!['.'] + b);
        assert(no_dots(a.drop_first())) by {
            assert forall|i: int| 0 <= i < a.drop_first().len() implies #[trigger] a.drop_first()[i]
                != '.' by {
                assert(a.drop_first()[i] == a[i + 1]);
            }
        }
        lemma_split_two_from(a.drop_first(), b, cur.push(a[0]));
        assert(cur.push(a[0]) + a.drop_first() =~= cur + a);
    }
}

/// A plain name (no dot, and not `.` itself) is found in the innermost
/// context that has it, searching outward through the whole stack.
pub proof fn law_plain_name_innermost(ctx: Seq<Value>, a: Seq<char>, i: int, w: Value)
    requires
        no_dots(a),
        0 <= i < ctx.len(),
        spec_value_get(ctx[i], a) == Some(w),
        forall|j: int| i < j < ctx.len() ==> #[trigger] spec_value_get(ctx[j], a) is None,
    ensures
        spec_lookup(ctx, a) == Some(w),
    decreases ctx.len(),
{
    assert(a != seq!['.']) by {
        if a == seq!['.'] {
            assert(a[0] == '.');
        }
    }
    lemma_split_no_dots(a, Seq::empty());
    assert(Seq::<char>::empty() + a =~= a);
    lemma_resolve_single_innermost(ctx, a, i, w);
    assert(follow_path(w, split_dots(a).drop_first()) == Some(w)) by {
        assert(split_dots(a).drop_first() =~= Seq::<Seq<char>>::empty());
    }
}

proof fn lemma_resolve_single_innermost(ctx: Seq<Value>, a: Seq<char>, i: int, w: Value)
    requires
        0 <= i < ctx.len(),
        spec_value_get(ctx[i], a) == Some(w),
        forall|j: int| i < j < ctx.len() ==> #[trigger] spec_value_get(ctx[j], a) is None,
    ensures
        resolve_single(ctx, a) == Some(w),
    decreases ctx.len(),
{
    if i < ctx.len() - 1 {
        assert(spec_value_get(ctx[ctx.len() - 1], a) is None);
        assert forall|j: int| i < j < ctx.drop_last().len() implies #[trigger] spec_value_get(
            ctx.drop_last()[j],
            a,
        ) is None by {
            assert(ctx.drop_last()[j] == ctx[j]);
            assert(spec_value_get(ctx[j], a) is None);
        }
        assert(ctx.drop_last()[i] == ctx[i]);
        lemma_resolve_single_innermost(ctx.drop_last(), a, i, w);
    }
}

/// A dotted name `a.b` looks `a` up exactly as a plain name is looked up
/// (through the whole context stack) and then `b` directly in what it found.
pub proof fn law_dotted_name_is_two_lookups(ctx: Seq<Value>, a: Seq<char>, b: Seq<char>)
    requires
        no_dots(a),
        no_dots(b),
        a.len() > 0 || b.len() > 0,
    ensures
        spec_lookup(ctx, a + seq!['.'] + b) == match spec_lookup(ctx, a) {
            Some(v) => spec_value_get(v, b),
            None => None,
        },
{
    let name = a + seq!['.'] + b;
    assert(name != seq!['.']) by {
        if name == seq!['.'] {
            assert(name.len() == a.len() + 1 + b.len());
        }
    }
    lemma_split_two(a, b);
    let segs = split_dots(name);
    assert(segs[0] == a);
    assert(segs.drop_first() =~= seq![b]);
    assert(a != seq!['.']) by {
        if a == seq!['.'] {
            assert(a[0] == '.');
        }
    }
    lemma_split_no_dots(a, Seq::empty());
    assert(Seq::<char>::empty() + a =~= a);
    assert(split_dots(a).drop_first() =~= Seq::<Seq<char>>::empty());
    match resolve_single(ctx, a) {
        Some(v) => {
            let rest = seq![b];
            assert(rest[0] == b);
            assert(rest.drop_first() =~= Seq::<Seq<char>>::empty());
            match spec_value_get(v, b) {
                Some(w) => {
                    assert(follow_path(w, rest.drop_first()) == Some(w));
                },
                None => {},
            }
        },
        None => {},
    }
}

/// A variable whose name resolves renders that value's text (escaped as the
/// tag asks), in strict mode as well: it never fails, and strict and lenient
/// mode give the same. An undefined-variable error comes only from a name
/// that does not resolve.
pub proof fn law_defined_variable_renders_its_value(
    name: Seq<char>,
    escape: bool,
    pos: SpecPos,
    ctx: Seq<Value>,
    depth: nat,
    env: RenderEnv,
    replies: Replies,
)
    ensures
        spec_lookup(ctx, name) matches Some(v) ==> spec_render_node(
            SpecNode::Variable { name, escape, pos },
            ctx,
            depth,
            env,
            replies,
        ).0 == Ok::<Seq<char>, SpecRenderError>(
            if escape {
                escape_html(spec_stringify(v))
            } else {
                spec_stringify(v)
            },
        ),
        spec_render_node(SpecNode::Variable { name, escape, pos }, ctx, depth, env, replies).0 matches Err(
            e,
        ) ==> e.kind is UndefinedVariable && spec_lookup(ctx, name) is None && env.strict,
        spec_lookup(ctx, name) matches Some(v) && v is Null ==> spec_render_node(
            SpecNode::Variable { name, escape, pos },
            ctx,
            depth,
            env,
            replies,
        ).0 == Ok::<Seq<char>, SpecRenderError>(Seq::empty()),
{
    match spec_lookup(ctx, name) {
        Some(v) => {
            if v is Null {
                assert(escape_html(Seq::<char>::empty()) =~= Seq::<char>::empty());
            }
        },
        None => {},
    }
}

/// Indentation works line by line: indenting two pieces split after a line
/// break (the second not empty) indents each and joins them.
pub proof fn law_indent_by_lines(a: Seq<char>, b: Seq<char>, indent: Seq<char>)
    requires
        b.len() > 0,
    ensures
        spec_indent_source(a + seq!['\n'] + b, indent) == spec_indent_source(a + seq!['\n'], indent)
            + spec_indent_source(b, indent),
{
    let c = a + seq!['\n'] + b;
    let nl = seq!['\n'];
    assert(indent_after_breaks(nl, indent) =~= nl + indent) by {
        assert(nl[0] == '\n');
        assert(nl.drop_first() =~= Seq::<char>::empty());
        assert(indent_after_breaks(Seq::<char>::empty(), indent) =~= Seq::<char>::empty());
        assert(indent_after_breaks(nl, indent) == seq!['\n'] + indent + indent_after_breaks(
            nl.drop_first(),
            indent,
        ));
    }
    assert((a + nl).last() == '\n');
    assert((a + nl).drop_last() =~= a);
    assert(c.last() == b.last());
    if b.last() == '\n' {
        assert(c.drop_last() =~= (a + nl) + b.drop_last());
        lemma_indent_append(a + nl, b.drop_last(), indent);
        lemma_indent_append(a, nl, indent);
    } else {
        lemma_indent_append(a + nl, b, indent);
        lemma_indent_append(a, nl, indent);
    }
    assert(spec_indent_source(c, indent) =~= spec_indent_source(a + seq!['\n'], indent)
        + spec_indent_source(b, indent));
}

/// A single line (no line break inside) is indented once at its start,
/// whether or not it ends with a line break.
pub proof fn law_indent_one_line(l: Seq<char>, indent: Seq<char>)
    requires
        l.len() > 0,
        forall|i: int| 0 <= i < l.len() ==> #[trigger] l[i] != '\n',
    ensures
        spec_indent_source(l, indent) == indent + l,
        spec_indent_source(l + seq!['\n'], indent) == indent + l + seq!['\n'],
{
    lemma_indent_no_breaks(l, indent);
    assert((l + seq!['\n']).drop_last() =~= l);
    assert((l + seq!['\n']).last() == '\n');
}

proof fn lemma_indent_no_breaks(l: Seq<char>, indent: Seq<char>)
    requires
        forall|i: int| 0 <= i < l.len() ==> #[trigger] l[i] != '\n',
    ensures
        indent_after_breaks(l, indent) == l,
    decreases l.len(),
{
    if l.len() > 0 {
        assert(l[0] != '\n');
        assert forall|i: int| 0 <= i < l.drop_first().len() implies #[trigger] l.drop_first()[i]
            != '\n' by {
            assert(l.drop_first()[i] == l[i + 1]);
        }
        lemma_indent_no_breaks(l.drop_first(), indent);
        assert(seq![l[0]] + l.drop_first() =~= l);
    }
}

} // verus!
