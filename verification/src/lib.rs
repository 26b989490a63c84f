//! A Mustache template engine.
//!
//! ```text
//! let mustache = Mustache::new();
//! let mut data = ValueMap::new();
//! data.insert("name", Value::String("World".to_string()));
//! let output = mustache.render_str("Hello, {{name}}!", &Value::Object(data));
//! // output == Ok("Hello, World!")
//! ```

pub mod ast;
pub mod cli;
pub mod error;
pub mod parser;
pub mod partial;
pub mod renderer;
pub mod text;
pub mod value;

use vstd::prelude::*;

use crate::ast::{nodes_view, Node, SpecNode};
use crate::error::{Error, ParseError, RenderError, SpecParseError, SpecRenderError};
use crate::parser::{default_open, lemma_find_from, matches_at, parse_result_view, push_text, spec_parse};
use crate::partial::PartialResolver;
use crate::renderer::{
    answered_by, env_of, lemma_text_body, outcome_matches, spec_render_nodes, RenderEnv, RenderState,
    Replies, Transcript,
};
use crate::text::string_with_capacity;
use crate::value::Value;

verus! {

/// A parsed template, ready to be rendered any number of times.
pub struct Template {
    root: Vec<Node>,
    source_len: usize,
}

impl Template {
    /// The template's nodes.
    pub closed spec fn nodes(&self) -> Seq<SpecNode> {
        nodes_view(self.root@)
    }

    /// The length in bytes of the text the template was parsed from.
    pub closed spec fn source_len(&self) -> nat {
        self.source_len as nat
    }
}

/// The Mustache engine: holds the partial resolver and the strict-mode setting.
pub struct Mustache {
    partial_resolver: Option<Box<dyn PartialResolver>>,
    strict: bool,
}

/// Rendering `nodes` against `data`: the output or the error, given the
/// resolver's replies in the order they are asked for.
pub open spec fn spec_render_template(
    nodes: Seq<SpecNode>,
    data: Value,
    env: RenderEnv,
    replies: Replies,
) -> Result<Seq<char>, SpecRenderError> {
    spec_render_nodes(nodes, seq![data], 0, env, replies).0
}

/// A transcript fits a rendering of `nodes` against `data` under `env`
/// with `resolver`: each reply is an answer the resolver may give for the
/// name it was asked for, and the names are exactly those the rendering
/// asks for, given those replies.
pub open spec fn transcript_fits(
    nodes: Seq<SpecNode>,
    data: Value,
    env: RenderEnv,
    resolver: Option<&(dyn PartialResolver + 'static)>,
    t: Transcript,
) -> bool {
    &&& answered_by(resolver, t)
    &&& spec_render_nodes(nodes, seq![data], 0, env, t.0).1 == t.1
}

/// A rendering result agrees with the model's.
pub open spec fn render_agrees(r: Result<String, RenderError>, expected: Result<Seq<char>, SpecRenderError>) -> bool {
    match expected {
        Ok(s) => r matches Ok(out) && out@ == s,
        Err(e) => r matches Err(re) && re.view() == e,
    }
}

/// A parse-and-render result agrees with the model's rendering.
pub open spec fn render_str_agrees(r: Result<String, Error>, expected: Result<Seq<char>, SpecRenderError>) -> bool {
    match expected {
        Ok(s) => r matches Ok(out) && out@ == s,
        Err(e) => r matches Err(Error::Render(re)) && re.view() == e,
    }
}

impl Mustache {
    /// Whether strict mode is on.
    pub closed spec fn is_strict(&self) -> bool {
        self.strict
    }

    /// Whether a partial resolver is configured.
    pub closed spec fn has_resolver(&self) -> bool {
        self.partial_resolver is Some
    }

    /// The configured partial resolver, in the box it was given in.
    pub closed spec fn resolver_box(&self) -> Option<Box<dyn PartialResolver>> {
        self.partial_resolver
    }

    /// The configured partial resolver.
    pub open spec fn resolver(&self) -> Option<&(dyn PartialResolver + 'static)> {
        match self.resolver_box() {
            Some(b) => Some::<&(dyn PartialResolver + 'static)>(&*b),
            None => None,
        }
    }

    /// The settings renderings run under.
    pub open spec fn env(&self) -> RenderEnv {
        RenderEnv { strict: self.is_strict(), has_resolver: self.has_resolver() }
    }

    /// An engine with no partial resolver and strict mode off.
    pub fn new() -> (m: Self)
        ensures
            !m.is_strict(),
            !m.has_resolver(),
            m.resolver_box() is None,
    {
        Mustache { partial_resolver: None, strict: false }
    }

    /// The engine with `resolver` as its partial resolver.
    pub fn with_partial_resolver(self, resolver: Box<dyn PartialResolver>) -> (m: Self)
        ensures
            m.has_resolver(),
            m.resolver_box() == Some::<Box<dyn PartialResolver>>(resolver),
            m.is_strict() == self.is_strict(),
    {
        Mustache { partial_resolver: Some::<Box<dyn PartialResolver>>(resolver), strict: self.strict }
    }

    /// The engine with strict mode set to `strict`: undefined variables and
    /// unresolved partials become errors.
    pub fn with_strict(self, strict: bool) -> (m: Self)
        ensures
            m.is_strict() == strict,
            m.has_resolver() == self.has_resolver(),
            m.resolver_box() == self.resolver_box(),
    {
        Mustache { partial_resolver: self.partial_resolver, strict }
    }

    /// Parses a template for later rendering.
    pub fn parse(&self, template: &str) -> (r: Result<Template, ParseError>)
        ensures
            match spec_parse(template@) {
                Ok(nodes) => r matches Ok(t) && t.nodes() == nodes && t.source_len()
                    == template.len(),
                Err(e) => r matches Err(pe) && pe.view() == e,
            },
    {
        match crate::parser::parse(template) {
            Ok(root) => Ok(Template { root, source_len: template.len() }),
            Err(e) => Err(e),
        }
    }

    /// Renders a parsed template against `data`.
    ///
    /// The result is the model's rendering for a transcript that fits it:
    /// the names in it are those the model asks for, and each reply is an
    /// answer the resolver's `answers` allows for its name. With no resolver
    /// configured, no replies are used.
    pub fn render(&self, template: &Template, data: &Value) -> (r: Result<String, RenderError>)
        ensures
            exists|t: Transcript|
                transcript_fits(template.nodes(), *data, self.env(), self.resolver(), t) && render_agrees(
                    r,
                    #[trigger] spec_render_template(template.nodes(), *data, self.env(), t.0),
                ),
            !self.has_resolver() ==> render_agrees(
                r,
                spec_render_template(template.nodes(), *data, self.env(), Seq::empty()),
            ),
    {
        let capacity = if template.source_len <= isize::MAX as usize {
            template.source_len
        } else {
            0
        };
        let mut out = string_with_capacity(capacity);
        let mut state = RenderState::new(data, self.strict);
        let resolver: Option<&(dyn PartialResolver + 'static)> = match &self.partial_resolver {
            Some(b) => Some::<&(dyn PartialResolver + 'static)>(&**b),
            None => None,
        };
        assert(env_of(self.strict, resolver) == self.env());
        assert(resolver == self.resolver());
        let (res, log) = crate::renderer::render_nodes(&template.root, &mut state, 0, resolver, &mut out);
        proof {
            let empty: Replies = Seq::empty();
            assert(log@.0 + empty =~= log@.0);
            assert(outcome_matches(
                res,
                Seq::<char>::empty(),
                out@,
                log@.1,
                spec_render_nodes(template.nodes(), seq![*data], 0, self.env(), log@.0 + empty),
            ));
            assert(Seq::<char>::empty() + out@ =~= out@);
            assert(transcript_fits(template.nodes(), *data, self.env(), self.resolver(), log@));
        }
        match res {
            Ok(()) => Ok(out),
            Err(e) => Err(e),
        }
    }

    /// Parses and renders in one call.
    pub fn render_str(&self, template: &str, data: &Value) -> (r: Result<String, Error>)
        ensures
            match spec_parse(template@) {
                Err(e) => r matches Err(Error::Parse(pe)) && pe.view() == e,
                Ok(nodes) => {
                    &&& exists|t: Transcript|
                        transcript_fits(nodes, *data, self.env(), self.resolver(), t) && render_str_agrees(
                            r,
                            #[trigger] spec_render_template(nodes, *data, self.env(), t.0),
                        )
                    &&& !self.has_resolver() ==> render_str_agrees(
                        r,
                        spec_render_template(nodes, *data, self.env(), Seq::empty()),
                    )
                },
            },
    {
        let parsed = match self.parse(template) {
            Ok(t) => t,
            Err(e) => {
                return Err(Error::Parse(e));
            },
        };
        let rendered = self.render(&parsed, data);
        match rendered {
            Ok(s) => Ok(s),
            Err(e) => Err(Error::Render(e)),
        }
    }
}

impl Default for Mustache {
    fn default() -> (m: Self)
        ensures
            !m.is_strict(),
            !m.has_resolver(),
            m.resolver_box() is None,
    {
        Mustache::new()
    }
}

/// Text without tags passes through: a template in which the opening
/// delimiter `{{` never occurs parses to that text alone and renders as
/// itself, whatever the data and the settings.
pub proof fn law_text_passes_through(t: Seq<char>, data: Value, env: RenderEnv, replies: Replies)
    requires
        forall|i: int| 0 <= i < t.len() ==> !#[trigger] matches_at(t, i, default_open()),
    ensures
        spec_parse(t) == Ok::<Seq<SpecNode>, SpecParseError>(push_text(Seq::empty(), t)),
        spec_render_template(push_text(Seq::empty(), t), data, env, replies) == Ok::<
            Seq<char>,
            SpecRenderError,
        >(t),
{
    assert(!matches_at(t, t.len() as int, default_open()));
    lemma_find_from(t, 0, default_open());
    assert(t.subrange(0, t.len() as int) =~= t);
    if t.len() > 0 {
        assert(push_text(Seq::empty(), t) =~= seq![SpecNode::Text(t)]);
        lemma_text_body(t, seq![data], 0, env, replies);
    } else {
        assert(t =~= Seq::<char>::empty());
    }
}

/// A resolver that gives one answer per name fixes the rendering: any two
/// transcripts that fit a rendering with it give the same result, so
/// `render` and `render_str` are then determined by the template, the data
/// and the resolver.
pub proof fn law_answers_fix_the_rendering(
    nodes: Seq<SpecNode>,
    data: Value,
    env: RenderEnv,
    resolver: Option<&(dyn PartialResolver + 'static)>,
    t1: Transcript,
    t2: Transcript,
)
    requires
        resolver is Some,
        transcript_fits(nodes, data, env, resolver, t1),
        transcript_fits(nodes, data, env, resolver, t2),
        forall|n: Seq<char>, x: Option<Seq<char>>, y: Option<Seq<char>>|
            #[trigger] resolver->0.answers(n, x) && #[trigger] resolver->0.answers(n, y) ==> x == y,
    ensures
        spec_render_template(nodes, data, env, t1.0) == spec_render_template(nodes, data, env, t2.0),
{
    let rv = resolver->0;
    let f = |n: Seq<char>| choose|x: Option<Seq<char>>| rv.answers(n, x);
    assert forall|i: int| 0 <= i < t1.1.len() implies #[trigger] t1.0[i] == f(t1.1[i]) by {
        assert(rv.answers(t1.1[i], t1.0[i]));
        assert(rv.answers(t1.1[i], f(t1.1[i])));
    }
    assert forall|i: int| 0 <= i < t2.1.len() implies #[trigger] t2.0[i] == f(t2.1[i]) by {
        assert(rv.answers(t2.1[i], t2.0[i]));
        assert(rv.answers(t2.1[i], f(t2.1[i])));
    }
    crate::renderer::lemma_follow_nodes(nodes, seq![data], 0, env, t1.0, t2.0, f);
}

} // verus!
