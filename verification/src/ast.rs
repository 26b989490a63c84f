//! The parsed form of a template, and its mathematical model.

use vstd::prelude::*;

verus! {

/// A place in a template: 1-based line and column (columns count characters).
#[derive(Debug, Clone, Copy, PartialEq, Eq)]
pub struct SourcePosition {
    /// The line, starting at 1.
    pub line: usize,
    /// The column, starting at 1.
    pub column: usize,
}

/// One element of a parsed template.
#[derive(Debug, PartialEq)]
pub enum Node {
    /// Literal text, copied to the output as it is.
    Text(String),
    /// `{{name}}` (escaped), or `{{{name}}}` / `{{&name}}` (unescaped).
    Variable { name: String, escape: bool, pos: SourcePosition },
    /// `{{#name}}...{{/name}}`, or with `inverted`, `{{^name}}...{{/name}}`.
    Section { name: String, inverted: bool, children: Vec<Node>, pos: SourcePosition },
    /// `{{> name}}`; `indent` is the white space before a standalone tag.
    Partial { name: String, indent: String, pos: SourcePosition },
}

/// The model of a source position.
pub struct SpecPos {
    pub line: nat,
    pub column: nat,
}

/// The model of a node: strings as character sequences.
pub enum SpecNode {
    Text(Seq<char>),
    Variable { name: Seq<char>, escape: bool, pos: SpecPos },
    Section { name: Seq<char>, inverted: bool, children: Seq<SpecNode>, pos: SpecPos },
    Partial { name: Seq<char>, indent: Seq<char>, pos: SpecPos },
}

impl SourcePosition {
    pub open spec fn view(self) -> SpecPos {
        SpecPos { line: self.line as nat, column: self.column as nat }
    }
}

/// The model of one node.
pub open spec fn node_view(n: Node) -> SpecNode
    decreases n,
{
    match n {
        Node::Text(t) => SpecNode::Text(t@),
        Node::Variable { name, escape, pos } => SpecNode::Variable {
            name: name@,
            escape,
            pos: pos.view(),
        },
        Node::Section { name, inverted, children, pos } => SpecNode::Section {
            name: name@,
            inverted,
            children: nodes_view(children@),
            pos: pos.view(),
        },
        Node::Partial { name, indent, pos } => SpecNode::Partial {
            name: name@,
            indent: indent@,
            pos: pos.view(),
        },
    }
}

/// The model of a node sequence.
pub open spec fn nodes_view(ns: Seq<Node>) -> Seq<SpecNode>
    decreases ns,
{
    if ns.len() == 0 {
        Seq::empty()
    } else {
        nodes_view(ns.drop_last()).push(node_view(ns.last()))
    }
}

/// `nodes_view` maps each node by `node_view`.
pub proof fn lemma_nodes_view(ns: Seq<Node>)
    ensures
        nodes_view(ns).len() == ns.len(),
        forall|i: int| 0 <= i < ns.len() ==> #[trigger] nodes_view(ns)[i] == node_view(ns[i]),
    decreases ns.len(),
{
    if ns.len() > 0 {
        lemma_nodes_view(ns.drop_last());
        assert forall|i: int| 0 <= i < ns.len() implies #[trigger] nodes_view(ns)[i] == node_view(
            ns[i],
        ) by {
            if i < ns.len() - 1 {
                assert(ns.drop_last()[i] == ns[i]);
            }
        }
    }
}

/// Appending a node appends its model.
pub proof fn lemma_nodes_view_push(ns: Seq<Node>, n: Node)
    ensures
        nodes_view(ns.push(n)) == nodes_view(ns).push(node_view(n)),
{
    assert(ns.push(n).drop_last() =~= ns);
}

} // verus!
