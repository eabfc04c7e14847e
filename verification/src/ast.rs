//! The template AST nodes that child layout, key handling and slot outlets read.
//!
//! Only the parts of a node that this library inspects are held here, as plain
//! values: source locations and other parser bookkeeping are not carried.

use vstd::prelude::*;

verus! {

/// How the parser classified an element tag.
#[derive(Debug, Clone, Copy, PartialEq, Eq, Structural)]
pub enum ElementType {
    Element,
    Component,
    Slot,
    Template,
}

/// A single expression with its source text.
pub struct SimpleExpressionNode {
    pub content: String,
    pub is_static: bool,
}

/// An expression attached to a directive or an interpolation.
pub enum ExpressionNode {
    Simple(SimpleExpressionNode),
    /// Any other expression shape (compound, pre-processed, ...).
    Compound,
}

/// A static attribute `name="value"`.
pub struct AttributeNode {
    pub name: String,
    pub value: Option<String>,
}

/// A directive such as `:key="k"` (`name` is `bind`, `arg` is `key`).
pub struct DirectiveNode {
    pub name: String,
    pub arg: Option<ExpressionNode>,
    pub exp: Option<ExpressionNode>,
}

pub enum PropNode {
    Attribute(AttributeNode),
    Directive(DirectiveNode),
}

/// An element of the template.
///
/// `is_static` records whether the element and its subtree are fully static,
/// so that the client template alone produces them and no runtime reference
/// to the element is needed.
pub struct ElementNode {
    pub tag: String,
    pub tag_type: ElementType,
    pub props: Vec<PropNode>,
    pub children: Vec<TemplateChildNode>,
    pub is_static: bool,
}

/// A direct child of an element or of the root.
pub enum TemplateChildNode {
    Element(ElementNode),
    Text(String),
    Interpolation(ExpressionNode),
    Comment(String),
    If,
    For,
    /// Any node kind that child layout does not place (for example a
    /// compiler-internal call node).
    Other,
}

impl SimpleExpressionNode {
    pub fn new(content: String, is_static: bool) -> (r: SimpleExpressionNode)
        ensures
            r.content@ == content@,
            r.is_static == is_static,
    {
        SimpleExpressionNode { content, is_static }
    }

    /// A field-by-field copy.
    pub fn from_node(node: &SimpleExpressionNode) -> (r: SimpleExpressionNode)
        ensures
            r.content@ == node.content@,
            r.is_static == node.is_static,
    {
        SimpleExpressionNode { content: node.content.clone(), is_static: node.is_static }
    }
}

/// `s` holds exactly the characters of the literal `lit`.
pub fn str_is(s: &String, lit: &str) -> (r: bool)
    ensures
        r == (s@ == lit@),
{
    let l = String::from_str(lit);
    *s == l
}

} // verus!
