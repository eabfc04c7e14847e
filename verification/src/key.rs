//! Recognising `key` attributes and `:key` bindings on elements.

use vstd::prelude::*;
use crate::ast::{
    str_is, DirectiveNode, ElementNode, ExpressionNode, PropNode, SimpleExpressionNode,
};

verus! {

/// `p` is a directive named `name`.
pub open spec fn is_directive_named(p: PropNode, name: Seq<char>) -> bool {
    p matches PropNode::Directive(d) && d.name@ == name
}

/// `p` is the binding `:key` (`v-bind` with the simple argument `key`).
pub open spec fn is_key_binding(p: PropNode) -> bool {
    &&& p matches PropNode::Directive(d)
    &&& d.name@ == "bind"@
    &&& d.arg matches Some(ExpressionNode::Simple(a))
    &&& a.content@ == "key"@
}

/// `p` is a static `key` attribute that has a value.
pub open spec fn is_valued_key_attribute(p: PropNode) -> bool {
    &&& p matches PropNode::Attribute(a)
    &&& a.name@ == "key"@
    &&& a.value is Some
}

/// The element carries a directive named `name`.
pub open spec fn spec_has_directive(element: ElementNode, name: Seq<char>) -> bool {
    exists|i: int| 0 <= i < element.props@.len() && is_directive_named(#[trigger] element.props@[i], name)
}

/// `i` is the first prop of the element that is a `:key` binding.
pub open spec fn is_first_key_binding(element: ElementNode, i: int) -> bool {
    &&& 0 <= i < element.props@.len()
    &&& is_key_binding(element.props@[i])
    &&& forall|j: int| 0 <= j < i ==> !is_key_binding(#[trigger] element.props@[j])
}

pub open spec fn spec_has_key_binding(element: ElementNode) -> bool {
    exists|i: int| 0 <= i < element.props@.len() && is_key_binding(#[trigger] element.props@[i])
}

/// A `:key` binding that takes effect: not on a `v-for` or `v-once` element.
pub open spec fn spec_has_dynamic_key(element: ElementNode) -> bool {
    &&& !spec_has_directive(element, "for"@)
    &&& !spec_has_directive(element, "once"@)
    &&& spec_has_key_binding(element)
}

/// Whether the element carries a directive named `name`.
pub fn has_directive(element: &ElementNode, name: &str) -> (r: bool)
    ensures
        r == spec_has_directive(*element, name@),
{
    let n = element.props.len();
    for i in 0..n
        invariant
            n == element.props@.len(),
            forall|j: int| 0 <= j < i ==> !is_directive_named(#[trigger] element.props@[j], name@),
    {
        if let PropNode::Directive(dir) = &element.props[i] {
            if str_is(&dir.name, name) {
                return true;
            }
        }
    }
    false
}

/// Position of the first `:key` binding among the element's props.
fn key_binding_index(element: &ElementNode) -> (r: Option<usize>)
    ensures
        match r {
            Some(i) => is_first_key_binding(*element, i as int),
            None => !spec_has_key_binding(*element),
        },
{
    let n = element.props.len();
    for i in 0..n
        invariant
            n == element.props@.len(),
            forall|j: int| 0 <= j < i ==> !is_key_binding(#[trigger] element.props@[j]),
    {
        if let PropNode::Directive(dir) = &element.props[i] {
            if str_is(&dir.name, "bind") {
                if let Some(ExpressionNode::Simple(arg)) = &dir.arg {
                    if str_is(&arg.content, "key") {
                        return Some(i);
                    }
                }
            }
        }
    }
    None
}

/// The first `:key` binding of the element, if any.
pub fn dynamic_key_source(element: &ElementNode) -> (r: Option<&DirectiveNode>)
    ensures
        match r {
            Some(d) => exists|i: int|
                is_first_key_binding(*element, i) && #[trigger] element.props@[i] == PropNode::Directive(*d),
            None => !spec_has_key_binding(*element),
        },
{
    match key_binding_index(element) {
        Some(i) => match &element.props[i] {
            PropNode::Directive(d) => Some(d),
            PropNode::Attribute(_) => None,
        },
        None => None,
    }
}

/// Whether the element's `:key` binding turns it into a keyed block.
pub fn has_dynamic_key(element: &ElementNode) -> (r: bool)
    ensures
        r == spec_has_dynamic_key(*element),
{
    !has_directive(element, "for") && !has_directive(element, "once") && dynamic_key_source(
        element,
    ).is_some()
}

/// `i` is the first prop of the element that is a valued `key` attribute.
pub open spec fn is_first_valued_key_attribute(element: ElementNode, i: int) -> bool {
    &&& 0 <= i < element.props@.len()
    &&& is_valued_key_attribute(element.props@[i])
    &&& forall|j: int| 0 <= j < i ==> !is_valued_key_attribute(#[trigger] element.props@[j])
}

pub open spec fn spec_has_valued_key_attribute(element: ElementNode) -> bool {
    exists|i: int| 0 <= i < element.props@.len() && is_valued_key_attribute(#[trigger] element.props@[i])
}

/// The value of the attribute prop `p` (empty for other props).
pub open spec fn attribute_value(p: PropNode) -> Seq<char> {
    match p {
        PropNode::Attribute(a) => match a.value {
            Some(v) => v@,
            None => Seq::empty(),
        },
        _ => Seq::empty(),
    }
}

/// The static `key="..."` of the element, as a static expression.
pub fn static_key_expression(element: &ElementNode) -> (r: Option<SimpleExpressionNode>)
    ensures
        match r {
            Some(e) => e.is_static && exists|i: int|
                is_first_valued_key_attribute(*element, i) && e.content@ == attribute_value(
                    #[trigger] element.props@[i],
                ),
            None => !spec_has_valued_key_attribute(*element),
        },
{
    let n = element.props.len();
    for i in 0..n
        invariant
            n == element.props@.len(),
            forall|j: int| 0 <= j < i ==> !is_valued_key_attribute(#[trigger] element.props@[j]),
    {
        if let PropNode::Attribute(attribute) = &element.props[i] {
            if str_is(&attribute.name, "key") {
                if let Some(value) = &attribute.value {
                    let e = SimpleExpressionNode::new(value.clone(), true);
                    assert(is_first_valued_key_attribute(*element, i as int));
                    return Some(e);
                }
            }
        }
    }
    None
}

/// The key expression of a `:key` binding: its expression, or the argument
/// `key` itself (a non-static expression) for the shorthand `:key`.
pub open spec fn key_binding_expression(d: DirectiveNode) -> (Seq<char>, bool) {
    match d.exp {
        Some(ExpressionNode::Simple(e)) => (e.content@, e.is_static),
        _ => ("key"@, false),
    }
}

/// The expression of the element's first `:key` binding.
pub fn dynamic_key_expression(element: &ElementNode) -> (r: Option<SimpleExpressionNode>)
    ensures
        match r {
            Some(e) => exists|i: int|
                is_first_key_binding(*element, i) && (#[trigger] element.props@[i] matches PropNode::Directive(d)
                    && (e.content@, e.is_static) == key_binding_expression(d)),
            None => !spec_has_key_binding(*element),
        },
{
    let directive = match dynamic_key_source(element) {
        Some(d) => d,
        None => return None,
    };
    let expression = match &directive.exp {
        Some(ExpressionNode::Simple(expression)) => SimpleExpressionNode::from_node(expression),
        _ => {
            let argument = match &directive.arg {
                Some(ExpressionNode::Simple(argument)) => argument,
                _ => return None,
            };
            SimpleExpressionNode::new(argument.content.clone(), false)
        },
    };
    Some(expression)
}

} // verus!
