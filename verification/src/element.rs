//! Element-level classification used when lowering elements.

use vstd::prelude::*;
use crate::ast::{str_is, ElementNode, ElementType, ExpressionNode, PropNode, SimpleExpressionNode};
use crate::chars::{to_chars, trim, trim_range};
use crate::ir::{BlockIRNode, IRProp, OperationNode, SetBlockKeyIRNode};
use crate::key::{
    has_dynamic_key, is_directive_named, spec_has_dynamic_key, spec_has_valued_key_attribute,
    static_key_expression,
};
use crate::layout::{has_dynamic_children_of, layout_of, ChildLayout};

verus! {

/// A `<template>` tag that the parser left as a native element (no
/// structural directive): it is lowered like a component block.
pub open spec fn spec_is_plain_element(element: ElementNode) -> bool {
    element.tag_type == ElementType::Element && element.tag@ == "template"@
}

pub fn is_plain_element(element: &ElementNode) -> (r: bool)
    ensures
        r == spec_is_plain_element(*element),
{
    element.tag_type == ElementType::Element && str_is(&element.tag, "template")
}

/// The diagnostic for a `v-memo` without a usable expression.
pub const MEMO_UNSUPPORTED: &'static str =
    "v-memo is not supported in Vapor yet. Use v-once or v-memo=\"[]\" until memo guards are implemented.";

/// The diagnostic for a `v-memo` with dependencies.
pub const MEMO_WITH_DEPENDENCIES: &'static str =
    "v-memo with dependencies is not supported in Vapor yet. Use v-once or v-memo=\"[]\" until memo guards are implemented.";

/// How `v-once` / `v-memo` affect an element.
pub struct NonReactiveDirective {
    pub should_lower_as_once: bool,
    pub memo_error: Option<String>,
}

/// `i` is the element's first `v-memo`.
pub open spec fn is_first_memo(element: ElementNode, i: int) -> bool {
    &&& 0 <= i < element.props@.len()
    &&& is_directive_named(element.props@[i], "memo"@)
    &&& forall|j: int| 0 <= j < i ==> !is_directive_named(#[trigger] element.props@[j], "memo"@)
}

/// The outcome of a `v-memo` directive: lowered as `v-once` when its
/// expression is `[]` (surrounding white space aside), a diagnostic otherwise.
pub open spec fn memo_outcome(p: PropNode) -> (bool, Option<Seq<char>>) {
    match p {
        PropNode::Directive(d) => match d.exp {
            Some(ExpressionNode::Simple(e)) => if trim(e.content@) == "[]"@ {
                (true, None)
            } else {
                (false, Some(MEMO_WITH_DEPENDENCIES@))
            },
            _ => (false, Some(MEMO_UNSUPPORTED@)),
        },
        _ => (false, None),
    }
}

/// `v-once` wins; otherwise the first `v-memo` decides; no directive means
/// a reactive element.
pub open spec fn spec_non_reactive(element: ElementNode) -> (bool, Option<Seq<char>>) {
    if exists|i: int| 0 <= i < element.props@.len() && is_directive_named(#[trigger] element.props@[i], "once"@) {
        (true, None)
    } else if exists|i: int| is_first_memo(element, i) {
        memo_outcome(element.props@[choose|i: int| is_first_memo(element, i)])
    } else {
        (false, None)
    }
}

pub open spec fn non_reactive_view(r: NonReactiveDirective) -> (bool, Option<Seq<char>>) {
    (
        r.should_lower_as_once,
        match r.memo_error {
            Some(m) => Some(m@),
            None => None,
        },
    )
}

/// Whether `s` is `[]` once surrounding white space is removed.
fn is_empty_array_literal(s: &String) -> (r: bool)
    ensures
        r == (trim(s@) == "[]"@),
{
    proof {
        reveal_strlit("[]");
    }
    let cs = to_chars(s.as_str());
    let (a, b) = trim_range(&cs, 0, cs.len());
    assert(cs@.subrange(0, cs@.len() as int) =~= cs@);
    if b - a == 2 && cs[a] == '[' && cs[a + 1] == ']' {
        proof {
            reveal_strlit("[]");
        }
        assert("[]"@.len() == 2 && "[]"@[0] == '[' && "[]"@[1] == ']');
        assert(cs@.subrange(a as int, b as int) =~= "[]"@);
        true
    } else {
        assert(cs@.subrange(a as int, b as int) != "[]"@) by {
            if cs@.subrange(a as int, b as int) == "[]"@ {
                assert(cs@.subrange(a as int, b as int)[0] == '[');
                assert(cs@.subrange(a as int, b as int)[1] == ']');
            }
        }
        false
    }
}

/// Classify `v-once` / `v-memo` on an element.
pub fn classify_non_reactive_directive(element: &ElementNode) -> (r: NonReactiveDirective)
    ensures
        non_reactive_view(r) == spec_non_reactive(*element),
{
    let n = element.props.len();
    let mut has_once = false;
    for i in 0..n
        invariant
            n == element.props@.len(),
            !has_once ==> forall|j: int| 0 <= j < i ==> !is_directive_named(#[trigger] element.props@[j], "once"@),
            has_once ==> exists|j: int| 0 <= j < n && is_directive_named(#[trigger] element.props@[j], "once"@),
    {
        if !has_once {
            if let PropNode::Directive(dir) = &element.props[i] {
                if str_is(&dir.name, "once") {
                    has_once = true;
                    assert(is_directive_named(element.props@[i as int], "once"@));
                }
            }
        }
    }
    if has_once {
        return NonReactiveDirective { should_lower_as_once: true, memo_error: None };
    }
    for i in 0..n
        invariant
            n == element.props@.len(),
            forall|j: int| 0 <= j < n ==> !is_directive_named(#[trigger] element.props@[j], "once"@),
            forall|j: int| 0 <= j < i ==> !is_directive_named(#[trigger] element.props@[j], "memo"@),
    {
        if let PropNode::Directive(dir) = &element.props[i] {
            if str_is(&dir.name, "memo") {
                proof {
                    assert(is_first_memo(*element, i as int));
                    let k = choose|k: int| is_first_memo(*element, k);
                    if k < i {
                        assert(!is_directive_named(element.props@[k], "memo"@));
                    } else if k > i {
                        assert(!is_directive_named(element.props@[i as int], "memo"@));
                    }
                }
                let r = match &dir.exp {
                    Some(ExpressionNode::Simple(exp)) => {
                        if is_empty_array_literal(&exp.content) {
                            NonReactiveDirective { should_lower_as_once: true, memo_error: None }
                        } else {
                            NonReactiveDirective {
                                should_lower_as_once: false,
                                memo_error: Some(String::from_str(MEMO_WITH_DEPENDENCIES)),
                            }
                        }
                    },
                    _ => NonReactiveDirective {
                        should_lower_as_once: false,
                        memo_error: Some(String::from_str(MEMO_UNSUPPORTED)),
                    },
                };
                return r;
            }
        }
    }
    NonReactiveDirective { should_lower_as_once: false, memo_error: None }
}

/// An expression as (source text, is static).
pub open spec fn expr_view(e: SimpleExpressionNode) -> (Seq<char>, bool) {
    (e.content@, e.is_static)
}

/// A prop as (key, values, is_component).
pub open spec fn prop_view(p: IRProp) -> ((Seq<char>, bool), Seq<(Seq<char>, bool)>, bool) {
    (expr_view(p.key), p.values@.map_values(|v: SimpleExpressionNode| expr_view(v)), p.is_component)
}

/// The slot name that prop `p` gives: a valued `name` attribute (static) or
/// a `:name` binding with a simple expression.
pub open spec fn slot_name_of(p: PropNode) -> Option<(Seq<char>, bool)> {
    match p {
        PropNode::Attribute(a) => if a.name@ == "name"@ && a.value is Some {
            Some((a.value.unwrap()@, true))
        } else {
            None
        },
        PropNode::Directive(d) => if d.name@ == "bind"@ {
            match (d.arg, d.exp) {
                (Some(ExpressionNode::Simple(arg)), Some(ExpressionNode::Simple(e))) => if arg.content@
                    == "name"@ {
                    Some((e.content@, e.is_static))
                } else {
                    None
                },
                _ => None,
            }
        } else {
            None
        },
    }
}

/// The name of the slot that an outlet renders: given by its first naming
/// prop, `"default"` otherwise.
pub open spec fn spec_slot_outlet_name(props: Seq<PropNode>) -> (Seq<char>, bool)
    decreases props.len(),
{
    if props.len() == 0 {
        ("default"@, true)
    } else {
        match slot_name_of(props[0]) {
            Some(n) => n,
            None => spec_slot_outlet_name(props.subrange(1, props.len() as int)),
        }
    }
}

proof fn lemma_slot_name_skip(props: Seq<PropNode>, i: int)
    requires
        0 <= i <= props.len(),
        forall|j: int| 0 <= j < i ==> slot_name_of(#[trigger] props[j]) is None,
    ensures
        spec_slot_outlet_name(props) == spec_slot_outlet_name(props.subrange(i, props.len() as int)),
    decreases i,
{
    if i > 0 {
        let rest = props.subrange(1, props.len() as int);
        assert forall|j: int| 0 <= j < i - 1 implies slot_name_of(#[trigger] rest[j]) is None by {
            assert(rest[j] == props[j + 1]);
        }
        lemma_slot_name_skip(rest, i - 1);
        assert(rest.subrange(i - 1, rest.len() as int) =~= props.subrange(i, props.len() as int));
    } else {
        assert(props.subrange(0, props.len() as int) =~= props);
    }
}

/// The name expression of a slot outlet.
pub fn get_slot_outlet_name(element: &ElementNode) -> (r: SimpleExpressionNode)
    ensures
        expr_view(r) == spec_slot_outlet_name(element.props@),
{
    proof {
        reveal_strlit("default");
    }
    let n = element.props.len();
    for i in 0..n
        invariant
            n == element.props@.len(),
            forall|j: int| 0 <= j < i ==> slot_name_of(#[trigger] element.props@[j]) is None,
    {
        let found: Option<SimpleExpressionNode> = match &element.props[i] {
            PropNode::Attribute(attr) => {
                if str_is(&attr.name, "name") {
                    match &attr.value {
                        Some(value) => Some(SimpleExpressionNode::new(value.clone(), true)),
                        None => None,
                    }
                } else {
                    None
                }
            },
            PropNode::Directive(dir) => {
                let mut r: Option<SimpleExpressionNode> = None;
                if str_is(&dir.name, "bind") {
                    if let Some(ExpressionNode::Simple(arg)) = &dir.arg {
                        if str_is(&arg.content, "name") {
                            if let Some(ExpressionNode::Simple(exp)) = &dir.exp {
                                r = Some(SimpleExpressionNode::from_node(exp));
                            }
                        }
                    }
                }
                r
            },
        };
        match found {
            Some(e) => {
                proof {
                    lemma_slot_name_skip(element.props@, i as int);
                    let rest = element.props@.subrange(i as int, n as int);
                    assert(rest[0] == element.props@[i as int]);
                }
                return e;
            },
            None => {},
        }
    }
    proof {
        lemma_slot_name_skip(element.props@, n as int);
    }
    SimpleExpressionNode::new(String::from_str("default"), true)
}

/// The outlet prop that `p` gives: every attribute but `name`, and every
/// `v-bind` with a simple expression (an object spread keyed `$` when it has
/// no argument) except `:name`.
pub open spec fn slot_prop_of(p: PropNode) -> Option<((Seq<char>, bool), Seq<(Seq<char>, bool)>, bool)> {
    match p {
        PropNode::Attribute(a) => if a.name@ == "name"@ {
            None
        } else {
            Some(
                (
                    (a.name@, true),
                    match a.value {
                        Some(v) => seq![(v@, true)],
                        None => Seq::empty(),
                    },
                    false,
                ),
            )
        },
        PropNode::Directive(d) => if d.name@ != "bind"@ {
            None
        } else {
            match (d.arg, d.exp) {
                (Some(ExpressionNode::Simple(arg)), Some(ExpressionNode::Simple(e))) => if arg.content@
                    == "name"@ {
                    None
                } else {
                    Some(((arg.content@, arg.is_static), seq![(e.content@, e.is_static)], false))
                },
                (None, Some(ExpressionNode::Simple(e))) => Some(
                    (("$"@, true), seq![(e.content@, e.is_static)], false),
                ),
                _ => None,
            }
        },
    }
}

pub open spec fn spec_slot_outlet_props(props: Seq<PropNode>) -> Seq<
    ((Seq<char>, bool), Seq<(Seq<char>, bool)>, bool),
>
    decreases props.len(),
{
    if props.len() == 0 {
        seq![]
    } else {
        match slot_prop_of(props.last()) {
            Some(v) => spec_slot_outlet_props(props.drop_last()).push(v),
            None => spec_slot_outlet_props(props.drop_last()),
        }
    }
}

/// One expression as the only value of a prop.
fn single_value(e: SimpleExpressionNode) -> (r: Vec<SimpleExpressionNode>)
    ensures
        r@.map_values(|v: SimpleExpressionNode| expr_view(v)) == seq![expr_view(e)],
{
    let mut values: Vec<SimpleExpressionNode> = Vec::new();
    values.push(e);
    assert(values@.map_values(|v: SimpleExpressionNode| expr_view(v)) =~= seq![expr_view(e)]);
    values
}

/// The props that a slot outlet passes to its slot.
pub fn get_slot_outlet_props(element: &ElementNode) -> (r: Vec<IRProp>)
    ensures
        r@.map_values(|p: IRProp| prop_view(p)) == spec_slot_outlet_props(element.props@),
{
    proof {
        reveal_strlit("$");
    }
    let mut props: Vec<IRProp> = Vec::new();
    let n = element.props.len();
    for i in 0..n
        invariant
            n == element.props@.len(),
            props@.map_values(|p: IRProp| prop_view(p)) == spec_slot_outlet_props(element.props@.take(i as int)),
    {
        let ghost before = props@;
        let ghost pre = element.props@.take(i as int);
        assert(element.props@.take(i + 1).drop_last() =~= pre);
        assert(element.props@.take(i + 1).last() == element.props@[i as int]);
        let prop: Option<IRProp> = match &element.props[i] {
            PropNode::Attribute(attr) => {
                if str_is(&attr.name, "name") {
                    None
                } else {
                    let key = SimpleExpressionNode::new(attr.name.clone(), true);
                    let values = match &attr.value {
                        Some(value) => single_value(SimpleExpressionNode::new(value.clone(), true)),
                        None => {
                            let v: Vec<SimpleExpressionNode> = Vec::new();
                            assert(v@.map_values(|x: SimpleExpressionNode| expr_view(x)) =~= Seq::<
                                (Seq<char>, bool),
                            >::empty());
                            v
                        },
                    };
                    Some(IRProp { key, values, is_component: false })
                }
            },
            PropNode::Directive(dir) => {
                if !str_is(&dir.name, "bind") {
                    None
                } else {
                    match (&dir.arg, &dir.exp) {
                        (Some(ExpressionNode::Simple(arg)), Some(ExpressionNode::Simple(exp))) => {
                            if str_is(&arg.content, "name") {
                                None
                            } else {
                                Some(
                                    IRProp {
                                        key: SimpleExpressionNode::from_node(arg),
                                        values: single_value(SimpleExpressionNode::from_node(exp)),
                                        is_component: false,
                                    },
                                )
                            }
                        },
                        (None, Some(ExpressionNode::Simple(exp))) => Some(
                            IRProp {
                                key: SimpleExpressionNode::new(String::from_str("$"), true),
                                values: single_value(SimpleExpressionNode::from_node(exp)),
                                is_component: false,
                            },
                        ),
                        _ => None,
                    }
                }
            },
        };
        match prop {
            Some(p) => {
                props.push(p);
                assert(props@.map_values(|p: IRProp| prop_view(p)) =~= before.map_values(
                    |p: IRProp| prop_view(p),
                ).push(prop_view(p)));
            },
            None => {},
        }
    }
    assert(element.props@.take(n as int) =~= element.props@);
    props
}

/// Attach the element's static `key="..."`, if any, to block `element_id`.
pub fn emit_static_key(element: &ElementNode, element_id: usize, block: &mut BlockIRNode)
    ensures
        final(block).returns@ == old(block).returns@,
        !spec_has_valued_key_attribute(*element) ==> final(block).operation@ == old(block).operation@,
        spec_has_valued_key_attribute(*element) ==> {
            &&& final(block).operation@.len() == old(block).operation@.len() + 1
            &&& final(block).operation@.drop_last() == old(block).operation@
            &&& final(block).operation@.last() matches OperationNode::SetBlockKey(k)
            &&& k.element == element_id
            &&& k.value.is_static
            &&& exists|i: int|
                crate::key::is_first_valued_key_attribute(*element, i) && k.value.content@
                    == crate::key::attribute_value(#[trigger] element.props@[i])
        },
{
    let value = match static_key_expression(element) {
        Some(v) => v,
        None => return,
    };
    block.operation.push(OperationNode::SetBlockKey(SetBlockKeyIRNode { element: element_id, value }));
}

/// How an element is lowered.
#[derive(Debug, Clone, Copy, PartialEq, Eq, Structural)]
pub enum ElementLowering {
    /// A `<template>` wrapper: its children are lowered into the current block.
    TemplateChildren,
    /// A keyed fragment around the element.
    Keyed,
    /// A component, `<component>`, or a plain `<template>` element.
    Component,
    /// A native element whose children need ids before the element itself.
    DynamicChildren,
    /// A native element whose children the client template fully provides.
    StaticChildren,
    /// A `<slot>` outlet.
    SlotOutlet,
}

/// The decisions taken before an element is lowered.
pub struct ElementPlan {
    /// The element enters a non-reactive (`v-once`) scope.
    pub enters_non_reactive: bool,
    /// A diagnostic for an unsupported `v-memo`.
    pub memo_error: Option<String>,
    pub lowering: ElementLowering,
}

/// The element lowers like a component.
pub open spec fn is_component_like(element: ElementNode) -> bool {
    ||| element.tag_type == ElementType::Component
    ||| element.tag@ == "component"@
    ||| element.tag@ == "Component"@
    ||| spec_is_plain_element(element)
}

/// `v-once` / `v-memo` as seen by the plan (nothing when classification is
/// suppressed for this element).
pub open spec fn planned_non_reactive(element: ElementNode, classification_suppressed: bool) -> (
    bool,
    Option<Seq<char>>,
) {
    if classification_suppressed {
        (false, None)
    } else {
        spec_non_reactive(element)
    }
}

/// Inside a non-reactive scope after entering the element.
pub open spec fn planned_scope(element: ElementNode, in_non_reactive_scope: bool, classification_suppressed: bool) -> bool {
    in_non_reactive_scope || planned_non_reactive(element, classification_suppressed).0
}

/// The lowering of a fresh element (`transform_element`).
pub open spec fn spec_element_lowering(
    element: ElementNode,
    in_non_reactive_scope: bool,
    key_suppressed: bool,
    classification_suppressed: bool,
) -> ElementLowering {
    let scope = planned_scope(element, in_non_reactive_scope, classification_suppressed);
    let process_key = !key_suppressed && !scope;
    if element.tag_type == ElementType::Template {
        ElementLowering::TemplateChildren
    } else if process_key && spec_has_dynamic_key(element) {
        ElementLowering::Keyed
    } else if is_component_like(element) {
        ElementLowering::Component
    } else if element.tag_type == ElementType::Element {
        if has_dynamic_children_of(layout_of(element.children@, !scope).items) {
            ElementLowering::DynamicChildren
        } else {
            ElementLowering::StaticChildren
        }
    } else {
        ElementLowering::SlotOutlet
    }
}

/// The lowering of an element whose id is already allocated
/// (`transform_existing_element`).
pub open spec fn spec_existing_element_lowering(
    element: ElementNode,
    in_non_reactive_scope: bool,
    key_suppressed: bool,
    classification_suppressed: bool,
) -> ElementLowering {
    let scope = planned_scope(element, in_non_reactive_scope, classification_suppressed);
    let process_key = !key_suppressed && !scope;
    if process_key && spec_has_dynamic_key(element) {
        ElementLowering::Keyed
    } else if is_component_like(element) {
        ElementLowering::Component
    } else if element.tag_type == ElementType::Slot {
        ElementLowering::SlotOutlet
    } else if element.tag_type == ElementType::Element {
        if has_dynamic_children_of(layout_of(element.children@, !scope).items) {
            ElementLowering::DynamicChildren
        } else {
            ElementLowering::StaticChildren
        }
    } else {
        ElementLowering::TemplateChildren
    }
}

pub open spec fn plan_view(p: ElementPlan) -> (bool, Option<Seq<char>>, ElementLowering) {
    (
        p.enters_non_reactive,
        match p.memo_error {
            Some(m) => Some(m@),
            None => None,
        },
        p.lowering,
    )
}

fn component_like(element: &ElementNode) -> (r: bool)
    ensures
        r == is_component_like(*element),
{
    element.tag_type == ElementType::Component || str_is(&element.tag, "component") || str_is(
        &element.tag,
        "Component",
    ) || is_plain_element(element)
}

fn planned_classification(element: &ElementNode, classification_suppressed: bool) -> (r: NonReactiveDirective)
    ensures
        non_reactive_view(r) == planned_non_reactive(*element, classification_suppressed),
{
    if classification_suppressed {
        NonReactiveDirective { should_lower_as_once: false, memo_error: None }
    } else {
        classify_non_reactive_directive(element)
    }
}

/// Decide how `transform_element` lowers `element`.
pub fn plan_element(
    element: &ElementNode,
    in_non_reactive_scope: bool,
    key_suppressed: bool,
    classification_suppressed: bool,
) -> (r: ElementPlan)
    ensures
        plan_view(r) == (
            planned_non_reactive(*element, classification_suppressed).0,
            planned_non_reactive(*element, classification_suppressed).1,
            spec_element_lowering(*element, in_non_reactive_scope, key_suppressed, classification_suppressed),
        ),
{
    let non_reactive = planned_classification(element, classification_suppressed);
    let scope = in_non_reactive_scope || non_reactive.should_lower_as_once;
    let process_key = !key_suppressed && !scope;
    let lowering = if element.tag_type == ElementType::Template {
        ElementLowering::TemplateChildren
    } else if process_key && has_dynamic_key(element) {
        ElementLowering::Keyed
    } else if component_like(element) {
        ElementLowering::Component
    } else if element.tag_type == ElementType::Element {
        let layout = ChildLayout::new(element.children.as_slice(), !scope);
        if layout.has_dynamic_children() {
            ElementLowering::DynamicChildren
        } else {
            ElementLowering::StaticChildren
        }
    } else {
        ElementLowering::SlotOutlet
    };
    ElementPlan {
        enters_non_reactive: non_reactive.should_lower_as_once,
        memo_error: non_reactive.memo_error,
        lowering,
    }
}

/// Decide how `transform_existing_element` lowers `element`.
pub fn plan_existing_element(
    element: &ElementNode,
    in_non_reactive_scope: bool,
    key_suppressed: bool,
    classification_suppressed: bool,
) -> (r: ElementPlan)
    ensures
        plan_view(r) == (
            planned_non_reactive(*element, classification_suppressed).0,
            planned_non_reactive(*element, classification_suppressed).1,
            spec_existing_element_lowering(
                *element,
                in_non_reactive_scope,
                key_suppressed,
                classification_suppressed,
            ),
        ),
{
    let non_reactive = planned_classification(element, classification_suppressed);
    let scope = in_non_reactive_scope || non_reactive.should_lower_as_once;
    let process_key = !key_suppressed && !scope;
    let lowering = if process_key && has_dynamic_key(element) {
        ElementLowering::Keyed
    } else if component_like(element) {
        ElementLowering::Component
    } else if element.tag_type == ElementType::Slot {
        ElementLowering::SlotOutlet
    } else if element.tag_type == ElementType::Element {
        let layout = ChildLayout::new(element.children.as_slice(), !scope);
        if layout.has_dynamic_children() {
            ElementLowering::DynamicChildren
        } else {
            ElementLowering::StaticChildren
        }
    } else {
        ElementLowering::TemplateChildren
    };
    ElementPlan {
        enters_non_reactive: non_reactive.should_lower_as_once,
        memo_error: non_reactive.memo_error,
        lowering,
    }
}

/// The element is keyed by a dynamic `:key` that the planner acts on: keys
/// are not suppressed and the element is not inside a non-reactive scope.
pub open spec fn effective_dynamic_key(
    element: ElementNode,
    in_non_reactive_scope: bool,
    key_suppressed: bool,
    classification_suppressed: bool,
) -> bool {
    &&& !key_suppressed
    &&& !planned_scope(element, in_non_reactive_scope, classification_suppressed)
    &&& spec_has_dynamic_key(element)
}

/// The tag names `component` or `Component`.
pub open spec fn is_component_tag(element: ElementNode) -> bool {
    element.tag@ == "component"@ || element.tag@ == "Component"@
}

/// Law: how an element is lowered follows from its kind.
/// - A `<template>` wrapper lowers its children (fresh elements only).
/// - Otherwise an effective dynamic `:key` makes a keyed block.
/// - Otherwise a component, a `<component>` / `<Component>` tag or a plain
///   `<template>` element is lowered as a component.
/// - Otherwise a `<slot>` is a slot outlet, and a native element has
///   dynamic or static children according to its child layout.
/// Both planners agree on every element that is not a `<template>` wrapper.
pub proof fn law_lowering_follows_element_kind(
    element: ElementNode,
    in_non_reactive_scope: bool,
    key_suppressed: bool,
    classification_suppressed: bool,
)
    ensures
        ({
            let fresh = spec_element_lowering(element, in_non_reactive_scope, key_suppressed, classification_suppressed);
            let existing = spec_existing_element_lowering(
                element,
                in_non_reactive_scope,
                key_suppressed,
                classification_suppressed,
            );
            let keyed = effective_dynamic_key(element, in_non_reactive_scope, key_suppressed, classification_suppressed);
            let scope = planned_scope(element, in_non_reactive_scope, classification_suppressed);
            &&& element.tag_type == ElementType::Template ==> fresh == ElementLowering::TemplateChildren
            &&& element.tag_type != ElementType::Template ==> fresh == existing
            &&& keyed ==> existing == ElementLowering::Keyed
            &&& !keyed && element.tag_type == ElementType::Component ==> existing == ElementLowering::Component
                && fresh == ElementLowering::Component
            &&& !keyed && is_component_tag(element) ==> existing == ElementLowering::Component
            &&& !keyed && element.tag_type == ElementType::Element && element.tag@ == "template"@ ==> existing
                == ElementLowering::Component
            &&& !keyed && element.tag_type == ElementType::Slot && !is_component_tag(element) ==> existing
                == ElementLowering::SlotOutlet
            &&& !keyed && element.tag_type == ElementType::Element && !is_component_tag(element) && element.tag@
                != "template"@ ==> existing == if has_dynamic_children_of(layout_of(element.children@, !scope).items) {
                ElementLowering::DynamicChildren
            } else {
                ElementLowering::StaticChildren
            }
        }),
{
}

/// Every prop that gives an outlet prop gives one in the result, and every
/// entry of the result comes from a prop.
proof fn lemma_slot_props_from(props: Seq<PropNode>)
    ensures
        forall|i: int|
            0 <= i < props.len() && (#[trigger] slot_prop_of(props[i])) is Some ==> exists|k: int|
                0 <= k < spec_slot_outlet_props(props).len() && spec_slot_outlet_props(props)[k] == slot_prop_of(
                    props[i],
                )->0,
        forall|k: int|
            0 <= k < spec_slot_outlet_props(props).len() ==> exists|i: int|
                0 <= i < props.len() && slot_prop_of(props[i]) == Some(#[trigger] spec_slot_outlet_props(props)[k]),
    decreases props.len(),
{
    if props.len() > 0 {
        let p = props.drop_last();
        lemma_slot_props_from(p);
        let out = spec_slot_outlet_props(props);
        let po = spec_slot_outlet_props(p);
        let n = props.len() - 1;
        assert(props[n] == props.last());
        assert forall|i: int| 0 <= i < props.len() && (#[trigger] slot_prop_of(props[i])) is Some implies exists|k: int|
            0 <= k < out.len() && out[k] == slot_prop_of(props[i])->0 by {
            if i < n {
                assert(props[i] == p[i]);
                assert(slot_prop_of(p[i]) is Some);
                let k = choose|k: int| 0 <= k < po.len() && po[k] == slot_prop_of(p[i])->0;
                assert(out[k] == po[k]);
            } else {
                assert(out[po.len() as int] == slot_prop_of(props[i])->0);
            }
        }
        assert forall|k: int| 0 <= k < out.len() implies exists|i: int|
            0 <= i < props.len() && slot_prop_of(props[i]) == Some(#[trigger] out[k]) by {
            if k < po.len() {
                assert(out[k] == po[k]);
                let i = choose|i: int| 0 <= i < p.len() && slot_prop_of(p[i]) == Some(po[k]);
                assert(props[i] == p[i]);
            } else {
                assert(slot_prop_of(props[n]) == Some(out[k]));
            }
        }
    }
}

/// A `v-bind` with a simple argument and a simple expression, as
/// (argument, expression).
pub open spec fn simple_bind(p: PropNode) -> Option<(SimpleExpressionNode, SimpleExpressionNode)> {
    match p {
        PropNode::Directive(d) => if d.name@ == "bind"@ {
            match (d.arg, d.exp) {
                (Some(ExpressionNode::Simple(arg)), Some(ExpressionNode::Simple(e))) => Some((arg, e)),
                _ => None,
            }
        } else {
            None
        },
        _ => None,
    }
}

/// Law: a slot outlet passes every static attribute but `name` as a prop
/// keyed by the attribute name, whose only value is the attribute's text as
/// a static string (no value for a bare attribute); every `v-bind` with a
/// simple expression other than `:name` passes its expression as the only
/// value. No prop is keyed `name`, no prop is a component prop, and no prop
/// has more than one value.
#[verifier::rlimit(40)]
pub proof fn law_slot_outlet_props_from_attributes(props: Seq<PropNode>)
    ensures
        ({
            let out = spec_slot_outlet_props(props);
            &&& forall|i: int|
                0 <= i < props.len() && (#[trigger] props[i]) is Attribute && props[i]->Attribute_0.name@ != "name"@
                    ==> exists|k: int|
                    0 <= k < out.len() && out[k] == (
                        (props[i]->Attribute_0.name@, true),
                        match props[i]->Attribute_0.value {
                            Some(text) => seq![(text@, true)],
                            None => Seq::<(Seq<char>, bool)>::empty(),
                        },
                        false,
                    )
            &&& forall|i: int|
                0 <= i < props.len() ==> match simple_bind(#[trigger] props[i]) {
                    Some((arg, e)) => arg.content@ != "name"@ ==> exists|k: int|
                        0 <= k < out.len() && out[k] == (
                            (arg.content@, arg.is_static),
                            seq![(e.content@, e.is_static)],
                            false,
                        ),
                    None => true,
                }
            &&& forall|k: int|
                0 <= k < out.len() ==> match #[trigger] out[k] {
                    ((key, _), values, is_component) => key != "name"@ && values.len() <= 1 && !is_component,
                }
        }),
{
    reveal_strlit("$");
    reveal_strlit("name");
    lemma_slot_props_from(props);
    let out = spec_slot_outlet_props(props);
    assert forall|i: int|
        0 <= i < props.len() && (#[trigger] props[i]) is Attribute && props[i]->Attribute_0.name@ != "name"@ implies exists|k: int|
        0 <= k < out.len() && out[k] == (
            (props[i]->Attribute_0.name@, true),
            match props[i]->Attribute_0.value {
                Some(text) => seq![(text@, true)],
                None => Seq::<(Seq<char>, bool)>::empty(),
            },
            false,
        ) by {
        assert(slot_prop_of(props[i]) is Some);
    }
    assert forall|i: int| 0 <= i < props.len() implies match simple_bind(#[trigger] props[i]) {
        Some((arg, e)) => arg.content@ != "name"@ ==> exists|k: int|
            0 <= k < out.len() && out[k] == ((arg.content@, arg.is_static), seq![(e.content@, e.is_static)], false),
        None => true,
    } by {
        if simple_bind(props[i]) is Some {
            match simple_bind(props[i]) {
                Some((arg, _)) => if arg.content@ != "name"@ {
                    assert(slot_prop_of(props[i]) is Some);
                },
                None => {},
            }
        }
    }
    assert forall|k: int| 0 <= k < out.len() implies match #[trigger] out[k] {
        ((key, _), values, is_component) => key != "name"@ && values.len() <= 1 && !is_component,
    } by {
        let i = choose|i: int| 0 <= i < props.len() && slot_prop_of(props[i]) == Some(out[k]);
        assert("$"@ != "name"@) by {
            assert("$"@.len() != "name"@.len());
        }
    }
}

} // verus!
