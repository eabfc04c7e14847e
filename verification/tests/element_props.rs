use lib::ast::{
    AttributeNode, DirectiveNode, ElementNode, ElementType, ExpressionNode, PropNode,
    SimpleExpressionNode, TemplateChildNode,
};
use lib::element::{
    classify_non_reactive_directive, emit_static_key, get_slot_outlet_name, get_slot_outlet_props,
    is_plain_element, plan_element, plan_existing_element, ElementLowering, MEMO_UNSUPPORTED,
    MEMO_WITH_DEPENDENCIES,
};
use lib::ir::{BlockIRNode, OperationNode};
use lib::key::{
    dynamic_key_expression, dynamic_key_source, has_directive, has_dynamic_key, static_key_expression,
};

fn simple(content: &str, is_static: bool) -> ExpressionNode {
    ExpressionNode::Simple(SimpleExpressionNode { content: content.to_string(), is_static })
}

fn dir(name: &str, arg: Option<ExpressionNode>, exp: Option<ExpressionNode>) -> PropNode {
    PropNode::Directive(DirectiveNode { name: name.to_string(), arg, exp })
}

fn attr(name: &str, value: Option<&str>) -> PropNode {
    PropNode::Attribute(AttributeNode { name: name.to_string(), value: value.map(|v| v.to_string()) })
}

fn element(tag: &str, tag_type: ElementType, props: Vec<PropNode>, children: Vec<TemplateChildNode>) -> ElementNode {
    ElementNode { tag: tag.to_string(), tag_type, props, children, is_static: false }
}

#[test]
fn directive_lookup_and_dynamic_keys() {
    let keyed = element("li", ElementType::Element, vec![dir("bind", Some(simple("key", true)), Some(simple("item.id", false)))], vec![]);
    assert!(has_directive(&keyed, "bind"));
    assert!(!has_directive(&keyed, "for"));
    assert!(has_dynamic_key(&keyed));
    assert_eq!(dynamic_key_source(&keyed).unwrap().name, "bind");
    let e = dynamic_key_expression(&keyed).unwrap();
    assert_eq!(e.content, "item.id");
    assert!(!e.is_static);

    let in_for = element(
        "li",
        ElementType::Element,
        vec![dir("for", None, Some(simple("x in xs", false))), dir("bind", Some(simple("key", true)), Some(simple("x", false)))],
        vec![],
    );
    assert!(!has_dynamic_key(&in_for));
    let in_once = element("li", ElementType::Element, vec![dir("once", None, None), dir("bind", Some(simple("key", true)), None)], vec![]);
    assert!(!has_dynamic_key(&in_once));

    let shorthand = element("li", ElementType::Element, vec![dir("bind", Some(simple("key", true)), None)], vec![]);
    let e = dynamic_key_expression(&shorthand).unwrap();
    assert_eq!(e.content, "key");
    assert!(!e.is_static);

    let unkeyed = element("li", ElementType::Element, vec![dir("bind", Some(simple("id", true)), Some(simple("x", false)))], vec![]);
    assert!(dynamic_key_source(&unkeyed).is_none());
    assert!(dynamic_key_expression(&unkeyed).is_none());
    assert!(!has_dynamic_key(&unkeyed));
}

#[test]
fn static_keys() {
    let el = element("li", ElementType::Element, vec![attr("key", None), attr("key", Some("a")), attr("key", Some("b"))], vec![]);
    let e = static_key_expression(&el).unwrap();
    assert_eq!(e.content, "a");
    assert!(e.is_static);
    let none = element("li", ElementType::Element, vec![attr("id", Some("a"))], vec![]);
    assert!(static_key_expression(&none).is_none());

    let mut block = BlockIRNode::new();
    emit_static_key(&el, 7, &mut block);
    assert_eq!(block.operation.len(), 1);
    match &block.operation[0] {
        OperationNode::SetBlockKey(k) => {
            assert_eq!(k.element, 7);
            assert_eq!(k.value.content, "a");
        }
        _ => panic!("expected a block key"),
    }
    emit_static_key(&none, 8, &mut block);
    assert_eq!(block.operation.len(), 1);
}

#[test]
fn non_reactive_directives() {
    let once = element("div", ElementType::Element, vec![dir("memo", None, Some(simple("[a]", false))), dir("once", None, None)], vec![]);
    let r = classify_non_reactive_directive(&once);
    assert!(r.should_lower_as_once);
    assert!(r.memo_error.is_none());

    let empty_memo = element("div", ElementType::Element, vec![dir("memo", None, Some(simple("  [] ", false)))], vec![]);
    let r = classify_non_reactive_directive(&empty_memo);
    assert!(r.should_lower_as_once);
    assert!(r.memo_error.is_none());

    let deps = element("div", ElementType::Element, vec![dir("memo", None, Some(simple("[a, b]", false)))], vec![]);
    let r = classify_non_reactive_directive(&deps);
    assert!(!r.should_lower_as_once);
    assert_eq!(r.memo_error.as_deref(), Some(MEMO_WITH_DEPENDENCIES));
    assert!(MEMO_WITH_DEPENDENCIES.starts_with("v-memo with dependencies is not supported in Vapor yet."));

    let bare = element("div", ElementType::Element, vec![dir("memo", None, None)], vec![]);
    let r = classify_non_reactive_directive(&bare);
    assert!(!r.should_lower_as_once);
    assert_eq!(r.memo_error.as_deref(), Some(MEMO_UNSUPPORTED));

    let plain = element("div", ElementType::Element, vec![attr("id", Some("a"))], vec![]);
    let r = classify_non_reactive_directive(&plain);
    assert!(!r.should_lower_as_once);
    assert!(r.memo_error.is_none());
}

#[test]
fn slot_outlet_name_and_props() {
    let default = element("slot", ElementType::Slot, vec![], vec![]);
    let n = get_slot_outlet_name(&default);
    assert_eq!(n.content, "default");
    assert!(n.is_static);

    let named = element("slot", ElementType::Slot, vec![attr("name", None), attr("name", Some("header"))], vec![]);
    assert_eq!(get_slot_outlet_name(&named).content, "header");

    let bound = element("slot", ElementType::Slot, vec![dir("bind", Some(simple("name", true)), Some(simple("slotName", false)))], vec![]);
    let n = get_slot_outlet_name(&bound);
    assert_eq!(n.content, "slotName");
    assert!(!n.is_static);

    let outlet = element(
        "slot",
        ElementType::Slot,
        vec![
            attr("name", Some("header")),
            attr("title", Some("Hi")),
            attr("flag", None),
            dir("bind", Some(simple("item", true)), Some(simple("row", false))),
            dir("bind", None, Some(simple("attrs", false))),
            dir("bind", Some(simple("name", true)), Some(simple("n", false))),
            dir("on", Some(simple("click", true)), Some(simple("go", false))),
        ],
        vec![],
    );
    let props = get_slot_outlet_props(&outlet);
    assert_eq!(props.len(), 4);
    assert_eq!(props[0].key.content, "title");
    assert_eq!(props[0].values[0].content, "Hi");
    assert_eq!(props[1].key.content, "flag");
    assert!(props[1].values.is_empty());
    assert_eq!(props[2].key.content, "item");
    assert_eq!(props[2].values[0].content, "row");
    assert_eq!(props[3].key.content, "$");
    assert_eq!(props[3].values[0].content, "attrs");
    assert!(props.iter().all(|p| !p.is_component));
}

#[test]
fn element_plans() {
    let tpl = element("template", ElementType::Template, vec![], vec![]);
    assert_eq!(plan_element(&tpl, false, false, false).lowering, ElementLowering::TemplateChildren);
    assert_eq!(plan_existing_element(&tpl, false, false, false).lowering, ElementLowering::TemplateChildren);

    let plain_template = element("template", ElementType::Element, vec![], vec![]);
    assert!(is_plain_element(&plain_template));
    assert_eq!(plan_element(&plain_template, false, false, false).lowering, ElementLowering::Component);

    let keyed = element("li", ElementType::Element, vec![dir("bind", Some(simple("key", true)), Some(simple("k", false)))], vec![]);
    assert_eq!(plan_element(&keyed, false, false, false).lowering, ElementLowering::Keyed);
    assert_eq!(plan_element(&keyed, true, false, false).lowering, ElementLowering::StaticChildren);
    assert_eq!(plan_element(&keyed, false, true, false).lowering, ElementLowering::StaticChildren);

    let dynamic_tag = element("component", ElementType::Element, vec![], vec![]);
    assert_eq!(plan_element(&dynamic_tag, false, false, false).lowering, ElementLowering::Component);

    let parent = element(
        "div",
        ElementType::Element,
        vec![],
        vec![TemplateChildNode::Element(element("span", ElementType::Element, vec![], vec![]))],
    );
    assert_eq!(plan_element(&parent, false, false, false).lowering, ElementLowering::DynamicChildren);
    assert_eq!(plan_existing_element(&parent, false, false, false).lowering, ElementLowering::DynamicChildren);

    let slot = element("slot", ElementType::Slot, vec![], vec![]);
    assert_eq!(plan_element(&slot, false, false, false).lowering, ElementLowering::SlotOutlet);
    assert_eq!(plan_existing_element(&slot, false, false, false).lowering, ElementLowering::SlotOutlet);

    let once = element("div", ElementType::Element, vec![dir("once", None, None), dir("bind", Some(simple("key", true)), None)], vec![]);
    let plan = plan_element(&once, false, false, false);
    assert!(plan.enters_non_reactive);
    assert_eq!(plan.lowering, ElementLowering::StaticChildren);
    let suppressed = plan_element(&once, false, false, true);
    assert!(!suppressed.enters_non_reactive);

    let memo = element("div", ElementType::Element, vec![dir("memo", None, Some(simple("[x]", false)))], vec![]);
    assert_eq!(plan_element(&memo, false, false, false).memo_error.as_deref(), Some(MEMO_WITH_DEPENDENCIES));
}
