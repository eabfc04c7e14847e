//! Sibling navigation: child layouts lowered to reference operations and
//! generated code, checked with `next_calls`.

use lib::ast::{
    AttributeNode, DirectiveNode, ElementNode, ElementType, ExpressionNode, PropNode,
    SimpleExpressionNode, TemplateChildNode,
};
use lib::deferred::{allocate_ids, emit_ref_operations, reserve_child_ids, TransformContext};
use lib::generate::{generate_child_ref, generate_next_ref, GenerateContext, Helper};
use lib::ir::{BlockIRNode, OperationNode};
use lib::layout::{ChildLayout, LayoutItem};
use lib::sibling_navigation::next_calls;

fn bind(arg: &str, exp: &str) -> PropNode {
    PropNode::Directive(DirectiveNode {
        name: "bind".to_string(),
        arg: Some(ExpressionNode::Simple(SimpleExpressionNode {
            content: arg.to_string(),
            is_static: true,
        })),
        exp: Some(ExpressionNode::Simple(SimpleExpressionNode {
            content: exp.to_string(),
            is_static: false,
        })),
    })
}

fn attr(name: &str, value: &str) -> PropNode {
    PropNode::Attribute(AttributeNode { name: name.to_string(), value: Some(value.to_string()) })
}

/// A native element; it is static when neither it nor a descendant binds.
fn el(tag: &str, props: Vec<PropNode>, children: Vec<TemplateChildNode>) -> TemplateChildNode {
    let own_static = props.iter().all(|p| matches!(p, PropNode::Attribute(_)));
    let children_static = children.iter().all(|c| match c {
        TemplateChildNode::Element(e) => e.is_static,
        TemplateChildNode::Interpolation(_) => false,
        _ => true,
    });
    TemplateChildNode::Element(ElementNode {
        tag: tag.to_string(),
        tag_type: ElementType::Element,
        props,
        children,
        is_static: own_static && children_static,
    })
}

fn element(node: &TemplateChildNode) -> &ElementNode {
    match node {
        TemplateChildNode::Element(e) => e,
        _ => panic!("not an element"),
    }
}

/// Lower the references of `parent`'s children (ids first, then the parent,
/// then the children's own references), the way elements with dynamic
/// children are lowered; an element that already has an id only reserves
/// ids for its children.
fn lower_children(ctx: &mut TransformContext, parent: &ElementNode, parent_id: Option<usize>, block: &mut BlockIRNode) -> usize {
    let layout = ChildLayout::new(parent.children.as_slice(), true);
    let (child_ids, anchor_ids, parent_id) = match parent_id {
        Some(id) => (allocate_ids(ctx, layout.runtime_item_count()), allocate_ids(ctx, layout.anchor_count()), id),
        None => reserve_child_ids(ctx, &layout),
    };
    emit_ref_operations(&layout, parent_id, block, &child_ids, &anchor_ids);
    for (item, id) in layout.runtime_items().iter().zip(child_ids.iter().copied()) {
        if let LayoutItem::Element { flat_index, .. } = item {
            let child = element(layout.child(*flat_index));
            let child_layout = ChildLayout::new(child.children.as_slice(), true);
            if child_layout.has_dynamic_children() {
                lower_children(ctx, child, Some(id), block);
            }
        }
    }
    parent_id
}

fn compile(root: TemplateChildNode) -> (String, Vec<Helper>) {
    let root = element(&root);
    let mut ctx = TransformContext::new(0);
    let mut block = BlockIRNode::new();
    lower_children(&mut ctx, root, None, &mut block);
    let mut gen = GenerateContext::new();
    for op in block.operation.iter() {
        match op {
            OperationNode::ChildRef(r) => generate_child_ref(&mut gen, r),
            OperationNode::NextRef(r) => generate_next_ref(&mut gen, r),
            _ => {}
        }
    }
    let mut code = String::new();
    for i in 0..gen.line_count() {
        code.push_str(gen.line(i));
        code.push('\n');
    }
    (code, gen.helpers().to_vec())
}

fn referenced_span(id: &str) -> TemplateChildNode {
    el("span", vec![bind("id", id)], vec![el("i", vec![], vec![])])
}

fn p() -> TemplateChildNode {
    el("p", vec![], vec![])
}

#[test]
fn multi_step_navigation_uses_nth_child_not_a_counted_next() {
    let li = |href: &str, label: &str| {
        el(
            "li",
            vec![],
            vec![el(
                "a",
                vec![attr("href", href)],
                vec![
                    el("img", vec![bind("src", "logo"), attr("alt", "")], vec![]),
                    el("span", vec![], vec![TemplateChildNode::Text(label.to_string())]),
                ],
            )],
        )
    };
    let root = el(
        "div",
        vec![],
        vec![
            el("svg", vec![attr("role", "presentation")], vec![el("use", vec![attr("href", "#x")], vec![])]),
            el("h2", vec![], vec![el("span", vec![], vec![TemplateChildNode::Text("Title".to_string())])]),
            el("p", vec![], vec![el("span", vec![], vec![TemplateChildNode::Text("Sub".to_string())])]),
            el("ul", vec![], vec![li("https://example.com", "A"), li("https://example.org", "B")]),
        ],
    );
    let (code, helpers) = compile(root);

    assert!(code.contains("_nthChild(n1, 3)"), "expected an absolute lookup for the three-sibling jump:\n{code}");
    assert!(!code.contains("_next(_child(n1), 3)"), "a counted _next advances only one sibling at runtime:\n{code}");
    assert!(code.contains("_next(n2)"), "expected a single-step _next for the adjacent sibling:\n{code}");
    assert!(helpers.contains(&Helper::NthChild), "the nthChild helper must be imported:\n{code}");
    assert_eq!(Helper::NthChild.name(), "nthChild");
}

#[test]
fn no_emitted_next_call_carries_an_index() {
    let templates = vec![
        el("div", vec![], vec![p(), p(), referenced_span("x")]),
        el("div", vec![], vec![p(), p(), p(), referenced_span("x")]),
        el("div", vec![], vec![referenced_span("x"), p(), p(), referenced_span("y")]),
        el(
            "div",
            vec![],
            vec![p(), referenced_span("x"), p(), p(), referenced_span("y"), p(), referenced_span("z")],
        ),
        el(
            "div",
            vec![],
            vec![el("section", vec![], vec![p(), referenced_span("x"), referenced_span("y")]), referenced_span("z")],
        ),
    ];
    for template in templates {
        let mut checked_child_bases = 0usize;
        let (code, _) = compile(template);
        assert!(
            code.contains("_next(") || code.contains("_nthChild("),
            "expected this template to exercise sibling navigation:\n{code}"
        );
        for (base, index) in next_calls(&code) {
            assert_eq!(index, None, "RC.6 next() accepts no hydration index:\n{code}");
            checked_child_bases += usize::from(base.starts_with("_child("));
        }
        assert!(
            checked_child_bases > 0 || code.contains("_nthChild("),
            "expected a _child-anchored hop or an absolute lookup:\n{code}"
        );
    }
}

#[test]
fn single_step_navigation_shapes_are_unchanged() {
    let (first, _) = compile(el("div", vec![], vec![el("a", vec![bind("id", "x")], vec![]), el("b", vec![], vec![])]));
    assert!(first.contains("_child(n1)"), "index 0 stays a plain _child:\n{first}");
    assert!(!first.contains("_nthChild"), "index 0 must not need an absolute lookup:\n{first}");

    let (second, _) = compile(el("div", vec![], vec![el("a", vec![], vec![]), el("b", vec![bind("id", "x")], vec![])]));
    assert!(second.contains("_next(_child(n1))"), "index 1 stays one _next step from the first child:\n{second}");
    assert!(!second.contains("_nthChild"), "index 1 must not need an absolute lookup:\n{second}");
}

#[test]
fn single_step_next_uses_rc6_signature() {
    let (code, _) = compile(el("div", vec![], vec![p(), p(), referenced_span("x"), referenced_span("y")]));
    assert_eq!(next_calls(&code), vec![("n0", None)], "{code}");
}

#[test]
fn every_next_call_is_bare() {
    let templates = vec![
        el("div", vec![], vec![p(), referenced_span("x"), p(), p(), referenced_span("y")]),
        el("div", vec![], vec![referenced_span("x"), p(), p(), p(), referenced_span("y")]),
    ];
    for template in templates {
        let (code, _) = compile(template);
        for line in code.lines() {
            for (_, index) in next_calls(line) {
                assert!(index.is_none(), "RC.6 _next must not carry a hydration index:\n{line}");
            }
        }
    }
}
