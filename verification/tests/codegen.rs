use lib::deferred::{
    allocate_ids, emit_ref_operations, plan_layout_children, reserve_child_ids, resolve_insertion,
    ChildLowering, TransformContext,
};
use lib::generate::{
    emit_insertion_state, generate_child_ref, generate_insert_node, generate_next_ref,
    generate_prepend_node, push_decimal, GenerateContext, Helper,
};
use lib::ir::{
    BlockIRNode, ChildRefIRNode, InsertNodeIRNode, InsertionAnchor, InsertionState, NextRefIRNode,
    OperationNode, PrependNodeIRNode,
};
use lib::layout::{AnchorSlot, ChildLayout, InsertionPlan, LayoutItem};
use lib::ast::{ElementNode, ElementType, TemplateChildNode};
use lib::text::{transform_text, transform_text_children};

fn lines(ctx: &GenerateContext) -> Vec<String> {
    (0..ctx.line_count()).map(|i| ctx.line(i).clone()).collect()
}

#[test]
fn decimal_notation() {
    for n in [0usize, 7, 10, 12345, usize::MAX] {
        let mut s = String::from("x");
        push_decimal(&mut s, n);
        assert_eq!(s, format!("x{n}"));
    }
}

#[test]
fn child_reference_shapes() {
    let mut ctx = GenerateContext::new();
    generate_child_ref(&mut ctx, &ChildRefIRNode { child_id: 3, parent_id: 1, element_index: 0, logical_index: 0 });
    generate_child_ref(&mut ctx, &ChildRefIRNode { child_id: 4, parent_id: 1, element_index: 1, logical_index: 1 });
    generate_child_ref(&mut ctx, &ChildRefIRNode { child_id: 5, parent_id: 12, element_index: 14, logical_index: 9 });
    generate_next_ref(&mut ctx, &NextRefIRNode { child_id: 6, prev_id: 5, logical_index: 10 });
    assert_eq!(
        lines(&ctx),
        vec![
            "const n3 = _child(n1)",
            "const n4 = _next(_child(n1))",
            "const n5 = _nthChild(n12, 14)",
            "const n6 = _next(n5)",
        ]
    );
    assert_eq!(ctx.helpers(), &[Helper::Child, Helper::Next, Helper::NthChild]);
}

#[test]
fn insertion_state_lines() {
    let mut ctx = GenerateContext::new();
    emit_insertion_state(&mut ctx, None);
    assert_eq!(ctx.line_count(), 0);
    assert!(ctx.helpers().is_empty());
    emit_insertion_state(&mut ctx, Some(InsertionState { parent: 2, anchor: InsertionAnchor::Before(9), logical_index: 4 }));
    emit_insertion_state(&mut ctx, Some(InsertionState { parent: 2, anchor: InsertionAnchor::Append, logical_index: 0 }));
    emit_insertion_state(&mut ctx, Some(InsertionState { parent: 2, anchor: InsertionAnchor::Append, logical_index: 3 }));
    assert_eq!(
        lines(&ctx),
        vec!["_setInsertionState(n2, n9)", "_setInsertionState(n2)", "_setInsertionState(n2, 3)"]
    );
    assert_eq!(ctx.helpers(), &[Helper::SetInsertionState]);
    assert_eq!(Helper::SetInsertionState.name(), "setInsertionState");
}

#[test]
fn insert_and_prepend_lines() {
    let mut ctx = GenerateContext::new();
    generate_insert_node(&mut ctx, &InsertNodeIRNode { parent: 1, elements: vec![4], anchor: None });
    generate_insert_node(&mut ctx, &InsertNodeIRNode { parent: 1, elements: vec![4, 5], anchor: Some(7) });
    generate_prepend_node(&mut ctx, &PrependNodeIRNode { parent: 1, elements: vec![4, 5, 6] });
    assert_eq!(
        lines(&ctx),
        vec!["_insert(n4, n1)", "_insert([n4, n5], n1, n7)", "_prepend(n1, n4, n5, n6)"]
    );
    assert_eq!(ctx.helpers(), &[Helper::Insert, Helper::Prepend]);
}

#[test]
fn ids_are_consecutive() {
    let mut ctx = TransformContext::new(5);
    assert_eq!(allocate_ids(&mut ctx, 3), vec![5, 6, 7]);
    assert_eq!(allocate_ids(&mut ctx, 0), Vec::<usize>::new());
    assert_eq!(ctx.next_id(), 8);
}

#[test]
fn child_ids_then_anchor_ids_then_parent_id() {
    // runtime children: the referenced element, the `v-if` block and the last element;
    // one anchor, for the block.
    let children = vec![el(false), TemplateChildNode::If, el(true), el(false)];
    let layout = ChildLayout::new(&children, true);
    assert_eq!(layout.runtime_item_count(), 3);
    assert_eq!(layout.anchor_count(), 1);
    let mut ctx = TransformContext::new(5);
    let (child_ids, anchor_ids, parent_id) = reserve_child_ids(&mut ctx, &layout);
    assert_eq!(child_ids, vec![5, 6, 7]);
    assert_eq!(anchor_ids, vec![8]);
    assert_eq!(parent_id, 9);
    assert_eq!(ctx.next_id(), 10);
}

#[test]
fn parent_id_alone_without_runtime_children() {
    let children = vec![el(true)];
    let layout = ChildLayout::new(&children, true);
    let mut ctx = TransformContext::new(0);
    let (child_ids, anchor_ids, parent_id) = reserve_child_ids(&mut ctx, &layout);
    assert!(child_ids.is_empty());
    assert!(anchor_ids.is_empty());
    assert_eq!(parent_id, 0);
    assert_eq!(ctx.next_id(), 1);
}

#[test]
fn insertion_resolution() {
    let anchors = [10usize, 11];
    let before = LayoutItem::Inserted { flat_index: 0, logical_index: 2, insertion: InsertionPlan::Before(AnchorSlot(1)) };
    assert_eq!(
        resolve_insertion(3, before, &anchors),
        Some(InsertionState { parent: 3, anchor: InsertionAnchor::Before(11), logical_index: 2 })
    );
    let append = LayoutItem::Inserted { flat_index: 0, logical_index: 5, insertion: InsertionPlan::Append };
    assert_eq!(
        resolve_insertion(3, append, &anchors),
        Some(InsertionState { parent: 3, anchor: InsertionAnchor::Append, logical_index: 5 })
    );
    assert_eq!(resolve_insertion(3, LayoutItem::Comment { flat_index: 0 }, &anchors), None);
}

fn el(is_static: bool) -> TemplateChildNode {
    TemplateChildNode::Element(ElementNode {
        tag: "i".to_string(),
        tag_type: ElementType::Element,
        props: vec![],
        children: vec![],
        is_static,
    })
}

#[test]
fn reference_operations_follow_the_template() {
    // referenced, block (anchor), static, referenced, referenced
    let children = vec![el(false), TemplateChildNode::If, el(true), el(false), el(false)];
    let layout = ChildLayout::new(&children, true);
    let mut block = BlockIRNode::new();
    emit_ref_operations(&layout, 0, &mut block, &[1, 2, 3, 4], &[5]);
    let ops: Vec<String> = block
        .operation
        .iter()
        .map(|op| match op {
            OperationNode::ChildRef(r) => {
                format!("child {} {} {} @{}", r.child_id, r.parent_id, r.element_index, r.logical_index)
            }
            OperationNode::NextRef(r) => format!("next {} {} @{}", r.child_id, r.prev_id, r.logical_index),
            _ => "other".to_string(),
        })
        .collect();
    // element indices: first element 0, anchor 1, static 2, elements 3 and 4;
    // logical indices: first element 0, the anchor takes its block's 1, the
    // static element is 2, the last elements 3 and 4.
    assert_eq!(ops, vec!["child 1 0 0 @0", "next 5 1 @1", "child 3 0 3 @3", "next 4 3 @4"]);
}

#[test]
fn text_lowering() {
    let mut ctx = TransformContext::new(0);
    let mut block = BlockIRNode::new();
    let id = transform_text(&mut ctx, &"hello".to_string(), &mut block);
    assert_eq!(id, 0);
    assert_eq!(block.returns, vec![0]);
    assert_eq!(ctx.template_count(), 1);
    assert_eq!(ctx.template(0), (0, &"hello".to_string()));

    let a = TemplateChildNode::Text("a ".to_string());
    let b = TemplateChildNode::Interpolation(lib::ast::ExpressionNode::Simple(lib::ast::SimpleExpressionNode {
        content: "msg".to_string(),
        is_static: false,
    }));
    let c = TemplateChildNode::Comment("x".to_string());
    let op = transform_text_children(&[&a, &b, &c], 9).unwrap();
    assert_eq!(op.element, 9);
    assert_eq!(op.values.len(), 2);
    assert_eq!(op.values[0].content, "a ");
    assert!(op.values[0].is_static);
    assert_eq!(op.values[1].content, "msg");
    assert!(!op.values[1].is_static);
    assert!(transform_text_children(&[&c], 9).is_none());
}

#[test]
fn layout_children_lowering_plan() {
    let slot = TemplateChildNode::Element(ElementNode {
        tag: "slot".to_string(),
        tag_type: ElementType::Slot,
        props: vec![],
        children: vec![],
        is_static: false,
    });
    let comp = TemplateChildNode::Element(ElementNode {
        tag: "component".to_string(),
        tag_type: ElementType::Element,
        props: vec![],
        children: vec![],
        is_static: false,
    });
    // referenced element, slot (before anchor), v-for (before anchor), static element, component (appended)
    let children = vec![el(false), slot, TemplateChildNode::For, el(true), comp];
    let layout = ChildLayout::new(&children, true);
    assert_eq!(layout.anchor_count(), 2);
    let plan = plan_layout_children(&layout, 9, &[1, 2, 3, 4], &[5, 6]);
    assert_eq!(
        plan,
        vec![
            ChildLowering::ExistingElement { id: 1, insertion: None },
            ChildLowering::SlotOutlet {
                id: 2,
                insertion: Some(InsertionState { parent: 9, anchor: InsertionAnchor::Before(5), logical_index: 1 }),
            },
            ChildLowering::For {
                id: 3,
                insertion: Some(InsertionState { parent: 9, anchor: InsertionAnchor::Before(6), logical_index: 2 }),
            },
            ChildLowering::Component {
                id: 4,
                insertion: Some(InsertionState { parent: 9, anchor: InsertionAnchor::Append, logical_index: 4 }),
            },
        ]
    );
    // fewer ids than runtime children: the plan stops with the ids
    assert_eq!(plan_layout_children(&layout, 9, &[1], &[5, 6]).len(), 1);
}
