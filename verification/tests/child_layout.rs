use lib::ast::{
    DirectiveNode, ElementNode, ElementType, ExpressionNode, PropNode, SimpleExpressionNode,
    TemplateChildNode,
};
use lib::layout::{AnchorSlot, ChildLayout, InsertionPlan, LayoutItem};

fn simple(content: &str, is_static: bool) -> ExpressionNode {
    ExpressionNode::Simple(SimpleExpressionNode { content: content.to_string(), is_static })
}

fn node(tag: &str, tag_type: ElementType, props: Vec<PropNode>, children: Vec<TemplateChildNode>, is_static: bool) -> TemplateChildNode {
    TemplateChildNode::Element(ElementNode { tag: tag.to_string(), tag_type, props, children, is_static })
}

fn static_div() -> TemplateChildNode {
    node("div", ElementType::Element, vec![], vec![], true)
}

fn text(s: &str) -> TemplateChildNode {
    TemplateChildNode::Text(s.to_string())
}

fn interp(s: &str) -> TemplateChildNode {
    TemplateChildNode::Interpolation(simple(s, false))
}

fn key_binding() -> PropNode {
    PropNode::Directive(DirectiveNode { name: "bind".to_string(), arg: Some(simple("key", true)), exp: Some(simple("id", false)) })
}

#[test]
fn mixed_children_layout() {
    let children = vec![
        text("a"),
        interp("msg"),
        static_div(),
        TemplateChildNode::If,
        TemplateChildNode::Comment("c".to_string()),
        node("Foo", ElementType::Component, vec![], vec![], false),
    ];
    let layout = ChildLayout::new(&children, true);
    assert_eq!(
        layout.items(),
        &[
            LayoutItem::TextRun { start: 0, end: 2, element_index: 0, dynamic: true },
            LayoutItem::Element { flat_index: 2, element_index: 1, referenced: false },
            LayoutItem::Inserted { flat_index: 3, logical_index: 2, insertion: InsertionPlan::Before(AnchorSlot(0)) },
            LayoutItem::Anchor { slot: AnchorSlot(0), element_index: 2 },
            LayoutItem::Comment { flat_index: 4 },
            LayoutItem::Inserted { flat_index: 5, logical_index: 4, insertion: InsertionPlan::Append },
        ]
    );
    assert_eq!(layout.anchor_count(), 1);
    assert_eq!(layout.runtime_item_count(), 3);
    assert_eq!(layout.runtime_items().len(), 3);
    assert!(layout.has_dynamic_children());
    assert_eq!(layout.parent_text_run(), None);
    assert!(layout.process_dynamic_keys());
    assert_eq!(layout.text_run(0, 2).len(), 2);
    assert!(matches!(layout.child(3), TemplateChildNode::If));
}

#[test]
fn lone_interpolation_is_a_parent_text_run() {
    let children = vec![interp("msg"), text(" tail")];
    let layout = ChildLayout::new(&children, true);
    assert_eq!(layout.parent_text_run(), Some((0, 2)));
    assert!(!layout.has_dynamic_children());
    assert_eq!(layout.runtime_item_count(), 1);
}

#[test]
fn static_text_has_no_runtime_children() {
    let children = vec![text("a"), static_div(), text("b")];
    let layout = ChildLayout::new(&children, false);
    assert_eq!(layout.runtime_item_count(), 0);
    assert!(!layout.has_dynamic_children());
    assert_eq!(layout.items().len(), 3);
}

#[test]
fn template_wrappers_are_transparent() {
    let wrapped = vec![
        node("template", ElementType::Template, vec![], vec![text("x"), static_div()], false),
        node("span", ElementType::Element, vec![], vec![], false),
    ];
    let flat = vec![text("x"), static_div(), node("span", ElementType::Element, vec![], vec![], false)];
    let a = ChildLayout::new(&wrapped, true);
    let b = ChildLayout::new(&flat, true);
    assert_eq!(a.items(), b.items());
    assert_eq!(
        a.items()[2],
        LayoutItem::Element { flat_index: 2, element_index: 2, referenced: true }
    );
}

#[test]
fn plain_template_element_is_a_block() {
    let children = vec![node("template", ElementType::Element, vec![], vec![], false)];
    let layout = ChildLayout::new(&children, true);
    assert_eq!(
        layout.items(),
        &[LayoutItem::Inserted { flat_index: 0, logical_index: 0, insertion: InsertionPlan::Append }]
    );
}

#[test]
fn dynamic_keys_make_blocks_only_when_processed() {
    let children = vec![node("li", ElementType::Element, vec![key_binding()], vec![], false), static_div()];
    let keyed = ChildLayout::new(&children, true);
    assert!(matches!(keyed.items()[0], LayoutItem::Inserted { insertion: InsertionPlan::Before(AnchorSlot(0)), .. }));
    assert_eq!(keyed.anchor_count(), 1);
    let plain = ChildLayout::new(&children, false);
    assert_eq!(plain.items()[0], LayoutItem::Element { flat_index: 0, element_index: 0, referenced: true });
    assert_eq!(plain.anchor_count(), 0);
}

#[test]
fn consecutive_blocks_get_consecutive_anchors() {
    let children = vec![TemplateChildNode::For, TemplateChildNode::If, static_div()];
    let layout = ChildLayout::new(&children, true);
    assert_eq!(
        layout.items(),
        &[
            LayoutItem::Inserted { flat_index: 0, logical_index: 0, insertion: InsertionPlan::Before(AnchorSlot(0)) },
            LayoutItem::Anchor { slot: AnchorSlot(0), element_index: 0 },
            LayoutItem::Inserted { flat_index: 1, logical_index: 1, insertion: InsertionPlan::Before(AnchorSlot(1)) },
            LayoutItem::Anchor { slot: AnchorSlot(1), element_index: 1 },
            LayoutItem::Element { flat_index: 2, element_index: 2, referenced: false },
        ]
    );
}

#[test]
fn ignored_children_do_not_break_text_runs() {
    let children = vec![text("a"), TemplateChildNode::Other, text("b")];
    let layout = ChildLayout::new(&children, true);
    assert_eq!(layout.items(), &[LayoutItem::TextRun { start: 0, end: 3, element_index: 0, dynamic: false }]);
}

#[test]
fn requires_runtime_id_cases() {
    assert!(LayoutItem::Element { flat_index: 0, element_index: 0, referenced: true }.requires_runtime_id());
    assert!(!LayoutItem::Element { flat_index: 0, element_index: 0, referenced: false }.requires_runtime_id());
    assert!(LayoutItem::TextRun { start: 0, end: 1, element_index: 0, dynamic: true }.requires_runtime_id());
    assert!(!LayoutItem::TextRun { start: 0, end: 1, element_index: 0, dynamic: false }.requires_runtime_id());
    assert!(LayoutItem::Inserted { flat_index: 0, logical_index: 0, insertion: InsertionPlan::Append }.requires_runtime_id());
    assert!(!LayoutItem::Comment { flat_index: 0 }.requires_runtime_id());
    assert!(!LayoutItem::Anchor { slot: AnchorSlot(3), element_index: 0 }.requires_runtime_id());
    assert_eq!(AnchorSlot(3).index(), 3);
}

#[test]
fn empty_children() {
    let children: Vec<TemplateChildNode> = vec![];
    let layout = ChildLayout::new(&children, true);
    assert!(layout.items().is_empty());
    assert_eq!(layout.anchor_count(), 0);
    assert!(!layout.has_dynamic_children());
}

#[test]
fn anchored_block_is_followed_by_the_node_it_precedes() {
    let children = vec![TemplateChildNode::If, text("a"), TemplateChildNode::For];
    let layout = ChildLayout::new(&children, true);
    assert_eq!(
        layout.items(),
        &[
            LayoutItem::Inserted { flat_index: 0, logical_index: 0, insertion: InsertionPlan::Before(AnchorSlot(0)) },
            LayoutItem::Anchor { slot: AnchorSlot(0), element_index: 0 },
            LayoutItem::TextRun { start: 1, end: 2, element_index: 1, dynamic: false },
            LayoutItem::Inserted { flat_index: 2, logical_index: 2, insertion: InsertionPlan::Append },
        ]
    );
}

#[test]
fn text_runs_split_only_at_placed_children() {
    let children = vec![
        text("a"),
        interp("x"),
        TemplateChildNode::If,
        text("b"),
        TemplateChildNode::Comment("c".to_string()),
        interp("y"),
    ];
    let layout = ChildLayout::new(&children, true);
    assert_eq!(
        layout.items(),
        &[
            LayoutItem::TextRun { start: 0, end: 2, element_index: 0, dynamic: true },
            LayoutItem::Inserted { flat_index: 2, logical_index: 1, insertion: InsertionPlan::Before(AnchorSlot(0)) },
            LayoutItem::Anchor { slot: AnchorSlot(0), element_index: 1 },
            LayoutItem::TextRun { start: 3, end: 4, element_index: 2, dynamic: false },
            LayoutItem::Comment { flat_index: 4 },
            LayoutItem::TextRun { start: 5, end: 6, element_index: 4, dynamic: true },
        ]
    );
}

#[test]
fn items_stand_for_the_children_in_order() {
    let children = vec![text("a"), TemplateChildNode::Other, static_div(), TemplateChildNode::Other, TemplateChildNode::For];
    let layout = ChildLayout::new(&children, true);
    assert_eq!(
        layout.items(),
        &[
            LayoutItem::TextRun { start: 0, end: 1, element_index: 0, dynamic: false },
            LayoutItem::Element { flat_index: 2, element_index: 1, referenced: false },
            LayoutItem::Inserted { flat_index: 4, logical_index: 2, insertion: InsertionPlan::Append },
        ]
    );
}
