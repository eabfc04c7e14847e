//! Text and interpolation lowering.

use vstd::prelude::*;
use crate::ast::{ExpressionNode, SimpleExpressionNode, TemplateChildNode};
use crate::deferred::TransformContext;
use crate::element::expr_view;
use crate::ir::{BlockIRNode, SetTextIRNode};

verus! {

/// Lower a standalone text node: a fresh node whose client template is the
/// text itself.
pub fn transform_text(ctx: &mut TransformContext, text: &String, block: &mut BlockIRNode) -> (r: usize)
    requires
        old(ctx).spec_next_id() < usize::MAX,
    ensures
        r == old(ctx).spec_next_id(),
        final(ctx).spec_next_id() == old(ctx).spec_next_id() + 1,
        final(ctx).spec_templates() == old(ctx).spec_templates().push((r, text@)),
        final(block).returns@ == old(block).returns@.push(r),
        final(block).operation@ == old(block).operation@,
{
    let element_id = ctx.next_id();
    ctx.add_template(element_id, text.clone());
    block.returns.push(element_id);
    element_id
}

/// The text part that one child of a run contributes: static text, or the
/// simple expression of an interpolation.
pub open spec fn text_value_of(node: TemplateChildNode) -> Option<(Seq<char>, bool)> {
    match node {
        TemplateChildNode::Text(t) => Some((t@, true)),
        TemplateChildNode::Interpolation(ExpressionNode::Simple(e)) => Some((e.content@, e.is_static)),
        _ => None,
    }
}

pub open spec fn text_values(nodes: Seq<TemplateChildNode>) -> Seq<(Seq<char>, bool)>
    decreases nodes.len(),
{
    if nodes.len() == 0 {
        seq![]
    } else {
        match text_value_of(nodes.last()) {
            Some(v) => text_values(nodes.drop_last()).push(v),
            None => text_values(nodes.drop_last()),
        }
    }
}

/// The `SetText` operation for one contiguous text/interpolation run
/// targeting node `target_id`; `None` when the run has no part.
pub fn transform_text_children(children: &[&TemplateChildNode], target_id: usize) -> (r: Option<
    SetTextIRNode,
>)
    ensures
        ({
            let vs = text_values(children@.map_values(|c: &TemplateChildNode| *c));
            match r {
                Some(op) => vs.len() > 0 && op.element == target_id && op.values@.map_values(
                    |v: SimpleExpressionNode| expr_view(v),
                ) == vs,
                None => vs.len() == 0,
            }
        }),
{
    let ghost nodes = children@.map_values(|c: &TemplateChildNode| *c);
    let mut values: Vec<SimpleExpressionNode> = Vec::new();
    let n = children.len();
    for i in 0..n
        invariant
            n == children@.len(),
            nodes == children@.map_values(|c: &TemplateChildNode| *c),
            values@.map_values(|v: SimpleExpressionNode| expr_view(v)) == text_values(nodes.take(i as int)),
    {
        let ghost before = values@;
        assert(nodes.take(i + 1).drop_last() =~= nodes.take(i as int));
        assert(nodes.take(i + 1).last() == *children@[i as int]);
        match children[i] {
            TemplateChildNode::Text(text) => {
                values.push(SimpleExpressionNode::new(text.clone(), true));
            },
            TemplateChildNode::Interpolation(ExpressionNode::Simple(simple)) => {
                values.push(SimpleExpressionNode::from_node(simple));
            },
            _ => {},
        }
        assert(values@.map_values(|v: SimpleExpressionNode| expr_view(v)) =~= text_values(
            nodes.take(i + 1),
        ));
    }
    assert(nodes.take(n as int) =~= nodes);
    if values.len() > 0 {
        Some(SetTextIRNode { element: target_id, values })
    } else {
        None
    }
}

} // verus!
