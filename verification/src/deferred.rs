//! Lowering for elements whose direct children need runtime work: node ids,
//! child references and insertion points.

use vstd::prelude::*;
use crate::ast::{str_is, ElementType, TemplateChildNode};
use crate::ir::{
    BlockIRNode, ChildRefIRNode, InsertionAnchor, InsertionState, NextRefIRNode, OperationNode,
};
use crate::layout::{flatten, layout_of, runtime_items_of, ChildLayout, InsertionPlan, LayoutItem};
use crate::layout_laws::{
    aligned, anchor_total, anchors_paired, before_slot, carries_index, is_before, item_element_index,
    law_anchor_slots_in_order, law_anchors_follow_their_blocks, law_insertion_slots_below_anchor_count,
    physical_count, slots_in_order,
};

verus! {

/// The id counter and the registered client templates of a transform.
pub struct TransformContext {
    next_id: usize,
    templates: Vec<(usize, String)>,
}

impl TransformContext {
    pub closed spec fn spec_next_id(&self) -> usize {
        self.next_id
    }

    /// The registered templates as (node id, template source), in order.
    pub closed spec fn spec_templates(&self) -> Seq<(usize, Seq<char>)> {
        self.templates@.map_values(|t: (usize, String)| (t.0, t.1@))
    }

    /// Register the client template of node `id`.
    pub fn add_template(&mut self, id: usize, template: String)
        ensures
            final(self).spec_templates() == old(self).spec_templates().push((id, template@)),
            final(self).spec_next_id() == old(self).spec_next_id(),
    {
        self.templates.push((id, template));
        assert(self.spec_templates() =~= old(self).spec_templates().push((id, template@)));
    }

    /// The number of registered templates.
    pub fn template_count(&self) -> (r: usize)
        ensures
            r == self.spec_templates().len(),
    {
        self.templates.len()
    }

    /// Registered template `i`.
    pub fn template(&self, i: usize) -> (r: (usize, &String))
        requires
            i < self.spec_templates().len(),
        ensures
            (r.0, r.1@) == self.spec_templates()[i as int],
    {
        (self.templates[i].0, &self.templates[i].1)
    }

    /// A context whose next id is `start`.
    pub fn new(start: usize) -> (r: TransformContext)
        ensures
            r.spec_next_id() == start,
            r.spec_templates() == Seq::<(usize, Seq<char>)>::empty(),
    {
        let r = TransformContext { next_id: start, templates: Vec::new() };
        assert(r.spec_templates() =~= Seq::<(usize, Seq<char>)>::empty());
        r
    }

    /// Take the next node id.
    pub fn next_id(&mut self) -> (r: usize)
        requires
            old(self).spec_next_id() < usize::MAX,
        ensures
            r == old(self).spec_next_id(),
            final(self).spec_next_id() == old(self).spec_next_id() + 1,
            final(self).spec_templates() == old(self).spec_templates(),
    {
        let id = self.next_id;
        self.next_id = self.next_id + 1;
        id
    }
}

/// Take `count` consecutive node ids.
pub fn allocate_ids(ctx: &mut TransformContext, count: usize) -> (r: Vec<usize>)
    requires
        old(ctx).spec_next_id() + count <= usize::MAX,
    ensures
        r@ == Seq::new(count as nat, |i: int| (old(ctx).spec_next_id() + i) as usize),
        final(ctx).spec_next_id() == old(ctx).spec_next_id() + count,
        final(ctx).spec_templates() == old(ctx).spec_templates(),
{
    let mut ids: Vec<usize> = Vec::new();
    for i in 0..count
        invariant
            ctx.spec_next_id() == old(ctx).spec_next_id() + i,
            ctx.spec_templates() == old(ctx).spec_templates(),
            old(ctx).spec_next_id() + count <= usize::MAX,
            ids@ == Seq::new(i as nat, |j: int| (old(ctx).spec_next_id() + j) as usize),
    {
        let id = ctx.next_id();
        ids.push(id);
        assert(ids@ =~= Seq::new((i + 1) as nat, |j: int| (old(ctx).spec_next_id() + j) as usize));
    }
    ids
}

/// Reserve the ids of an element with runtime children: first one id per
/// runtime child, then one per anchor, then the element's own id.
pub fn reserve_child_ids(ctx: &mut TransformContext, layout: &ChildLayout) -> (r: (Vec<usize>, Vec<usize>, usize))
    requires
        old(ctx).spec_next_id() + runtime_items_of(layout.spec_items()).len() + layout.spec_anchor_count()
            < usize::MAX,
    ensures
        ({
            let start = old(ctx).spec_next_id();
            let c = runtime_items_of(layout.spec_items()).len();
            let a = layout.spec_anchor_count();
            &&& r.0@ == Seq::new(c, |i: int| (start + i) as usize)
            &&& r.1@ == Seq::new(a as nat, |i: int| (start + c + i) as usize)
            &&& r.2 == start + c + a
            &&& final(ctx).spec_next_id() == start + c + a + 1
            &&& final(ctx).spec_templates() == old(ctx).spec_templates()
        }),
{
    let child_ids = allocate_ids(ctx, layout.runtime_item_count());
    let anchor_ids = allocate_ids(ctx, layout.anchor_count());
    let parent_id = ctx.next_id();
    (child_ids, anchor_ids, parent_id)
}

/// Where an inserted item goes, with anchor slots resolved to the anchor ids.
pub open spec fn spec_resolve_insertion(parent: usize, item: LayoutItem, anchor_ids: Seq<usize>) -> Option<
    InsertionState,
> {
    match item {
        LayoutItem::Inserted { logical_index, insertion, .. } => Some(
            InsertionState {
                parent,
                anchor: match insertion {
                    InsertionPlan::Before(slot) => InsertionAnchor::Before(anchor_ids[slot.0 as int]),
                    InsertionPlan::Append => InsertionAnchor::Append,
                },
                logical_index,
            },
        ),
        _ => None,
    }
}

/// The insertion point of an inserted item; `None` for items that are part
/// of the client template.
pub fn resolve_insertion(parent: usize, item: LayoutItem, anchor_ids: &[usize]) -> (r: Option<
    InsertionState,
>)
    requires
        item matches LayoutItem::Inserted { insertion: InsertionPlan::Before(slot), .. } ==> slot.0
            < anchor_ids@.len(),
    ensures
        r == spec_resolve_insertion(parent, item, anchor_ids@),
{
    match item {
        LayoutItem::Inserted { logical_index, insertion, .. } => {
            let anchor = match insertion {
                InsertionPlan::Before(slot) => InsertionAnchor::Before(anchor_ids[slot.index()]),
                InsertionPlan::Append => InsertionAnchor::Append,
            };
            Some(InsertionState { parent, anchor, logical_index })
        },
        _ => None,
    }
}

/// How one runtime child of a layout is lowered.
#[derive(Debug, Clone, Copy, PartialEq, Eq, Structural)]
pub enum ChildLowering {
    /// A native element that already has its id.
    ExistingElement { id: usize, insertion: Option<InsertionState> },
    /// A `<slot>` outlet.
    SlotOutlet { id: usize, insertion: Option<InsertionState> },
    /// A component (or `<component>`).
    Component { id: usize, insertion: Option<InsertionState> },
    /// A `v-if` block.
    If { id: usize, insertion: Option<InsertionState> },
    /// A `v-for` block.
    For { id: usize, insertion: Option<InsertionState> },
    /// Nothing to lower (text runs are set by their parent).
    Skip,
}

/// The flat index of the child that a layout item stands for.
pub open spec fn item_flat_index(item: LayoutItem) -> usize {
    match item {
        LayoutItem::Element { flat_index, .. } => flat_index,
        LayoutItem::TextRun { start, .. } => start,
        LayoutItem::Comment { flat_index } => flat_index,
        LayoutItem::Inserted { flat_index, .. } => flat_index,
        LayoutItem::Anchor { .. } => 0,
    }
}

/// The lowering of the runtime child `node` (placed by `item`) with id `id`.
pub open spec fn spec_child_lowering(
    node: TemplateChildNode,
    item: LayoutItem,
    id: usize,
    parent: usize,
    anchor_ids: Seq<usize>,
) -> ChildLowering {
    let insertion = spec_resolve_insertion(parent, item, anchor_ids);
    match node {
        TemplateChildNode::Element(e) => if e.tag_type == ElementType::Element && e.tag@ != "component"@ {
            ChildLowering::ExistingElement { id, insertion }
        } else if e.tag_type == ElementType::Slot {
            ChildLowering::SlotOutlet { id, insertion }
        } else {
            ChildLowering::Component { id, insertion }
        },
        TemplateChildNode::If => ChildLowering::If { id, insertion },
        TemplateChildNode::For => ChildLowering::For { id, insertion },
        _ => ChildLowering::Skip,
    }
}

/// Every block inserted before an anchor has an anchor id.
pub open spec fn anchors_have_ids(items: Seq<LayoutItem>, anchor_ids: Seq<usize>) -> bool {
    forall|i: int|
        0 <= i < items.len() ==> (#[trigger] items[i] matches LayoutItem::Inserted {
            insertion: InsertionPlan::Before(slot),
            ..
        } ==> slot.0 < anchor_ids.len())
}

/// Decide how each runtime child of `layout`, paired with its id, is
/// lowered into the parent `parent_id`.
pub fn plan_layout_children(layout: &ChildLayout, parent_id: usize, child_ids: &[usize], anchor_ids: &[usize]) -> (r:
    Vec<ChildLowering>)
    requires
        anchors_have_ids(layout.spec_items(), anchor_ids@),
        forall|k: int|
            0 <= k < runtime_items_of(layout.spec_items()).len() ==> (item_flat_index(
                #[trigger] runtime_items_of(layout.spec_items())[k],
            ) as int) < layout.spec_children().len(),
    ensures
        ({
            let rs = runtime_items_of(layout.spec_items());
            &&& r@.len() == if rs.len() < child_ids@.len() { rs.len() } else { child_ids@.len() }
            &&& forall|k: int|
                0 <= k < r@.len() ==> #[trigger] r@[k] == spec_child_lowering(
                    layout.spec_children()[item_flat_index(rs[k]) as int],
                    rs[k],
                    child_ids@[k],
                    parent_id,
                    anchor_ids@,
                )
        }),
{
    let runtime = layout.runtime_items();
    let ghost rs = runtime@;
    assert forall|k: int| 0 <= k < rs.len() implies anchors_have_ids(seq![rs[k]], anchor_ids@) by {
        lemma_runtime_items_from(layout.spec_items(), k);
    }
    let n = if runtime.len() < child_ids.len() {
        runtime.len()
    } else {
        child_ids.len()
    };
    let mut plan: Vec<ChildLowering> = Vec::new();
    for k in 0..n
        invariant
            n <= runtime@.len(),
            n <= child_ids@.len(),
            runtime@ == rs,
            rs == runtime_items_of(layout.spec_items()),
            forall|j: int| 0 <= j < rs.len() ==> anchors_have_ids(seq![#[trigger] rs[j]], anchor_ids@),
            forall|j: int|
                0 <= j < rs.len() ==> (item_flat_index(#[trigger] rs[j]) as int) < layout.spec_children().len(),
            plan@.len() == k,
            forall|j: int|
                0 <= j < k ==> #[trigger] plan@[j] == spec_child_lowering(
                    layout.spec_children()[item_flat_index(rs[j]) as int],
                    rs[j],
                    child_ids@[j],
                    parent_id,
                    anchor_ids@,
                ),
    {
        let item = runtime[k];
        let id = child_ids[k];
        assert(anchors_have_ids(seq![rs[k as int]], anchor_ids@));
        assert(seq![rs[k as int]][0] == item);
        let flat_index = match item {
            LayoutItem::Element { flat_index, .. } => flat_index,
            LayoutItem::TextRun { start, .. } => start,
            LayoutItem::Comment { flat_index } => flat_index,
            LayoutItem::Inserted { flat_index, .. } => flat_index,
            LayoutItem::Anchor { .. } => 0,
        };
        let child = layout.child(flat_index);
        let lowering = match child {
            TemplateChildNode::Element(element) => {
                if element.tag_type == ElementType::Element && !str_is(&element.tag, "component") {
                    ChildLowering::ExistingElement {
                        id,
                        insertion: resolve_insertion(parent_id, item, anchor_ids),
                    }
                } else if element.tag_type == ElementType::Slot {
                    ChildLowering::SlotOutlet { id, insertion: resolve_insertion(parent_id, item, anchor_ids) }
                } else {
                    ChildLowering::Component { id, insertion: resolve_insertion(parent_id, item, anchor_ids) }
                }
            },
            TemplateChildNode::If => ChildLowering::If { id, insertion: resolve_insertion(parent_id, item, anchor_ids) },
            TemplateChildNode::For => ChildLowering::For {
                id,
                insertion: resolve_insertion(parent_id, item, anchor_ids),
            },
            _ => ChildLowering::Skip,
        };
        plan.push(lowering);
    }
    plan
}

/// Each runtime item is an item of the layout.
proof fn lemma_runtime_items_from(items: Seq<LayoutItem>, k: int)
    requires
        0 <= k < runtime_items_of(items).len(),
    ensures
        exists|i: int| 0 <= i < items.len() && items[i] == runtime_items_of(items)[k],
    decreases items.len(),
{
    let p = items.drop_last();
    if k < runtime_items_of(p).len() {
        lemma_runtime_items_from(p, k);
        let i = choose|i: int| 0 <= i < p.len() && p[i] == runtime_items_of(p)[k];
        assert(items[i] == p[i]);
    } else {
        assert(items[items.len() - 1] == items.last());
    }
}

/// A node that needs a reference, with its client-template index and its
/// logical (hydration) index.
#[derive(Debug, Clone, Copy, PartialEq, Eq, Structural)]
pub struct RefTarget {
    pub id: usize,
    pub element_index: usize,
    pub logical_index: usize,
}

/// The number of logical siblings that `items` stand for: every item but an
/// anchor (blocks, elements, comments, and each text run once).
pub open spec fn logical_total(items: Seq<LayoutItem>) -> nat
    decreases items.len(),
{
    if items.len() == 0 {
        0
    } else {
        logical_total(items.drop_last()) + if items.last() is Anchor { 0nat } else { 1nat }
    }
}

/// The logical index of an anchor placed after `items`: that of the block
/// inserted before it.
pub open spec fn anchor_logical_index(items: Seq<LayoutItem>) -> usize {
    if items.len() > 0 && items.last() is Inserted {
        match items.last() {
            LayoutItem::Inserted { logical_index, .. } => logical_index,
            _ => 0,
        }
    } else {
        logical_total(items) as usize
    }
}

/// The reference target that the last item adds: referenced elements and
/// dynamic text runs take the next child id and the number of logical
/// siblings before them, anchors the id of their slot and the logical index
/// of their block; inserted blocks need no reference.
pub open spec fn item_target(items: Seq<LayoutItem>, child_ids: Seq<usize>, anchor_ids: Seq<usize>) -> Option<
    RefTarget,
> {
    let p = items.drop_last();
    let r = runtime_items_of(p).len();
    match items.last() {
        LayoutItem::Element { element_index, referenced, .. } => if referenced && r < child_ids.len() {
            Some(RefTarget { id: child_ids[r as int], element_index, logical_index: logical_total(p) as usize })
        } else {
            None
        },
        LayoutItem::TextRun { element_index, dynamic, .. } => if dynamic && r < child_ids.len() {
            Some(RefTarget { id: child_ids[r as int], element_index, logical_index: logical_total(p) as usize })
        } else {
            None
        },
        LayoutItem::Anchor { slot, element_index } => if slot.0 < anchor_ids.len() {
            Some(RefTarget { id: anchor_ids[slot.0 as int], element_index, logical_index: anchor_logical_index(p) })
        } else {
            None
        },
        _ => None,
    }
}

/// The reference targets of a layout, in item order.
pub open spec fn ref_targets(items: Seq<LayoutItem>, child_ids: Seq<usize>, anchor_ids: Seq<usize>) -> Seq<
    RefTarget,
>
    decreases items.len(),
{
    if items.len() == 0 {
        seq![]
    } else {
        match item_target(items, child_ids, anchor_ids) {
            Some(t) => ref_targets(items.drop_last(), child_ids, anchor_ids).push(t),
            None => ref_targets(items.drop_last(), child_ids, anchor_ids),
        }
    }
}

/// The reference operation for target `k`: one `next` step from the
/// previous target when it is the preceding template sibling, an absolute
/// child lookup otherwise.
pub open spec fn ref_operation(targets: Seq<RefTarget>, parent_id: usize, k: int) -> OperationNode {
    if k > 0 && targets[k].element_index == targets[k - 1].element_index + 1 {
        OperationNode::NextRef(
            NextRefIRNode {
                child_id: targets[k].id,
                prev_id: targets[k - 1].id,
                logical_index: targets[k].logical_index,
            },
        )
    } else {
        OperationNode::ChildRef(
            ChildRefIRNode {
                child_id: targets[k].id,
                parent_id,
                element_index: targets[k].element_index,
                logical_index: targets[k].logical_index,
            },
        )
    }
}

pub open spec fn ref_operations(targets: Seq<RefTarget>, parent_id: usize) -> Seq<OperationNode> {
    Seq::new(targets.len(), |k: int| ref_operation(targets, parent_id, k))
}

/// Append the reference operations for the layout's runtime children and
/// anchors to `block`.
pub fn emit_ref_operations(
    layout: &ChildLayout,
    parent_id: usize,
    block: &mut BlockIRNode,
    child_ids: &[usize],
    anchor_ids: &[usize],
)
    ensures
        final(block).operation@ == old(block).operation@ + ref_operations(
            ref_targets(layout.spec_items(), child_ids@, anchor_ids@),
            parent_id,
        ),
        final(block).returns@ == old(block).returns@,
{
    let items = layout.items();
    let n = items.len();
    let mut runtime: usize = 0;
    let mut logical: usize = 0;
    let mut targets: Vec<RefTarget> = Vec::new();
    for i in 0..n
        invariant
            n == items@.len(),
            items@ == layout.spec_items(),
            runtime == runtime_items_of(items@.take(i as int)).len(),
            runtime <= i,
            logical == logical_total(items@.take(i as int)),
            logical <= i,
            targets@ == ref_targets(items@.take(i as int), child_ids@, anchor_ids@),
    {
        let ghost pre = items@.take(i as int);
        assert(items@.take(i + 1).drop_last() =~= pre);
        assert(items@.take(i + 1).last() == items@[i as int]);
        if i > 0 {
            assert(pre.last() == items@[i - 1]);
        }
        match items[i] {
            LayoutItem::Element { element_index, referenced: true, .. } |
            LayoutItem::TextRun { element_index, dynamic: true, .. } => {
                if runtime < child_ids.len() {
                    targets.push(RefTarget { id: child_ids[runtime], element_index, logical_index: logical });
                }
                runtime = runtime + 1;
            },
            LayoutItem::Inserted { .. } => {
                runtime = runtime + 1;
            },
            LayoutItem::Anchor { slot, element_index } => {
                if slot.index() < anchor_ids.len() {
                    let logical_index = if i > 0 {
                        match items[i - 1] {
                            LayoutItem::Inserted { logical_index, .. } => logical_index,
                            _ => logical,
                        }
                    } else {
                        logical
                    };
                    targets.push(RefTarget { id: anchor_ids[slot.index()], element_index, logical_index });
                }
            },
            _ => {},
        }
        if !matches!(items[i], LayoutItem::Anchor { .. }) {
            logical = logical + 1;
        }
    }
    assert(items@.take(n as int) =~= items@);

    let ghost old_ops = block.operation@;
    let ghost ts = targets@;
    let m = targets.len();
    let mut previous: Option<RefTarget> = None;
    for k in 0..m
        invariant
            m == ts.len(),
            targets@ == ts,
            block.returns@ == old(block).returns@,
            block.operation@ == old_ops + ref_operations(ts, parent_id).take(k as int),
            k > 0 ==> previous == Some(ts[k - 1]),
            k == 0 ==> previous is None,
    {
        let target = targets[k];
        let op = match previous {
            Some(prev) => if prev.element_index < usize::MAX && target.element_index == prev.element_index
                + 1 {
                OperationNode::NextRef(
                    NextRefIRNode { child_id: target.id, prev_id: prev.id, logical_index: target.logical_index },
                )
            } else {
                OperationNode::ChildRef(
                    ChildRefIRNode {
                        child_id: target.id,
                        parent_id,
                        element_index: target.element_index,
                        logical_index: target.logical_index,
                    },
                )
            },
            None => OperationNode::ChildRef(
                ChildRefIRNode {
                    child_id: target.id,
                    parent_id,
                    element_index: target.element_index,
                    logical_index: target.logical_index,
                },
            ),
        };
        assert(op == ref_operation(ts, parent_id, k as int));
        block.operation.push(op);
        assert(ref_operations(ts, parent_id).take(k + 1) =~= ref_operations(ts, parent_id).take(
            k as int,
        ).push(op));
        previous = Some(target);
    }
    assert(ref_operations(ts, parent_id).take(m as int) =~= ref_operations(ts, parent_id));
}

/// The node id that an operation binds.
pub open spec fn bound_id(op: OperationNode) -> usize {
    match op {
        OperationNode::ChildRef(c) => c.child_id,
        OperationNode::NextRef(n) => n.child_id,
        _ => 0,
    }
}

/// The client-template index that reference operation `k` reaches: an
/// absolute lookup reaches its index, a `next` step one past the node that
/// the previous operation reached.
pub open spec fn reached_index(ops: Seq<OperationNode>, k: nat) -> int
    decreases k,
{
    match ops[k as int] {
        OperationNode::ChildRef(c) => c.element_index as int,
        OperationNode::NextRef(_) => if k > 0 {
            reached_index(ops, (k - 1) as nat) + 1
        } else {
            -1
        },
        _ => -1,
    }
}

/// Law: each reference operation binds its target's id, a `next` step only
/// ever starts from the node bound just before it, and following the
/// operations in order reaches every target's client-template index.
pub proof fn law_references_reach_targets(targets: Seq<RefTarget>, parent_id: usize, k: nat)
    requires
        k < targets.len(),
    ensures
        ({
            let ops = ref_operations(targets, parent_id);
            &&& bound_id(ops[k as int]) == targets[k as int].id
            &&& reached_index(ops, k) == targets[k as int].element_index
            &&& ops[k as int] matches OperationNode::NextRef(n) ==> k > 0 && n.prev_id == bound_id(
                ops[k - 1],
            )
            &&& ops[k as int] matches OperationNode::ChildRef(c) ==> c.parent_id == parent_id
        }),
    decreases k,
{
    if k > 0 {
        law_references_reach_targets(targets, parent_id, (k - 1) as nat);
    }
}

/// The targets of `items` reach only indices below the number of template
/// nodes, in strictly increasing order.
proof fn lemma_targets_increasing(items: Seq<LayoutItem>, child_ids: Seq<usize>, anchor_ids: Seq<usize>)
    requires
        aligned(items),
    ensures
        ({
            let ts = ref_targets(items, child_ids, anchor_ids);
            &&& forall|i: int| 0 <= i < ts.len() ==> (#[trigger] ts[i]).element_index < physical_count(items)
            &&& forall|i: int, j: int|
                0 <= i < j < ts.len() ==> (#[trigger] ts[i]).element_index < (#[trigger] ts[j]).element_index
        }),
    decreases items.len(),
{
    if items.len() > 0 {
        let p = items.drop_last();
        let n = items.len() - 1;
        assert forall|i: int| 0 <= i < p.len() && carries_index(#[trigger] p[i]) implies item_element_index(p[i])
            == physical_count(p.take(i)) by {
            assert(p.take(i) =~= items.take(i));
            assert(items[i] == p[i]);
        }
        lemma_targets_increasing(p, child_ids, anchor_ids);
        assert(items.take(n) =~= p);
        assert(items[n] == items.last());
        let tp = ref_targets(p, child_ids, anchor_ids);
        let ts = ref_targets(items, child_ids, anchor_ids);
        match item_target(items, child_ids, anchor_ids) {
            Some(t) => {
                assert(carries_index(items[n]));
                assert(t.element_index == physical_count(p));
                assert(ts == tp.push(t));
                assert forall|i: int, j: int| 0 <= i < j < ts.len() implies (#[trigger] ts[i]).element_index
                    < (#[trigger] ts[j]).element_index by {
                    assert(ts[i] == tp[i]);
                    if j < tp.len() {
                        assert(ts[j] == tp[j]);
                    }
                }
                assert forall|i: int| 0 <= i < ts.len() implies (#[trigger] ts[i]).element_index
                    < physical_count(items) by {
                    if i < tp.len() {
                        assert(ts[i] == tp[i]);
                    }
                }
            },
            None => {},
        }
    }
}

/// Law: the reference targets of a child layout follow the client template
/// strictly in order, so each reference can only step forward.
pub proof fn law_targets_in_template_order(items: Seq<LayoutItem>, child_ids: Seq<usize>, anchor_ids: Seq<usize>)
    requires
        aligned(items),
    ensures
        forall|i: int, j: int|
            0 <= i < j < ref_targets(items, child_ids, anchor_ids).len() ==> (#[trigger] ref_targets(
                items,
                child_ids,
                anchor_ids,
            )[i]).element_index < (#[trigger] ref_targets(items, child_ids, anchor_ids)[j]).element_index,
{
    lemma_targets_increasing(items, child_ids, anchor_ids);
}

/// The node id that a child lowering gives its child (`None` for a skip).
pub open spec fn lowering_id(l: ChildLowering) -> Option<usize> {
    match l {
        ChildLowering::ExistingElement { id, .. } => Some(id),
        ChildLowering::SlotOutlet { id, .. } => Some(id),
        ChildLowering::Component { id, .. } => Some(id),
        ChildLowering::If { id, .. } => Some(id),
        ChildLowering::For { id, .. } => Some(id),
        ChildLowering::Skip => None,
    }
}

/// The insertion point that a child lowering carries (`None` for a skip).
pub open spec fn lowering_insertion(l: ChildLowering) -> Option<InsertionState> {
    match l {
        ChildLowering::ExistingElement { insertion, .. } => insertion,
        ChildLowering::SlotOutlet { insertion, .. } => insertion,
        ChildLowering::Component { insertion, .. } => insertion,
        ChildLowering::If { insertion, .. } => insertion,
        ChildLowering::For { insertion, .. } => insertion,
        ChildLowering::Skip => None,
    }
}

/// Law: a runtime child (an element, `v-if` or `v-for`) is lowered with its
/// own id and by its kind: a `v-if` as a `v-if` block, a `v-for` as a
/// `v-for` block, a `<slot>` as a slot outlet, a component as a component.
/// An inserted block keeps its place: before the id of the anchor its slot
/// names, or appended, with its logical index, into the parent; a child of
/// the client template (no inserted item) is not inserted.
pub proof fn law_child_lowering_keeps_insertion(
    node: TemplateChildNode,
    item: LayoutItem,
    id: usize,
    parent: usize,
    anchor_ids: Seq<usize>,
)
    requires
        node is Element || node is If || node is For,
    ensures
        ({
            let l = spec_child_lowering(node, item, id, parent, anchor_ids);
            &&& lowering_id(l) == Some(id)
            &&& match node {
                TemplateChildNode::Element(e) => {
                    &&& e.tag_type == ElementType::Slot ==> (l is SlotOutlet)
                    &&& e.tag_type == ElementType::Component ==> (l is Component)
                },
                TemplateChildNode::If => l is If,
                TemplateChildNode::For => l is For,
                _ => true,
            }
            &&& match item {
                LayoutItem::Inserted { logical_index, insertion: InsertionPlan::Before(slot), .. } => lowering_insertion(l)
                    == Some(InsertionState { parent, anchor: InsertionAnchor::Before(anchor_ids[slot.0 as int]), logical_index }),
                LayoutItem::Inserted { logical_index, insertion: InsertionPlan::Append, .. } => lowering_insertion(l)
                    == Some(InsertionState { parent, anchor: InsertionAnchor::Append, logical_index }),
                _ => lowering_insertion(l) is None,
            }
        }),
{
}

/// The reference targets of a prefix of the items are a prefix of the
/// reference targets of all the items.
proof fn lemma_ref_targets_prefix(items: Seq<LayoutItem>, child_ids: Seq<usize>, anchor_ids: Seq<usize>, j: int)
    requires
        0 <= j <= items.len(),
    ensures
        ref_targets(items.take(j), child_ids, anchor_ids).len() <= ref_targets(items, child_ids, anchor_ids).len(),
        forall|k: int|
            0 <= k < ref_targets(items.take(j), child_ids, anchor_ids).len() ==> #[trigger] ref_targets(
                items.take(j),
                child_ids,
                anchor_ids,
            )[k] == ref_targets(items, child_ids, anchor_ids)[k],
    decreases items.len(),
{
    if j < items.len() {
        let p = items.drop_last();
        lemma_ref_targets_prefix(p, child_ids, anchor_ids, j);
        assert(p.take(j) =~= items.take(j));
        let tp = ref_targets(p, child_ids, anchor_ids);
        let ts = ref_targets(items, child_ids, anchor_ids);
        assert forall|k: int| 0 <= k < tp.len() implies #[trigger] tp[k] == ts[k] by {}
    } else {
        assert(items.take(j) =~= items);
    }
}

/// The child ids and the anchor ids are all different from each other.
pub open spec fn ids_distinct(child_ids: Seq<usize>, anchor_ids: Seq<usize>) -> bool {
    &&& forall|i: int, j: int| 0 <= i < j < child_ids.len() ==> child_ids[i] != child_ids[j]
    &&& forall|i: int, j: int| 0 <= i < j < anchor_ids.len() ==> anchor_ids[i] != anchor_ids[j]
    &&& forall|i: int, j: int|
        0 <= i < child_ids.len() && 0 <= j < anchor_ids.len() ==> child_ids[i] != anchor_ids[j]
}

/// The id is one of the first `r` child ids or one of the first `s` anchor ids.
pub open spec fn id_among(id: usize, child_ids: Seq<usize>, r: nat, anchor_ids: Seq<usize>, s: nat) -> bool {
    ||| exists|x: int| 0 <= x < r && x < child_ids.len() && id == child_ids[x]
    ||| exists|y: int| 0 <= y < s && y < anchor_ids.len() && id == anchor_ids[y]
}

/// Each reference target takes a child id of a runtime item or the anchor
/// id of an anchor before it, so distinct ids make distinct targets.
proof fn lemma_target_ids(items: Seq<LayoutItem>, child_ids: Seq<usize>, anchor_ids: Seq<usize>)
    requires
        slots_in_order(items),
        ids_distinct(child_ids, anchor_ids),
    ensures
        ({
            let ts = ref_targets(items, child_ids, anchor_ids);
            &&& forall|k: int|
                0 <= k < ts.len() ==> id_among(
                    (#[trigger] ts[k]).id,
                    child_ids,
                    runtime_items_of(items).len(),
                    anchor_ids,
                    anchor_total(items),
                )
            &&& forall|k1: int, k2: int| 0 <= k1 < k2 < ts.len() ==> (#[trigger] ts[k1]).id != (#[trigger] ts[k2]).id
        }),
    decreases items.len(),
{
    if items.len() > 0 {
        let p = items.drop_last();
        let n = items.len() - 1;
        assert(items.take(n) =~= p);
        assert(items[n] == items.last());
        assert(slots_in_order(p)) by {
            assert forall|i: int| 0 <= i < p.len() && #[trigger] p[i] is Anchor implies before_slot(p[i]).0
                == anchor_total(p.take(i)) by {
                assert(p[i] == items[i]);
                assert(p.take(i) =~= items.take(i));
            }
        }
        lemma_target_ids(p, child_ids, anchor_ids);
        let tp = ref_targets(p, child_ids, anchor_ids);
        let ts = ref_targets(items, child_ids, anchor_ids);
        let rp = runtime_items_of(p).len();
        let ap = anchor_total(p);
        let ri = runtime_items_of(items).len();
        let ai = anchor_total(items);
        assert(rp <= ri && ap <= ai);
        assert forall|k: int| 0 <= k < tp.len() implies id_among((#[trigger] tp[k]).id, child_ids, ri, anchor_ids, ai) by {
            assert(id_among(tp[k].id, child_ids, rp, anchor_ids, ap));
        }
        match item_target(items, child_ids, anchor_ids) {
            Some(t) => {
                assert(ts == tp.push(t));
                assert(!id_among(t.id, child_ids, rp, anchor_ids, ap)) by {
                    match items.last() {
                        LayoutItem::Anchor { slot, .. } => {
                            assert(slot.0 == ap);
                            assert(t.id == anchor_ids[ap as int]);
                        },
                        _ => {
                            assert(t.id == child_ids[rp as int]);
                        },
                    }
                }
                assert(id_among(t.id, child_ids, ri, anchor_ids, ai)) by {
                    match items.last() {
                        LayoutItem::Anchor { slot, .. } => {
                            assert(t.id == anchor_ids[ap as int]);
                        },
                        _ => {
                            assert(t.id == child_ids[rp as int]);
                        },
                    }
                }
                assert forall|k: int| 0 <= k < ts.len() implies id_among(
                    (#[trigger] ts[k]).id,
                    child_ids,
                    ri,
                    anchor_ids,
                    ai,
                ) by {
                    if k < tp.len() {
                        assert(ts[k] == tp[k]);
                    }
                }
                assert forall|k1: int, k2: int| 0 <= k1 < k2 < ts.len() implies (#[trigger] ts[k1]).id != (
                #[trigger] ts[k2]).id by {
                    assert(ts[k1] == tp[k1]);
                    if k2 < tp.len() {
                        assert(ts[k2] == tp[k2]);
                    } else {
                        assert(id_among(tp[k1].id, child_ids, rp, anchor_ids, ap));
                    }
                }
            },
            None => {},
        }
    }
}

/// Law: the reference operations of a layout bind each anchor to its own
/// id: the anchor with slot `s` is bound to `anchor_ids[s]` and reached at
/// its client-template index. Given distinct ids, no two operations bind
/// the same id, and every anchor id that an inserted block names is bound.
#[verifier::rlimit(40)]
pub proof fn law_anchor_references_bind_their_ids(
    children: Seq<TemplateChildNode>,
    process_dynamic_keys: bool,
    parent_id: usize,
    child_ids: Seq<usize>,
    anchor_ids: Seq<usize>,
)
    requires
        flatten(children).len() <= usize::MAX,
        anchor_ids.len() == layout_of(children, process_dynamic_keys).anchor_count,
        ids_distinct(child_ids, anchor_ids),
    ensures
        ({
            let items = layout_of(children, process_dynamic_keys).items;
            let ops = ref_operations(ref_targets(items, child_ids, anchor_ids), parent_id);
            &&& forall|i: int|
                0 <= i < items.len() && (#[trigger] items[i]) is Anchor ==> exists|k: int|
                    0 <= k < ops.len() && bound_id(ops[k]) == anchor_ids[before_slot(items[i]).0 as int]
                        && reached_index(ops, k as nat) == item_element_index(items[i])
            &&& forall|i: int|
                0 <= i < items.len() && is_before(#[trigger] items[i]) ==> exists|k: int|
                    0 <= k < ops.len() && bound_id(ops[k]) == anchor_ids[before_slot(items[i]).0 as int]
            &&& forall|k1: int, k2: int|
                0 <= k1 < k2 < ops.len() ==> bound_id(#[trigger] ops[k1]) != bound_id(#[trigger] ops[k2])
        }),
{
    let items = layout_of(children, process_dynamic_keys).items;
    law_anchor_slots_in_order(children, process_dynamic_keys);
    law_anchors_follow_their_blocks(children, process_dynamic_keys);
    law_insertion_slots_below_anchor_count(children, process_dynamic_keys);
    lemma_target_ids(items, child_ids, anchor_ids);
    let ts = ref_targets(items, child_ids, anchor_ids);
    let ops = ref_operations(ts, parent_id);
    assert forall|i: int| 0 <= i < items.len() && (#[trigger] items[i]) is Anchor implies exists|k: int|
        0 <= k < ops.len() && bound_id(ops[k]) == anchor_ids[before_slot(items[i]).0 as int] && reached_index(
            ops,
            k as nat,
        ) == item_element_index(items[i]) by {
        assert(is_before(items[i - 1]));
        assert(before_slot(items[i - 1]) == before_slot(items[i]));
        let pre = items.take(i + 1);
        assert(pre.drop_last() =~= items.take(i));
        assert(pre.last() == items[i]);
        lemma_ref_targets_prefix(items, child_ids, anchor_ids, i + 1);
        lemma_ref_targets_prefix(items, child_ids, anchor_ids, i);
        let k = ref_targets(items.take(i), child_ids, anchor_ids).len() as int;
        assert(ref_targets(pre, child_ids, anchor_ids)[k] == ts[k]);
        law_references_reach_targets(ts, parent_id, k as nat);
    }
    assert forall|i: int| 0 <= i < items.len() && is_before(#[trigger] items[i]) implies exists|k: int|
        0 <= k < ops.len() && bound_id(ops[k]) == anchor_ids[before_slot(items[i]).0 as int] by {
        assert(items[i + 1] is Anchor);
    }
    assert forall|k1: int, k2: int| 0 <= k1 < k2 < ops.len() implies bound_id(#[trigger] ops[k1]) != bound_id(
        #[trigger] ops[k2],
    ) by {
        law_references_reach_targets(ts, parent_id, k1 as nat);
        law_references_reach_targets(ts, parent_id, k2 as nat);
    }
}

} // verus!
