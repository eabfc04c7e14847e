//! Ordered physical-template and logical-hydration layout for direct children.
//!
//! Plain `<template>` wrappers are transparent. `element_index` addresses the
//! client template. Concrete anchors keep that index aligned with hydration;
//! `logical_index` is retained only for blocks appended after the template.

use vstd::prelude::*;
use vstd::slice::slice_subrange;
use crate::ast::{str_is, ElementNode, ElementType, TemplateChildNode};
use crate::element::{is_plain_element, spec_is_plain_element};
use crate::key::{has_dynamic_key, spec_has_dynamic_key};

verus! {

/// A concrete placeholder node in the client template, before which a block
/// is inserted at runtime.
#[derive(Debug, Clone, Copy, PartialEq, Eq, Structural)]
pub struct AnchorSlot(pub usize);

impl AnchorSlot {
    /// Position of this anchor among the anchors of one parent.
    pub fn index(self) -> (r: usize)
        ensures
            r == self.0,
    {
        self.0
    }
}

/// Where a runtime-created block goes in its parent.
#[derive(Debug, Clone, Copy, PartialEq, Eq, Structural)]
pub enum InsertionPlan {
    Before(AnchorSlot),
    Append,
}

/// One entry of a child layout.
#[derive(Debug, Clone, Copy, PartialEq, Eq, Structural)]
pub enum LayoutItem {
    Element { flat_index: usize, element_index: usize, referenced: bool },
    TextRun { start: usize, end: usize, element_index: usize, dynamic: bool },
    Comment { flat_index: usize },
    Inserted { flat_index: usize, logical_index: usize, insertion: InsertionPlan },
    Anchor { slot: AnchorSlot, element_index: usize },
}

impl LayoutItem {
    pub open spec fn spec_requires_runtime_id(self) -> bool {
        match self {
            LayoutItem::Element { referenced, .. } => referenced,
            LayoutItem::TextRun { dynamic, .. } => dynamic,
            LayoutItem::Inserted { .. } => true,
            _ => false,
        }
    }

    /// Whether the item needs a runtime node id.
    #[verifier::when_used_as_spec(spec_requires_runtime_id)]
    pub fn requires_runtime_id(self) -> (r: bool)
        ensures
            r == self.spec_requires_runtime_id(),
    {
        match self {
            LayoutItem::Element { referenced, .. } => referenced,
            LayoutItem::TextRun { dynamic, .. } => dynamic,
            LayoutItem::Inserted { .. } => true,
            _ => false,
        }
    }
}

/// A block child waiting for the next concrete child (or the end).
#[derive(Debug, Clone, Copy, PartialEq, Eq, Structural)]
pub struct PendingInsertion {
    pub flat_index: usize,
    pub logical_index: usize,
}

/// A `<template>` element typed as a template wrapper: transparent for layout.
pub open spec fn is_template_wrapper(node: TemplateChildNode) -> bool {
    node matches TemplateChildNode::Element(e) && e.tag_type == ElementType::Template
}

/// What one child contributes to the flattened list: the flattened children
/// of a plain `<template>` wrapper, the child itself otherwise.
pub open spec fn expand(node: TemplateChildNode) -> Seq<TemplateChildNode>
    decreases node,
{
    match node {
        TemplateChildNode::Element(e) => if e.tag_type == ElementType::Template {
            proof {
                assert(decreases_to!(e.children => e.children@));
            }
            flatten(e.children@)
        } else {
            seq![node]
        },
        _ => seq![node],
    }
}

/// The children with every plain `<template>` wrapper replaced, recursively,
/// by its own children.
pub open spec fn flatten(nodes: Seq<TemplateChildNode>) -> Seq<TemplateChildNode>
    decreases nodes,
{
    if nodes.len() == 0 {
        seq![]
    } else {
        expand(nodes[0]) + flatten(nodes.subrange(1, nodes.len() as int))
    }
}

/// The number of stack steps needed to flatten a node.
pub open spec fn node_weight(node: TemplateChildNode) -> nat
    decreases node,
{
    match node {
        TemplateChildNode::Element(e) => if e.tag_type == ElementType::Template {
            proof {
                assert(decreases_to!(e.children => e.children@));
            }
            1 + forest_weight(e.children@)
        } else {
            1
        },
        _ => 1,
    }
}

pub open spec fn forest_weight(nodes: Seq<TemplateChildNode>) -> nat
    decreases nodes,
{
    if nodes.len() == 0 {
        0
    } else {
        node_weight(nodes[0]) + forest_weight(nodes.subrange(1, nodes.len() as int))
    }
}

/// A work stack, popped from its end.
pub open spec fn stack_flatten(p: Seq<&TemplateChildNode>) -> Seq<TemplateChildNode>
    decreases p.len(),
{
    if p.len() == 0 {
        seq![]
    } else {
        expand(*p.last()) + stack_flatten(p.drop_last())
    }
}

pub open spec fn stack_weight(p: Seq<&TemplateChildNode>) -> nat
    decreases p.len(),
{
    if p.len() == 0 {
        0
    } else {
        node_weight(*p.last()) + stack_weight(p.drop_last())
    }
}

pub open spec fn deref_all(p: Seq<&TemplateChildNode>) -> Seq<TemplateChildNode> {
    p.map_values(|c: &TemplateChildNode| *c)
}

/// Push `nodes` in reverse so that popping yields them in order.
fn push_reversed<'node>(nodes: &'node [TemplateChildNode], stack: &mut Vec<&'node TemplateChildNode>)
    ensures
        stack_flatten(final(stack)@) == flatten(nodes@) + stack_flatten(old(stack)@),
        stack_weight(final(stack)@) == forest_weight(nodes@) + stack_weight(old(stack)@),
{
    let n = nodes.len();
    let mut j = n;
    assert(nodes@.subrange(n as int, n as int) =~= Seq::<TemplateChildNode>::empty());
    assert(stack_flatten(stack@) =~= flatten(nodes@.subrange(j as int, n as int)) + stack_flatten(old(stack)@));
    while j > 0
        invariant
            n == nodes@.len(),
            j <= n,
            stack_flatten(stack@) == flatten(nodes@.subrange(j as int, n as int)) + stack_flatten(old(stack)@),
            stack_weight(stack@) == forest_weight(nodes@.subrange(j as int, n as int)) + stack_weight(old(stack)@),
        decreases j,
    {
        let ghost before = stack@;
        let child: &'node TemplateChildNode = &nodes[j - 1];
        stack.push(child);
        proof {
            assert(stack@.drop_last() =~= before);
            let sub = nodes@.subrange(j - 1, n as int);
            assert(sub.subrange(1, sub.len() as int) =~= nodes@.subrange(j as int, n as int));
            assert(sub[0] == *child);
        }
        j = j - 1;
        assert(stack_flatten(stack@) =~= flatten(nodes@.subrange(j as int, n as int)) + stack_flatten(old(stack)@));
    }
    assert(nodes@.subrange(0, n as int) =~= nodes@);
}

/// Append the children to `flat`, looking through plain `<template>` wrappers.
fn flatten_children<'node>(children: &'node [TemplateChildNode], flat: &mut Vec<&'node TemplateChildNode>)
    ensures
        deref_all(final(flat)@) == deref_all(old(flat)@) + flatten(children@),
{
    let mut pending: Vec<&'node TemplateChildNode> = Vec::new();
    push_reversed(children, &mut pending);
    assert(flatten(children@) + stack_flatten(Seq::<&TemplateChildNode>::empty()) =~= flatten(children@));
    assert(deref_all(flat@) + stack_flatten(pending@) =~= deref_all(old(flat)@) + flatten(children@));
    while pending.len() > 0
        invariant
            deref_all(flat@) + stack_flatten(pending@) == deref_all(old(flat)@) + flatten(children@),
        decreases stack_weight(pending@),
    {
        let ghost before = pending@;
        let child = pending.pop().unwrap();
        assert(pending@ == before.drop_last());
        assert(*child == *before.last());
        match child {
            TemplateChildNode::Element(element) if element.tag_type == ElementType::Template => {
                let ghost mid = pending@;
                push_reversed(element.children.as_slice(), &mut pending);
                assert(deref_all(flat@) + stack_flatten(pending@) =~= deref_all(old(flat)@) + flatten(children@));
            },
            _ => {
                let ghost f = flat@;
                flat.push(child);
                assert(deref_all(flat@) =~= deref_all(f).push(*child));
                assert(deref_all(flat@) + stack_flatten(pending@) =~= deref_all(old(flat)@) + flatten(children@));
            },
        }
    }
}

/// How child layout treats one flattened child.
#[derive(Debug, Clone, Copy, PartialEq, Eq, Structural)]
pub enum ChildClass {
    /// Created at runtime and inserted into the parent (components, slots,
    /// keyed elements, `v-if`, `v-for`, ...).
    Block,
    /// A native element of the client template.
    Element { referenced: bool },
    /// A text or interpolation node; adjacent ones share one template node.
    Text { dynamic: bool },
    Comment,
    /// Not placed by the layout.
    Ignored,
}

/// An element child that is lowered as a runtime block.
pub open spec fn is_block_element(e: ElementNode, process_dynamic_keys: bool) -> bool {
    ||| e.tag_type != ElementType::Element
    ||| e.tag@ == "component"@
    ||| e.tag@ == "Component"@
    ||| spec_is_plain_element(e)
    ||| (process_dynamic_keys && spec_has_dynamic_key(e))
}

pub open spec fn classify(node: TemplateChildNode, process_dynamic_keys: bool) -> ChildClass {
    match node {
        TemplateChildNode::Element(e) => if is_block_element(e, process_dynamic_keys) {
            ChildClass::Block
        } else {
            ChildClass::Element { referenced: !e.is_static }
        },
        TemplateChildNode::If => ChildClass::Block,
        TemplateChildNode::For => ChildClass::Block,
        TemplateChildNode::Text(_) => ChildClass::Text { dynamic: false },
        TemplateChildNode::Interpolation(_) => ChildClass::Text { dynamic: true },
        TemplateChildNode::Comment(_) => ChildClass::Comment,
        TemplateChildNode::Other => ChildClass::Ignored,
    }
}

pub open spec fn classes(nodes: Seq<TemplateChildNode>, process_dynamic_keys: bool) -> Seq<ChildClass> {
    Seq::new(nodes.len(), |i: int| classify(nodes[i], process_dynamic_keys))
}

/// The state of the layout analysis after a prefix of the children.
pub struct LayoutState {
    pub items: Seq<LayoutItem>,
    pub pending: Seq<PendingInsertion>,
    pub element_index: usize,
    pub logical_index: usize,
    pub anchor_count: usize,
}

pub open spec fn initial_state() -> LayoutState {
    LayoutState {
        items: seq![],
        pending: seq![],
        element_index: 0,
        logical_index: 0,
        anchor_count: 0,
    }
}

/// Place one pending block: before a fresh anchor when a concrete child
/// follows, appended otherwise.
pub open spec fn flush_one(s: LayoutState, p: PendingInsertion, before: bool) -> LayoutState {
    if before {
        let slot = AnchorSlot(s.anchor_count);
        LayoutState {
            items: s.items.push(
                LayoutItem::Inserted {
                    flat_index: p.flat_index,
                    logical_index: p.logical_index,
                    insertion: InsertionPlan::Before(slot),
                },
            ).push(LayoutItem::Anchor { slot, element_index: s.element_index }),
            pending: s.pending,
            element_index: (s.element_index + 1) as usize,
            logical_index: s.logical_index,
            anchor_count: (s.anchor_count + 1) as usize,
        }
    } else {
        LayoutState {
            items: s.items.push(
                LayoutItem::Inserted {
                    flat_index: p.flat_index,
                    logical_index: p.logical_index,
                    insertion: InsertionPlan::Append,
                },
            ),
            pending: s.pending,
            element_index: s.element_index,
            logical_index: s.logical_index,
            anchor_count: s.anchor_count,
        }
    }
}

pub open spec fn flush_prefix(s: LayoutState, pending: Seq<PendingInsertion>, before: bool) -> LayoutState
    decreases pending.len(),
{
    if pending.len() == 0 {
        s
    } else {
        flush_one(flush_prefix(s, pending.drop_last(), before), pending.last(), before)
    }
}

/// Place every pending block, in order.
pub open spec fn flush(s: LayoutState, before: bool) -> LayoutState {
    let t = flush_prefix(s, s.pending, before);
    LayoutState {
        items: t.items,
        pending: seq![],
        element_index: t.element_index,
        logical_index: t.logical_index,
        anchor_count: t.anchor_count,
    }
}

/// Record one concrete item after placing the pending blocks before it.
pub open spec fn push_concrete(s: LayoutState, item: LayoutItem) -> LayoutState {
    let t = flush(s, true);
    LayoutState {
        items: t.items.push(item),
        pending: t.pending,
        element_index: (t.element_index + 1) as usize,
        logical_index: (t.logical_index + 1) as usize,
        anchor_count: t.anchor_count,
    }
}

/// One step of the analysis: child `k` has class `c`.
pub open spec fn step(s: LayoutState, k: usize, c: ChildClass) -> LayoutState {
    match c {
        ChildClass::Block => LayoutState {
            items: s.items,
            pending: s.pending.push(PendingInsertion { flat_index: k, logical_index: s.logical_index }),
            element_index: s.element_index,
            logical_index: (s.logical_index + 1) as usize,
            anchor_count: s.anchor_count,
        },
        ChildClass::Element { referenced } => {
            let t = flush(s, true);
            push_concrete(s, LayoutItem::Element { flat_index: k, element_index: t.element_index, referenced })
        },
        ChildClass::Text { dynamic } => {
            let t = flush(s, true);
            if t.items.len() > 0 && t.items.last() is TextRun {
                match t.items.last() {
                    LayoutItem::TextRun { start, end, element_index, dynamic: run_dynamic } => LayoutState {
                        items: t.items.update(
                            t.items.len() - 1,
                            LayoutItem::TextRun {
                                start,
                                end: (k + 1) as usize,
                                element_index,
                                dynamic: run_dynamic || dynamic,
                            },
                        ),
                        pending: t.pending,
                        element_index: t.element_index,
                        logical_index: t.logical_index,
                        anchor_count: t.anchor_count,
                    },
                    _ => t,
                }
            } else {
                push_concrete(
                    s,
                    LayoutItem::TextRun {
                        start: k,
                        end: (k + 1) as usize,
                        element_index: t.element_index,
                        dynamic,
                    },
                )
            }
        },
        ChildClass::Comment => push_concrete(s, LayoutItem::Comment { flat_index: k }),
        ChildClass::Ignored => s,
    }
}

/// The analysis after the first `k` children.
pub open spec fn analyze_prefix(cs: Seq<ChildClass>, k: nat) -> LayoutState
    decreases k,
{
    if k == 0 {
        initial_state()
    } else {
        step(analyze_prefix(cs, (k - 1) as nat), (k - 1) as usize, cs[k - 1])
    }
}

/// The complete analysis: trailing blocks are appended.
pub open spec fn analyze(cs: Seq<ChildClass>) -> LayoutState {
    flush(analyze_prefix(cs, cs.len()), false)
}

/// The layout of a list of children.
pub open spec fn layout_of(children: Seq<TemplateChildNode>, process_dynamic_keys: bool) -> LayoutState {
    analyze(classes(flatten(children), process_dynamic_keys))
}

/// The counters of a prefix analysis stay below the number of children seen.
pub proof fn lemma_prefix_bounds(cs: Seq<ChildClass>, k: nat)
    requires
        k <= cs.len(),
        cs.len() <= usize::MAX,
    ensures
        analyze_prefix(cs, k).element_index + analyze_prefix(cs, k).pending.len() <= k,
        analyze_prefix(cs, k).logical_index <= k,
        analyze_prefix(cs, k).anchor_count <= analyze_prefix(cs, k).element_index,
        forall|j: int|
            0 <= j < analyze_prefix(cs, k).pending.len() ==> #[trigger] analyze_prefix(cs, k).pending[j].flat_index < k,
    decreases k,
{
    if k > 0 {
        lemma_prefix_bounds(cs, (k - 1) as nat);
        let s = analyze_prefix(cs, (k - 1) as nat);
        lemma_flush_counts(s, s.pending, true);
        lemma_flush_counts(s, s.pending, false);
    }
}

/// Flushing adds one element index and one anchor per placed block (before
/// anchors), and leaves the logical index alone.
pub proof fn lemma_flush_counts(s: LayoutState, pending: Seq<PendingInsertion>, before: bool)
    requires
        s.element_index + pending.len() <= usize::MAX,
        s.anchor_count <= s.element_index,
    ensures
        flush_prefix(s, pending, before).element_index == s.element_index + (if before { pending.len() } else { 0 }),
        flush_prefix(s, pending, before).anchor_count == s.anchor_count + (if before { pending.len() } else { 0 }),
        flush_prefix(s, pending, before).logical_index == s.logical_index,
        flush_prefix(s, pending, before).pending == s.pending,
    decreases pending.len(),
{
    if pending.len() > 0 {
        lemma_flush_counts(s, pending.drop_last(), before);
    }
}


/// Flushing does not read the logical index.
pub proof fn lemma_flush_logical(s: LayoutState, pending: Seq<PendingInsertion>, logical_index: usize, before: bool)
    ensures
        ({
            let s2 = LayoutState {
                items: s.items,
                pending: s.pending,
                element_index: s.element_index,
                logical_index,
                anchor_count: s.anchor_count,
            };
            let t = flush_prefix(s, pending, before);
            let t2 = flush_prefix(s2, pending, before);
            &&& t2.items == t.items
            &&& t2.element_index == t.element_index
            &&& t2.anchor_count == t.anchor_count
            &&& t2.pending == t.pending
        }),
    decreases pending.len(),
{
    if pending.len() > 0 {
        lemma_flush_logical(s, pending.drop_last(), logical_index, before);
    }
}

/// The items that need a runtime node id, in order.
pub open spec fn runtime_items_of(items: Seq<LayoutItem>) -> Seq<LayoutItem>
    decreases items.len(),
{
    if items.len() == 0 {
        seq![]
    } else if items.last().spec_requires_runtime_id() {
        runtime_items_of(items.drop_last()).push(items.last())
    } else {
        runtime_items_of(items.drop_last())
    }
}

/// The layout is a single text run with an interpolation: its parent
/// sets the text directly.
pub open spec fn parent_text_run_of(items: Seq<LayoutItem>) -> Option<(usize, usize)> {
    if items.len() == 1 {
        match items[0] {
            LayoutItem::TextRun { start, end, dynamic, .. } => if dynamic {
                Some((start, end))
            } else {
                None
            },
            _ => None,
        }
    } else {
        None
    }
}

/// Item `item` of a layout with `len` items makes the parent allocate ids
/// for its children.
pub open spec fn is_dynamic_child(item: LayoutItem, len: nat) -> bool {
    match item {
        LayoutItem::Element { referenced, .. } => referenced,
        LayoutItem::Inserted { .. } => true,
        LayoutItem::TextRun { dynamic, .. } => dynamic && len != 1,
        _ => false,
    }
}

pub open spec fn has_dynamic_children_of(items: Seq<LayoutItem>) -> bool {
    exists|i: int| 0 <= i < items.len() && is_dynamic_child(#[trigger] items[i], items.len())
}

/// One linear plan shared by child lowering and static-template generation.
pub struct ChildLayout<'node> {
    children: Vec<&'node TemplateChildNode>,
    items: Vec<LayoutItem>,
    anchor_count: usize,
    process_dynamic_keys: bool,
}

/// Whether an element child is lowered as a runtime block.
fn is_block_element_exec(e: &ElementNode, process_dynamic_keys: bool) -> (r: bool)
    ensures
        r == is_block_element(*e, process_dynamic_keys),
{
    e.tag_type != ElementType::Element || str_is(&e.tag, "component") || str_is(&e.tag, "Component")
        || is_plain_element(e) || (process_dynamic_keys && has_dynamic_key(e))
}

impl<'node> ChildLayout<'node> {
    /// The flattened children.
    pub closed spec fn spec_children(&self) -> Seq<TemplateChildNode> {
        self.children@.map_values(|c: &TemplateChildNode| *c)
    }

    pub closed spec fn spec_items(&self) -> Seq<LayoutItem> {
        self.items@
    }

    pub closed spec fn spec_anchor_count(&self) -> usize {
        self.anchor_count
    }

    pub closed spec fn spec_process_dynamic_keys(&self) -> bool {
        self.process_dynamic_keys
    }

    /// The analysis state that the fields hold together with the loop locals.
    spec fn holds_state(
        &self,
        pending: Seq<PendingInsertion>,
        element_index: usize,
        logical_index: usize,
        s: LayoutState,
    ) -> bool {
        &&& self.items@ == s.items
        &&& pending == s.pending
        &&& element_index == s.element_index
        &&& logical_index == s.logical_index
        &&& self.anchor_count == s.anchor_count
    }

    /// Place every pending block: before a fresh anchor when a concrete child
    /// at `next_flat_index` follows, appended at the end otherwise.
    fn flush_insertions(
        &mut self,
        pending: &mut Vec<PendingInsertion>,
        element_index: &mut usize,
        next_flat_index: Option<usize>,
    )
        requires
            *old(element_index) + old(pending)@.len() <= usize::MAX,
            old(self).anchor_count <= *old(element_index),
            next_flat_index matches Some(n) ==> forall|j: int|
                0 <= j < old(pending)@.len() ==> #[trigger] old(pending)@[j].flat_index < n,
        ensures
            ({
                let s = LayoutState {
                    items: old(self).items@,
                    pending: old(pending)@,
                    element_index: *old(element_index),
                    logical_index: 0,
                    anchor_count: old(self).anchor_count,
                };
                let t = flush(s, next_flat_index is Some);
                &&& final(self).items@ == t.items
                &&& *final(element_index) == t.element_index
                &&& final(self).anchor_count == t.anchor_count
                &&& final(pending)@ == t.pending
            }),
            final(self).children@ == old(self).children@,
            final(self).process_dynamic_keys == old(self).process_dynamic_keys,
    {
        let ghost s = LayoutState {
            items: self.items@,
            pending: pending@,
            element_index: *element_index,
            logical_index: 0,
            anchor_count: self.anchor_count,
        };
        if pending.len() == 0 {
            assert(flush_prefix(s, s.pending, next_flat_index is Some) == s);
            return;
        }
        let before = next_flat_index.is_some();
        let n = pending.len();
        proof {
            lemma_flush_counts(s, pending@, before);
        }
        for i in 0..n
            invariant
                n == pending@.len(),
                pending@ == s.pending,
                before == next_flat_index is Some,
                s.element_index + n <= usize::MAX,
                s.anchor_count <= s.element_index,
                next_flat_index matches Some(m) ==> forall|j: int|
                    0 <= j < s.pending.len() ==> #[trigger] s.pending[j].flat_index < m,
                self.children@ == old(self).children@,
                self.process_dynamic_keys == old(self).process_dynamic_keys,
                ({
                    let t = flush_prefix(s, s.pending.take(i as int), before);
                    &&& self.items@ == t.items
                    &&& *element_index == t.element_index
                    &&& self.anchor_count == t.anchor_count
                }),
        {
            proof {
                lemma_flush_counts(s, s.pending.take(i as int), before);
                assert(s.pending.take(i + 1).drop_last() =~= s.pending.take(i as int));
            }
            let child = pending[i];
            let insertion = if let Some(next) = next_flat_index {
                assert(child.flat_index < next);
                InsertionPlan::Before(AnchorSlot(self.anchor_count))
            } else {
                InsertionPlan::Append
            };
            self.items.push(
                LayoutItem::Inserted {
                    flat_index: child.flat_index,
                    logical_index: child.logical_index,
                    insertion,
                },
            );
            if let InsertionPlan::Before(slot) = insertion {
                self.items.push(LayoutItem::Anchor { slot, element_index: *element_index });
                self.anchor_count = self.anchor_count + 1;
                *element_index = *element_index + 1;
            }
        }
        assert(s.pending.take(n as int) =~= s.pending);
        pending.clear();
    }

    /// Walk the flattened children once, building the items.
    fn analyze(&mut self)
        requires
            old(self).items@ == Seq::<LayoutItem>::empty(),
            old(self).anchor_count == 0,
        ensures
            ({
                let t = analyze(classes(old(self).spec_children(), old(self).process_dynamic_keys));
                &&& final(self).items@ == t.items
                &&& final(self).anchor_count == t.anchor_count
            }),
            final(self).children@ == old(self).children@,
            final(self).process_dynamic_keys == old(self).process_dynamic_keys,
    {
        let ghost cs = classes(self.spec_children(), self.process_dynamic_keys);
        let mut element_index: usize = 0;
        let mut logical_index: usize = 0;
        let mut pending: Vec<PendingInsertion> = Vec::new();
        let n = self.children.len();
        assert(self.holds_state(pending@, element_index, logical_index, analyze_prefix(cs, 0)));

        for flat_index in 0..n
            invariant
                n == self.children@.len(),
                cs == classes(self.spec_children(), self.process_dynamic_keys),
                self.children@ == old(self).children@,
                self.process_dynamic_keys == old(self).process_dynamic_keys,
                self.holds_state(pending@, element_index, logical_index, analyze_prefix(cs, flat_index as nat)),
        {
            proof {
                lemma_prefix_bounds(cs, flat_index as nat);
            }
            let ghost s = analyze_prefix(cs, flat_index as nat);
            proof {
                lemma_flush_counts(s, s.pending, true);
                lemma_flush_logical(s, s.pending, 0, true);
            }
            let child: &'node TemplateChildNode = self.children[flat_index];
            assert(*child == self.spec_children()[flat_index as int]);
            assert(cs[flat_index as int] == classify(*child, self.process_dynamic_keys));
            match child {
                TemplateChildNode::Element(element) => {
                    if is_block_element_exec(element, self.process_dynamic_keys) {
                        pending.push(PendingInsertion { flat_index, logical_index });
                        logical_index = logical_index + 1;
                    } else {
                        self.flush_insertions(&mut pending, &mut element_index, Some(flat_index));
                        self.items.push(
                            LayoutItem::Element {
                                flat_index,
                                element_index,
                                referenced: !element.is_static,
                            },
                        );
                        element_index = element_index + 1;
                        logical_index = logical_index + 1;
                    }
                },
                TemplateChildNode::If | TemplateChildNode::For => {
                    pending.push(PendingInsertion { flat_index, logical_index });
                    logical_index = logical_index + 1;
                },
                TemplateChildNode::Text(_) | TemplateChildNode::Interpolation(_) => {
                    self.flush_insertions(&mut pending, &mut element_index, Some(flat_index));
                    let dynamic = match child {
                        TemplateChildNode::Interpolation(_) => true,
                        _ => false,
                    };
                    let len = self.items.len();
                    let mut merged = false;
                    if len > 0 {
                        if let LayoutItem::TextRun {
                            start,
                            end: _,
                            element_index: run_index,
                            dynamic: run_dynamic,
                        } = self.items[len - 1] {
                            self.items.set(
                                len - 1,
                                LayoutItem::TextRun {
                                    start,
                                    end: flat_index + 1,
                                    element_index: run_index,
                                    dynamic: run_dynamic || dynamic,
                                },
                            );
                            merged = true;
                        }
                    }
                    if !merged {
                        self.items.push(
                            LayoutItem::TextRun {
                                start: flat_index,
                                end: flat_index + 1,
                                element_index,
                                dynamic,
                            },
                        );
                        element_index = element_index + 1;
                        logical_index = logical_index + 1;
                    }
                },
                TemplateChildNode::Comment(_) => {
                    self.flush_insertions(&mut pending, &mut element_index, Some(flat_index));
                    self.items.push(LayoutItem::Comment { flat_index });
                    element_index = element_index + 1;
                    logical_index = logical_index + 1;
                },
                TemplateChildNode::Other => {},
            }
            assert(self.holds_state(
                pending@,
                element_index,
                logical_index,
                analyze_prefix(cs, (flat_index + 1) as nat),
            ));
        }
        proof {
            lemma_prefix_bounds(cs, n as nat);
            let s = analyze_prefix(cs, n as nat);
            lemma_flush_logical(s, s.pending, 0, false);
            assert(cs.len() == n);
        }
        self.flush_insertions(&mut pending, &mut element_index, None);
    }

    /// Flatten `children` and lay them out.
    pub fn new(children: &'node [TemplateChildNode], process_dynamic_keys: bool) -> (r: Self)
        ensures
            r.spec_children() == flatten(children@),
            flatten(children@).len() <= usize::MAX,
            r.spec_process_dynamic_keys() == process_dynamic_keys,
            r.spec_items() == layout_of(children@, process_dynamic_keys).items,
            r.spec_anchor_count() == layout_of(children@, process_dynamic_keys).anchor_count,
    {
        let mut flat_children: Vec<&'node TemplateChildNode> = Vec::new();
        flatten_children(children, &mut flat_children);
        let flat_len = flat_children.len();
        assert(deref_all(flat_children@).len() == flat_len);
        assert(deref_all(Seq::<&TemplateChildNode>::empty()) + flatten(children@) =~= flatten(children@));
        let mut layout = ChildLayout {
            children: flat_children,
            items: Vec::new(),
            anchor_count: 0,
            process_dynamic_keys,
        };
        layout.analyze();
        layout
    }

    pub fn items(&self) -> (r: &[LayoutItem])
        ensures
            r@ == self.spec_items(),
    {
        self.items.as_slice()
    }

    /// The flattened child at `flat_index`.
    pub fn child(&self, flat_index: usize) -> (r: &'node TemplateChildNode)
        requires
            flat_index < self.spec_children().len(),
        ensures
            *r == self.spec_children()[flat_index as int],
    {
        self.children[flat_index]
    }

    /// The flattened children `start..end` (a text run).
    pub fn text_run(&self, start: usize, end: usize) -> (r: &[&'node TemplateChildNode])
        requires
            start <= end <= self.spec_children().len(),
        ensures
            deref_all(r@) == self.spec_children().subrange(start as int, end as int),
    {
        let r = slice_subrange(self.children.as_slice(), start, end);
        assert(deref_all(r@) =~= self.spec_children().subrange(start as int, end as int));
        r
    }

    /// The items that need a runtime node id, in order.
    pub fn runtime_items(&self) -> (r: Vec<LayoutItem>)
        ensures
            r@ == runtime_items_of(self.spec_items()),
    {
        let mut r: Vec<LayoutItem> = Vec::new();
        let n = self.items.len();
        for i in 0..n
            invariant
                n == self.items@.len(),
                r@ == runtime_items_of(self.items@.take(i as int)),
        {
            assert(self.items@.take(i + 1).drop_last() =~= self.items@.take(i as int));
            if self.items[i].requires_runtime_id() {
                r.push(self.items[i]);
            }
        }
        assert(self.items@.take(n as int) =~= self.items@);
        r
    }

    pub fn runtime_item_count(&self) -> (r: usize)
        ensures
            r == runtime_items_of(self.spec_items()).len(),
    {
        self.runtime_items().len()
    }

    pub fn anchor_count(&self) -> (r: usize)
        ensures
            r == self.spec_anchor_count(),
    {
        self.anchor_count
    }

    pub fn process_dynamic_keys(&self) -> (r: bool)
        ensures
            r == self.spec_process_dynamic_keys(),
    {
        self.process_dynamic_keys
    }

    /// The flat range of the only item, when it is an interpolated text run.
    pub fn parent_text_run(&self) -> (r: Option<(usize, usize)>)
        ensures
            r == parent_text_run_of(self.spec_items()),
    {
        if self.items.len() == 1 {
            match self.items[0] {
                LayoutItem::TextRun { start, end, dynamic: true, .. } => Some((start, end)),
                _ => None,
            }
        } else {
            None
        }
    }

    /// Whether the parent must allocate ids for some of its children.
    pub fn has_dynamic_children(&self) -> (r: bool)
        ensures
            r == has_dynamic_children_of(self.spec_items()),
    {
        let n = self.items.len();
        for i in 0..n
            invariant
                n == self.items@.len(),
                forall|j: int| 0 <= j < i ==> !is_dynamic_child(#[trigger] self.items@[j], n as nat),
        {
            let found = match self.items[i] {
                LayoutItem::Element { referenced: true, .. } | LayoutItem::Inserted { .. } => true,
                LayoutItem::TextRun { dynamic: true, .. } => n != 1,
                _ => false,
            };
            if found {
                assert(is_dynamic_child(self.items@[i as int], n as nat));
                return true;
            }
        }
        false
    }
}

} // verus!
