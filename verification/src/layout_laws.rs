//! What every child layout guarantees about its items.

use vstd::prelude::*;
use crate::ast::TemplateChildNode;
use crate::layout::{
    analyze, analyze_prefix, classes, expand, flatten, flush, flush_prefix, has_dynamic_children_of,
    is_dynamic_child, is_template_wrapper, layout_of, lemma_flush_counts, lemma_prefix_bounds,
    parent_text_run_of, runtime_items_of, AnchorSlot, ChildClass, InsertionPlan, LayoutItem,
    LayoutState, PendingInsertion,
};

verus! {

/// The item occupies a node of the client template.
pub open spec fn is_physical(item: LayoutItem) -> bool {
    !(item is Inserted)
}

/// The item records the client-template index of its node.
pub open spec fn carries_index(item: LayoutItem) -> bool {
    item is Element || item is TextRun || item is Anchor
}

pub open spec fn item_element_index(item: LayoutItem) -> usize {
    match item {
        LayoutItem::Element { element_index, .. } => element_index,
        LayoutItem::TextRun { element_index, .. } => element_index,
        LayoutItem::Anchor { element_index, .. } => element_index,
        _ => 0,
    }
}

pub open spec fn is_before(item: LayoutItem) -> bool {
    item matches LayoutItem::Inserted { insertion: InsertionPlan::Before(_), .. }
}

pub open spec fn is_append(item: LayoutItem) -> bool {
    item matches LayoutItem::Inserted { insertion: InsertionPlan::Append, .. }
}

pub open spec fn before_slot(item: LayoutItem) -> AnchorSlot {
    match item {
        LayoutItem::Inserted { insertion: InsertionPlan::Before(slot), .. } => slot,
        LayoutItem::Anchor { slot, .. } => slot,
        _ => AnchorSlot(0),
    }
}

/// The number of client-template nodes among `items`.
pub open spec fn physical_count(items: Seq<LayoutItem>) -> nat
    decreases items.len(),
{
    if items.len() == 0 {
        0
    } else {
        physical_count(items.drop_last()) + if is_physical(items.last()) { 1nat } else { 0nat }
    }
}

/// The number of anchors among `items`.
pub open spec fn anchor_total(items: Seq<LayoutItem>) -> nat
    decreases items.len(),
{
    if items.len() == 0 {
        0
    } else {
        anchor_total(items.drop_last()) + if items.last() is Anchor { 1nat } else { 0nat }
    }
}

/// The flat indices of the inserted blocks, in item order.
pub open spec fn inserted_flats(items: Seq<LayoutItem>) -> Seq<usize>
    decreases items.len(),
{
    if items.len() == 0 {
        seq![]
    } else {
        match items.last() {
            LayoutItem::Inserted { flat_index, .. } => inserted_flats(items.drop_last()).push(flat_index),
            _ => inserted_flats(items.drop_last()),
        }
    }
}

/// The (flat index, referenced) pairs of the element items, in item order.
pub open spec fn element_entries(items: Seq<LayoutItem>) -> Seq<(usize, bool)>
    decreases items.len(),
{
    if items.len() == 0 {
        seq![]
    } else {
        match items.last() {
            LayoutItem::Element { flat_index, referenced, .. } => element_entries(items.drop_last()).push(
                (flat_index, referenced),
            ),
            _ => element_entries(items.drop_last()),
        }
    }
}

/// The positions among the first `k` children that are blocks.
pub open spec fn block_positions(cs: Seq<ChildClass>, k: nat) -> Seq<usize>
    decreases k,
{
    if k == 0 {
        seq![]
    } else if cs[k - 1] is Block {
        block_positions(cs, (k - 1) as nat).push((k - 1) as usize)
    } else {
        block_positions(cs, (k - 1) as nat)
    }
}

/// The (position, referenced) pairs of the native elements among the first
/// `k` children.
pub open spec fn element_positions(cs: Seq<ChildClass>, k: nat) -> Seq<(usize, bool)>
    decreases k,
{
    if k == 0 {
        seq![]
    } else {
        match cs[k - 1] {
            ChildClass::Element { referenced } => element_positions(cs, (k - 1) as nat).push(
                ((k - 1) as usize, referenced),
            ),
            _ => element_positions(cs, (k - 1) as nat),
        }
    }
}

pub open spec fn pending_flats(p: Seq<PendingInsertion>) -> Seq<usize> {
    p.map_values(|q: PendingInsertion| q.flat_index)
}

/// Each item's `element_index` is the number of template nodes before it.
pub open spec fn aligned(items: Seq<LayoutItem>) -> bool {
    forall|i: int|
        0 <= i < items.len() && carries_index(#[trigger] items[i]) ==> item_element_index(items[i])
            == physical_count(items.take(i))
}

/// Each anchor's slot is the number of anchors before it.
pub open spec fn slots_in_order(items: Seq<LayoutItem>) -> bool {
    forall|i: int|
        0 <= i < items.len() && #[trigger] items[i] is Anchor ==> before_slot(items[i]).0 == anchor_total(
            items.take(i),
        )
}

/// A block inserted before an anchor is immediately followed by that anchor,
/// and every anchor immediately follows the block inserted before it.
pub open spec fn anchors_paired(items: Seq<LayoutItem>) -> bool {
    &&& forall|i: int|
        0 <= i < items.len() && is_before(#[trigger] items[i]) ==> {
            &&& i + 1 < items.len()
            &&& items[i + 1] is Anchor
            &&& before_slot(items[i + 1]) == before_slot(items[i])
        }
    &&& forall|i: int|
        0 <= i < items.len() && #[trigger] items[i] is Anchor ==> {
            &&& 0 < i
            &&& is_before(items[i - 1])
            &&& before_slot(items[i - 1]) == before_slot(items[i])
        }
}

/// Blocks appended at the end come after every other item.
pub open spec fn appends_trail(items: Seq<LayoutItem>) -> bool {
    forall|i: int, j: int|
        0 <= i < j < items.len() && is_append(#[trigger] items[i]) ==> is_append(#[trigger] items[j])
}

pub open spec fn no_append(items: Seq<LayoutItem>) -> bool {
    forall|i: int| 0 <= i < items.len() ==> !is_append(#[trigger] items[i])
}

/// What holds after every prefix of the analysis.
pub open spec fn prefix_inv(s: LayoutState, cs: Seq<ChildClass>, k: nat) -> bool {
    &&& aligned(s.items)
    &&& physical_count(s.items) == s.element_index
    &&& slots_in_order(s.items)
    &&& anchor_total(s.items) == s.anchor_count
    &&& anchors_paired(s.items)
    &&& no_append(s.items)
    &&& inserted_flats(s.items) + pending_flats(s.pending) == block_positions(cs, k)
    &&& element_entries(s.items) == element_positions(cs, k)
    &&& s.items.len() > 0 ==> !is_before(s.items.last())
}

/// The item-wise properties survive pushing `x` when `x` fits them.
proof fn lemma_push_item(items: Seq<LayoutItem>, x: LayoutItem)
    requires
        aligned(items),
        slots_in_order(items),
        carries_index(x) ==> item_element_index(x) == physical_count(items),
        x is Anchor ==> before_slot(x).0 == anchor_total(items),
    ensures
        aligned(items.push(x)),
        slots_in_order(items.push(x)),
        physical_count(items.push(x)) == physical_count(items) + if is_physical(x) { 1nat } else { 0nat },
        anchor_total(items.push(x)) == anchor_total(items) + if x is Anchor { 1nat } else { 0nat },
        inserted_flats(items.push(x)) == match x {
            LayoutItem::Inserted { flat_index, .. } => inserted_flats(items).push(flat_index),
            _ => inserted_flats(items),
        },
        element_entries(items.push(x)) == match x {
            LayoutItem::Element { flat_index, referenced, .. } => element_entries(items).push(
                (flat_index, referenced),
            ),
            _ => element_entries(items),
        },
{
    let t = items.push(x);
    assert(t.drop_last() =~= items);
    assert(t.take(items.len() as int) =~= items);
    assert forall|i: int| 0 <= i < t.len() && carries_index(#[trigger] t[i]) implies item_element_index(t[i])
        == physical_count(t.take(i)) by {
        if i < items.len() {
            assert(t.take(i) =~= items.take(i));
        }
    }
    assert forall|i: int| 0 <= i < t.len() && #[trigger] t[i] is Anchor implies before_slot(t[i]).0
        == anchor_total(t.take(i)) by {
        if i < items.len() {
            assert(t.take(i) =~= items.take(i));
        }
    }
}

/// Flushing `pending` (all of it, before anchors or appended) keeps the
/// invariant's item-wise parts and moves the pending flats into the items.
proof fn lemma_flush_inv(s: LayoutState, pending: Seq<PendingInsertion>, before: bool)
    requires
        aligned(s.items),
        physical_count(s.items) == s.element_index,
        slots_in_order(s.items),
        anchor_total(s.items) == s.anchor_count,
        anchors_paired(s.items),
        s.items.len() > 0 ==> !is_before(s.items.last()),
        s.element_index + pending.len() <= usize::MAX,
        s.anchor_count <= s.element_index,
    ensures
        ({
            let t = flush_prefix(s, pending, before);
            &&& aligned(t.items)
            &&& physical_count(t.items) == t.element_index
            &&& slots_in_order(t.items)
            &&& anchor_total(t.items) == t.anchor_count
            &&& anchors_paired(t.items)
            &&& t.items.len() > 0 ==> !is_before(t.items.last())
            &&& inserted_flats(t.items) == inserted_flats(s.items) + pending_flats(pending)
            &&& element_entries(t.items) == element_entries(s.items)
            &&& before ==> (no_append(s.items) ==> no_append(t.items))
            &&& !before ==> t.items.len() == s.items.len() + pending.len()
            &&& !before ==> t.items.subrange(0, s.items.len() as int) == s.items
            &&& !before ==> forall|i: int|
                s.items.len() <= i < t.items.len() ==> is_append(#[trigger] t.items[i])
        }),
    decreases pending.len(),
{
    if pending.len() == 0 {
        assert(pending_flats(pending) =~= Seq::<usize>::empty());
        assert(inserted_flats(s.items) + pending_flats(pending) =~= inserted_flats(s.items));
        assert(s.items.subrange(0, s.items.len() as int) =~= s.items);
    } else {
        let p = pending.drop_last();
        let q = pending.last();
        lemma_flush_inv(s, p, before);
        lemma_flush_counts(s, p, before);
        let u = flush_prefix(s, p, before);
        assert(pending_flats(pending) =~= pending_flats(p).push(q.flat_index));
        if before {
            let slot = AnchorSlot(u.anchor_count);
            let ins = LayoutItem::Inserted {
                flat_index: q.flat_index,
                logical_index: q.logical_index,
                insertion: InsertionPlan::Before(slot),
            };
            let anc = LayoutItem::Anchor { slot, element_index: u.element_index };
            lemma_push_item(u.items, ins);
            lemma_push_item(u.items.push(ins), anc);
            let v = u.items.push(ins).push(anc);
            assert(flush_prefix(s, pending, before).items == v);
            assert forall|i: int| 0 <= i < v.len() && is_before(#[trigger] v[i]) implies {
                &&& i + 1 < v.len()
                &&& v[i + 1] is Anchor
                &&& before_slot(v[i + 1]) == before_slot(v[i])
            } by {
                if i < u.items.len() {
                    assert(v[i] == u.items[i]);
                    if i + 1 == u.items.len() {
                        assert(u.items.last() == u.items[i]);
                    } else {
                        assert(v[i + 1] == u.items[i + 1]);
                    }
                }
            }
            assert forall|i: int| 0 <= i < v.len() && #[trigger] v[i] is Anchor implies {
                &&& 0 < i
                &&& is_before(v[i - 1])
                &&& before_slot(v[i - 1]) == before_slot(v[i])
            } by {
                if i < u.items.len() {
                    assert(v[i] == u.items[i]);
                    assert(v[i - 1] == u.items[i - 1]);
                }
            }
            assert(inserted_flats(v) =~= inserted_flats(s.items) + pending_flats(pending));
            if no_append(s.items) {
                assert forall|i: int| 0 <= i < v.len() implies !is_append(#[trigger] v[i]) by {
                    if i < u.items.len() {
                        assert(v[i] == u.items[i]);
                    }
                }
            }
        } else {
            let ins = LayoutItem::Inserted {
                flat_index: q.flat_index,
                logical_index: q.logical_index,
                insertion: InsertionPlan::Append,
            };
            lemma_push_item(u.items, ins);
            let v = u.items.push(ins);
            assert(flush_prefix(s, pending, before).items == v);
            assert forall|i: int| 0 <= i < v.len() && is_before(#[trigger] v[i]) implies {
                &&& i + 1 < v.len()
                &&& v[i + 1] is Anchor
                &&& before_slot(v[i + 1]) == before_slot(v[i])
            } by {
                assert(i < u.items.len());
                assert(v[i] == u.items[i]);
                if i + 1 == u.items.len() {
                    assert(u.items.last() == u.items[i]);
                } else {
                    assert(v[i + 1] == u.items[i + 1]);
                }
            }
            assert forall|i: int| 0 <= i < v.len() && #[trigger] v[i] is Anchor implies {
                &&& 0 < i
                &&& is_before(v[i - 1])
                &&& before_slot(v[i - 1]) == before_slot(v[i])
            } by {
                assert(i < u.items.len());
                assert(v[i] == u.items[i]);
                assert(v[i - 1] == u.items[i - 1]);
            }
            assert(inserted_flats(v) =~= inserted_flats(s.items) + pending_flats(pending));
            assert(v.subrange(0, s.items.len() as int) =~= u.items.subrange(0, s.items.len() as int));
            assert forall|i: int| s.items.len() <= i < v.len() implies is_append(#[trigger] v[i]) by {
                if i < u.items.len() {
                    assert(v[i] == u.items[i]);
                }
            }
        }
    }
}

/// Pushing a concrete item that is not an anchor keeps the pairing and the
/// absence of appended blocks.
proof fn lemma_push_plain(items: Seq<LayoutItem>, x: LayoutItem)
    requires
        anchors_paired(items),
        no_append(items),
        items.len() > 0 ==> !is_before(items.last()),
        !(x is Anchor),
        !(x is Inserted),
    ensures
        anchors_paired(items.push(x)),
        no_append(items.push(x)),
        !is_before(items.push(x).last()),
{
    let v = items.push(x);
    assert forall|i: int| 0 <= i < v.len() && is_before(#[trigger] v[i]) implies {
        &&& i + 1 < v.len()
        &&& v[i + 1] is Anchor
        &&& before_slot(v[i + 1]) == before_slot(v[i])
    } by {
        assert(i < items.len());
        assert(v[i] == items[i]);
        if i + 1 == items.len() {
            assert(items.last() == items[i]);
        } else {
            assert(v[i + 1] == items[i + 1]);
        }
    }
    assert forall|i: int| 0 <= i < v.len() && #[trigger] v[i] is Anchor implies {
        &&& 0 < i
        &&& is_before(v[i - 1])
        &&& before_slot(v[i - 1]) == before_slot(v[i])
    } by {
        assert(i < items.len());
        assert(v[i] == items[i]);
        assert(v[i - 1] == items[i - 1]);
    }
    assert forall|i: int| 0 <= i < v.len() implies !is_append(#[trigger] v[i]) by {
        if i < items.len() {
            assert(v[i] == items[i]);
        }
    }
}

/// Extending the last text run keeps every item-wise property.
proof fn lemma_extend_run(items: Seq<LayoutItem>, y: LayoutItem)
    requires
        items.len() > 0,
        items.last() is TextRun,
        y is TextRun,
        item_element_index(y) == item_element_index(items.last()),
        aligned(items),
        slots_in_order(items),
        anchors_paired(items),
        no_append(items),
    ensures
        ({
            let v = items.update(items.len() - 1, y);
            &&& aligned(v)
            &&& slots_in_order(v)
            &&& anchors_paired(v)
            &&& no_append(v)
            &&& physical_count(v) == physical_count(items)
            &&& anchor_total(v) == anchor_total(items)
            &&& inserted_flats(v) == inserted_flats(items)
            &&& element_entries(v) == element_entries(items)
            &&& !is_before(v.last())
        }),
{
    let n = items.len() as int;
    let v = items.update(n - 1, y);
    assert(v.drop_last() =~= items.drop_last());
    assert forall|i: int| 0 <= i < v.len() && carries_index(#[trigger] v[i]) implies item_element_index(v[i])
        == physical_count(v.take(i)) by {
        assert(v.take(i) =~= items.take(i));
    }
    assert forall|i: int| 0 <= i < v.len() && #[trigger] v[i] is Anchor implies before_slot(v[i]).0
        == anchor_total(v.take(i)) by {
        assert(v.take(i) =~= items.take(i));
    }
    assert forall|i: int| 0 <= i < v.len() && is_before(#[trigger] v[i]) implies {
        &&& i + 1 < v.len()
        &&& v[i + 1] is Anchor
        &&& before_slot(v[i + 1]) == before_slot(v[i])
    } by {
        assert(v[i] == items[i]);
        if i + 1 < n - 1 {
            assert(v[i + 1] == items[i + 1]);
        } else if i + 1 == n - 1 {
            assert(items[i + 1] == items.last());
        }
    }
    assert forall|i: int| 0 <= i < v.len() && #[trigger] v[i] is Anchor implies {
        &&& 0 < i
        &&& is_before(v[i - 1])
        &&& before_slot(v[i - 1]) == before_slot(v[i])
    } by {
        assert(v[i] == items[i]);
        assert(v[i - 1] == items[i - 1]);
    }
    assert forall|i: int| 0 <= i < v.len() implies !is_append(#[trigger] v[i]) by {
        if i < n - 1 {
            assert(v[i] == items[i]);
        }
    }
}

/// The invariant holds after every prefix of the analysis.
pub proof fn lemma_prefix_inv(cs: Seq<ChildClass>, k: nat)
    requires
        k <= cs.len(),
        cs.len() <= usize::MAX,
    ensures
        prefix_inv(analyze_prefix(cs, k), cs, k),
    decreases k,
{
    if k == 0 {
        assert(pending_flats(Seq::<PendingInsertion>::empty()) =~= Seq::<usize>::empty());
        assert(Seq::<usize>::empty() + Seq::<usize>::empty() =~= Seq::<usize>::empty());
    } else {
        let j = (k - 1) as nat;
        lemma_prefix_inv(cs, j);
        lemma_prefix_bounds(cs, j);
        let s = analyze_prefix(cs, j);
        let c = cs[j as int];
        let fi = j as usize;
        lemma_flush_counts(s, s.pending, true);
        lemma_flush_inv(s, s.pending, true);
        let t = flush(s, true);
        assert(pending_flats(t.pending) =~= Seq::<usize>::empty());
        assert(inserted_flats(t.items) + pending_flats(t.pending) =~= inserted_flats(t.items));
        match c {
            ChildClass::Block => {
                let q = PendingInsertion { flat_index: fi, logical_index: s.logical_index };
                assert(pending_flats(s.pending.push(q)) =~= pending_flats(s.pending).push(fi));
                assert(inserted_flats(s.items) + pending_flats(s.pending.push(q)) =~= (inserted_flats(s.items)
                    + pending_flats(s.pending)).push(fi));
            },
            ChildClass::Element { referenced } => {
                let x = LayoutItem::Element { flat_index: fi, element_index: t.element_index, referenced };
                lemma_push_item(t.items, x);
                lemma_push_plain(t.items, x);
            },
            ChildClass::Comment => {
                let x = LayoutItem::Comment { flat_index: fi };
                lemma_push_item(t.items, x);
                lemma_push_plain(t.items, x);
            },
            ChildClass::Text { dynamic } => {
                if t.items.len() > 0 && t.items.last() is TextRun {
                    match t.items.last() {
                        LayoutItem::TextRun { start, end, element_index, dynamic: run_dynamic } => {
                            let y = LayoutItem::TextRun {
                                start,
                                end: (fi + 1) as usize,
                                element_index,
                                dynamic: run_dynamic || dynamic,
                            };
                            lemma_extend_run(t.items, y);
                        },
                        _ => {},
                    }
                } else {
                    let x = LayoutItem::TextRun {
                        start: fi,
                        end: (fi + 1) as usize,
                        element_index: t.element_index,
                        dynamic,
                    };
                    lemma_push_item(t.items, x);
                    lemma_push_plain(t.items, x);
                }
            },
            ChildClass::Ignored => {},
        }
    }
}

/// The complete analysis keeps the invariant's item-wise parts, and the
/// blocks still pending at the end are appended after every other item.
proof fn lemma_analyze(cs: Seq<ChildClass>)
    requires
        cs.len() <= usize::MAX,
    ensures
        aligned(analyze(cs).items),
        slots_in_order(analyze(cs).items),
        anchor_total(analyze(cs).items) == analyze(cs).anchor_count,
        anchors_paired(analyze(cs).items),
        appends_trail(analyze(cs).items),
        inserted_flats(analyze(cs).items) == block_positions(cs, cs.len()),
        element_entries(analyze(cs).items) == element_positions(cs, cs.len()),
{
    let k = cs.len();
    lemma_prefix_inv(cs, k);
    lemma_prefix_bounds(cs, k);
    let s = analyze_prefix(cs, k);
    lemma_flush_counts(s, s.pending, false);
    lemma_flush_inv(s, s.pending, false);
    let v = analyze(cs).items;
    assert(pending_flats(Seq::<PendingInsertion>::empty()) =~= Seq::<usize>::empty());
    assert forall|i: int, j: int| 0 <= i < j < v.len() && is_append(#[trigger] v[i]) implies is_append(
        #[trigger] v[j],
    ) by {
        if i < s.items.len() {
            assert(v.subrange(0, s.items.len() as int)[i] == s.items[i]);
        }
    }
}

/// Law: the `element_index` of every element, text run and anchor is the
/// number of client-template nodes (elements, text runs, comments, anchors)
/// before it, so the indices address the client template without gaps.
pub proof fn law_element_index_is_template_position(children: Seq<TemplateChildNode>, process_dynamic_keys: bool)
    requires
        flatten(children).len() <= usize::MAX,
    ensures
        aligned(layout_of(children, process_dynamic_keys).items),
{
    lemma_analyze(classes(flatten(children), process_dynamic_keys));
}

/// Law: anchors are numbered 0, 1, 2, ... in item order, and the layout's
/// anchor count is the number of anchors.
pub proof fn law_anchor_slots_in_order(children: Seq<TemplateChildNode>, process_dynamic_keys: bool)
    requires
        flatten(children).len() <= usize::MAX,
    ensures
        slots_in_order(layout_of(children, process_dynamic_keys).items),
        anchor_total(layout_of(children, process_dynamic_keys).items) == layout_of(
            children,
            process_dynamic_keys,
        ).anchor_count,
{
    lemma_analyze(classes(flatten(children), process_dynamic_keys));
}

/// Law: a block inserted before an anchor is immediately followed by that
/// anchor, and every anchor immediately follows its block.
pub proof fn law_anchors_follow_their_blocks(children: Seq<TemplateChildNode>, process_dynamic_keys: bool)
    requires
        flatten(children).len() <= usize::MAX,
    ensures
        anchors_paired(layout_of(children, process_dynamic_keys).items),
{
    lemma_analyze(classes(flatten(children), process_dynamic_keys));
}

/// Law: blocks appended to the parent come after every other item; only
/// blocks with no concrete child after them are appended.
pub proof fn law_appended_blocks_trail(children: Seq<TemplateChildNode>, process_dynamic_keys: bool)
    requires
        flatten(children).len() <= usize::MAX,
    ensures
        appends_trail(layout_of(children, process_dynamic_keys).items),
{
    lemma_analyze(classes(flatten(children), process_dynamic_keys));
}

/// Law: every block child (component, slot, keyed element, `v-if`,
/// `v-for`, ...) is inserted exactly once, in child order.
pub proof fn law_blocks_inserted_once_in_order(children: Seq<TemplateChildNode>, process_dynamic_keys: bool)
    requires
        flatten(children).len() <= usize::MAX,
    ensures
        ({
            let cs = classes(flatten(children), process_dynamic_keys);
            inserted_flats(layout_of(children, process_dynamic_keys).items) == block_positions(cs, cs.len())
        }),
{
    lemma_analyze(classes(flatten(children), process_dynamic_keys));
}

/// Law: every native element child has exactly one element item, in child
/// order, and it is referenced exactly when the element is not static.
pub proof fn law_elements_kept_in_order(children: Seq<TemplateChildNode>, process_dynamic_keys: bool)
    requires
        flatten(children).len() <= usize::MAX,
    ensures
        ({
            let cs = classes(flatten(children), process_dynamic_keys);
            element_entries(layout_of(children, process_dynamic_keys).items) == element_positions(
                cs,
                cs.len(),
            )
        }),
{
    lemma_analyze(classes(flatten(children), process_dynamic_keys));
}

/// Law: a parent has dynamic children exactly when some item needs a runtime
/// id and the items are not one lone interpolated text run (which the parent
/// sets itself).
pub proof fn law_dynamic_children(items: Seq<LayoutItem>)
    ensures
        has_dynamic_children_of(items) == (runtime_items_of(items).len() > 0 && parent_text_run_of(items) is None),
{
    lemma_runtime_items_nonempty(items);
    if has_dynamic_children_of(items) {
        let i = choose|i: int| 0 <= i < items.len() && is_dynamic_child(#[trigger] items[i], items.len());
        assert(items[i].spec_requires_runtime_id());
    } else if runtime_items_of(items).len() > 0 && parent_text_run_of(items) is None {
        let i = choose|i: int| 0 <= i < items.len() && (#[trigger] items[i]).spec_requires_runtime_id();
        assert(is_dynamic_child(items[i], items.len()));
    }
}

/// The runtime items are non-empty exactly when some item needs an id.
proof fn lemma_runtime_items_nonempty(items: Seq<LayoutItem>)
    ensures
        (runtime_items_of(items).len() > 0) == (exists|i: int|
            0 <= i < items.len() && (#[trigger] items[i]).spec_requires_runtime_id()),
    decreases items.len(),
{
    if items.len() > 0 {
        let p = items.drop_last();
        lemma_runtime_items_nonempty(p);
        if exists|i: int| 0 <= i < p.len() && (#[trigger] p[i]).spec_requires_runtime_id() {
            let i = choose|i: int| 0 <= i < p.len() && (#[trigger] p[i]).spec_requires_runtime_id();
            assert(items[i] == p[i]);
        }
        if exists|i: int| 0 <= i < items.len() && (#[trigger] items[i]).spec_requires_runtime_id() {
            let i = choose|i: int| 0 <= i < items.len() && (#[trigger] items[i]).spec_requires_runtime_id();
            if i < p.len() {
                assert(p[i] == items[i]);
            }
        }
    }
}

pub open spec fn has_no_wrapper(nodes: Seq<TemplateChildNode>) -> bool {
    forall|i: int| 0 <= i < nodes.len() ==> !is_template_wrapper(#[trigger] nodes[i])
}

/// No plain `<template>` wrapper survives flattening.
proof fn lemma_flatten_no_wrapper(nodes: Seq<TemplateChildNode>)
    ensures
        has_no_wrapper(flatten(nodes)),
    decreases nodes,
{
    if nodes.len() > 0 {
        let head = nodes[0];
        let rest = nodes.subrange(1, nodes.len() as int);
        lemma_flatten_no_wrapper(rest);
        match head {
            TemplateChildNode::Element(e) => {
                if e.tag_type == crate::ast::ElementType::Template {
                    assert(decreases_to!(e.children => e.children@));
                    lemma_flatten_no_wrapper(e.children@);
                }
            },
            _ => {},
        }
        let a = expand(head);
        let b = flatten(rest);
        assert(has_no_wrapper(a));
        assert forall|i: int| 0 <= i < (a + b).len() implies !is_template_wrapper(#[trigger] (a + b)[i]) by {
            if i < a.len() {
                assert((a + b)[i] == a[i]);
            } else {
                assert((a + b)[i] == b[i - a.len()]);
            }
        }
    }
}

/// Children without wrappers flatten to themselves.
proof fn lemma_flatten_identity(nodes: Seq<TemplateChildNode>)
    requires
        has_no_wrapper(nodes),
    ensures
        flatten(nodes) == nodes,
    decreases nodes.len(),
{
    if nodes.len() > 0 {
        let rest = nodes.subrange(1, nodes.len() as int);
        assert(has_no_wrapper(rest)) by {
            assert forall|i: int| 0 <= i < rest.len() implies !is_template_wrapper(#[trigger] rest[i]) by {
                assert(rest[i] == nodes[i + 1]);
            }
        }
        lemma_flatten_identity(rest);
        assert(!is_template_wrapper(nodes[0]));
        assert(expand(nodes[0]) == seq![nodes[0]]);
        assert(flatten(nodes) =~= nodes);
    }
}

/// Law: plain `<template>` wrappers are transparent: laying out the
/// children gives the same plan as laying out their flattened form, which
/// holds no wrapper.
pub proof fn law_template_wrappers_transparent(children: Seq<TemplateChildNode>, process_dynamic_keys: bool)
    ensures
        has_no_wrapper(flatten(children)),
        flatten(flatten(children)) == flatten(children),
        layout_of(flatten(children), process_dynamic_keys) == layout_of(children, process_dynamic_keys),
{
    lemma_flatten_no_wrapper(children);
    lemma_flatten_identity(flatten(children));
}

/// The last child before `j` that the layout places is a text node (so a
/// text at `j` joins its run).
pub open spec fn follows_text(cs: Seq<ChildClass>, j: int) -> bool
    decreases j,
{
    if j <= 0 {
        false
    } else {
        match cs[j - 1] {
            ChildClass::Ignored => follows_text(cs, j - 1),
            ChildClass::Text { .. } => true,
            _ => false,
        }
    }
}

/// Child `j` is a logical (hydration) sibling: a block, an element, a
/// comment, or the first text of a run.
pub open spec fn is_logical_child(cs: Seq<ChildClass>, j: int) -> bool {
    match cs[j] {
        ChildClass::Ignored => false,
        ChildClass::Text { .. } => !follows_text(cs, j),
        _ => true,
    }
}

/// The number of logical siblings among the first `k` children.
pub open spec fn logical_count(cs: Seq<ChildClass>, k: int) -> nat
    decreases k,
{
    if k <= 0 {
        0
    } else {
        logical_count(cs, k - 1) + if is_logical_child(cs, k - 1) { 1nat } else { 0nat }
    }
}

/// Every inserted block records the number of logical siblings before it.
pub open spec fn inserted_logical(items: Seq<LayoutItem>, cs: Seq<ChildClass>) -> bool {
    forall|i: int|
        0 <= i < items.len() && #[trigger] items[i] is Inserted ==> (match items[i] {
            LayoutItem::Inserted { flat_index, logical_index, .. } => logical_index == logical_count(
                cs,
                flat_index as int,
            ),
            _ => true,
        })
}

pub open spec fn pending_logical(p: Seq<PendingInsertion>, cs: Seq<ChildClass>) -> bool {
    forall|i: int| 0 <= i < p.len() ==> (#[trigger] p[i]).logical_index == logical_count(cs, p[i].flat_index as int)
}

pub open spec fn logical_inv(s: LayoutState, cs: Seq<ChildClass>, k: nat) -> bool {
    &&& s.logical_index == logical_count(cs, k as int)
    &&& inserted_logical(s.items, cs)
    &&& pending_logical(s.pending, cs)
    &&& follows_text(cs, k as int) == (s.pending.len() == 0 && s.items.len() > 0 && s.items.last() is TextRun)
}

proof fn lemma_push_logical(items: Seq<LayoutItem>, x: LayoutItem, cs: Seq<ChildClass>)
    requires
        inserted_logical(items, cs),
        x matches LayoutItem::Inserted { flat_index, logical_index, .. } ==> logical_index == logical_count(
            cs,
            flat_index as int,
        ),
    ensures
        inserted_logical(items.push(x), cs),
{
    assert forall|i: int| 0 <= i < items.push(x).len() && #[trigger] items.push(x)[i] is Inserted implies (match items.push(x)[i] {
        LayoutItem::Inserted { flat_index, logical_index, .. } => logical_index == logical_count(cs, flat_index as int),
        _ => true,
    }) by {
        if i < items.len() {
            assert(items.push(x)[i] == items[i]);
        }
    }
}

proof fn lemma_flush_logical_items(s: LayoutState, pending: Seq<PendingInsertion>, before: bool, cs: Seq<ChildClass>)
    requires
        inserted_logical(s.items, cs),
        pending_logical(pending, cs),
    ensures
        inserted_logical(flush_prefix(s, pending, before).items, cs),
        pending.len() == 0 ==> flush_prefix(s, pending, before).items == s.items,
        pending.len() > 0 && before ==> flush_prefix(s, pending, before).items.last() is Anchor,
        pending.len() > 0 ==> flush_prefix(s, pending, before).items.len() > 0,
    decreases pending.len(),
{
    if pending.len() > 0 {
        let p = pending.drop_last();
        assert(pending_logical(p, cs)) by {
            assert forall|i: int| 0 <= i < p.len() implies (#[trigger] p[i]).logical_index == logical_count(
                cs,
                p[i].flat_index as int,
            ) by {
                assert(p[i] == pending[i]);
            }
        }
        lemma_flush_logical_items(s, p, before, cs);
        let u = flush_prefix(s, p, before);
        let q = pending.last();
        assert(q == pending[pending.len() - 1]);
        if before {
            let slot = AnchorSlot(u.anchor_count);
            let ins = LayoutItem::Inserted {
                flat_index: q.flat_index,
                logical_index: q.logical_index,
                insertion: InsertionPlan::Before(slot),
            };
            lemma_push_logical(u.items, ins, cs);
            lemma_push_logical(u.items.push(ins), LayoutItem::Anchor { slot, element_index: u.element_index }, cs);
        } else {
            let ins = LayoutItem::Inserted {
                flat_index: q.flat_index,
                logical_index: q.logical_index,
                insertion: InsertionPlan::Append,
            };
            lemma_push_logical(u.items, ins, cs);
        }
    }
}

/// The logical invariant holds after every prefix of the analysis.
pub proof fn lemma_logical_inv(cs: Seq<ChildClass>, k: nat)
    requires
        k <= cs.len(),
        cs.len() <= usize::MAX,
    ensures
        logical_inv(analyze_prefix(cs, k), cs, k),
    decreases k,
{
    if k > 0 {
        let j = (k - 1) as nat;
        lemma_logical_inv(cs, j);
        lemma_prefix_bounds(cs, j);
        let s = analyze_prefix(cs, j);
        let c = cs[j as int];
        let fi = j as usize;
        lemma_flush_counts(s, s.pending, true);
        lemma_flush_logical_items(s, s.pending, true, cs);
        let t = flush(s, true);
        assert(logical_count(cs, k as int) == logical_count(cs, j as int) + if is_logical_child(cs, j as int) {
            1nat
        } else {
            0nat
        });
        match c {
            ChildClass::Block => {
                let q = PendingInsertion { flat_index: fi, logical_index: s.logical_index };
                assert forall|i: int| 0 <= i < s.pending.push(q).len() implies (#[trigger] s.pending.push(q)[i]).logical_index
                    == logical_count(cs, s.pending.push(q)[i].flat_index as int) by {
                    if i < s.pending.len() {
                        assert(s.pending.push(q)[i] == s.pending[i]);
                    }
                }
            },
            ChildClass::Element { referenced } => {
                let x = LayoutItem::Element { flat_index: fi, element_index: t.element_index, referenced };
                lemma_push_logical(t.items, x, cs);
            },
            ChildClass::Comment => {
                let x = LayoutItem::Comment { flat_index: fi };
                lemma_push_logical(t.items, x, cs);
            },
            ChildClass::Text { dynamic } => {
                if t.items.len() > 0 && t.items.last() is TextRun {
                    assert(s.pending.len() == 0);
                    match t.items.last() {
                        LayoutItem::TextRun { start, end, element_index, dynamic: run_dynamic } => {
                            let y = LayoutItem::TextRun {
                                start,
                                end: (fi + 1) as usize,
                                element_index,
                                dynamic: run_dynamic || dynamic,
                            };
                            let v = t.items.update(t.items.len() - 1, y);
                            assert forall|i: int| 0 <= i < v.len() && #[trigger] v[i] is Inserted implies (match v[i] {
                                LayoutItem::Inserted { flat_index, logical_index, .. } => logical_index
                                    == logical_count(cs, flat_index as int),
                                _ => true,
                            }) by {
                                assert(v[i] == t.items[i]);
                            }
                        },
                        _ => {},
                    }
                } else {
                    let x = LayoutItem::TextRun {
                        start: fi,
                        end: (fi + 1) as usize,
                        element_index: t.element_index,
                        dynamic,
                    };
                    lemma_push_logical(t.items, x, cs);
                }
            },
            ChildClass::Ignored => {},
        }
    }
}

/// Law: every inserted block records how many logical siblings (blocks,
/// elements, comments and text runs, each run once) come before it, the
/// index that hydration uses for blocks appended after the template.
pub proof fn law_logical_index_counts_siblings(children: Seq<TemplateChildNode>, process_dynamic_keys: bool)
    requires
        flatten(children).len() <= usize::MAX,
    ensures
        inserted_logical(
            layout_of(children, process_dynamic_keys).items,
            classes(flatten(children), process_dynamic_keys),
        ),
{
    let cs = classes(flatten(children), process_dynamic_keys);
    lemma_logical_inv(cs, cs.len());
    let s = analyze_prefix(cs, cs.len());
    lemma_flush_logical_items(s, s.pending, false, cs);
}

/// Every item stands for one of the first `k` children.
pub open spec fn flats_within(items: Seq<LayoutItem>, k: int) -> bool {
    forall|i: int| 0 <= i < items.len() ==> (crate::deferred::item_flat_index(#[trigger] items[i]) as int) < k
}

proof fn lemma_flush_flats(s: LayoutState, pending: Seq<PendingInsertion>, before: bool, k: int)
    requires
        flats_within(s.items, k),
        forall|j: int| 0 <= j < pending.len() ==> (#[trigger] pending[j]).flat_index < k,
    ensures
        flats_within(flush_prefix(s, pending, before).items, k),
    decreases pending.len(),
{
    if pending.len() > 0 {
        let p = pending.drop_last();
        assert forall|j: int| 0 <= j < p.len() implies (#[trigger] p[j]).flat_index < k by {
            assert(p[j] == pending[j]);
        }
        lemma_flush_flats(s, p, before, k);
        let u = flush_prefix(s, p, before);
        assert(pending.last() == pending[pending.len() - 1]);
        let v = flush_prefix(s, pending, before).items;
        assert forall|i: int| 0 <= i < v.len() implies (crate::deferred::item_flat_index(#[trigger] v[i]) as int) < k by {
            if i < u.items.len() {
                assert(v[i] == u.items[i]);
            }
        }
    }
}

proof fn lemma_prefix_flats(cs: Seq<ChildClass>, k: nat)
    requires
        k <= cs.len(),
        cs.len() <= usize::MAX,
    ensures
        flats_within(analyze_prefix(cs, k).items, k as int),
    decreases k,
{
    if k > 0 {
        let j = (k - 1) as nat;
        lemma_prefix_flats(cs, j);
        lemma_prefix_bounds(cs, j);
        let s = analyze_prefix(cs, j);
        lemma_flush_flats(s, s.pending, true, k as int);
        let t = flush(s, true);
        let v = analyze_prefix(cs, k).items;
        assert forall|i: int| 0 <= i < v.len() implies (crate::deferred::item_flat_index(#[trigger] v[i]) as int) < k by {
            if i < t.items.len() {
                if cs[j as int] is Ignored || cs[j as int] is Block {
                    assert(v[i] == s.items[i]);
                } else if i < t.items.len() - 1 || !(t.items.last() is TextRun) || !(cs[j as int] is Text) {
                    assert(v[i] == t.items[i]);
                }
            }
        }
    }
}

/// Law: every item of a layout stands for one of the flattened children
/// (an element, comment or block at its flat index, a text run from its
/// start).
pub proof fn law_items_within_children(children: Seq<TemplateChildNode>, process_dynamic_keys: bool)
    requires
        flatten(children).len() <= usize::MAX,
    ensures
        flats_within(layout_of(children, process_dynamic_keys).items, flatten(children).len() as int),
{
    let cs = classes(flatten(children), process_dynamic_keys);
    lemma_prefix_flats(cs, cs.len());
    lemma_prefix_bounds(cs, cs.len());
    let s = analyze_prefix(cs, cs.len());
    lemma_flush_flats(s, s.pending, false, cs.len() as int);
}

proof fn lemma_anchor_total_prefix(items: Seq<LayoutItem>, j: int)
    requires
        0 <= j < items.len(),
    ensures
        anchor_total(items.take(j)) + (if items[j] is Anchor { 1nat } else { 0nat }) <= anchor_total(items),
    decreases items.len(),
{
    let p = items.drop_last();
    if j < items.len() - 1 {
        lemma_anchor_total_prefix(p, j);
        assert(p.take(j) =~= items.take(j));
        assert(p[j] == items[j]);
    } else {
        assert(items.take(j) =~= p);
    }
}

/// Law: every block inserted before an anchor names a slot below the
/// layout's anchor count, so `anchor_count` anchor ids cover them all.
pub proof fn law_insertion_slots_below_anchor_count(children: Seq<TemplateChildNode>, process_dynamic_keys: bool)
    requires
        flatten(children).len() <= usize::MAX,
    ensures
        ({
            let l = layout_of(children, process_dynamic_keys);
            forall|i: int|
                0 <= i < l.items.len() && is_before(#[trigger] l.items[i]) ==> before_slot(l.items[i]).0
                    < l.anchor_count
        }),
{
    lemma_analyze(classes(flatten(children), process_dynamic_keys));
    let l = layout_of(children, process_dynamic_keys);
    assert forall|i: int| 0 <= i < l.items.len() && is_before(#[trigger] l.items[i]) implies before_slot(
        l.items[i],
    ).0 < l.anchor_count by {
        assert(l.items[i + 1] is Anchor);
        lemma_anchor_total_prefix(l.items, i + 1);
    }
}

/// A text run covers the children `start..end`: it starts with a text,
/// holds only texts and unplaced children, and is dynamic exactly when one
/// of them is an interpolation.
pub open spec fn run_covers(item: LayoutItem, cs: Seq<ChildClass>) -> bool {
    match item {
        LayoutItem::TextRun { start, end, dynamic, .. } => {
            &&& start < end <= cs.len()
            &&& cs[start as int] is Text
            &&& forall|m: int| start <= m < end ==> (#[trigger] cs[m] is Text || cs[m] is Ignored)
            &&& dynamic == exists|m: int| start <= m < end && #[trigger] cs[m] == ChildClass::Text { dynamic: true }
        },
        _ => true,
    }
}

pub open spec fn runs_cover(items: Seq<LayoutItem>, cs: Seq<ChildClass>) -> bool {
    forall|i: int| 0 <= i < items.len() ==> run_covers(#[trigger] items[i], cs)
}

/// The runs so far cover their children, and an open run is followed only
/// by unplaced children.
pub open spec fn run_inv(s: LayoutState, cs: Seq<ChildClass>, k: nat) -> bool {
    &&& runs_cover(s.items, cs)
    &&& (s.pending.len() == 0 && s.items.len() > 0 && s.items.last() is TextRun) ==> (match s.items.last() {
        LayoutItem::TextRun { end, .. } => end <= k && forall|m: int| end <= m < k ==> #[trigger] cs[m] is Ignored,
        _ => true,
    })
}

proof fn lemma_push_runs(items: Seq<LayoutItem>, x: LayoutItem, cs: Seq<ChildClass>)
    requires
        runs_cover(items, cs),
        run_covers(x, cs),
    ensures
        runs_cover(items.push(x), cs),
{
    assert forall|i: int| 0 <= i < items.push(x).len() implies run_covers(#[trigger] items.push(x)[i], cs) by {
        if i < items.len() {
            assert(items.push(x)[i] == items[i]);
        }
    }
}

proof fn lemma_flush_runs(s: LayoutState, pending: Seq<PendingInsertion>, before: bool, cs: Seq<ChildClass>)
    requires
        runs_cover(s.items, cs),
    ensures
        runs_cover(flush_prefix(s, pending, before).items, cs),
    decreases pending.len(),
{
    if pending.len() > 0 {
        lemma_flush_runs(s, pending.drop_last(), before, cs);
        let u = flush_prefix(s, pending.drop_last(), before);
        let q = pending.last();
        if before {
            let slot = AnchorSlot(u.anchor_count);
            let ins = LayoutItem::Inserted {
                flat_index: q.flat_index,
                logical_index: q.logical_index,
                insertion: InsertionPlan::Before(slot),
            };
            lemma_push_runs(u.items, ins, cs);
            lemma_push_runs(u.items.push(ins), LayoutItem::Anchor { slot, element_index: u.element_index }, cs);
        } else {
            let ins = LayoutItem::Inserted {
                flat_index: q.flat_index,
                logical_index: q.logical_index,
                insertion: InsertionPlan::Append,
            };
            lemma_push_runs(u.items, ins, cs);
        }
    }
}

proof fn lemma_run_inv(cs: Seq<ChildClass>, k: nat)
    requires
        k <= cs.len(),
        cs.len() <= usize::MAX,
    ensures
        run_inv(analyze_prefix(cs, k), cs, k),
    decreases k,
{
    if k > 0 {
        let j = (k - 1) as nat;
        lemma_run_inv(cs, j);
        lemma_prefix_bounds(cs, j);
        lemma_prefix_inv(cs, j);
        let s = analyze_prefix(cs, j);
        let fi = j as usize;
        lemma_flush_counts(s, s.pending, true);
        lemma_flush_runs(s, s.pending, true, cs);
        lemma_flush_inv(s, s.pending, true);
        let t = flush(s, true);
        match cs[j as int] {
            ChildClass::Block => {},
            ChildClass::Element { referenced } => {
                lemma_push_runs(t.items, LayoutItem::Element { flat_index: fi, element_index: t.element_index, referenced }, cs);
            },
            ChildClass::Comment => {
                lemma_push_runs(t.items, LayoutItem::Comment { flat_index: fi }, cs);
            },
            ChildClass::Text { dynamic } => {
                if t.items.len() > 0 && t.items.last() is TextRun {
                    assert(s.pending.len() == 0) by {
                        if s.pending.len() > 0 {
                            lemma_flush_anchor_last(s, s.pending);
                        }
                    }
                    assert(t.items == s.items);
                    let last_i = t.items.len() - 1;
                    assert(run_covers(t.items[last_i], cs));
                    match t.items.last() {
                        LayoutItem::TextRun { start, end, element_index, dynamic: run_dynamic } => {
                            let y = LayoutItem::TextRun {
                                start,
                                end: (fi + 1) as usize,
                                element_index,
                                dynamic: run_dynamic || dynamic,
                            };
                            assert(forall|m: int| end <= m < j ==> #[trigger] cs[m] is Ignored);
                            assert forall|m: int| start <= m < fi + 1 implies (#[trigger] cs[m] is Text || cs[m] is Ignored) by {
                                if m < end {
                                    assert(start <= m < end);
                                }
                            }
                            if run_dynamic || dynamic {
                                if dynamic {
                                    assert(cs[j as int] == ChildClass::Text { dynamic: true });
                                }
                            } else {
                                assert forall|m: int| start <= m < fi + 1 implies #[trigger] cs[m] != ChildClass::Text { dynamic: true } by {
                                    if m < end {
                                    } else if m < j {
                                        assert(cs[m] is Ignored);
                                    }
                                }
                            }
                            assert(run_covers(y, cs));
                            let v = t.items.update(last_i, y);
                            assert forall|i: int| 0 <= i < v.len() implies run_covers(#[trigger] v[i], cs) by {
                                if i < last_i {
                                    assert(v[i] == t.items[i]);
                                }
                            }
                        },
                        _ => {},
                    }
                } else {
                    let x = LayoutItem::TextRun { start: fi, end: (fi + 1) as usize, element_index: t.element_index, dynamic };
                    assert(run_covers(x, cs)) by {
                        if dynamic {
                            assert(cs[j as int] == ChildClass::Text { dynamic: true });
                        }
                    }
                    lemma_push_runs(t.items, x, cs);
                }
            },
            ChildClass::Ignored => {
                let s2 = analyze_prefix(cs, k);
                assert(s2 == s);
            },
        }
    }
}

/// After flushing a non-empty pending list before anchors, the last item is
/// an anchor.
proof fn lemma_flush_anchor_last(s: LayoutState, pending: Seq<PendingInsertion>)
    requires
        pending.len() > 0,
    ensures
        flush_prefix(s, pending, true).items.last() is Anchor,
{
}

/// Law: every text run covers a stretch of children that starts with a text
/// and holds only texts (and unplaced children), and the run is dynamic
/// exactly when it contains an interpolation.
pub proof fn law_text_runs_cover_texts(children: Seq<TemplateChildNode>, process_dynamic_keys: bool)
    requires
        flatten(children).len() <= usize::MAX,
    ensures
        runs_cover(
            layout_of(children, process_dynamic_keys).items,
            classes(flatten(children), process_dynamic_keys),
        ),
{
    let cs = classes(flatten(children), process_dynamic_keys);
    lemma_run_inv(cs, cs.len());
    let s = analyze_prefix(cs, cs.len());
    lemma_flush_runs(s, s.pending, false, cs);
}

} // verus!
