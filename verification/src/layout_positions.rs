//! Where the items of a child layout stand among the flattened children.

use vstd::prelude::*;
use crate::ast::TemplateChildNode;
use crate::layout::{
    analyze, analyze_prefix, classes, classify, flatten, flush_prefix, layout_of, lemma_flush_counts, lemma_prefix_bounds,
    AnchorSlot, ChildClass, InsertionPlan, LayoutItem, LayoutState, PendingInsertion,
};
use crate::deferred::logical_total;
use crate::layout_laws::{is_append, is_before};

verus! {

/// The item is a node of the client template that stands for children:
/// an element, a text run or a comment.
pub open spec fn is_concrete(item: LayoutItem) -> bool {
    item is Element || item is TextRun || item is Comment
}

/// The item stands for children of the parent: every item but an anchor.
pub open spec fn is_placed(item: LayoutItem) -> bool {
    !(item is Anchor)
}

/// The first flattened child that the item stands for.
pub open spec fn first_pos(item: LayoutItem) -> int {
    match item {
        LayoutItem::Element { flat_index, .. } => flat_index as int,
        LayoutItem::Comment { flat_index } => flat_index as int,
        LayoutItem::Inserted { flat_index, .. } => flat_index as int,
        LayoutItem::TextRun { start, .. } => start as int,
        LayoutItem::Anchor { .. } => -1,
    }
}

/// The last flattened child that the item stands for.
pub open spec fn last_pos(item: LayoutItem) -> int {
    match item {
        LayoutItem::TextRun { end, .. } => end - 1,
        _ => first_pos(item),
    }
}

/// The item stands for the flattened child `m`.
pub open spec fn covers_position(item: LayoutItem, m: int) -> bool {
    is_placed(item) && first_pos(item) <= m <= last_pos(item)
}

/// Some item stands for the flattened child `m`.
pub open spec fn covered(items: Seq<LayoutItem>, m: int) -> bool {
    exists|i: int| 0 <= i < items.len() && covers_position(#[trigger] items[i], m)
}

/// Of two items, the earlier one stands for earlier children.
pub open spec fn positions_increase(items: Seq<LayoutItem>) -> bool {
    forall|i: int, j: int|
        0 <= i < j < items.len() && is_placed(#[trigger] items[i]) && is_placed(#[trigger] items[j]) ==> last_pos(
            items[i],
        ) < first_pos(items[j])
}

/// Every item stands for a non-empty stretch of the first `k` children.
pub open spec fn positions_below(items: Seq<LayoutItem>, k: int) -> bool {
    forall|i: int|
        0 <= i < items.len() && is_placed(#[trigger] items[i]) ==> 0 <= first_pos(items[i]) <= last_pos(items[i])
            < k
}

/// An element, comment or inserted block stands at a child of its kind.
pub open spec fn item_fits_class(item: LayoutItem, cs: Seq<ChildClass>) -> bool {
    match item {
        LayoutItem::Element { flat_index, .. } => cs[flat_index as int] is Element,
        LayoutItem::Comment { flat_index } => cs[flat_index as int] is Comment,
        LayoutItem::Inserted { flat_index, .. } => cs[flat_index as int] is Block,
        _ => true,
    }
}

pub open spec fn items_fit_classes(items: Seq<LayoutItem>, cs: Seq<ChildClass>) -> bool {
    forall|i: int| 0 <= i < items.len() ==> item_fits_class(#[trigger] items[i], cs)
}

/// Every block inserted before an anchor is followed, later on, by an
/// element, a text run or a comment.
pub open spec fn befores_precede_concrete(items: Seq<LayoutItem>) -> bool {
    forall|i: int|
        0 <= i < items.len() && is_before(#[trigger] items[i]) ==> exists|j: int|
            i < j < items.len() && is_concrete(#[trigger] items[j])
}

/// No text run directly follows another one.
pub open spec fn runs_maximal(items: Seq<LayoutItem>) -> bool {
    forall|i: int, j: int|
        #![trigger items[i], items[j]]
        0 <= i && j == i + 1 && j < items.len() && items[i] is TextRun ==> !(items[j] is TextRun)
}

pub open spec fn pending_ascending(p: Seq<PendingInsertion>) -> bool {
    forall|a: int, b: int| 0 <= a < b < p.len() ==> (#[trigger] p[a]).flat_index < (#[trigger] p[b]).flat_index
}

/// The pending blocks are blocks among the first `k` children.
pub open spec fn pending_blocks_below(p: Seq<PendingInsertion>, cs: Seq<ChildClass>, k: int) -> bool {
    forall|a: int| 0 <= a < p.len() ==> (#[trigger] p[a]).flat_index < k && cs[p[a].flat_index as int] is Block
}

/// The pending blocks come after every child that an item stands for.
pub open spec fn pending_after_items(items: Seq<LayoutItem>, p: Seq<PendingInsertion>) -> bool {
    forall|i: int, a: int|
        0 <= i < items.len() && 0 <= a < p.len() && is_placed(#[trigger] items[i]) ==> last_pos(items[i]) < (
        #[trigger] p[a]).flat_index
}

/// Some pending block stands at the flattened child `m`.
pub open spec fn pending_at(p: Seq<PendingInsertion>, m: int) -> bool {
    exists|a: int| 0 <= a < p.len() && (#[trigger] p[a]).flat_index == m
}

/// What holds of the items and pending blocks after the first `k` children.
pub open spec fn order_inv(s: LayoutState, cs: Seq<ChildClass>, k: int) -> bool {
    &&& positions_increase(s.items)
    &&& positions_below(s.items, k)
    &&& items_fit_classes(s.items, cs)
    &&& runs_maximal(s.items)
    &&& befores_precede_concrete(s.items)
    &&& pending_ascending(s.pending)
    &&& pending_blocks_below(s.pending, cs, k)
    &&& pending_after_items(s.items, s.pending)
    &&& forall|m: int| 0 <= m < k && !(#[trigger] cs[m] is Ignored) ==> covered(s.items, m) || pending_at(s.pending, m)
}

/// Pushing a concrete item for child `j` after items that stand for earlier
/// children keeps the order, and the pushed item follows every anchored block.
proof fn lemma_push_concrete(items: Seq<LayoutItem>, x: LayoutItem, cs: Seq<ChildClass>, j: int)
    requires
        positions_increase(items),
        positions_below(items, j),
        items_fit_classes(items, cs),
        runs_maximal(items),
        is_concrete(x),
        first_pos(x) == j,
        last_pos(x) == j,
        item_fits_class(x, cs),
        x is TextRun ==> items.len() == 0 || !(items.last() is TextRun),
    ensures
        positions_increase(items.push(x)),
        positions_below(items.push(x), j + 1),
        items_fit_classes(items.push(x), cs),
        runs_maximal(items.push(x)),
        befores_precede_concrete(items.push(x)),
        covers_position(items.push(x)[items.len() as int], j),
        forall|m: int| covered(items, m) ==> covered(items.push(x), m),
{
    let v = items.push(x);
    let n = items.len() as int;
    assert(v[n] == x);
    assert forall|i: int, k: int|
        0 <= i < k < v.len() && is_placed(#[trigger] v[i]) && is_placed(#[trigger] v[k]) implies last_pos(v[i])
        < first_pos(v[k]) by {
        assert(v[i] == items[i]);
        if k < n {
            assert(v[k] == items[k]);
        }
    }
    assert forall|i: int| 0 <= i < v.len() && is_placed(#[trigger] v[i]) implies 0 <= first_pos(v[i]) <= last_pos(
        v[i],
    ) < j + 1 by {
        if i < n {
            assert(v[i] == items[i]);
        }
    }
    assert forall|i: int| 0 <= i < v.len() implies item_fits_class(#[trigger] v[i], cs) by {
        if i < n {
            assert(v[i] == items[i]);
        }
    }
    assert forall|i: int, k: int|
        #![trigger v[i], v[k]]
        0 <= i && k == i + 1 && k < v.len() && v[i] is TextRun implies !(v[k] is TextRun) by {
        assert(v[i] == items[i]);
        if k < n {
            assert(v[k] == items[k]);
        } else {
            assert(items[i] == items.last());
        }
    }
    assert forall|i: int| 0 <= i < v.len() && is_before(#[trigger] v[i]) implies exists|k: int|
        i < k < v.len() && is_concrete(#[trigger] v[k]) by {
        assert(v[i] == items[i]);
        assert(is_concrete(v[n]));
    }
    assert forall|m: int| covered(items, m) implies covered(v, m) by {
        let i = choose|i: int| 0 <= i < items.len() && covers_position(#[trigger] items[i], m);
        assert(v[i] == items[i]);
    }
}

/// Extending the last text run to child `j` keeps the order.
proof fn lemma_extend_order(items: Seq<LayoutItem>, y: LayoutItem, cs: Seq<ChildClass>, j: int)
    requires
        items.len() > 0,
        items.last() is TextRun,
        y is TextRun,
        first_pos(y) == first_pos(items.last()),
        last_pos(y) == j,
        positions_increase(items),
        positions_below(items, j),
        items_fit_classes(items, cs),
        runs_maximal(items),
        befores_precede_concrete(items),
    ensures
        ({
            let v = items.update(items.len() - 1, y);
            &&& positions_increase(v)
            &&& positions_below(v, j + 1)
            &&& items_fit_classes(v, cs)
            &&& runs_maximal(v)
            &&& befores_precede_concrete(v)
            &&& covers_position(v[items.len() - 1], j)
            &&& forall|m: int| m <= j && covered(items, m) ==> covered(v, m)
        }),
{
    let n = items.len() as int;
    let v = items.update(n - 1, y);
    assert(items[n - 1] == items.last());
    assert(is_placed(items[n - 1]));
    assert forall|i: int, k: int|
        0 <= i < k < v.len() && is_placed(#[trigger] v[i]) && is_placed(#[trigger] v[k]) implies last_pos(v[i])
        < first_pos(v[k]) by {
        assert(v[i] == items[i]);
        if k < n - 1 {
            assert(v[k] == items[k]);
        } else {
            assert(last_pos(items[i]) < first_pos(items[n - 1]));
        }
    }
    assert forall|i: int| 0 <= i < v.len() && is_placed(#[trigger] v[i]) implies 0 <= first_pos(v[i]) <= last_pos(
        v[i],
    ) < j + 1 by {
        if i < n - 1 {
            assert(v[i] == items[i]);
        }
    }
    assert forall|i: int| 0 <= i < v.len() implies item_fits_class(#[trigger] v[i], cs) by {
        if i < n - 1 {
            assert(v[i] == items[i]);
        }
    }
    assert forall|i: int, k: int|
        #![trigger v[i], v[k]]
        0 <= i && k == i + 1 && k < v.len() && v[i] is TextRun implies !(v[k] is TextRun) by {
        assert(v[i] == items[i]);
        if k < n - 1 {
            assert(v[k] == items[k]);
        } else {
            assert(items[i] is TextRun && items[k] is TextRun);
        }
    }
    assert forall|i: int| 0 <= i < v.len() && is_before(#[trigger] v[i]) implies exists|k: int|
        i < k < v.len() && is_concrete(#[trigger] v[k]) by {
        assert(v[i] == items[i]);
        let k = choose|k: int| i < k < items.len() && is_concrete(#[trigger] items[k]);
        if k < n - 1 {
            assert(v[k] == items[k]);
        } else {
            assert(is_concrete(v[n - 1]));
        }
    }
    assert forall|m: int| m <= j && covered(items, m) implies covered(v, m) by {
        let i = choose|i: int| 0 <= i < items.len() && covers_position(#[trigger] items[i], m);
        if i < n - 1 {
            assert(v[i] == items[i]);
        } else {
            assert(covers_position(v[n - 1], m));
        }
    }
}

/// Flushing the pending blocks before a concrete child `j` keeps the order
/// and covers everything the prefix covered.
proof fn lemma_flush_before(s: LayoutState, cs: Seq<ChildClass>, j: int)
    requires
        order_inv(s, cs, j),
        0 <= j < cs.len(),
    ensures
        ({
            let t = flush_prefix(s, s.pending, true).items;
            &&& positions_increase(t)
            &&& positions_below(t, j)
            &&& items_fit_classes(t, cs)
            &&& runs_maximal(t)
            &&& s.pending.len() == 0 ==> t == s.items
            &&& s.pending.len() > 0 ==> t.len() > 0 && !(t.last() is TextRun)
            &&& forall|m: int| 0 <= m < j && !(#[trigger] cs[m] is Ignored) ==> covered(t, m)
        }),
{
    lemma_flush_order(s, s.pending, true, cs, j);
    let t = flush_prefix(s, s.pending, true).items;
    if s.pending.len() > 0 {
        assert(t.last() is Anchor);
    }
    assert forall|m: int| 0 <= m < j && !(#[trigger] cs[m] is Ignored) implies covered(t, m) by {
        if covered(s.items, m) {
            let i = choose|i: int| 0 <= i < s.items.len() && covers_position(#[trigger] s.items[i], m);
            assert(t[i] == s.items[i]);
        } else {
            let a = choose|a: int| 0 <= a < s.pending.len() && (#[trigger] s.pending[a]).flat_index == m;
            assert(covered(t, s.pending[a].flat_index as int));
        }
    }
}

/// A block child joins the pending blocks.
proof fn lemma_step_block(s: LayoutState, r: LayoutState, cs: Seq<ChildClass>, j: int, q: PendingInsertion)
    requires
        order_inv(s, cs, j),
        0 <= j < cs.len(),
        cs[j] is Block,
        q.flat_index == j,
        r.items == s.items,
        r.pending == s.pending.push(q),
    ensures
        order_inv(r, cs, j + 1),
{
    let np = s.pending.push(q);
    let n = s.pending.len() as int;
    assert(np[n] == q);
    assert forall|a: int| 0 <= a < n implies #[trigger] np[a] == s.pending[a] by {}
    assert(positions_below(s.items, j + 1));
    assert(pending_ascending(np)) by {
        assert forall|a: int, b: int| 0 <= a < b < np.len() implies (#[trigger] np[a]).flat_index < (
        #[trigger] np[b]).flat_index by {
            assert(np[a] == s.pending[a]);
            if b < n {
                assert(np[b] == s.pending[b]);
            }
        }
    }
    assert(pending_blocks_below(np, cs, j + 1)) by {
        assert forall|a: int| 0 <= a < np.len() implies (#[trigger] np[a]).flat_index < j + 1 && cs[np[
            a].flat_index as int] is Block by {
            if a < n {
                assert(np[a] == s.pending[a]);
            }
        }
    }
    assert(pending_after_items(s.items, np)) by {
        assert forall|i: int, a: int|
            0 <= i < s.items.len() && 0 <= a < np.len() && is_placed(#[trigger] s.items[i]) implies last_pos(
            s.items[i],
        ) < (#[trigger] np[a]).flat_index by {
            if a < n {
                assert(np[a] == s.pending[a]);
            }
        }
    }
    assert forall|m: int| 0 <= m < j + 1 && !(#[trigger] cs[m] is Ignored) implies covered(s.items, m)
        || pending_at(np, m) by {
        if m == j {
            assert(np[n].flat_index == m);
        } else if !covered(s.items, m) {
            let a = choose|a: int| 0 <= a < n && (#[trigger] s.pending[a]).flat_index == m;
            assert(np[a] == s.pending[a]);
        }
    }
}

/// An element, comment or text child places the pending blocks before it
/// and then stands for itself (a text may extend the run before it).
proof fn lemma_step_concrete(cs: Seq<ChildClass>, j: nat)
    requires
        j < cs.len(),
        cs.len() <= usize::MAX,
        order_inv(analyze_prefix(cs, j), cs, j as int),
        cs[j as int] is Element || cs[j as int] is Comment || cs[j as int] is Text,
    ensures
        order_inv(analyze_prefix(cs, j + 1), cs, j + 1 as int),
{
    let ji = j as int;
    let k = j + 1;
    lemma_prefix_bounds(cs, j);
    let s = analyze_prefix(cs, j);
    let fi = j as usize;
    lemma_flush_counts(s, s.pending, true);
    lemma_flush_before(s, cs, ji);
    let f = flush_prefix(s, s.pending, true);
    let t = f.items;
    let r = analyze_prefix(cs, k);
    match cs[ji] {
        ChildClass::Element { referenced } => {
            let x = LayoutItem::Element { flat_index: fi, element_index: f.element_index, referenced };
            lemma_push_concrete(t, x, cs, ji);
            assert(r.items == t.push(x));
        },
        ChildClass::Comment => {
            let x = LayoutItem::Comment { flat_index: fi };
            lemma_push_concrete(t, x, cs, ji);
            assert(r.items == t.push(x));
        },
        ChildClass::Text { dynamic } => {
            if t.len() > 0 && t.last() is TextRun {
                assert(t == s.items);
                match t.last() {
                    LayoutItem::TextRun { start, end, element_index, dynamic: run_dynamic } => {
                        let y = LayoutItem::TextRun {
                            start,
                            end: (fi + 1) as usize,
                            element_index,
                            dynamic: run_dynamic || dynamic,
                        };
                        assert(t[t.len() - 1] == t.last());
                        lemma_extend_order(t, y, cs, ji);
                        assert(r.items == t.update(t.len() - 1, y));
                    },
                    _ => {},
                }
            } else {
                let x = LayoutItem::TextRun {
                    start: fi,
                    end: (fi + 1) as usize,
                    element_index: f.element_index,
                    dynamic,
                };
                lemma_push_concrete(t, x, cs, ji);
                assert(r.items == t.push(x));
            }
        },
        _ => {},
    }
    assert(r.pending.len() == 0);
}

/// The order invariant holds after every prefix of the analysis.
proof fn lemma_order_inv(cs: Seq<ChildClass>, k: nat)
    requires
        k <= cs.len(),
        cs.len() <= usize::MAX,
    ensures
        order_inv(analyze_prefix(cs, k), cs, k as int),
    decreases k,
{
    if k > 0 {
        let j = (k - 1) as nat;
        lemma_order_inv(cs, j);
        let s = analyze_prefix(cs, j);
        match cs[j as int] {
            ChildClass::Block => {
                let q = PendingInsertion { flat_index: j as usize, logical_index: s.logical_index };
                lemma_step_block(s, analyze_prefix(cs, k), cs, j as int, q);
            },
            ChildClass::Ignored => {
                assert(analyze_prefix(cs, k) == s);
                assert(positions_below(s.items, k as int));
                assert(pending_blocks_below(s.pending, cs, k as int));
            },
            _ => {
                lemma_step_concrete(cs, j);
            },
        }
    }
}

/// Flushing appends anchors and inserted blocks after the items, in pending
/// order, and keeps every property of this module.
proof fn lemma_flush_order(
    s: LayoutState,
    pending: Seq<PendingInsertion>,
    before: bool,
    cs: Seq<ChildClass>,
    bound: int,
)
    requires
        positions_increase(s.items),
        positions_below(s.items, bound),
        items_fit_classes(s.items, cs),
        runs_maximal(s.items),
        pending_ascending(pending),
        pending_blocks_below(pending, cs, bound),
        pending_after_items(s.items, pending),
    ensures
        ({
            let t = flush_prefix(s, pending, before).items;
            &&& t.len() >= s.items.len()
            &&& forall|i: int| 0 <= i < s.items.len() ==> t[i] == s.items[i]
            &&& forall|i: int|
                s.items.len() <= i < t.len() ==> !is_concrete(#[trigger] t[i]) && (!before ==> is_append(t[i]))
            &&& positions_increase(t)
            &&& positions_below(t, bound)
            &&& items_fit_classes(t, cs)
            &&& runs_maximal(t)
            &&& forall|a: int| 0 <= a < pending.len() ==> covered(t, (#[trigger] pending[a]).flat_index as int)
        }),
    decreases pending.len(),
{
    if pending.len() > 0 {
        let p = pending.drop_last();
        let q = pending.last();
        assert(q == pending[pending.len() - 1]);
        assert forall|a: int| 0 <= a < p.len() implies #[trigger] p[a] == pending[a] by {}
        assert(pending_ascending(p)) by {
            assert forall|a: int, b: int| 0 <= a < b < p.len() implies (#[trigger] p[a]).flat_index < (
            #[trigger] p[b]).flat_index by {
                assert(p[a] == pending[a] && p[b] == pending[b]);
            }
        }
        assert(pending_blocks_below(p, cs, q.flat_index as int)) by {
            assert forall|a: int| 0 <= a < p.len() implies (#[trigger] p[a]).flat_index < q.flat_index && cs[p[
                a].flat_index as int] is Block by {
                assert(p[a] == pending[a]);
            }
        }
        assert(pending_after_items(s.items, p)) by {
            assert forall|i: int, a: int|
                0 <= i < s.items.len() && 0 <= a < p.len() && is_placed(#[trigger] s.items[i]) implies last_pos(
                s.items[i],
            ) < (#[trigger] p[a]).flat_index by {
                assert(p[a] == pending[a]);
            }
        }
        assert(positions_below(s.items, q.flat_index as int)) by {
            assert forall|i: int| 0 <= i < s.items.len() && is_placed(#[trigger] s.items[i]) implies 0 <= first_pos(
                s.items[i],
            ) <= last_pos(s.items[i]) < q.flat_index by {
                assert(last_pos(s.items[i]) < pending[pending.len() - 1].flat_index);
            }
        }
        lemma_flush_order(s, p, before, cs, q.flat_index as int);
        let u = flush_prefix(s, p, before);
        let ins = LayoutItem::Inserted {
            flat_index: q.flat_index,
            logical_index: q.logical_index,
            insertion: if before {
                InsertionPlan::Before(AnchorSlot(u.anchor_count))
            } else {
                InsertionPlan::Append
            },
        };
        let w = u.items.push(ins);
        assert(item_fits_class(ins, cs));
        assert(positions_increase(w)) by {
            assert forall|i: int, j: int|
                0 <= i < j < w.len() && is_placed(#[trigger] w[i]) && is_placed(#[trigger] w[j]) implies last_pos(
                w[i],
            ) < first_pos(w[j]) by {
                assert(w[i] == u.items[i]);
                if j < u.items.len() {
                    assert(w[j] == u.items[j]);
                }
            }
        }
        assert(runs_maximal(w)) by {
            assert forall|i: int, j: int|
                #![trigger w[i], w[j]]
                0 <= i && j == i + 1 && j < w.len() && w[i] is TextRun implies !(w[j] is TextRun) by {
                assert(w[i] == u.items[i]);
                if j < u.items.len() {
                    assert(w[j] == u.items[j]);
                }
            }
        }
        let t = flush_prefix(s, pending, before).items;
        if before {
            let anc = LayoutItem::Anchor { slot: AnchorSlot(u.anchor_count), element_index: u.element_index };
            assert(t == w.push(anc));
            assert(positions_increase(t)) by {
                assert forall|i: int, j: int|
                    0 <= i < j < t.len() && is_placed(#[trigger] t[i]) && is_placed(#[trigger] t[j]) implies last_pos(
                    t[i],
                ) < first_pos(t[j]) by {
                    assert(t[i] == w[i]);
                    assert(t[j] == w[j]);
                }
            }
            assert(runs_maximal(t)) by {
                assert forall|i: int, j: int|
                    #![trigger t[i], t[j]]
                    0 <= i && j == i + 1 && j < t.len() && t[i] is TextRun implies !(t[j] is TextRun) by {
                    assert(t[i] == w[i]);
                    if j < w.len() {
                        assert(t[j] == w[j]);
                    }
                }
            }
        } else {
            assert(t == w);
        }
        assert(positions_below(t, bound)) by {
            assert forall|i: int| 0 <= i < t.len() && is_placed(#[trigger] t[i]) implies 0 <= first_pos(t[i])
                <= last_pos(t[i]) < bound by {
                if i < u.items.len() {
                    assert(t[i] == u.items[i]);
                }
            }
        }
        assert(items_fit_classes(t, cs)) by {
            assert forall|i: int| 0 <= i < t.len() implies item_fits_class(#[trigger] t[i], cs) by {
                if i < u.items.len() {
                    assert(t[i] == u.items[i]);
                }
            }
        }
        assert forall|i: int| 0 <= i < s.items.len() implies t[i] == s.items[i] by {
            assert(t[i] == u.items[i]);
        }
        assert forall|i: int| s.items.len() <= i < t.len() implies !is_concrete(#[trigger] t[i]) && (!before
            ==> is_append(t[i])) by {
            if i < u.items.len() {
                assert(t[i] == u.items[i]);
            }
        }
        assert forall|a: int| 0 <= a < pending.len() implies covered(t, (#[trigger] pending[a]).flat_index as int) by {
            if a < p.len() {
                assert(p[a] == pending[a]);
                assert(covered(u.items, p[a].flat_index as int));
                let i = choose|i: int| 0 <= i < u.items.len() && covers_position(#[trigger] u.items[i], p[a].flat_index as int);
                assert(t[i] == u.items[i]);
            } else {
                let i = u.items.len() as int;
                assert(t[i] == ins);
                assert(covers_position(t[i], pending[a].flat_index as int));
            }
        }
    }
}

/// The complete analysis keeps the order, and every child that is not
/// ignored is covered by an item.
proof fn lemma_analyze_order(cs: Seq<ChildClass>)
    requires
        cs.len() <= usize::MAX,
    ensures
        positions_increase(analyze(cs).items),
        positions_below(analyze(cs).items, cs.len() as int),
        items_fit_classes(analyze(cs).items, cs),
        runs_maximal(analyze(cs).items),
        befores_precede_concrete(analyze(cs).items),
        forall|m: int| 0 <= m < cs.len() && !(#[trigger] cs[m] is Ignored) ==> covered(analyze(cs).items, m),
{
    let n = cs.len() as int;
    lemma_order_inv(cs, cs.len());
    let s = analyze_prefix(cs, cs.len());
    lemma_flush_order(s, s.pending, false, cs, n);
    let t = analyze(cs).items;
    assert(t == flush_prefix(s, s.pending, false).items);
    assert forall|m: int| 0 <= m < n && !(#[trigger] cs[m] is Ignored) implies covered(t, m) by {
        if covered(s.items, m) {
            let i = choose|i: int| 0 <= i < s.items.len() && covers_position(#[trigger] s.items[i], m);
            assert(t[i] == s.items[i]);
        } else {
            let a = choose|a: int| 0 <= a < s.pending.len() && (#[trigger] s.pending[a]).flat_index == m;
            assert(covered(t, s.pending[a].flat_index as int));
        }
    }
    assert forall|i: int| 0 <= i < t.len() && is_before(#[trigger] t[i]) implies exists|j: int|
        i < j < t.len() && is_concrete(#[trigger] t[j]) by {
        if i < s.items.len() {
            assert(t[i] == s.items[i]);
            let j = choose|j: int| i < j < s.items.len() && is_concrete(#[trigger] s.items[j]);
            assert(t[j] == s.items[j]);
        } else {
            assert(is_append(t[i]));
        }
    }
}

/// Law: every block inserted before an anchor is followed, later in the
/// layout, by an element, a text run or a comment: the concrete node that
/// the anchor precedes in the client template.
pub proof fn law_anchored_blocks_precede_concrete(children: Seq<TemplateChildNode>, process_dynamic_keys: bool)
    requires
        flatten(children).len() <= usize::MAX,
    ensures
        befores_precede_concrete(layout_of(children, process_dynamic_keys).items),
{
    lemma_analyze_order(classes(flatten(children), process_dynamic_keys));
}

/// Law: text runs are maximal: no text run directly follows another, so
/// adjacent texts and interpolations always share one run.
pub proof fn law_text_runs_maximal(children: Seq<TemplateChildNode>, process_dynamic_keys: bool)
    requires
        flatten(children).len() <= usize::MAX,
    ensures
        runs_maximal(layout_of(children, process_dynamic_keys).items),
{
    lemma_analyze_order(classes(flatten(children), process_dynamic_keys));
}

/// Law: the items stand for the flattened children in order: each item but
/// an anchor stands for a non-empty stretch of them, the stretches strictly
/// increase in item order, and no child is stood for by two items.
pub proof fn law_item_positions_increase(children: Seq<TemplateChildNode>, process_dynamic_keys: bool)
    requires
        flatten(children).len() <= usize::MAX,
    ensures
        ({
            let items = layout_of(children, process_dynamic_keys).items;
            &&& positions_increase(items)
            &&& positions_below(items, flatten(children).len() as int)
            &&& forall|i: int, j: int, m: int|
                0 <= i < items.len() && 0 <= j < items.len() && i != j && #[trigger] covers_position(items[i], m)
                    ==> !#[trigger] covers_position(items[j], m)
        }),
{
    lemma_analyze_order(classes(flatten(children), process_dynamic_keys));
    let items = layout_of(children, process_dynamic_keys).items;
    assert forall|i: int, j: int, m: int|
        0 <= i < items.len() && 0 <= j < items.len() && i != j && #[trigger] covers_position(items[i], m)
            implies !#[trigger] covers_position(items[j], m) by {
        if covers_position(items[j], m) {
            if i < j {
                assert(last_pos(items[i]) < first_pos(items[j]));
            } else {
                assert(last_pos(items[j]) < first_pos(items[i]));
            }
        }
    }
}

/// Law: every element, text, interpolation, comment, `v-if` and `v-for`
/// child is stood for by an item, and each element, comment and inserted
/// block item stands at a child of its own kind.
pub proof fn law_items_cover_placed_children(children: Seq<TemplateChildNode>, process_dynamic_keys: bool)
    requires
        flatten(children).len() <= usize::MAX,
    ensures
        ({
            let flat = flatten(children);
            let items = layout_of(children, process_dynamic_keys).items;
            &&& forall|m: int| 0 <= m < flat.len() && !(#[trigger] flat[m] is Other) ==> covered(items, m)
            &&& items_fit_classes(items, classes(flat, process_dynamic_keys))
        }),
{
    let flat = flatten(children);
    let cs = classes(flat, process_dynamic_keys);
    lemma_analyze_order(cs);
    assert forall|m: int| 0 <= m < flat.len() && !(#[trigger] flat[m] is Other) implies covered(
        layout_of(children, process_dynamic_keys).items,
        m,
    ) by {
        assert(cs[m] == classify(flat[m], process_dynamic_keys));
        assert(!(cs[m] is Ignored));
    }
}

/// The logical index of an inserted item (0 for other items).
pub open spec fn inserted_logical_index(item: LayoutItem) -> usize {
    match item {
        LayoutItem::Inserted { logical_index, .. } => logical_index,
        _ => 0,
    }
}

/// Every inserted block records the number of logical siblings (items other
/// than anchors) before it.
pub open spec fn logical_indices_count_items(items: Seq<LayoutItem>) -> bool {
    forall|i: int|
        0 <= i < items.len() && (#[trigger] items[i]) is Inserted ==> inserted_logical_index(items[i]) as int
            == logical_total(items.take(i))
}

/// Pushing an item keeps the recorded logical indices when an inserted item
/// records the logical siblings before it.
proof fn lemma_push_logical_count(items: Seq<LayoutItem>, x: LayoutItem)
    requires
        logical_indices_count_items(items),
        x is Inserted ==> inserted_logical_index(x) as int == logical_total(items),
    ensures
        logical_indices_count_items(items.push(x)),
        logical_total(items.push(x)) == logical_total(items) + if x is Anchor { 0nat } else { 1nat },
{
    let v = items.push(x);
    assert(v.drop_last() =~= items);
    assert forall|i: int| 0 <= i < v.len() && (#[trigger] v[i]) is Inserted implies inserted_logical_index(v[i]) as int
        == logical_total(v.take(i)) by {
        if i < items.len() {
            assert(v.take(i) =~= items.take(i));
            assert(v[i] == items[i]);
        } else {
            assert(v.take(i) =~= items);
        }
    }
}

/// Flushing gives each pending block the next logical position.
proof fn lemma_flush_logical_count(s: LayoutState, pending: Seq<PendingInsertion>, before: bool)
    requires
        logical_indices_count_items(s.items),
        forall|a: int| 0 <= a < pending.len() ==> (#[trigger] pending[a]).logical_index == logical_total(s.items) + a,
    ensures
        logical_indices_count_items(flush_prefix(s, pending, before).items),
        logical_total(flush_prefix(s, pending, before).items) == logical_total(s.items) + pending.len(),
    decreases pending.len(),
{
    if pending.len() > 0 {
        let p = pending.drop_last();
        let q = pending.last();
        assert(q == pending[pending.len() - 1]);
        assert forall|a: int| 0 <= a < p.len() implies (#[trigger] p[a]).logical_index == logical_total(s.items) + a by {
            assert(p[a] == pending[a]);
        }
        lemma_flush_logical_count(s, p, before);
        let u = flush_prefix(s, p, before);
        let ins = LayoutItem::Inserted {
            flat_index: q.flat_index,
            logical_index: q.logical_index,
            insertion: if before {
                InsertionPlan::Before(AnchorSlot(u.anchor_count))
            } else {
                InsertionPlan::Append
            },
        };
        lemma_push_logical_count(u.items, ins);
        if before {
            let anc = LayoutItem::Anchor { slot: AnchorSlot(u.anchor_count), element_index: u.element_index };
            lemma_push_logical_count(u.items.push(ins), anc);
        }
    }
}

/// The analysis counter and the recorded logical indices agree with the
/// items after every prefix.
pub open spec fn logical_count_inv(s: LayoutState) -> bool {
    &&& logical_indices_count_items(s.items)
    &&& s.logical_index == logical_total(s.items) + s.pending.len()
    &&& forall|a: int|
        0 <= a < s.pending.len() ==> (#[trigger] s.pending[a]).logical_index == logical_total(s.items) + a
}

proof fn lemma_logical_count_inv(cs: Seq<ChildClass>, k: nat)
    requires
        k <= cs.len(),
        cs.len() <= usize::MAX,
    ensures
        logical_count_inv(analyze_prefix(cs, k)),
    decreases k,
{
    if k > 0 {
        let j = (k - 1) as nat;
        lemma_logical_count_inv(cs, j);
        lemma_prefix_bounds(cs, j);
        let s = analyze_prefix(cs, j);
        let fi = j as usize;
        let r = analyze_prefix(cs, k);
        lemma_flush_counts(s, s.pending, true);
        lemma_flush_logical_count(s, s.pending, true);
        let f = flush_prefix(s, s.pending, true);
        let t = f.items;
        match cs[j as int] {
            ChildClass::Block => {
                let q = PendingInsertion { flat_index: fi, logical_index: s.logical_index };
                assert(r.pending == s.pending.push(q));
                assert forall|a: int| 0 <= a < r.pending.len() implies (#[trigger] r.pending[a]).logical_index
                    == logical_total(r.items) + a by {
                    if a < s.pending.len() {
                        assert(r.pending[a] == s.pending[a]);
                    }
                }
            },
            ChildClass::Ignored => {},
            ChildClass::Element { referenced } => {
                lemma_push_logical_count(t, LayoutItem::Element { flat_index: fi, element_index: f.element_index, referenced });
            },
            ChildClass::Comment => {
                lemma_push_logical_count(t, LayoutItem::Comment { flat_index: fi });
            },
            ChildClass::Text { dynamic } => {
                if t.len() > 0 && t.last() is TextRun {
                    if s.pending.len() > 0 {
                        assert(t.last() is Anchor);
                    }
                    match t.last() {
                        LayoutItem::TextRun { start, end, element_index, dynamic: run_dynamic } => {
                            let y = LayoutItem::TextRun {
                                start,
                                end: (fi + 1) as usize,
                                element_index,
                                dynamic: run_dynamic || dynamic,
                            };
                            let n = t.len() - 1;
                            let v = t.update(n, y);
                            assert(v.drop_last() =~= t.drop_last());
                            assert(logical_total(v) == logical_total(t));
                            assert forall|i: int| 0 <= i < v.len() && (#[trigger] v[i]) is Inserted implies inserted_logical_index(
                                v[i],
                            ) as int == logical_total(v.take(i)) by {
                                assert(v[i] == t[i]);
                                assert(v.take(i) =~= t.take(i));
                            }
                        },
                        _ => {},
                    }
                } else {
                    lemma_push_logical_count(
                        t,
                        LayoutItem::TextRun { start: fi, end: (fi + 1) as usize, element_index: f.element_index, dynamic },
                    );
                }
            },
        }
    }
}

/// Law: every inserted block's logical index is the number of logical
/// siblings before it, counted as the layout items other than anchors; the
/// reference targets of elements and text runs take the same count.
pub proof fn law_inserted_logical_counts_items(children: Seq<TemplateChildNode>, process_dynamic_keys: bool)
    requires
        flatten(children).len() <= usize::MAX,
    ensures
        logical_indices_count_items(layout_of(children, process_dynamic_keys).items),
{
    let cs = classes(flatten(children), process_dynamic_keys);
    lemma_logical_count_inv(cs, cs.len());
    let s = analyze_prefix(cs, cs.len());
    lemma_flush_logical_count(s, s.pending, false);
}

/// Law: every inserted item of a layout stands at a block child of the
/// flattened children: an element, a `v-if` or a `v-for`.
pub proof fn law_inserted_items_stand_at_blocks(children: Seq<TemplateChildNode>, process_dynamic_keys: bool)
    requires
        flatten(children).len() <= usize::MAX,
    ensures
        ({
            let flat = flatten(children);
            let items = layout_of(children, process_dynamic_keys).items;
            forall|i: int|
                0 <= i < items.len() && (#[trigger] items[i]) is Inserted ==> 0 <= first_pos(items[i]) < flat.len() && (
                flat[first_pos(items[i])] is Element || flat[first_pos(items[i])] is If || flat[first_pos(
                    items[i],
                )] is For)
        }),
{
    let flat = flatten(children);
    let cs = classes(flat, process_dynamic_keys);
    lemma_analyze_order(cs);
    let items = layout_of(children, process_dynamic_keys).items;
    assert forall|i: int| 0 <= i < items.len() && (#[trigger] items[i]) is Inserted implies 0 <= first_pos(items[i])
        < flat.len() && (flat[first_pos(items[i])] is Element || flat[first_pos(items[i])] is If || flat[first_pos(
        items[i],
    )] is For) by {
        assert(item_fits_class(items[i], cs));
        assert(is_placed(items[i]));
        let m = first_pos(items[i]);
        assert(cs[m] == classify(flat[m], process_dynamic_keys));
    }
}

} // verus!
