//! What the generated reference lines look like to a reader of `_next` calls.

use vstd::prelude::*;
use crate::generate::{child_ref_line, decimal, insert_node_line, next_ref_line, node_var};
use crate::ir::{ChildRefIRNode, NextRefIRNode};
use crate::sibling_navigation::{
    call_at, call_comma, call_end, call_positions, closes_at, depth_before, is_call_at, is_first_close,
    is_first_comma, lemma_skip_positions, paren_delta, spec_next_calls,
};

verus! {

/// No character of `s` is a parenthesis, a comma or an underscore.
pub open spec fn plain(s: Seq<char>) -> bool {
    forall|i: int| 0 <= i < s.len() ==> #[trigger] s[i] != '(' && s[i] != ')' && s[i] != ',' && s[i] != '_'
}

/// No `_next(` can start inside `s`, whatever follows it: every underscore
/// is followed, within `s`, by something other than `ne`.
pub open spec fn no_call_start(s: Seq<char>) -> bool {
    forall|i: int|
        0 <= i < s.len() && #[trigger] s[i] == '_' ==> i + 2 < s.len() && (s[i + 1] != 'n' || s[i + 2] != 'e')
}

/// The parenthesis depth of `a[0..k]`, relative to its start.
pub open spec fn arg_depth(a: Seq<char>, k: int) -> int
    decreases k,
{
    if k <= 0 {
        0
    } else {
        arg_depth(a, k - 1) + paren_delta(a[k - 1])
    }
}

/// `a` is a balanced argument without a top-level comma: its parentheses
/// close within it and no `)` inside it closes the call.
pub open spec fn balanced_argument(a: Seq<char>) -> bool {
    &&& arg_depth(a, a.len() as int) == 0
    &&& forall|k: int| 0 <= k < a.len() && #[trigger] a[k] == ')' ==> arg_depth(a, k) != 0
    &&& forall|k: int| 0 <= k < a.len() ==> #[trigger] a[k] != ','
}

proof fn lemma_plain_concat(a: Seq<char>, b: Seq<char>)
    requires
        plain(a),
        plain(b),
    ensures
        plain(a + b),
{
    assert forall|i: int| 0 <= i < (a + b).len() implies #[trigger] (a + b)[i] != '(' && (a + b)[i] != ')'
        && (a + b)[i] != ',' && (a + b)[i] != '_' by {
        if i < a.len() {
            assert((a + b)[i] == a[i]);
        } else {
            assert((a + b)[i] == b[i - a.len()]);
        }
    }
}

proof fn lemma_no_call_start_concat(a: Seq<char>, b: Seq<char>)
    requires
        no_call_start(a),
        no_call_start(b),
    ensures
        no_call_start(a + b),
{
    let c = a + b;
    assert forall|i: int| 0 <= i < c.len() && #[trigger] c[i] == '_' implies i + 2 < c.len() && (c[i + 1]
        != 'n' || c[i + 2] != 'e') by {
        if i < a.len() {
            assert(c[i] == a[i]);
            assert(c[i + 1] == a[i + 1]);
            assert(c[i + 2] == a[i + 2]);
        } else {
            assert(c[i] == b[i - a.len()]);
            assert(c[i + 1] == b[i + 1 - a.len()]);
            assert(c[i + 2] == b[i + 2 - a.len()]);
        }
    }
}

proof fn lemma_decimal_plain(n: nat)
    ensures
        plain(decimal(n)),
    decreases n,
{
    if n >= 10 {
        lemma_decimal_plain(n / 10);
        let d = decimal(n / 10);
        assert forall|i: int| 0 <= i < decimal(n).len() implies #[trigger] decimal(n)[i] != '(' && decimal(n)[i]
            != ')' && decimal(n)[i] != ',' && decimal(n)[i] != '_' by {
            if i < d.len() {
                assert(decimal(n)[i] == d[i]);
            }
        }
    }
}

proof fn lemma_node_var_plain(id: usize)
    ensures
        plain(node_var(id)),
{
    reveal_strlit("n");
    assert("n"@ =~= seq!['n']);
    lemma_decimal_plain(id as nat);
    lemma_plain_concat("n"@, decimal(id as nat));
}

proof fn lemma_plain_depth(a: Seq<char>, k: int)
    requires
        plain(a),
        0 <= k <= a.len(),
    ensures
        arg_depth(a, k) == 0,
    decreases k,
{
    if k > 0 {
        lemma_plain_depth(a, k - 1);
    }
}

/// Inside the call, the depth follows the argument's own depth.
proof fn lemma_depth_in_argument(c: Seq<char>, open: int, a: Seq<char>, k: int)
    requires
        0 <= open,
        open + a.len() <= c.len(),
        c.subrange(open, open + a.len()) == a,
        0 <= k <= a.len(),
    ensures
        depth_before(c, open, open + k) == 1 + arg_depth(a, k),
    decreases k,
{
    if k > 0 {
        lemma_depth_in_argument(c, open, a, k - 1);
        assert(c[open + k - 1] == c.subrange(open, open + a.len())[k - 1]);
    }
}

/// A string in which no `_next(` starts holds no call.
proof fn lemma_no_calls(c: Seq<char>)
    requires
        no_call_start(c),
    ensures
        call_positions(c, 0) == Seq::<int>::empty(),
{
    reveal_strlit("_next(");
    assert forall|q: int| 0 <= q < c.len() implies !is_call_at(c, q) by {
        if is_call_at(c, q) {
            assert(c.subrange(q, q + 6)[0] == '_');
            assert(c.subrange(q, q + 6)[1] == 'n');
            assert(c.subrange(q, q + 6)[2] == 'e');
        }
    }
    lemma_skip_positions(c, 0, c.len() as int);
}

/// `p_ + "_next(" + a + ")"` holds exactly one call, whose base is `a` and
/// which has no index.
pub proof fn lemma_one_bare_call(p_: Seq<char>, a: Seq<char>)
    requires
        no_call_start(p_),
        no_call_start(a + ")"@),
        balanced_argument(a),
    ensures
        spec_next_calls(p_ + "_next("@ + a + ")"@) == seq![(a, None::<Seq<char>>)],
{
    reveal_strlit("_next(");
    reveal_strlit(")");
    let n = "_next("@;
    let r = ")"@;
    assert(n =~= seq!['_', 'n', 'e', 'x', 't', '(']);
    assert(r =~= seq![')']);
    let c = p_ + n + a + r;
    let pl = p_.len() as int;
    let open = pl + 6;
    let end = open + a.len();
    // no call inside the prefix
    assert forall|q: int| 0 <= q < pl implies !is_call_at(c, q) by {
        if is_call_at(c, q) {
            assert(c.subrange(q, q + 6)[0] == '_');
            assert(c.subrange(q, q + 6)[1] == 'n');
            assert(c.subrange(q, q + 6)[2] == 'e');
            assert(c[q] == p_[q]);
            assert(c[q + 1] == p_[q + 1]);
            assert(c[q + 2] == p_[q + 2]);
        }
    }
    lemma_skip_positions(c, 0, pl);
    assert(c.subrange(pl, pl + 6) =~= n);
    assert(is_call_at(c, pl));
    // no call after the call's opening
    let tail = a + r;
    assert(c =~= p_ + n + tail);
    assert forall|q: int| open <= q < c.len() implies !is_call_at(c, q) by {
        if is_call_at(c, q) {
            assert(c.subrange(q, q + 6)[0] == '_');
            assert(c.subrange(q, q + 6)[1] == 'n');
            assert(c.subrange(q, q + 6)[2] == 'e');
            assert(c[q] == tail[q - open]);
            assert(c[q + 1] == tail[q + 1 - open]);
            assert(c[q + 2] == tail[q + 2 - open]);
        }
    }
    lemma_skip_positions(c, open, c.len() as int);
    assert(call_positions(c, pl) == seq![pl] + call_positions(c, open));
    assert(call_positions(c, 0) =~= seq![pl]);
    // the closing parenthesis
    assert(c.subrange(open, end) =~= a);
    lemma_depth_in_argument(c, open, a, a.len() as int);
    assert(c[end] == ')');
    assert(closes_at(c, open, end));
    assert forall|k: int| open <= k < end implies !closes_at(c, open, k) by {
        lemma_depth_in_argument(c, open, a, k - open);
        assert(c[k] == a[k - open]);
    }
    assert(is_first_close(c, open, end));
    let j = choose|j: int| is_first_close(c, open, j);
    if j < end {
        assert(!closes_at(c, open, j));
    } else if j > end {
        assert(!closes_at(c, open, end));
    }
    assert(call_end(c, open) == end);
    // no top-level comma
    assert forall|j: int| !#[trigger] is_first_comma(c, open, end, j) by {
        if is_first_comma(c, open, end, j) {
            assert(c[j] == a[j - open]);
        }
    }
    assert(call_comma(c, open, end) is None);
    assert(call_at(c, pl) == (a, None::<Seq<char>>));
    assert(spec_next_calls(c) =~= seq![(a, None::<Seq<char>>)]);
}

/// `const n{child} = ` holds no call start.
proof fn lemma_declaration_prefix(child: usize)
    ensures
        no_call_start("const "@ + node_var(child) + " = "@),
        plain("const "@ + node_var(child) + " = "@),
{
    reveal_strlit("const ");
    reveal_strlit(" = ");
    let k = "const "@;
    let e = " = "@;
    assert(k =~= seq!['c', 'o', 'n', 's', 't', ' ']);
    assert(e =~= seq![' ', '=', ' ']);
    assert(plain(k));
    assert(plain(e));
    lemma_node_var_plain(child);
    lemma_plain_concat(k, node_var(child));
    lemma_plain_concat(k + node_var(child), e);
}

/// Law: a one-step sibling reference is a single bare `_next` call: its
/// base is the previous node and it carries no index.
pub proof fn law_next_ref_is_bare(r: NextRefIRNode)
    ensures
        spec_next_calls(next_ref_line(r)) == seq![(node_var(r.prev_id), None::<Seq<char>>)],
{
    reveal_strlit(" = _next(");
    reveal_strlit(" = ");
    reveal_strlit("_next(");
    reveal_strlit(")");
    let p_ = "const "@ + node_var(r.child_id) + " = "@;
    let a = node_var(r.prev_id);
    assert(" = _next("@ =~= " = "@ + "_next("@);
    assert(next_ref_line(r) =~= p_ + "_next("@ + a + ")"@);
    lemma_declaration_prefix(r.child_id);
    lemma_node_var_plain(r.prev_id);
    assert(")"@ =~= seq![')']);
    assert(no_call_start(a + ")"@)) by {
        assert forall|i: int| 0 <= i < (a + ")"@).len() implies #[trigger] (a + ")"@)[i] != '_' by {
            if i < a.len() {
                assert((a + ")"@)[i] == a[i]);
            }
        }
    }
    lemma_plain_depth(a, a.len() as int);
    lemma_one_bare_call(p_, a);
}

proof fn lemma_arg_depth_concat(x: Seq<char>, y: Seq<char>, k: int)
    requires
        0 <= k <= y.len(),
    ensures
        arg_depth(x + y, x.len() + k) == arg_depth(x, x.len() as int) + arg_depth(y, k),
    decreases k,
{
    if k > 0 {
        lemma_arg_depth_concat(x, y, k - 1);
        assert((x + y)[x.len() + k - 1] == y[k - 1]);
    } else {
        lemma_arg_depth_prefix(x, y, x.len() as int);
    }
}

proof fn lemma_arg_depth_prefix(x: Seq<char>, y: Seq<char>, k: int)
    requires
        0 <= k <= x.len(),
    ensures
        arg_depth(x + y, k) == arg_depth(x, k),
    decreases k,
{
    if k > 0 {
        lemma_arg_depth_prefix(x, y, k - 1);
        assert((x + y)[k - 1] == x[k - 1]);
    }
}

/// The literal pieces of the reference lines, as characters.
proof fn lemma_literals()
    ensures
        " = _child("@ =~= seq![' ', '=', ' ', '_', 'c', 'h', 'i', 'l', 'd', '('],
        "_child("@ =~= seq!['_', 'c', 'h', 'i', 'l', 'd', '('],
        " = _nthChild("@ =~= seq![' ', '=', ' ', '_', 'n', 't', 'h', 'C', 'h', 'i', 'l', 'd', '('],
        " = _next(_child("@ =~= " = "@ + "_next("@ + "_child("@,
        ")"@ =~= seq![')'],
        "))"@ =~= seq![')', ')'],
        ", "@ =~= seq![',', ' '],
{
    reveal_strlit(" = _child(");
    reveal_strlit("_child(");
    reveal_strlit(" = _nthChild(");
    reveal_strlit(" = _next(_child(");
    reveal_strlit(" = ");
    reveal_strlit("_next(");
    reveal_strlit(")");
    reveal_strlit("))");
    reveal_strlit(", ");
}

/// Law: a child lookup contains a `_next` call only for index 1, where it is
/// the bare step `_next(_child(n{parent}))`; index 0 is `_child` and larger
/// indices are absolute `_nthChild` lookups.
pub proof fn law_child_ref_next_calls(r: ChildRefIRNode)
    ensures
        spec_next_calls(child_ref_line(r)) == if r.element_index == 1 {
            seq![("_child("@ + node_var(r.parent_id) + ")"@, None::<Seq<char>>)]
        } else {
            Seq::<(Seq<char>, Option<Seq<char>>)>::empty()
        },
{
    lemma_literals();
    lemma_declaration_prefix(r.child_id);
    lemma_node_var_plain(r.parent_id);
    let p_ = "const "@ + node_var(r.child_id) + " = "@;
    let nv = node_var(r.parent_id);
    let close = ")"@;
    assert(no_call_start(close));
    if r.element_index == 0 {
        let lit = " = _child("@;
        assert(no_call_start(lit));
        let line = "const "@ + node_var(r.child_id) + lit + nv + close;
        assert(no_call_start("const "@ + node_var(r.child_id))) by {
            reveal_strlit("const ");
            assert("const "@ =~= seq!['c', 'o', 'n', 's', 't', ' ']);
            assert(plain("const "@));
            lemma_node_var_plain(r.child_id);
            lemma_plain_concat("const "@, node_var(r.child_id));
        }
        lemma_no_call_start_concat("const "@ + node_var(r.child_id), lit);
        lemma_no_call_start_concat("const "@ + node_var(r.child_id) + lit, nv);
        lemma_no_call_start_concat("const "@ + node_var(r.child_id) + lit + nv, close);
        assert(child_ref_line(r) == line);
        lemma_no_calls(line);
        assert(spec_next_calls(line) =~= Seq::<(Seq<char>, Option<Seq<char>>)>::empty());
    } else if r.element_index == 1 {
        let ch = "_child("@;
        let a = ch + nv + close;
        assert(child_ref_line(r) =~= p_ + "_next("@ + a + close);
        assert(no_call_start(ch));
        lemma_no_call_start_concat(ch, nv);
        lemma_no_call_start_concat(ch + nv, close);
        lemma_no_call_start_concat(a, close);
        // depth of the argument `_child(n{parent})`
        assert(arg_depth(ch, 7) == 1) by {
            assert(ch[0] == '_' && ch[1] == 'c' && ch[2] == 'h' && ch[3] == 'i' && ch[4] == 'l' && ch[5] == 'd'
                && ch[6] == '(');
            assert(arg_depth(ch, 0) == 0);
            assert(arg_depth(ch, 1) == 0);
            assert(arg_depth(ch, 2) == 0);
            assert(arg_depth(ch, 3) == 0);
            assert(arg_depth(ch, 4) == 0);
            assert(arg_depth(ch, 5) == 0);
            assert(arg_depth(ch, 6) == 0);
        }
        lemma_plain_depth(nv, nv.len() as int);
        lemma_arg_depth_concat(ch, nv, nv.len() as int);
        lemma_arg_depth_concat(ch + nv, close, 1);
        assert(arg_depth(close, 1) == -1) by {
            assert(close[0] == ')');
            assert(arg_depth(close, 0) == 0);
        }
        assert forall|k: int| 0 <= k < a.len() && #[trigger] a[k] == ')' implies arg_depth(a, k) != 0 by {
            if k < 7 {
                assert(a[k] == ch[k]);
            } else if k < 7 + nv.len() {
                assert(a[k] == nv[k - 7]);
            } else {
                assert(k == (ch + nv).len());
                lemma_arg_depth_prefix(ch + nv, close, k);
            }
        }
        assert forall|k: int| 0 <= k < a.len() implies #[trigger] a[k] != ',' by {
            if k < 7 {
                assert(a[k] == ch[k]);
            } else if k < 7 + nv.len() {
                assert(a[k] == nv[k - 7]);
            } else {
                assert(a[k] == close[k - 7 - nv.len()]);
            }
        }
        assert(balanced_argument(a));
        lemma_one_bare_call(p_, a);
    } else {
        let lit = " = _nthChild("@;
        let sep = ", "@;
        let d = decimal(r.element_index as nat);
        lemma_decimal_plain(r.element_index as nat);
        assert(no_call_start(lit));
        assert(no_call_start(sep));
        let line = "const "@ + node_var(r.child_id) + lit + nv + sep + d + close;
        assert(no_call_start("const "@ + node_var(r.child_id))) by {
            reveal_strlit("const ");
            assert("const "@ =~= seq!['c', 'o', 'n', 's', 't', ' ']);
            assert(plain("const "@));
            lemma_node_var_plain(r.child_id);
            lemma_plain_concat("const "@, node_var(r.child_id));
        }
        lemma_no_call_start_concat("const "@ + node_var(r.child_id), lit);
        lemma_no_call_start_concat("const "@ + node_var(r.child_id) + lit, nv);
        lemma_no_call_start_concat("const "@ + node_var(r.child_id) + lit + nv, sep);
        lemma_no_call_start_concat("const "@ + node_var(r.child_id) + lit + nv + sep, d);
        lemma_no_call_start_concat("const "@ + node_var(r.child_id) + lit + nv + sep + d, close);
        assert(child_ref_line(r) == line);
        lemma_no_calls(line);
        assert(spec_next_calls(line) =~= Seq::<(Seq<char>, Option<Seq<char>>)>::empty());
    }
}

/// Law: an insertion's anchor is its last argument. With an anchor `a` the
/// line is the line without anchor with `, n{a}` added before the closing
/// parenthesis, whatever the number of blocks; without an anchor the line
/// ends with the parent, `, n{parent})`.
pub proof fn law_insert_anchor_is_last_argument(parent: usize, elements: Seq<usize>, a: usize)
    ensures
        ({
            let with = insert_node_line(parent, elements, Some(a));
            let without = insert_node_line(parent, elements, None);
            let tail_a = ", "@ + node_var(a) + ")"@;
            let tail_p = ", "@ + node_var(parent) + ")"@;
            &&& without.len() > 0
            &&& with == without.drop_last() + tail_a
            &&& with.len() >= tail_a.len()
            &&& with.subrange(with.len() - tail_a.len(), with.len() as int) == tail_a
            &&& without.len() >= tail_p.len()
            &&& without.subrange(without.len() - tail_p.len(), without.len() as int) == tail_p
        }),
{
    reveal_strlit(")");
    let block = if elements.len() > 1 {
        "["@ + crate::generate::joined_vars(elements) + "]"@
    } else {
        crate::generate::joined_vars(elements)
    };
    let head = "_insert("@ + block + ", "@ + node_var(parent);
    let with = insert_node_line(parent, elements, Some(a));
    let without = insert_node_line(parent, elements, None);
    let tail_a = ", "@ + node_var(a) + ")"@;
    let tail_p = ", "@ + node_var(parent) + ")"@;
    assert(without =~= head + ")"@);
    assert(without.drop_last() =~= head);
    assert(with =~= head + tail_a);
    assert(with.subrange(with.len() - tail_a.len(), with.len() as int) =~= tail_a);
    let front = "_insert("@ + block;
    assert(without =~= front + tail_p);
    assert(without.subrange(without.len() - tail_p.len(), without.len() as int) =~= tail_p);
}

} // verus!
