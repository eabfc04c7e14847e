//! Code generation for child references and insertion state.

use vstd::prelude::*;
use crate::ir::{
    ChildRefIRNode, InsertNodeIRNode, InsertionAnchor, InsertionState, NextRefIRNode, PrependNodeIRNode,
};

verus! {

/// A runtime helper that generated code imports.
#[derive(Debug, Clone, Copy, PartialEq, Eq, Structural)]
pub enum Helper {
    Child,
    Next,
    NthChild,
    SetInsertionState,
    Insert,
    Prepend,
}

impl Helper {
    pub open spec fn spec_name(self) -> Seq<char> {
        match self {
            Helper::Child => "child"@,
            Helper::Next => "next"@,
            Helper::NthChild => "nthChild"@,
            Helper::SetInsertionState => "setInsertionState"@,
            Helper::Insert => "insert"@,
            Helper::Prepend => "prepend"@,
        }
    }

    /// The runtime export name of the helper.
    pub fn name(self) -> (r: &'static str)
        ensures
            r@ == self.spec_name(),
    {
        match self {
            Helper::Child => "child",
            Helper::Next => "next",
            Helper::NthChild => "nthChild",
            Helper::SetInsertionState => "setInsertionState",
            Helper::Insert => "insert",
            Helper::Prepend => "prepend",
        }
    }
}

/// The generated lines and the helpers they use.
pub struct GenerateContext {
    helpers: Vec<Helper>,
    lines: Vec<String>,
}

/// The decimal digit `d`.
pub open spec fn digit_char(d: nat) -> char {
    if d == 0 {
        '0'
    } else if d == 1 {
        '1'
    } else if d == 2 {
        '2'
    } else if d == 3 {
        '3'
    } else if d == 4 {
        '4'
    } else if d == 5 {
        '5'
    } else if d == 6 {
        '6'
    } else if d == 7 {
        '7'
    } else if d == 8 {
        '8'
    } else {
        '9'
    }
}

/// The decimal notation of `n`, without leading zeros.
pub open spec fn decimal(n: nat) -> Seq<char>
    decreases n,
{
    if n < 10 {
        seq![digit_char(n)]
    } else {
        decimal(n / 10).push(digit_char(n % 10))
    }
}

/// `n{id}`: the variable that holds node `id`.
pub open spec fn node_var(id: usize) -> Seq<char> {
    "n"@ + decimal(id as nat)
}

fn digit_str(d: usize) -> (r: &'static str)
    requires
        d < 10,
    ensures
        r@ == seq![digit_char(d as nat)],
{
    if d == 0 {
        proof { reveal_strlit("0"); }
        "0"
    } else if d == 1 {
        proof { reveal_strlit("1"); }
        "1"
    } else if d == 2 {
        proof { reveal_strlit("2"); }
        "2"
    } else if d == 3 {
        proof { reveal_strlit("3"); }
        "3"
    } else if d == 4 {
        proof { reveal_strlit("4"); }
        "4"
    } else if d == 5 {
        proof { reveal_strlit("5"); }
        "5"
    } else if d == 6 {
        proof { reveal_strlit("6"); }
        "6"
    } else if d == 7 {
        proof { reveal_strlit("7"); }
        "7"
    } else if d == 8 {
        proof { reveal_strlit("8"); }
        "8"
    } else {
        proof { reveal_strlit("9"); }
        "9"
    }
}

/// Append the decimal notation of `n`.
pub fn push_decimal(s: &mut String, n: usize)
    ensures
        final(s)@ == old(s)@ + decimal(n as nat),
    decreases n,
{
    if n >= 10 {
        push_decimal(s, n / 10);
    }
    s.append(digit_str(n % 10));
    assert(s@ =~= old(s)@ + decimal(n as nat));
}

/// The helpers after `h` is used.
pub open spec fn with_helper(helpers: Seq<Helper>, h: Helper) -> Seq<Helper> {
    if helpers.contains(h) {
        helpers
    } else {
        helpers.push(h)
    }
}

/// `const n{child} = _child(n{parent})` for index 0,
/// `const n{child} = _next(_child(n{parent}))` for index 1, and
/// `const n{child} = _nthChild(n{parent}, {index})` beyond.
pub open spec fn child_ref_line(r: ChildRefIRNode) -> Seq<char> {
    if r.element_index == 0 {
        "const "@ + node_var(r.child_id) + " = _child("@ + node_var(r.parent_id) + ")"@
    } else if r.element_index == 1 {
        "const "@ + node_var(r.child_id) + " = _next(_child("@ + node_var(r.parent_id) + "))"@
    } else {
        "const "@ + node_var(r.child_id) + " = _nthChild("@ + node_var(r.parent_id) + ", "@ + decimal(
            r.element_index as nat,
        ) + ")"@
    }
}

/// The helpers a child reference uses.
pub open spec fn child_ref_helpers(r: ChildRefIRNode) -> Seq<Helper> {
    if r.element_index == 0 {
        seq![Helper::Child]
    } else if r.element_index == 1 {
        seq![Helper::Child, Helper::Next]
    } else {
        seq![Helper::NthChild]
    }
}

/// `const n{child} = _next(n{prev})`: one bare `next` step.
pub open spec fn next_ref_line(r: NextRefIRNode) -> Seq<char> {
    "const "@ + node_var(r.child_id) + " = _next("@ + node_var(r.prev_id) + ")"@
}

/// `_setInsertionState(n{parent}, n{anchor})` before an anchor,
/// `_setInsertionState(n{parent})` to append as the first logical child, and
/// `_setInsertionState(n{parent}, {logical_index})` to append later.
pub open spec fn insertion_state_line(i: InsertionState) -> Seq<char> {
    match i.anchor {
        InsertionAnchor::Before(anchor) => "_setInsertionState("@ + node_var(i.parent) + ", "@ + node_var(anchor)
            + ")"@,
        InsertionAnchor::Append => if i.logical_index == 0 {
            "_setInsertionState("@ + node_var(i.parent) + ")"@
        } else {
            "_setInsertionState("@ + node_var(i.parent) + ", "@ + decimal(i.logical_index as nat) + ")"@
        },
    }
}

impl GenerateContext {
    pub closed spec fn spec_helpers(&self) -> Seq<Helper> {
        self.helpers@
    }

    pub closed spec fn spec_lines(&self) -> Seq<Seq<char>> {
        self.lines@.map_values(|l: String| l@)
    }

    /// An empty context.
    pub fn new() -> (r: GenerateContext)
        ensures
            r.spec_helpers() == Seq::<Helper>::empty(),
            r.spec_lines() == Seq::<Seq<char>>::empty(),
    {
        let r = GenerateContext { helpers: Vec::new(), lines: Vec::new() };
        assert(r.spec_lines() =~= Seq::<Seq<char>>::empty());
        r
    }

    /// The helpers used so far, each once, in first-use order.
    pub fn helpers(&self) -> (r: &[Helper])
        ensures
            r@ == self.spec_helpers(),
    {
        self.helpers.as_slice()
    }

    /// The number of generated lines.
    pub fn line_count(&self) -> (r: usize)
        ensures
            r == self.spec_lines().len(),
    {
        self.lines.len()
    }

    /// Generated line `i`.
    pub fn line(&self, i: usize) -> (r: &String)
        requires
            i < self.spec_lines().len(),
        ensures
            r@ == self.spec_lines()[i as int],
    {
        &self.lines[i]
    }

    /// Record that the generated code uses `h`.
    pub fn use_helper(&mut self, h: Helper)
        ensures
            final(self).spec_helpers() == with_helper(old(self).spec_helpers(), h),
            final(self).spec_lines() == old(self).spec_lines(),
    {
        let n = self.helpers.len();
        for i in 0..n
            invariant
                n == self.helpers@.len(),
                self.helpers@ == old(self).helpers@,
                self.lines@ == old(self).lines@,
                forall|j: int| 0 <= j < i ==> self.helpers@[j] != h,
        {
            if self.helpers[i] == h {
                assert(self.helpers@.contains(h));
                return;
            }
        }
        self.helpers.push(h);
    }

    /// Append one line of code.
    pub fn push_line(&mut self, line: String)
        ensures
            final(self).spec_lines() == old(self).spec_lines().push(line@),
            final(self).spec_helpers() == old(self).spec_helpers(),
    {
        self.lines.push(line);
        assert(self.spec_lines() =~= old(self).spec_lines().push(line@));
    }
}

/// `n{id}`.
fn push_node_var(s: &mut String, id: usize)
    ensures
        final(s)@ == old(s)@ + node_var(id),
{
    s.append("n");
    push_decimal(s, id);
    assert(s@ =~= old(s)@ + node_var(id));
}

/// Generate a direct child reference with the cheapest matching runtime helper.
pub fn generate_child_ref(ctx: &mut GenerateContext, child_ref: &ChildRefIRNode)
    ensures
        final(ctx).spec_lines() == old(ctx).spec_lines().push(child_ref_line(*child_ref)),
        final(ctx).spec_helpers() == ({
            let hs = child_ref_helpers(*child_ref);
            if hs.len() == 1 {
                with_helper(old(ctx).spec_helpers(), hs[0])
            } else {
                with_helper(with_helper(old(ctx).spec_helpers(), hs[0]), hs[1])
            }
        }),
{
    let mut line = String::new();
    line.append("const ");
    push_node_var(&mut line, child_ref.child_id);
    if child_ref.element_index == 0 {
        ctx.use_helper(Helper::Child);
        line.append(" = _child(");
        push_node_var(&mut line, child_ref.parent_id);
        line.append(")");
    } else if child_ref.element_index == 1 {
        ctx.use_helper(Helper::Child);
        ctx.use_helper(Helper::Next);
        line.append(" = _next(_child(");
        push_node_var(&mut line, child_ref.parent_id);
        line.append("))");
    } else {
        ctx.use_helper(Helper::NthChild);
        line.append(" = _nthChild(");
        push_node_var(&mut line, child_ref.parent_id);
        line.append(", ");
        push_decimal(&mut line, child_ref.element_index);
        line.append(")");
    }
    assert(line@ =~= child_ref_line(*child_ref));
    ctx.push_line(line);
}

/// Generate a one-step sibling reference (`_next` takes no index).
pub fn generate_next_ref(ctx: &mut GenerateContext, next_ref: &NextRefIRNode)
    ensures
        final(ctx).spec_lines() == old(ctx).spec_lines().push(next_ref_line(*next_ref)),
        final(ctx).spec_helpers() == with_helper(old(ctx).spec_helpers(), Helper::Next),
{
    ctx.use_helper(Helper::Next);
    let mut line = String::new();
    line.append("const ");
    push_node_var(&mut line, next_ref.child_id);
    line.append(" = _next(");
    push_node_var(&mut line, next_ref.prev_id);
    line.append(")");
    assert(line@ =~= next_ref_line(*next_ref));
    ctx.push_line(line);
}

/// Emit the insertion state for a block, if it has one.
pub fn emit_insertion_state(ctx: &mut GenerateContext, insertion: Option<InsertionState>)
    ensures
        match insertion {
            None => *final(ctx) == *old(ctx),
            Some(i) => {
                &&& final(ctx).spec_lines() == old(ctx).spec_lines().push(insertion_state_line(i))
                &&& final(ctx).spec_helpers() == with_helper(old(ctx).spec_helpers(), Helper::SetInsertionState)
            },
        },
{
    let insertion = match insertion {
        Some(i) => i,
        None => return,
    };
    ctx.use_helper(Helper::SetInsertionState);
    let mut line = String::new();
    line.append("_setInsertionState(");
    push_node_var(&mut line, insertion.parent);
    match insertion.anchor {
        InsertionAnchor::Before(anchor) => {
            line.append(", ");
            push_node_var(&mut line, anchor);
            line.append(")");
        },
        InsertionAnchor::Append => {
            if insertion.logical_index == 0 {
                line.append(")");
            } else {
                line.append(", ");
                push_decimal(&mut line, insertion.logical_index);
                line.append(")");
            }
        },
    }
    assert(line@ =~= insertion_state_line(insertion));
    ctx.push_line(line);
}

/// `n{e0}, n{e1}, ...`.
pub open spec fn joined_vars(ids: Seq<usize>) -> Seq<char>
    decreases ids.len(),
{
    if ids.len() == 0 {
        seq![]
    } else if ids.len() == 1 {
        node_var(ids[0])
    } else {
        joined_vars(ids.drop_last()) + ", "@ + node_var(ids.last())
    }
}

/// Append `n{e0}, n{e1}, ...`.
fn push_joined_vars(s: &mut String, ids: &Vec<usize>)
    ensures
        final(s)@ == old(s)@ + joined_vars(ids@),
{
    let n = ids.len();
    for i in 0..n
        invariant
            n == ids@.len(),
            s@ == old(s)@ + joined_vars(ids@.take(i as int)),
    {
        assert(ids@.take(i + 1).drop_last() =~= ids@.take(i as int));
        assert(ids@.take(i + 1).last() == ids@[i as int]);
        if i > 0 {
            s.append(", ");
        }
        push_node_var(s, ids[i]);
        proof {
            if i == 0 {
                assert(ids@.take(1)[0] == ids@[0]);
            }
        }
        assert(s@ =~= old(s)@ + joined_vars(ids@.take(i + 1)));
    }
    assert(ids@.take(n as int) =~= ids@);
}

/// `_insert(block, n{parent})` or `_insert(block, n{parent}, n{anchor})`,
/// where several blocks are passed as one array block and a single block
/// stays bare.
pub open spec fn insert_node_line(parent: usize, elements: Seq<usize>, anchor: Option<usize>) -> Seq<char> {
    let block = if elements.len() > 1 {
        "["@ + joined_vars(elements) + "]"@
    } else {
        joined_vars(elements)
    };
    match anchor {
        Some(a) => "_insert("@ + block + ", "@ + node_var(parent) + ", "@ + node_var(a) + ")"@,
        None => "_insert("@ + block + ", "@ + node_var(parent) + ")"@,
    }
}

/// Generate an insertion (`insert(block, parent, anchor?)`).
pub fn generate_insert_node(ctx: &mut GenerateContext, insert: &InsertNodeIRNode)
    ensures
        final(ctx).spec_lines() == old(ctx).spec_lines().push(
            insert_node_line(insert.parent, insert.elements@, insert.anchor),
        ),
        final(ctx).spec_helpers() == with_helper(old(ctx).spec_helpers(), Helper::Insert),
{
    ctx.use_helper(Helper::Insert);
    let mut line = String::new();
    line.append("_insert(");
    if insert.elements.len() > 1 {
        line.append("[");
        push_joined_vars(&mut line, &insert.elements);
        line.append("]");
    } else {
        push_joined_vars(&mut line, &insert.elements);
    }
    line.append(", ");
    push_node_var(&mut line, insert.parent);
    match insert.anchor {
        Some(anchor) => {
            line.append(", ");
            push_node_var(&mut line, anchor);
            line.append(")");
        },
        None => {
            line.append(")");
        },
    }
    assert(line@ =~= insert_node_line(insert.parent, insert.elements@, insert.anchor));
    ctx.push_line(line);
}

/// `_prepend(n{parent}, n{e0}, n{e1}, ...)`.
pub open spec fn prepend_node_line(parent: usize, elements: Seq<usize>) -> Seq<char> {
    "_prepend("@ + node_var(parent) + ", "@ + joined_vars(elements) + ")"@
}

/// Generate a prepend (`prepend(parent, ...blocks)`).
pub fn generate_prepend_node(ctx: &mut GenerateContext, prepend: &PrependNodeIRNode)
    ensures
        final(ctx).spec_lines() == old(ctx).spec_lines().push(
            prepend_node_line(prepend.parent, prepend.elements@),
        ),
        final(ctx).spec_helpers() == with_helper(old(ctx).spec_helpers(), Helper::Prepend),
{
    ctx.use_helper(Helper::Prepend);
    let mut line = String::new();
    line.append("_prepend(");
    push_node_var(&mut line, prepend.parent);
    line.append(", ");
    push_joined_vars(&mut line, &prepend.elements);
    line.append(")");
    assert(line@ =~= prepend_node_line(prepend.parent, prepend.elements@));
    ctx.push_line(line);
}

} // verus!
