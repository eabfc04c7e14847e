//! Reading the `_next(...)` calls back out of generated code.
//!
//! A `_next(base)` call advances exactly one sibling; a multi-step jump is an
//! absolute `_nthChild(parent, index)` lookup. These functions split every
//! `_next(` call of a piece of code into its base and its (forbidden) index
//! argument so that both shapes can be checked.

use vstd::prelude::*;
use vstd::string::StrSliceExecFns;
use crate::chars::{to_chars, trim, trim_range};

verus! {

/// `_next(` starts at position `p` of `c`.
pub open spec fn is_call_at(c: Seq<char>, p: int) -> bool {
    0 <= p && p + 6 <= c.len() && c.subrange(p, p + 6) == "_next("@
}

/// The positions of the `_next(` calls at or after `from`, in order; the
/// scan resumes after each `_next(`.
pub open spec fn call_positions(c: Seq<char>, from: int) -> Seq<int>
    decreases c.len() - from,
{
    if from < 0 || from >= c.len() {
        seq![]
    } else if is_call_at(c, from) {
        seq![from] + call_positions(c, from + 6)
    } else {
        call_positions(c, from + 1)
    }
}

pub open spec fn paren_delta(ch: char) -> int {
    if ch == '(' {
        1
    } else if ch == ')' {
        -1
    } else {
        0
    }
}

/// The parenthesis depth before position `j` of a call whose arguments
/// start at `open` (1 at `open`).
pub open spec fn depth_before(c: Seq<char>, open: int, j: int) -> int
    decreases j - open,
{
    if j <= open {
        1
    } else {
        depth_before(c, open, j - 1) + paren_delta(c[j - 1])
    }
}

/// Position `j` holds the parenthesis that closes the call.
pub open spec fn closes_at(c: Seq<char>, open: int, j: int) -> bool {
    open <= j < c.len() && c[j] == ')' && depth_before(c, open, j) == 1
}

pub open spec fn is_first_close(c: Seq<char>, open: int, j: int) -> bool {
    closes_at(c, open, j) && forall|k: int| open <= k < j ==> !closes_at(c, open, k)
}

/// Where the call's arguments end: its closing parenthesis, or the end of
/// the code when it is never closed.
pub open spec fn call_end(c: Seq<char>, open: int) -> int {
    if exists|j: int| is_first_close(c, open, j) {
        choose|j: int| is_first_close(c, open, j)
    } else {
        c.len() as int
    }
}

/// Position `j` holds a comma between the call's own arguments.
pub open spec fn top_level_comma(c: Seq<char>, open: int, j: int) -> bool {
    0 <= j < c.len() && c[j] == ',' && depth_before(c, open, j) == 1
}

pub open spec fn is_first_comma(c: Seq<char>, open: int, end: int, j: int) -> bool {
    open <= j < end && top_level_comma(c, open, j) && forall|k: int| open <= k < j ==> !top_level_comma(c, open, k)
}

pub open spec fn call_comma(c: Seq<char>, open: int, end: int) -> Option<int> {
    if exists|j: int| is_first_comma(c, open, end, j) {
        Some(choose|j: int| is_first_comma(c, open, end, j))
    } else {
        None
    }
}

/// The call starting at `p`: its base (the text before the first top-level
/// comma) and its trimmed index argument, if any.
pub open spec fn call_at(c: Seq<char>, p: int) -> (Seq<char>, Option<Seq<char>>) {
    let open = p + 6;
    let end = call_end(c, open);
    match call_comma(c, open, end) {
        Some(m) => (c.subrange(open, m), Some(trim(c.subrange(m + 1, end)))),
        None => (c.subrange(open, end), None),
    }
}

/// Every `_next(` call of `c`, in order.
pub open spec fn spec_next_calls(c: Seq<char>) -> Seq<(Seq<char>, Option<Seq<char>>)> {
    call_positions(c, 0).map_values(|p: int| call_at(c, p))
}

fn is_call_at_exec(cs: &Vec<char>, p: usize) -> (r: bool)
    ensures
        r == is_call_at(cs@, p as int),
{
    proof {
        reveal_strlit("_next(");
    }
    if p > cs.len() || cs.len() - p < 6 {
        return false;
    }
    let r = cs[p] == '_' && cs[p + 1] == 'n' && cs[p + 2] == 'e' && cs[p + 3] == 'x' && cs[p + 4] == 't'
        && cs[p + 5] == '(';
    if r {
        assert(cs@.subrange(p as int, p + 6) =~= "_next("@);
    } else {
        assert(cs@.subrange(p as int, p + 6) != "_next("@) by {
            if cs@.subrange(p as int, p + 6) == "_next("@ {
                assert(cs@.subrange(p as int, p + 6)[0] == '_');
                assert(cs@.subrange(p as int, p + 6)[1] == 'n');
                assert(cs@.subrange(p as int, p + 6)[2] == 'e');
                assert(cs@.subrange(p as int, p + 6)[3] == 'x');
                assert(cs@.subrange(p as int, p + 6)[4] == 't');
                assert(cs@.subrange(p as int, p + 6)[5] == '(');
            }
        }
    }
    r
}

/// Positions without a call do not change the calls found after them.
pub proof fn lemma_skip_positions(c: Seq<char>, from: int, p: int)
    requires
        0 <= from <= p <= c.len(),
        forall|q: int| from <= q < p ==> !is_call_at(c, q),
    ensures
        call_positions(c, from) == call_positions(c, p),
    decreases p - from,
{
    if from < p {
        lemma_skip_positions(c, from + 1, p);
    }
}

/// The first `_next(` at or after `from`.
fn find_call(cs: &Vec<char>, from: usize) -> (r: Option<usize>)
    requires
        from <= cs@.len(),
    ensures
        match r {
            Some(p) => from <= p && is_call_at(cs@, p as int) && forall|q: int|
                from <= q < p ==> !is_call_at(cs@, q),
            None => forall|q: int| from <= q < cs@.len() ==> !is_call_at(cs@, q),
        },
{
    let n = cs.len();
    let mut p = from;
    while p < n
        invariant
            n == cs@.len(),
            from <= p <= n,
            forall|q: int| from <= q < p ==> !is_call_at(cs@, q),
        decreases n - p,
    {
        if is_call_at_exec(cs, p) {
            return Some(p);
        }
        p = p + 1;
    }
    None
}

/// Scan a call's arguments from `open`: where they end, and their first
/// top-level comma.
fn scan_call(cs: &Vec<char>, open: usize) -> (r: (usize, Option<usize>))
    requires
        1 <= open <= cs@.len(),
    ensures
        r.0 == call_end(cs@, open as int),
        open <= r.0 <= cs@.len(),
        r.1 == match call_comma(cs@, open as int, r.0 as int) {
            Some(m) => Some(m as usize),
            None => None::<usize>,
        },
{
    let ghost c = cs@;
    let n = cs.len();
    let mut depth: usize = 1;
    let mut i = open;
    let mut comma: Option<usize> = None;
    while i < n && depth > 0
        invariant
            n == c.len(),
            c == cs@,
            1 <= open <= i <= n,
            depth as int == depth_before(c, open as int, i as int),
            depth <= i - open + 1,
            depth > 0 ==> forall|k: int| open <= k < i ==> !closes_at(c, open as int, k),
            depth == 0 ==> i > open && is_first_close(c, open as int, i - 1),
            match comma {
                Some(m) => open <= m < i && top_level_comma(c, open as int, m as int) && forall|k: int|
                    open <= k < m ==> !top_level_comma(c, open as int, k),
                None => forall|k: int| open <= k < i ==> !top_level_comma(c, open as int, k),
            },
        decreases n - i,
    {
        let ch = cs[i];
        if ch == '(' {
            depth = depth + 1;
        } else if ch == ')' {
            depth = depth - 1;
        } else if ch == ',' && depth == 1 && comma.is_none() {
            comma = Some(i);
        }
        i = i + 1;
        assert(depth_before(c, open as int, i as int) == depth_before(c, open as int, i - 1) + paren_delta(
            c[i - 1],
        ));
    }
    let end = if depth == 0 {
        i - 1
    } else {
        i
    };
    proof {
        if depth == 0 {
            assert(is_first_close(c, open as int, end as int));
            let j = choose|j: int| is_first_close(c, open as int, j);
            if j < end {
                assert(!closes_at(c, open as int, j));
            } else if j > end {
                assert(!closes_at(c, open as int, end as int));
            }
            assert(call_end(c, open as int) == end);
        } else {
            assert(i == n);
            assert forall|j: int| !#[trigger] is_first_close(c, open as int, j) by {
                if is_first_close(c, open as int, j) {
                    assert(closes_at(c, open as int, j));
                }
            }
            assert(call_end(c, open as int) == n);
        }
        match comma {
            Some(m) => {
                if depth == 0 {
                    assert(c[end as int] == ')');
                }
                assert(is_first_comma(c, open as int, end as int, m as int));
                let j = choose|j: int| is_first_comma(c, open as int, end as int, j);
                if j < m {
                    assert(!top_level_comma(c, open as int, j));
                } else if j > m {
                    assert(!top_level_comma(c, open as int, m as int));
                }
            },
            None => {
                assert forall|j: int| !#[trigger] is_first_comma(c, open as int, end as int, j) by {
                    if is_first_comma(c, open as int, end as int, j) {
                        assert(top_level_comma(c, open as int, j));
                    }
                }
            },
        }
    }
    (end, comma)
}

/// The base and index views of a split call.
pub open spec fn call_view(call: (&str, Option<&str>)) -> (Seq<char>, Option<Seq<char>>) {
    (
        call.0@,
        match call.1 {
            Some(t) => Some(t@),
            None => None,
        },
    )
}

/// Split every `_next(base, index)` call in `code` into its two arguments,
/// balancing parentheses so a call base like `_child(n2)` stays intact.
/// Calls without a top-level comma yield `None` as the index.
pub fn next_calls(code: &str) -> (r: Vec<(&str, Option<&str>)>)
    ensures
        r@.map_values(|call: (&str, Option<&str>)| call_view(call)) == spec_next_calls(code@),
{
    let cs = to_chars(code);
    let ghost c = cs@;
    let n = cs.len();
    let mut calls: Vec<(&str, Option<&str>)> = Vec::new();
    let mut from: usize = 0;
    let mut done = false;
    while !done
        invariant
            c == cs@,
            c == code@,
            n == c.len(),
            from <= n,
            calls@.map_values(|call: (&str, Option<&str>)| call_view(call)) + call_positions(c, from as int).map_values(
                |p: int| call_at(c, p),
            ) == spec_next_calls(c),
            done ==> call_positions(c, from as int) == Seq::<int>::empty(),
        decreases n - from + if done { 0int } else { 1int },
    {
        let ghost before = calls@.map_values(|call: (&str, Option<&str>)| call_view(call));
        match find_call(&cs, from) {
            None => {
                proof {
                    lemma_skip_positions(c, from as int, n as int);
                }
                done = true;
            },
            Some(p) => {
                proof {
                    lemma_skip_positions(c, from as int, p as int);
                }
                let open = p + 6;
                let (end, comma) = scan_call(&cs, open);
                let call: (&str, Option<&str>) = match comma {
                    Some(m) => {
                        let (ta, tb) = trim_range(&cs, m + 1, end);
                        (code.substring_char(open, m), Some(code.substring_char(ta, tb)))
                    },
                    None => (code.substring_char(open, end), None),
                };
                assert(call_view(call) == call_at(c, p as int));
                calls.push(call);
                proof {
                    let rest = call_positions(c, open as int);
                    assert(call_positions(c, p as int) == seq![p as int] + rest);
                    assert(calls@.map_values(|call: (&str, Option<&str>)| call_view(call)) =~= before.push(
                        call_at(c, p as int),
                    ));
                    assert((seq![p as int] + rest).map_values(|q: int| call_at(c, q)) =~= seq![
                        call_at(c, p as int),
                    ] + rest.map_values(|q: int| call_at(c, q)));
                    assert(before + (seq![p as int] + rest).map_values(|q: int| call_at(c, q)) =~= before.push(
                        call_at(c, p as int),
                    ) + rest.map_values(|q: int| call_at(c, q)));
                }
                from = open;
            },
        }
    }
    proof {
        assert(call_positions(c, from as int).map_values(|p: int| call_at(c, p)) =~= Seq::<
            (Seq<char>, Option<Seq<char>>),
        >::empty());
        assert(calls@.map_values(|call: (&str, Option<&str>)| call_view(call)) + Seq::<
            (Seq<char>, Option<Seq<char>>),
        >::empty() =~= calls@.map_values(|call: (&str, Option<&str>)| call_view(call)));
    }
    calls
}

} // verus!
