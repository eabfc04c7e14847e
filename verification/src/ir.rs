//! The Vapor IR operations produced for child navigation and insertion.

use vstd::prelude::*;
use crate::ast::SimpleExpressionNode;

verus! {

/// Where a block is inserted into its parent.
#[derive(Debug, Clone, Copy, PartialEq, Eq, Structural)]
pub enum InsertionAnchor {
    /// Before the node with this id.
    Before(usize),
    /// At the end of the parent.
    Append,
}

/// The insertion point of a runtime-created block.
#[derive(Debug, Clone, Copy, PartialEq, Eq, Structural)]
pub struct InsertionState {
    pub parent: usize,
    pub anchor: InsertionAnchor,
    pub logical_index: usize,
}

/// `n{child_id}` is the child of `n{parent_id}` at `element_index`; it is
/// the logical (hydration) sibling at `logical_index`.
#[derive(Debug, Clone, Copy, PartialEq, Eq, Structural)]
pub struct ChildRefIRNode {
    pub child_id: usize,
    pub parent_id: usize,
    pub element_index: usize,
    pub logical_index: usize,
}

/// `n{child_id}` is the next sibling of `n{prev_id}`; it is the logical
/// (hydration) sibling at `logical_index`.
#[derive(Debug, Clone, Copy, PartialEq, Eq, Structural)]
pub struct NextRefIRNode {
    pub child_id: usize,
    pub prev_id: usize,
    pub logical_index: usize,
}

/// Attach a static `key` to the block `n{element}`.
pub struct SetBlockKeyIRNode {
    pub element: usize,
    pub value: SimpleExpressionNode,
}

/// Set the text of `n{element}` from static parts and expressions.
pub struct SetTextIRNode {
    pub element: usize,
    pub values: Vec<SimpleExpressionNode>,
}

/// A property passed to a slot outlet or component.
pub struct IRProp {
    pub key: SimpleExpressionNode,
    pub values: Vec<SimpleExpressionNode>,
    pub is_component: bool,
}

/// Insert the blocks `n{elements}` into `n{parent}`, before `n{anchor}` when
/// there is one.
pub struct InsertNodeIRNode {
    pub parent: usize,
    pub elements: Vec<usize>,
    pub anchor: Option<usize>,
}

/// Prepend the blocks `n{elements}` to `n{parent}`.
pub struct PrependNodeIRNode {
    pub parent: usize,
    pub elements: Vec<usize>,
}

/// The operations of a block that child lowering produces.
pub enum OperationNode {
    ChildRef(ChildRefIRNode),
    NextRef(NextRefIRNode),
    SetBlockKey(SetBlockKeyIRNode),
    SetText(SetTextIRNode),
}

/// A block of operations and the ids it returns.
pub struct BlockIRNode {
    pub operation: Vec<OperationNode>,
    pub returns: Vec<usize>,
}

impl BlockIRNode {
    pub fn new() -> (r: BlockIRNode)
        ensures
            r.operation@.len() == 0,
            r.returns@.len() == 0,
    {
        BlockIRNode { operation: Vec::new(), returns: Vec::new() }
    }
}

} // verus!
