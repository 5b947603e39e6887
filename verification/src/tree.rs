//! The roll tree: tokens, node types, and the mathematical model that the
//! contracts of the parser, the evaluator and the drawing code speak of.
use vstd::prelude::*;

verus! {

/// A lexical token of a roll expression.
#[derive(Clone, Copy, PartialEq, Eq, Structural, Debug)]
pub enum Token {
    LeftPar,
    RightPar,
    DiceRoll,
    Times,
    Division,
    Multiplication,
    Addition,
    Subtraction,
    Hit,
    Spaces(i32),
    Number(i32),
}

/// Whether a value comes from a natural maximum (a 20 on a d20) or a natural 1.
#[derive(Clone, Copy, PartialEq, Eq, Structural, Debug)]
pub enum Crit {
    Normal,
    NatMax,
    NatMin,
}

/// The value computed at a node, with its critical status.
#[derive(Clone, Copy, PartialEq, Eq, Structural, Debug)]
pub struct DiceResult {
    pub value: i32,
    pub crit: Crit,
}

/// The shape drawn between a node and its leaves.
#[derive(Clone, Copy, PartialEq, Eq, Structural, Debug)]
pub enum BranchType {
    Dot,
    Cone,
    Trapezoid,
    TimesN,
    Times2Cone1,
}

/// Layout data of a node: position relative to its parent (made absolute
/// when drawing) and the widths and height of the trapezoid under it.
#[derive(Clone, Copy, PartialEq, Eq, Structural, Debug)]
pub struct NodePositionInfo {
    pub x: Option<i32>,
    pub y: Option<i32>,
    pub tipwidth_going_west: Option<i32>,
    pub tipwidth_going_east: Option<i32>,
    pub basewidth_going_west: Option<i32>,
    pub basewidth_going_east: Option<i32>,
    pub h: Option<i32>,
    pub branch_type: Option<BranchType>,
}

/// Operators with two leaves.
#[derive(Clone, Copy, PartialEq, Eq, Structural, Debug)]
pub enum BinaryNodeType {
    Addition,
    Subtraction,
    Multiplication,
    Division,
    /// One die; `hidden` dice are drawn as a dot, without their cone.
    DiceRoll { hidden: bool },
    Hit,
}

/// Operators with any number of leaves. In `Times` the first leaf is the
/// number of repetitions and the other leaves are summed.
#[derive(Clone, Copy, PartialEq, Eq, Structural, Debug)]
pub enum ManyNodeType {
    Times { dice_special: Option<i32> },
}

/// Operators with no leaves.
#[derive(Clone, Copy, PartialEq, Eq, Structural, Debug)]
pub enum ZeroNodeType {
    Number(i32),
}

#[derive(Debug)]
pub struct BinaryNodeSlot {
    pub leftleaf: Box<NodeSlot>,
    pub rightleaf: Box<NodeSlot>,
    pub binode: BinaryNodeType,
}

#[derive(Debug)]
pub struct ManyNodeSlot {
    pub leaves: Vec<NodeSlot>,
    pub manynode: ManyNodeType,
}

#[derive(Debug)]
pub enum NodeType {
    Zero(ZeroNodeType),
    Binary(BinaryNodeSlot),
    Many(ManyNodeSlot),
}

/// A node of the roll tree.
#[derive(Debug)]
pub struct NodeSlot {
    pub pos: NodePositionInfo,
    pub noderesult: Option<DiceResult>,
    pub node: NodeType,
}

/// Mathematical model of a node.
pub struct Node {
    pub pos: NodePositionInfo,
    pub res: Option<DiceResult>,
    pub kind: NodeKind,
}

pub enum NodeKind {
    Number(i32),
    Binary(BinaryNodeType, Box<Node>, Box<Node>),
    Many(ManyNodeType, Seq<Node>),
}

impl NodeSlot {
    pub open spec fn model(&self) -> Node
        decreases self,
    {
        Node {
            pos: self.pos,
            res: self.noderesult,
            kind: match self.node {
                NodeType::Zero(ZeroNodeType::Number(v)) => NodeKind::Number(v),
                NodeType::Binary(b) => NodeKind::Binary(
                    b.binode,
                    Box::new(b.leftleaf.model()),
                    Box::new(b.rightleaf.model()),
                ),
                NodeType::Many(m) => NodeKind::Many(m.manynode, NodeSlot::models(m.leaves@)),
            },
        }
    }

    pub open spec fn models(s: Seq<NodeSlot>) -> Seq<Node>
        decreases s,
    {
        if s.len() == 0 {
            Seq::empty()
        } else {
            NodeSlot::models(s.drop_last()).push(s.last().model())
        }
    }

    pub proof fn lemma_models(s: Seq<NodeSlot>)
        ensures
            NodeSlot::models(s).len() == s.len(),
            forall|i: int| 0 <= i < s.len() ==> #[trigger] NodeSlot::models(s)[i] == s[i].model(),
        decreases s.len(),
    {
        if s.len() > 0 {
            NodeSlot::lemma_models(s.drop_last());
        }
    }
}

impl View for NodeSlot {
    type V = Node;

    open spec fn view(&self) -> Node {
        self.model()
    }
}

pub open spec fn empty_pos_spec() -> NodePositionInfo {
    NodePositionInfo {
        x: None,
        y: None,
        tipwidth_going_west: None,
        tipwidth_going_east: None,
        basewidth_going_west: None,
        basewidth_going_east: None,
        h: None,
        branch_type: None,
    }
}

/// The layout data of a node that nothing has been computed for.
pub fn empty_pos() -> (p: NodePositionInfo)
    ensures
        p == empty_pos_spec(),
{
    NodePositionInfo {
        x: None,
        y: None,
        tipwidth_going_west: None,
        tipwidth_going_east: None,
        basewidth_going_west: None,
        basewidth_going_east: None,
        h: None,
        branch_type: None,
    }
}

} // verus!
