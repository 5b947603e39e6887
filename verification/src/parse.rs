//! From tokens to a roll tree. The top-level operator of a token sequence
//! is found by priority; the sequence is split there and each side is
//! parsed the same way. The repetitions of `x` and of dice are built as
//! they are parsed, so parsing already rolls some dice.
use vstd::prelude::*;
use crate::tree::{
    Node, NodeKind, NodeSlot, NodeType, ZeroNodeType, BinaryNodeType, ManyNodeType, Token, Crit,
    DiceResult, NodePositionInfo, BranchType, empty_pos_spec, empty_pos,
};
use crate::digits::{number_w_spec, number_w};
use crate::eval::{evaluated, EvalError};
use crate::msg::{msg_empty, msg_not_a_number, msg_not_understood, msg_bad_repetition, msg_eval};

verus! {

/// The operators that split a sequence, from the lowest priority to the highest.
pub open spec fn splitters() -> Seq<Token> {
    seq![
        Token::Hit,
        Token::Addition,
        Token::Subtraction,
        Token::Division,
        Token::Multiplication,
        Token::Times,
        Token::DiceRoll,
    ]
}

/// Open minus closed parentheses in `v`.
pub open spec fn net(v: Seq<Token>) -> int
    decreases v.len(),
{
    if v.len() == 0 {
        0
    } else {
        net(v.drop_last()) + if v.last() == Token::LeftPar {
            1int
        } else if v.last() == Token::RightPar {
            -1int
        } else {
            0int
        }
    }
}

/// The first index at or after `i` that holds `spl` where the parenthesis
/// depth, counted from `b0`, is zero.
pub open spec fn first_at_depth_zero(v: Seq<Token>, spl: Token, b0: int, i: int) -> Option<int>
    decreases v.len() - i,
{
    if i >= v.len() || i < 0 {
        None
    } else if v[i] == spl && b0 + net(v.take(i)) == 0 {
        Some(i)
    } else {
        first_at_depth_zero(v, spl, b0, i + 1)
    }
}

/// The splitter search from the `k`-th operator on. The depth is not reset
/// between operators: each pass over `v` starts at the depth the previous
/// one ended at.
pub open spec fn splitter_from(v: Seq<Token>, k: int) -> Option<int>
    decreases 7 - k,
{
    if k >= 7 || k < 0 {
        None
    } else {
        match first_at_depth_zero(v, splitters()[k], k * net(v), 0) {
            Some(i) => Some(i),
            None => splitter_from(v, k + 1),
        }
    }
}

/// Where `v` is split: the first operator, by priority, outside parentheses.
pub open spec fn find_splitter(v: Seq<Token>) -> Option<int> {
    splitter_from(v, 0)
}

/// The layout data that a number is built with.
pub open spec fn number_pos(v: i32) -> NodePositionInfo {
    let w = (number_w_spec(v as int) - 1) as i32;
    NodePositionInfo {
        x: None,
        y: None,
        tipwidth_going_west: Some(w),
        tipwidth_going_east: Some(w),
        basewidth_going_west: Some(w),
        basewidth_going_east: Some(w),
        h: Some(1),
        branch_type: Some(BranchType::Dot),
    }
}

/// A number leaf: its value is known and its layout is fixed.
pub open spec fn number_node(v: i32) -> Node {
    Node {
        pos: number_pos(v),
        res: Some(DiceResult { value: v, crit: Crit::Normal }),
        kind: NodeKind::Number(v),
    }
}

pub open spec fn binary_node(op: BinaryNodeType, l: Node, r: Node) -> Node {
    Node { pos: empty_pos_spec(), res: None, kind: NodeKind::Binary(op, Box::new(l), Box::new(r)) }
}

/// One die of the size given by `size`.
pub open spec fn die_node(hidden: bool, size: Node) -> Node {
    binary_node(BinaryNodeType::DiceRoll { hidden }, number_node(1), size)
}

pub open spec fn times_node(dice_special: Option<i32>, leaves: Seq<Node>) -> Node {
    Node {
        pos: empty_pos_spec(),
        res: None,
        kind: NodeKind::Many(ManyNodeType::Times { dice_special }, leaves),
    }
}

pub open spec fn binary_op_of(t: Token) -> BinaryNodeType {
    match t {
        Token::Addition => BinaryNodeType::Addition,
        Token::Subtraction => BinaryNodeType::Subtraction,
        Token::Multiplication => BinaryNodeType::Multiplication,
        Token::Division => BinaryNodeType::Division,
        _ => BinaryNodeType::Hit,
    }
}

/// The number of repetitions given by a filled count leaf: its value, or 0 if negative.
pub open spec fn repetitions(n: Node) -> int {
    let v = n.res.unwrap().value as int;
    if v < 0 {
        0
    } else {
        v
    }
}

/// The tree of `v`, rolling the dice that the repetitions need from the
/// front of `rolls`; with the rest of the stream.
pub open spec fn tree_of(v: Seq<Token>, rolls: Seq<u32>) -> (Result<Node, Seq<char>>, Seq<u32>)
    decreases v.len(), 2int, 0int,
{
    if v.len() == 0 {
        (Err(msg_empty()), rolls)
    } else if v.len() == 1 {
        match v[0] {
            Token::Number(i) => (Ok(number_node(i)), rolls),
            t => (Err(msg_not_a_number(t)), rolls),
        }
    } else {
        match find_splitter(v) {
            None => if v[0] == Token::LeftPar {
                tree_of(v.subrange(1, v.len() - 1), rolls)
            } else {
                (Err(msg_not_understood(v)), rolls)
            },
            Some(poz) => split_tree(v, poz, rolls),
        }
    }
}

/// The count leaf of a repetition, built and filled.
pub open spec fn count_leaf(v: Seq<Token>, rolls: Seq<u32>) -> (Result<Node, Seq<char>>, Seq<u32>)
    decreases v.len(), 2int, 1int,
{
    let (no, r1) = tree_of(v, rolls);
    match no {
        Err(e) => (Err(e), r1),
        Ok(nl) => {
            let (fo, r2) = evaluated(nl, r1);
            match fo {
                Err(e) => (Err(msg_eval(e)), r2),
                Ok(nf) => if nf.res is Some {
                    (Ok(nf), r2)
                } else {
                    (Err(msg_eval(EvalError::Malformed)), r2)
                },
            }
        },
    }
}

/// `k` copies of the tree of `e`, each built anew.
pub open spec fn copies(e: Seq<Token>, k: int, rolls: Seq<u32>) -> (Result<Seq<Node>, Seq<char>>, Seq<u32>)
    decreases e.len(), 3int, k,
{
    if k <= 0 {
        (Ok(Seq::empty()), rolls)
    } else {
        let (p, r1) = copies(e, k - 1, rolls);
        match p {
            Err(m) => (Err(m), r1),
            Ok(done) => {
                let (t, r2) = tree_of(e, r1);
                match t {
                    Err(m) => (Err(m), r2),
                    Ok(n) => (Ok(done.push(n)), r2),
                }
            },
        }
    }
}

/// `k` single dice whose size is the tree of `e`, each built anew and
/// rolled; with the size of the second one when `hidden`.
pub open spec fn dice_copies(e: Seq<Token>, hidden: bool, k: int, rolls: Seq<u32>) -> (
    Result<(Seq<Node>, Option<i32>), Seq<char>>,
    Seq<u32>,
)
    decreases e.len(), 3int, k,
{
    if k <= 0 {
        (Ok((Seq::empty(), None)), rolls)
    } else {
        let (p, r1) = dice_copies(e, hidden, k - 1, rolls);
        match p {
            Err(m) => (Err(m), r1),
            Ok((done, single)) => {
                let (t, r2) = tree_of(e, r1);
                match t {
                    Err(m) => (Err(m), r2),
                    Ok(size) => {
                        if k - 1 == 1 && hidden && size.res is None {
                            (Err(msg_eval(EvalError::Malformed)), r2)
                        } else {
                            let single2 = if k - 1 == 1 && hidden {
                                Some(size.res.unwrap().value)
                            } else {
                                single
                            };
                            let (f, r3) = evaluated(die_node(hidden, size), r2);
                            match f {
                                Err(ev) => (Err(msg_eval(ev)), r3),
                                Ok(d) => (Ok((done.push(d), single2)), r3),
                            }
                        }
                    },
                }
            },
        }
    }
}

/// The tree of `v` split at `poz`.
pub open spec fn split_tree(v: Seq<Token>, poz: int, rolls: Seq<u32>) -> (Result<Node, Seq<char>>, Seq<u32>)
    decreases v.len(), 1int, 0int,
{
    let left = v.take(poz);
    let right = v.skip(poz + 1);
    if !(0 <= poz < v.len()) {
        (Err(msg_not_understood(v)), rolls)
    } else if v[poz] == Token::DiceRoll {
        if (poz == 0 || poz == 1) && (v[0] == Token::Number(1) || v[0] == Token::DiceRoll) {
            // `d6` and `1d6`: one die
            let (ro, r1) = tree_of(right, rolls);
            match ro {
                Err(m) => (Err(m), r1),
                Ok(rn) => (Ok(die_node(false, rn)), r1),
            }
        } else {
            // `ndX`: n single dice
            let (co, r1) = count_leaf(left, rolls);
            match co {
                Err(m) => (Err(m), r1),
                Ok(nf) => {
                    let (dc, r2) = dice_copies(right, right.len() == 1, repetitions(nf), r1);
                    match dc {
                        Err(m) => (Err(m), r2),
                        Ok((dice, single)) => (Ok(times_node(single, seq![nf] + dice)), r2),
                    }
                },
            }
        }
    } else if v[poz] == Token::Times {
        // `A x B`: A copies of B, or B copies of A when B is a single
        // number and A is not a single token
        if right.len() == 1 && left.len() != 1 && !(right[0] is Number) {
            (Err(msg_bad_repetition()), rolls)
        } else {
            let swap = right.len() == 1 && left.len() != 1;
            let count_str = if swap {
                right
            } else {
                left
            };
            let expr = if swap {
                left
            } else {
                right
            };
            let (co, r1) = count_leaf(count_str, rolls);
            match co {
                Err(m) => (Err(m), r1),
                Ok(nf) => {
                    let (cs, r2) = copies(expr, repetitions(nf), r1);
                    match cs {
                        Err(m) => (Err(m), r2),
                        Ok(done) => (Ok(times_node(None, seq![nf] + done)), r2),
                    }
                },
            }
        }
    } else if v[poz] == Token::Addition || v[poz] == Token::Subtraction || v[poz]
        == Token::Multiplication || v[poz] == Token::Division || v[poz] == Token::Hit {
        let (lo, r1) = tree_of(left, rolls);
        match lo {
            Err(m) => (Err(m), r1),
            Ok(ln) => {
                let (ro, r2) = tree_of(right, r1);
                match ro {
                    Err(m) => (Err(m), r2),
                    Ok(rn) => (Ok(binary_node(binary_op_of(v[poz]), ln, rn)), r2),
                }
            },
        }
    } else {
        (Err(msg_not_understood(v)), rolls)
    }
}


/// A number leaf.
pub fn build_number(val: i32) -> (n: NodeSlot)
    requires
        val != i32::MIN,
    ensures
        n@ == number_node(val),
{
    let w = number_w(val);
    let mut tmppos = empty_pos();
    tmppos.tipwidth_going_east = Some(w - 1);
    tmppos.tipwidth_going_west = Some(w - 1);
    tmppos.basewidth_going_east = Some(w - 1);
    tmppos.basewidth_going_west = Some(w - 1);
    tmppos.h = Some(1);
    tmppos.branch_type = Some(BranchType::Dot);
    NodeSlot {
        pos: tmppos,
        noderesult: Some(DiceResult { value: val, crit: Crit::Normal }),
        node: NodeType::Zero(ZeroNodeType::Number(val)),
    }
}

pub open spec fn paren_delta(t: Token) -> int {
    if t == Token::LeftPar {
        1
    } else if t == Token::RightPar {
        -1
    } else {
        0
    }
}

proof fn lemma_net_step(v: Seq<Token>, i: int)
    requires
        0 <= i < v.len(),
    ensures
        net(v.take(i + 1)) == net(v.take(i)) + paren_delta(v[i]),
{
    assert(v.take(i + 1).drop_last() =~= v.take(i));
}

proof fn lemma_net_bound(v: Seq<Token>)
    ensures
        -v.len() <= net(v) <= v.len(),
    decreases v.len(),
{
    if v.len() > 0 {
        lemma_net_bound(v.drop_last());
    }
}

fn splitter_at(k: usize) -> (t: Token)
    requires
        k < 7,
    ensures
        t == splitters()[k as int],
{
    if k == 0 {
        Token::Hit
    } else if k == 1 {
        Token::Addition
    } else if k == 2 {
        Token::Subtraction
    } else if k == 3 {
        Token::Division
    } else if k == 4 {
        Token::Multiplication
    } else if k == 5 {
        Token::Times
    } else {
        Token::DiceRoll
    }
}

/// Where `vec` is split: for each operator by priority, the first
/// occurrence outside parentheses.
pub fn position_of_splitter(vec: &[Token]) -> (r: Option<usize>)
    ensures
        r matches Some(p) ==> find_splitter(vec@) == Some(p as int) && p < vec@.len(),
        r is None ==> find_splitter(vec@) is None,
{
    let len = vec.len();
    let ghost v = vec@;
    let ghost nv = net(v);
    proof {
        lemma_net_bound(v);
    }
    let mut par_balance: i128 = 0;
    let mut k: usize = 0;
    while k < 7
        invariant
            k <= 7,
            len == v.len(),
            v == vec@,
            nv == net(v),
            -v.len() <= nv <= v.len(),
            par_balance == k * nv,
            find_splitter(v) == splitter_from(v, k as int),
        decreases 7 - k,
    {
        let spl = splitter_at(k);
        let mut n: usize = 0;
        assert(-7 * v.len() <= k * nv <= 7 * v.len()) by (nonlinear_arith)
            requires
                k <= 7,
                -v.len() <= nv <= v.len(),
        ;
        while n < len
            invariant
                k < 7,
                n <= len,
                len == v.len(),
                v == vec@,
                nv == net(v),
                -v.len() <= nv <= v.len(),
                -7 * v.len() <= k * nv <= 7 * v.len(),
                spl == splitters()[k as int],
                par_balance == k * nv + net(v.take(n as int)),
                find_splitter(v) == splitter_from(v, k as int),
                first_at_depth_zero(v, spl, k * nv, 0) == first_at_depth_zero(v, spl, k * nv, n as int),
            decreases len - n,
        {
            proof {
                lemma_net_step(v, n as int);
                lemma_net_bound(v.take(n as int));
            }
            let t = vec[n];
            if t == Token::LeftPar {
                par_balance = par_balance + 1;
            } else if t == Token::RightPar {
                par_balance = par_balance - 1;
            } else if t == spl && par_balance == 0 {
                return Some(n);
            }
            n = n + 1;
        }
        assert(v.take(len as int) =~= v);
        assert(k * nv + nv == (k + 1) * nv) by (nonlinear_arith);
        k = k + 1;
    }
    None
}

} // verus!
