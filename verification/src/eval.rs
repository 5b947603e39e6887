//! Rolling the dice and computing the value of every node of a roll tree.
//!
//! The random numbers are a stream: the contracts say which numbers a call
//! takes from the front of the stream and what it computes from them,
//! whatever numbers they are.
use vstd::prelude::*;
use crate::tree::{
    Node, NodeKind, NodeSlot, NodeType, BinaryNodeType, Crit, DiceResult, ManyNodeSlot,
    BinaryNodeSlot, empty_pos_spec,
};
use crate::layout::fits;
use crate::rng::{Dice, draws, lemma_draws_none, lemma_draws_concat};

verus! {

/// Why the value of a tree cannot be computed.
#[derive(Clone, Copy, PartialEq, Eq, Structural, Debug)]
pub enum EvalError {
    /// A value leaves the `i32` range.
    Overflow,
    /// A division by zero.
    DivisionByZero,
    /// A node lacks a value it needs, or a die is not a single die.
    Malformed,
}

/// The critical status of a value computed from two others: a natural
/// maximum wins over a natural 1, which wins over a normal value.
pub open spec fn crit_combine(c1: Crit, c2: Crit) -> Crit {
    if c1 == Crit::NatMax || c2 == Crit::NatMax {
        Crit::NatMax
    } else if c1 == Crit::NatMin || c2 == Crit::NatMin {
        Crit::NatMin
    } else {
        Crit::Normal
    }
}

/// The critical status of a value computed from two others.
pub fn std_crit_combine(crit1: Crit, crit2: Crit) -> (c: Crit)
    ensures
        c == crit_combine(crit1, crit2),
{
    if crit1 == Crit::NatMax || crit2 == Crit::NatMax {
        Crit::NatMax
    } else if crit1 == Crit::NatMin || crit2 == Crit::NatMin {
        Crit::NatMin
    } else {
        Crit::Normal
    }
}

/// `size` read as a `u32`, as `size as u32` does.
pub open spec fn as_u32(size: int) -> int {
    if size < 0 {
        size + 0x1_0000_0000
    } else {
        size
    }
}

/// The quotient behind the face of a die with `size` faces for the random
/// number `r`: the `u32` range cut into chunks of `u32::MAX / size` numbers.
pub open spec fn die_chunk_index(size: int, r: int) -> int {
    r / (0xffff_ffffint / as_u32(size))
}

/// A die with `size` faces can show a face for `r`: the size is not 0 and
/// the face stays in the `u32` range.
pub open spec fn die_rolls(size: int, r: int) -> bool {
    size != 0 && die_chunk_index(size, r) + 1 <= 0xffff_ffff
}

/// The face shown by a die with `size` faces for the random number `r`.
pub open spec fn die_face(size: int, r: int) -> int {
    (die_chunk_index(size, r) + 1) as i32 as int
}

/// The face shown by a die with `dicesize` faces for the random number `random_u32`.
pub fn dice_from_u32(dicesize: i32, random_u32: u32) -> (face: i32)
    requires
        die_rolls(dicesize as int, random_u32 as int),
    ensures
        face as int == die_face(dicesize as int, random_u32 as int),
{
    let size = #[verifier::truncate] (dicesize as u32);
    assert(dicesize >= 0 ==> size as int == dicesize as int) by (bit_vector)
        requires
            size == dicesize as u32,
    ;
    assert(dicesize < 0 ==> size as int == dicesize as int + 0x1_0000_0000) by (bit_vector)
        requires
            size == dicesize as u32,
    ;
    assert(u32::MAX / size >= 1) by (nonlinear_arith)
        requires
            size >= 1,
    ;
    let chunk_size = u32::MAX / size;
    let result = (random_u32 / chunk_size) + 1;
    #[verifier::truncate]
    (result as i32)
}

/// Whether the face for `r` of a die with `size` faces can be computed.
fn die_rolls_exec(dicesize: i32, random_u32: u32) -> (ok: bool)
    ensures
        ok == die_rolls(dicesize as int, random_u32 as int),
{
    if dicesize == 0 {
        return false;
    }
    let size = #[verifier::truncate] (dicesize as u32);
    assert(dicesize >= 0 ==> size as int == dicesize as int) by (bit_vector)
        requires
            size == dicesize as u32,
    ;
    assert(dicesize < 0 ==> size as int == dicesize as int + 0x1_0000_0000) by (bit_vector)
        requires
            size == dicesize as u32,
    ;
    assert(u32::MAX / size >= 1) by (nonlinear_arith)
        requires
            size >= 1,
    ;
    let q = random_u32 / (u32::MAX / size);
    q < u32::MAX
}

/// Rust's `/` on integers, which rounds toward zero.
pub open spec fn tdiv(a: int, b: int) -> int {
    let q = (if a < 0 {
        -a
    } else {
        a
    }) / (if b < 0 {
        -b
    } else {
        b
    });
    if (a < 0) != (b < 0) {
        -q
    } else {
        q
    }
}

/// The critical status of a die that shows `n` of `size` faces.
pub open spec fn die_crit(size: int, n: int) -> Crit {
    if size == 20 && n == 20 {
        Crit::NatMax
    } else if n == 1 {
        Crit::NatMin
    } else {
        Crit::Normal
    }
}

/// The value of a binary node from the values of its leaves, taking the
/// random numbers it needs from the front of `rolls`; with the rest of the stream.
pub open spec fn combine(op: BinaryNodeType, a: DiceResult, b: DiceResult, rolls: Seq<u32>) -> (
    Result<DiceResult, EvalError>,
    Seq<u32>,
) {
    let crit = crit_combine(a.crit, b.crit);
    let x = a.value as int;
    let y = b.value as int;
    match op {
        BinaryNodeType::Addition => (
            if fits(x + y) {
                Ok(DiceResult { value: (x + y) as i32, crit })
            } else {
                Err(EvalError::Overflow)
            },
            rolls,
        ),
        BinaryNodeType::Subtraction => (
            if fits(x - y) {
                Ok(DiceResult { value: (x - y) as i32, crit })
            } else {
                Err(EvalError::Overflow)
            },
            rolls,
        ),
        BinaryNodeType::Multiplication => (
            if fits(x * y) {
                Ok(DiceResult { value: (x * y) as i32, crit })
            } else {
                Err(EvalError::Overflow)
            },
            rolls,
        ),
        BinaryNodeType::Division => (
            if y == 0 {
                Err(EvalError::DivisionByZero)
            } else if x == i32::MIN && y == -1 {
                Err(EvalError::Overflow)
            } else {
                Ok(DiceResult { value: tdiv(x, y) as i32, crit })
            },
            rolls,
        ),
        BinaryNodeType::DiceRoll { .. } => if x != 1 {
            (Err(EvalError::Malformed), rolls)
        } else if y == 0 {
            (Err(EvalError::DivisionByZero), rolls.drop_first())
        } else if !die_rolls(y, rolls[0] as int) {
            (Err(EvalError::Overflow), rolls.drop_first())
        } else {
            let n = die_face(y, rolls[0] as int);
            (Ok(DiceResult { value: n as i32, crit: die_crit(y, n) }), rolls.drop_first())
        },
        BinaryNodeType::Hit => (
            Ok(
                DiceResult {
                    value: if a.crit == Crit::NatMax || b.crit == Crit::NatMax || x >= y {
                        1
                    } else {
                        0
                    },
                    crit: Crit::Normal,
                },
            ),
            rolls,
        ),
    }
}

/// A leaf as its root uses it: computed first if it has no value yet.
pub open spec fn filled_leaf(c: Node, rolls: Seq<u32>) -> (Result<Node, EvalError>, Seq<u32>)
    decreases c, 2int,
{
    if c.res is None {
        evaluated(c, rolls)
    } else {
        (Ok(c), rolls)
    }
}

/// The summed leaves of a `Times` node computed in order, with their sum.
pub open spec fn filled_sum(s: Seq<Node>, rolls: Seq<u32>) -> (
    Result<(Seq<Node>, int), EvalError>,
    Seq<u32>,
)
    decreases s, 3int,
{
    if s.len() == 0 {
        (Ok((Seq::empty(), 0)), rolls)
    } else {
        let (p, r1) = filled_sum(s.drop_last(), rolls);
        match p {
            Err(e) => (Err(e), r1),
            Ok((done, sum)) => {
                let (c, r2) = filled_leaf(s.last(), r1);
                match c {
                    Err(e) => (Err(e), r2),
                    Ok(c1) => match c1.res {
                        Some(v) => if fits(sum + v.value) {
                            (Ok((done.push(c1), sum + v.value)), r2)
                        } else {
                            (Err(EvalError::Overflow), r2)
                        },
                        None => (Err(EvalError::Malformed), r2),
                    },
                }
            },
        }
    }
}

/// The value of a binary node and its leaves once computed, rolling the
/// dice from the front of `rolls`; with the rest of the stream.
pub open spec fn binary_value(n: Node, rolls: Seq<u32>) -> (
    Result<(DiceResult, Node, Node), EvalError>,
    Seq<u32>,
)
    decreases n, 0int,
{
    match n.kind {
        NodeKind::Binary(op, l, r) => {
            let (lo, r1) = filled_leaf(*l, rolls);
            match lo {
                Err(e) => (Err(e), r1),
                Ok(l1) => {
                    let (ro, r2) = filled_leaf(*r, r1);
                    match ro {
                        Err(e) => (Err(e), r2),
                        Ok(r1n) => match (l1.res, r1n.res) {
                            (Some(a), Some(b)) => {
                                let (v, r3) = combine(op, a, b, r2);
                                match v {
                                    Ok(d) => (Ok((d, l1, r1n)), r3),
                                    Err(e) => (Err(e), r3),
                                }
                            },
                            _ => (Err(EvalError::Malformed), r2),
                        },
                    }
                },
            }
        },
        _ => (Err(EvalError::Malformed), rolls),
    }
}

/// The tree with a value at the root and at every node that the root's
/// value needs, rolling the dice from the front of `rolls`; with the rest of
/// the stream.
pub open spec fn evaluated(n: Node, rolls: Seq<u32>) -> (Result<Node, EvalError>, Seq<u32>)
    decreases n, 1int,
{
    match n.kind {
        NodeKind::Number(_) => (Ok(n), rolls),
        NodeKind::Binary(op, _, _) => {
            let (o, r1) = binary_value(n, rolls);
            match o {
                Ok((d, l1, r1n)) => (
                    Ok(
                        Node {
                            pos: n.pos,
                            res: Some(d),
                            kind: NodeKind::Binary(op, Box::new(l1), Box::new(r1n)),
                        },
                    ),
                    r1,
                ),
                Err(e) => (Err(e), r1),
            }
        },
        NodeKind::Many(m, s) => if s.len() == 0 {
            (Err(EvalError::Malformed), rolls)
        } else {
            let (o, r1) = filled_sum(s.skip(1), rolls);
            match o {
                Err(e) => (Err(e), r1),
                Ok((done, sum)) => (
                    Ok(
                        Node {
                            pos: n.pos,
                            res: Some(DiceResult { value: sum as i32, crit: Crit::Normal }),
                            kind: NodeKind::Many(m, seq![s[0]] + done),
                        },
                    ),
                    r1,
                ),
            }
        },
    }
}

/// `d` are exactly the random numbers that evaluating `n` takes, and `out`
/// is what it gives, whatever numbers come after them.
pub open spec fn fill_takes(n: Node, d: Seq<u32>, out: Result<Node, EvalError>) -> bool {
    forall|c: Seq<u32>| #[trigger] evaluated(n, d + c) == (out, c)
}


pub open spec fn leaf_takes(n: Node, d: Seq<u32>, out: Result<Node, EvalError>) -> bool {
    forall|c: Seq<u32>| #[trigger] filled_leaf(n, d + c) == (out, c)
}

pub open spec fn binary_takes(
    n: Node,
    d: Seq<u32>,
    out: Result<(DiceResult, Node, Node), EvalError>,
) -> bool {
    forall|c: Seq<u32>| #[trigger] binary_value(n, d + c) == (out, c)
}

pub open spec fn sum_takes(s: Seq<Node>, d: Seq<u32>, out: Result<(Seq<Node>, int), EvalError>) -> bool {
    forall|c: Seq<u32>| #[trigger] filled_sum(s, d + c) == (out, c)
}

pub open spec fn combine_takes(
    op: BinaryNodeType,
    a: DiceResult,
    b: DiceResult,
    d: Seq<u32>,
    out: Result<DiceResult, EvalError>,
) -> bool {
    forall|c: Seq<u32>| #[trigger] combine(op, a, b, d + c) == (out, c)
}

/// The tree in `n`'s place after a fill that returned `r`.
pub open spec fn outcome(r: Result<(), EvalError>, n: Node) -> Result<Node, EvalError> {
    match r {
        Ok(_) => Ok(n),
        Err(e) => Err(e),
    }
}

pub open spec fn bnode(b: BinaryNodeSlot) -> Node {
    Node {
        pos: empty_pos_spec(),
        res: None,
        kind: NodeKind::Binary(b.binode, Box::new(b.leftleaf@), Box::new(b.rightleaf@)),
    }
}

pub(crate) proof fn lemma_assoc(a: Seq<u32>, b: Seq<u32>, c: Seq<u32>)
    ensures
        (a + b) + c == a + (b + c),
{
    assert((a + b) + c =~= a + (b + c));
}

pub(crate) proof fn lemma_empty_prefix(c: Seq<u32>)
    ensures
        Seq::<u32>::empty() + c == c,
{
    assert(Seq::<u32>::empty() + c =~= c);
}

/// Rust's `/` on `i32`, for divisors other than 0 and quotients in range.
fn div_i32(a: i32, b: i32) -> (q: i32)
    requires
        b != 0,
        !(a == i32::MIN && b == -1),
    ensures
        q as int == tdiv(a as int, b as int),
{
    let ua: u32 = if a < 0 {
        (0i64 - a as i64) as u32
    } else {
        a as u32
    };
    let ub: u32 = if b < 0 {
        (0i64 - b as i64) as u32
    } else {
        b as u32
    };
    let q = ua / ub;
    assert(q <= ua) by (nonlinear_arith)
        requires
            q == ua / ub,
            ub >= 1,
    ;
    if ub == 1 {
        assert(q == ua) by (nonlinear_arith)
            requires
                q == ua / ub,
                ub == 1,
        ;
    } else {
        assert(q <= ua / 2) by (nonlinear_arith)
            requires
                q == ua / ub,
                ub >= 2,
        ;
    }
    if (a < 0) != (b < 0) {
        (0i64 - q as i64) as i32
    } else {
        q as i32
    }
}

/// The value of a binary node from the values of its leaves, rolling a die
/// for a dice node.
fn combine_exec(op: BinaryNodeType, a: DiceResult, b: DiceResult, rng: &mut Dice) -> (r:
    Result<DiceResult, EvalError>)
    ensures
        exists|d: Seq<u32>| #[trigger] combine_takes(op, a, b, d, r) && draws(old(rng)@, final(rng)@, d),
{
    let crit = std_crit_combine(a.crit, b.crit);
    let x = a.value;
    let y = b.value;
    let r = match op {
        BinaryNodeType::Addition => match x.checked_add(y) {
            Some(v) => Ok(DiceResult { value: v, crit }),
            None => Err(EvalError::Overflow),
        },
        BinaryNodeType::Subtraction => match x.checked_sub(y) {
            Some(v) => Ok(DiceResult { value: v, crit }),
            None => Err(EvalError::Overflow),
        },
        BinaryNodeType::Multiplication => match x.checked_mul(y) {
            Some(v) => Ok(DiceResult { value: v, crit }),
            None => Err(EvalError::Overflow),
        },
        BinaryNodeType::Division => if y == 0 {
            Err(EvalError::DivisionByZero)
        } else if x == i32::MIN && y == -1 {
            Err(EvalError::Overflow)
        } else {
            Ok(DiceResult { value: div_i32(x, y), crit })
        },
        BinaryNodeType::DiceRoll { .. } => {
            if x != 1 {
                Err(EvalError::Malformed)
            } else {
                let random_u32 = rng.next();
                let res = if y == 0 {
                    Err(EvalError::DivisionByZero)
                } else if !die_rolls_exec(y, random_u32) {
                    Err(EvalError::Overflow)
                } else {
                    let n = dice_from_u32(y, random_u32);
                    let c = if y == 20 && n == 20 {
                        Crit::NatMax
                    } else if n == 1 {
                        Crit::NatMin
                    } else {
                        Crit::Normal
                    };
                    Ok(DiceResult { value: n, crit: c })
                };
                proof {
                    let d = seq![random_u32];
                    assert forall|c: Seq<u32>| #[trigger] combine(op, a, b, d + c) == (res, c) by {
                        assert((d + c).drop_first() =~= c);
                        assert((d + c)[0] == random_u32);
                    }
                    assert(combine_takes(op, a, b, d, res));
                    assert(draws(old(rng)@, rng@, d));
                }
                return res;
            }
        },
        BinaryNodeType::Hit => {
            let n = if a.crit == Crit::NatMax || b.crit == Crit::NatMax {
                1
            } else if x >= y {
                1
            } else {
                0
            };
            Ok(DiceResult { value: n, crit: Crit::Normal })
        },
    };
    proof {
        let d = Seq::<u32>::empty();
        assert forall|c: Seq<u32>| #[trigger] combine(op, a, b, d + c) == (r, c) by {
            lemma_empty_prefix(c);
        }
        assert(combine_takes(op, a, b, d, r));
        lemma_draws_none(rng@);
    }
    r
}


/// Computes the value of a leaf that has none yet; a leaf with a value is left as it is.
fn fill_leaf(c: &mut NodeSlot, rng: &mut Dice) -> (r: Result<(), EvalError>)
    ensures
        exists|d: Seq<u32>| #[trigger] leaf_takes(old(c)@, d, outcome(r, final(c)@)) && draws(old(rng)@, final(rng)@, d),
    decreases *old(c), 2int,
{
    if c.noderesult.is_none() {
        let r = fill(c, rng);
        proof {
            let d = choose|d: Seq<u32>| #[trigger] fill_takes(old(c)@, d, outcome(r, c@)) && draws(old(rng)@, rng@, d);
            assert forall|x: Seq<u32>| #[trigger] filled_leaf(old(c)@, d + x) == (outcome(r, c@), x) by {
                assert(evaluated(old(c)@, d + x) == (outcome(r, c@), x));
            }
            assert(leaf_takes(old(c)@, d, outcome(r, c@)));
        }
        r
    } else {
        proof {
            let d = Seq::<u32>::empty();
            assert forall|x: Seq<u32>| #[trigger] filled_leaf(old(c)@, d + x) == (outcome(Ok(()), c@), x) by {
                lemma_empty_prefix(x);
            }
            assert(leaf_takes(old(c)@, d, outcome(Ok(()), c@)));
            lemma_draws_none(rng@);
        }
        Ok(())
    }
}

/// The outcome of a binary node's computation, from its parts.
pub open spec fn binary_outcome(r: Result<DiceResult, EvalError>, b: BinaryNodeSlot) -> Result<
    (DiceResult, Node, Node),
    EvalError,
> {
    match r {
        Ok(d) => Ok((d, b.leftleaf@, b.rightleaf@)),
        Err(e) => Err(e),
    }
}

/// Computes the leaves of a binary node that have no value yet, then the
/// node's value.
fn fill_binary(b: &mut BinaryNodeSlot, rng: &mut Dice) -> (r: Result<DiceResult, EvalError>)
    ensures
        exists|d: Seq<u32>| #[trigger] binary_takes(bnode(*old(b)), d, binary_outcome(r, *final(b))) && draws(
            old(rng)@,
            final(rng)@,
            d,
        ),
        final(b).binode == old(b).binode,
    decreases *old(b), 3int,
{
    let ghost n0 = bnode(*b);
    let ghost l0 = b.leftleaf@;
    let ghost r0 = b.rightleaf@;
    let ghost g0 = rng@;
    proof {
        assert(decreases_to!(*old(b) => old(b).leftleaf));
        assert(decreases_to!(*old(b) => old(b).rightleaf));
    }
    let lr = fill_leaf(&mut b.leftleaf, rng);
    let ghost d1 = choose|d: Seq<u32>| #[trigger] leaf_takes(l0, d, outcome(lr, b.leftleaf@)) && draws(g0, rng@, d);
    let ghost g1 = rng@;
    if let Err(e) = lr {
        proof {
            assert forall|x: Seq<u32>| #[trigger] binary_value(n0, d1 + x) == (Err::<(DiceResult, Node, Node), EvalError>(e), x) by {
                assert(filled_leaf(l0, d1 + x) == (outcome(lr, b.leftleaf@), x));
            }
            assert(binary_takes(n0, d1, binary_outcome(Err(e), *b)));
        }
        return Err(e);
    }
    let ghost l1 = b.leftleaf@;
    let rr = fill_leaf(&mut b.rightleaf, rng);
    let ghost d2 = choose|d: Seq<u32>| #[trigger] leaf_takes(r0, d, outcome(rr, b.rightleaf@)) && draws(g1, rng@, d);
    let ghost g2 = rng@;
    proof {
        lemma_draws_concat(g0, g1, g2, d1, d2);
    }
    if let Err(e) = rr {
        proof {
            assert forall|x: Seq<u32>| #[trigger] binary_value(n0, (d1 + d2) + x) == (Err::<(DiceResult, Node, Node), EvalError>(e), x) by {
                lemma_assoc(d1, d2, x);
                assert(filled_leaf(l0, d1 + (d2 + x)) == (Ok::<Node, EvalError>(l1), d2 + x));
                assert(filled_leaf(r0, d2 + x) == (outcome(rr, b.rightleaf@), x));
            }
            assert(binary_takes(n0, d1 + d2, binary_outcome(Err(e), *b)));
        }
        return Err(e);
    }
    let ghost r1 = b.rightleaf@;
    let a = match b.leftleaf.noderesult {
        Some(v) => v,
        None => {
            proof {
                assert forall|x: Seq<u32>| #[trigger] binary_value(n0, (d1 + d2) + x) == (Err::<(DiceResult, Node, Node), EvalError>(EvalError::Malformed), x) by {
                    lemma_assoc(d1, d2, x);
                    assert(filled_leaf(l0, d1 + (d2 + x)) == (Ok::<Node, EvalError>(l1), d2 + x));
                    assert(filled_leaf(r0, d2 + x) == (Ok::<Node, EvalError>(r1), x));
                }
                assert(binary_takes(n0, d1 + d2, binary_outcome(Err(EvalError::Malformed), *b)));
            }
            return Err(EvalError::Malformed);
        },
    };
    let bb = match b.rightleaf.noderesult {
        Some(v) => v,
        None => {
            proof {
                assert forall|x: Seq<u32>| #[trigger] binary_value(n0, (d1 + d2) + x) == (Err::<(DiceResult, Node, Node), EvalError>(EvalError::Malformed), x) by {
                    lemma_assoc(d1, d2, x);
                    assert(filled_leaf(l0, d1 + (d2 + x)) == (Ok::<Node, EvalError>(l1), d2 + x));
                    assert(filled_leaf(r0, d2 + x) == (Ok::<Node, EvalError>(r1), x));
                }
                assert(binary_takes(n0, d1 + d2, binary_outcome(Err(EvalError::Malformed), *b)));
            }
            return Err(EvalError::Malformed);
        },
    };
    let v = combine_exec(b.binode, a, bb, rng);
    proof {
        let d3 = choose|d: Seq<u32>| #[trigger] combine_takes(b.binode, a, bb, d, v) && draws(g2, rng@, d);
        let d = (d1 + d2) + d3;
        lemma_draws_concat(g0, g2, rng@, d1 + d2, d3);
        assert forall|x: Seq<u32>| #[trigger] binary_value(n0, d + x) == (binary_outcome(v, *b), x) by {
            lemma_assoc(d1 + d2, d3, x);
            lemma_assoc(d1, d2, d3 + x);
            assert(filled_leaf(l0, d1 + (d2 + (d3 + x))) == (Ok::<Node, EvalError>(l1), d2 + (d3 + x)));
            assert(filled_leaf(r0, d2 + (d3 + x)) == (Ok::<Node, EvalError>(r1), d3 + x));
            assert(combine(b.binode, a, bb, d3 + x) == (v, x));
        }
        assert(binary_takes(n0, d, binary_outcome(v, *b)));
    }
    v
}

/// Computes the value of `slot` and of every node under it that the value
/// needs and has none yet, rolling the dice with `rng`. The error says why
/// a value cannot be computed: a value out of range, a division by zero
/// (a die with no faces divides by zero), or a node that lacks a value.
/// The dice take the next numbers of `rng`, in order.
pub fn fill(slot: &mut NodeSlot, rng: &mut Dice) -> (r: Result<(), EvalError>)
    ensures
        exists|d: Seq<u32>| #[trigger] fill_takes(old(slot)@, d, outcome(r, final(slot)@)) && draws(
            old(rng)@,
            final(rng)@,
            d,
        ),
    decreases *old(slot), 1int,
{
    let ghost n0 = slot@;
    match &mut slot.node {
        NodeType::Zero(_) => {
            proof {
                let d = Seq::<u32>::empty();
                assert forall|x: Seq<u32>| #[trigger] evaluated(n0, d + x) == (outcome(Ok(()), n0), x) by {
                    lemma_empty_prefix(x);
                }
                assert(fill_takes(n0, d, outcome(Ok(()), n0)));
                lemma_draws_none(rng@);
            }
            Ok(())
        },
        NodeType::Binary(b) => {
            proof {
                let k = old(slot).node;
                assert(decreases_to!(*old(slot) => k));
                if let NodeType::Binary(ob) = k {
                    assert(decreases_to!(k => ob));
                }
            }
            let ghost b0 = *b;
            let v = fill_binary(b, rng);
            let ghost d = choose|d: Seq<u32>| #[trigger] binary_takes(bnode(b0), d, binary_outcome(v, *b)) && draws(
                old(rng)@,
                rng@,
                d,
            );
            match v {
                Ok(value) => {
                    slot.noderesult = Some(value);
                    proof {
                        assert forall|x: Seq<u32>| #[trigger] evaluated(n0, d + x) == (outcome(Ok(()), slot@), x) by {
                            assert(binary_value(bnode(b0), d + x) == (binary_outcome(v, *b), x));
                        }
                        assert(fill_takes(n0, d, outcome(Ok(()), slot@)));
                    }
                    Ok(())
                },
                Err(e) => {
                    proof {
                        assert forall|x: Seq<u32>| #[trigger] evaluated(n0, d + x) == (outcome(Err(e), slot@), x) by {
                            assert(binary_value(bnode(b0), d + x) == (binary_outcome(v, *b), x));
                        }
                        assert(fill_takes(n0, d, outcome(Err(e), slot@)));
                    }
                    Err(e)
                },
            }
        },
        NodeType::Many(m) => {
            proof {
                let k = old(slot).node;
                assert(decreases_to!(*old(slot) => k));
                if let NodeType::Many(om) = k {
                    assert(decreases_to!(k => om));
                }
            }
            let ghost m0 = *m;
            proof {
                NodeSlot::lemma_models(m0.leaves@);
            }
            if m.leaves.len() == 0 {
                proof {
                    let d = Seq::<u32>::empty();
                    assert forall|x: Seq<u32>| #[trigger] evaluated(n0, d + x) == (outcome(Err(EvalError::Malformed), slot@), x) by {
                        lemma_empty_prefix(x);
                    }
                    assert(fill_takes(n0, d, outcome(Err(EvalError::Malformed), slot@)));
                    lemma_draws_none(rng@);
                }
                return Err(EvalError::Malformed);
            }
            let v = fill_sum(m, rng);
            let ghost tail0 = NodeSlot::models(m0.leaves@).skip(1);
            let ghost d = choose|d: Seq<u32>| #[trigger] sum_takes(tail0, d, sum_outcome(v, *m)) && draws(
                old(rng)@,
                rng@,
                d,
            );
            match v {
                Ok(total) => {
                    slot.noderesult = Some(DiceResult { value: total, crit: Crit::Normal });
                    proof {
                        NodeSlot::lemma_models(m.leaves@);
                        assert(NodeSlot::models(m.leaves@) =~= seq![NodeSlot::models(m0.leaves@)[0]]
                            + NodeSlot::models(m.leaves@).skip(1));
                        assert forall|x: Seq<u32>| #[trigger] evaluated(n0, d + x) == (outcome(Ok(()), slot@), x) by {
                            assert(filled_sum(tail0, d + x) == (sum_outcome(v, *m), x));
                        }
                        assert(fill_takes(n0, d, outcome(Ok(()), slot@)));
                    }
                    Ok(())
                },
                Err(e) => {
                    proof {
                        assert forall|x: Seq<u32>| #[trigger] evaluated(n0, d + x) == (outcome(Err(e), slot@), x) by {
                            assert(filled_sum(tail0, d + x) == (sum_outcome(v, *m), x));
                        }
                        assert(fill_takes(n0, d, outcome(Err(e), slot@)));
                    }
                    Err(e)
                },
            }
        },
    }
}


/// The outcome of a `Times` node's sum, from its parts.
pub open spec fn sum_outcome(r: Result<i32, EvalError>, m: ManyNodeSlot) -> Result<(Seq<Node>, int), EvalError> {
    match r {
        Ok(v) => Ok((NodeSlot::models(m.leaves@).skip(1), v as int)),
        Err(e) => Err(e),
    }
}

proof fn lemma_sum_prefix_err(s: Seq<Node>, k: int, rolls: Seq<u32>, e: EvalError, rest: Seq<u32>)
    requires
        0 <= k <= s.len(),
        filled_sum(s.take(k), rolls) == (Err::<(Seq<Node>, int), EvalError>(e), rest),
    ensures
        filled_sum(s, rolls) == (Err::<(Seq<Node>, int), EvalError>(e), rest),
    decreases s.len() - k,
{
    if k == s.len() {
        assert(s.take(k) =~= s);
    } else {
        assert(s.take(k + 1).drop_last() =~= s.take(k));
        lemma_sum_prefix_err(s, k + 1, rolls, e, rest);
    }
}

/// Computes, in order, the summed leaves of a `Times` node that have no
/// value yet, and returns their sum.
fn fill_sum(m: &mut ManyNodeSlot, rng: &mut Dice) -> (r: Result<i32, EvalError>)
    requires
        old(m).leaves@.len() >= 1,
    ensures
        final(m).manynode == old(m).manynode,
        final(m).leaves@.len() == old(m).leaves@.len(),
        final(m).leaves@[0] == old(m).leaves@[0],
        exists|d: Seq<u32>| #[trigger] sum_takes(
            NodeSlot::models(old(m).leaves@).skip(1),
            d,
            sum_outcome(r, *final(m)),
        ) && draws(old(rng)@, final(rng)@, d),
    decreases *old(m),
{
    let ghost orig = m.leaves@;
    let ghost tail = NodeSlot::models(orig).skip(1);
    proof {
        NodeSlot::lemma_models(orig);
    }
    let len = m.leaves.len();
    let mut res: i32 = 0;
    let mut j: usize = 1;
    let ghost mut dacc = Seq::<u32>::empty();
    let ghost mut done = Seq::<Node>::empty();
    let ghost g0 = rng@;
    proof {
        lemma_draws_none(g0);
        assert forall|x: Seq<u32>| #[trigger] filled_sum(tail.take(0), dacc + x) == (Ok::<(Seq<Node>, int), EvalError>((done, 0int)), x) by {
            lemma_empty_prefix(x);
            assert(tail.take(0) =~= Seq::<Node>::empty());
        }
    }
    while j < len
        invariant
            1 <= j <= len,
            len == orig.len(),
            orig == old(m).leaves@,
            m.leaves@.len() == len,
            m.manynode == old(m).manynode,
            tail == NodeSlot::models(orig).skip(1),
            tail.len() == len - 1,
            forall|k: int| 0 <= k < len - 1 ==> #[trigger] tail[k] == orig[k + 1]@,
            forall|k: int| (k == 0 || j <= k < len) ==> #[trigger] m.leaves@[k] == orig[k],
            done.len() == j - 1,
            forall|k: int| 0 <= k < j - 1 ==> #[trigger] done[k] == m.leaves@[k + 1]@,
            forall|x: Seq<u32>| #[trigger] filled_sum(tail.take(j - 1), dacc + x) == (Ok::<(Seq<Node>, int), EvalError>((done, res as int)), x),
            g0 == old(rng)@,
            draws(g0, rng@, dacc),
        decreases len - j,
    {
        proof {
            assert(decreases_to!(*old(m) => old(m).leaves));
            assert(decreases_to!(old(m).leaves => old(m).leaves@));
            assert(decreases_to!(old(m).leaves@ => old(m).leaves@[j as int]));
        }
        let ghost c0 = m.leaves@[j as int]@;
        let ghost gj = rng@;
        let lr = fill_leaf(&mut m.leaves[j], rng);
        let ghost d1 = choose|d: Seq<u32>| #[trigger] leaf_takes(c0, d, outcome(lr, m.leaves@[j as int]@)) && draws(gj, rng@, d);
        proof {
            lemma_draws_concat(g0, gj, rng@, dacc, d1);
            assert(tail.take(j as int).drop_last() =~= tail.take(j - 1));
            assert(tail.take(j as int).last() == c0);
        }
        if let Err(e) = lr {
            proof {
                assert forall|x: Seq<u32>| #[trigger] filled_sum(tail, (dacc + d1) + x) == (Err::<(Seq<Node>, int), EvalError>(e), x) by {
                    lemma_assoc(dacc, d1, x);
                    assert(filled_sum(tail.take(j - 1), dacc + (d1 + x)) == (Ok::<(Seq<Node>, int), EvalError>((done, res as int)), d1 + x));
                    assert(filled_leaf(c0, d1 + x) == (outcome(lr, m.leaves@[j as int]@), x));
                    lemma_sum_prefix_err(tail, j as int, (dacc + d1) + x, e, x);
                }
                assert(sum_takes(tail, dacc + d1, sum_outcome(Err(e), *m)));
            }
            return Err(e);
        }
        let jres = match m.leaves[j].noderesult {
            Some(v) => v,
            None => {
                proof {
                    assert forall|x: Seq<u32>| #[trigger] filled_sum(tail, (dacc + d1) + x) == (Err::<(Seq<Node>, int), EvalError>(EvalError::Malformed), x) by {
                        lemma_assoc(dacc, d1, x);
                        assert(filled_sum(tail.take(j - 1), dacc + (d1 + x)) == (Ok::<(Seq<Node>, int), EvalError>((done, res as int)), d1 + x));
                        assert(filled_leaf(c0, d1 + x) == (outcome(lr, m.leaves@[j as int]@), x));
                        lemma_sum_prefix_err(tail, j as int, (dacc + d1) + x, EvalError::Malformed, x);
                    }
                    assert(sum_takes(tail, dacc + d1, sum_outcome(Err(EvalError::Malformed), *m)));
                }
                return Err(EvalError::Malformed);
            },
        };
        let ghost c1 = m.leaves@[j as int]@;
        let next = match res.checked_add(jres.value) {
            Some(v) => v,
            None => {
                proof {
                    assert forall|x: Seq<u32>| #[trigger] filled_sum(tail, (dacc + d1) + x) == (Err::<(Seq<Node>, int), EvalError>(EvalError::Overflow), x) by {
                        lemma_assoc(dacc, d1, x);
                        assert(filled_sum(tail.take(j - 1), dacc + (d1 + x)) == (Ok::<(Seq<Node>, int), EvalError>((done, res as int)), d1 + x));
                        assert(filled_leaf(c0, d1 + x) == (outcome(lr, c1), x));
                        lemma_sum_prefix_err(tail, j as int, (dacc + d1) + x, EvalError::Overflow, x);
                    }
                    assert(sum_takes(tail, dacc + d1, sum_outcome(Err(EvalError::Overflow), *m)));
                }
                return Err(EvalError::Overflow);
            },
        };
        proof {
            assert forall|x: Seq<u32>| #[trigger] filled_sum(tail.take(j as int), (dacc + d1) + x) == (Ok::<(Seq<Node>, int), EvalError>((done.push(c1), next as int)), x) by {
                lemma_assoc(dacc, d1, x);
                assert(filled_sum(tail.take(j - 1), dacc + (d1 + x)) == (Ok::<(Seq<Node>, int), EvalError>((done, res as int)), d1 + x));
                assert(filled_leaf(c0, d1 + x) == (outcome(lr, c1), x));
            }
            dacc = dacc + d1;
            done = done.push(c1);
        }
        res = next;
        j = j + 1;
    }
    proof {
        NodeSlot::lemma_models(m.leaves@);
        assert(tail.take(len - 1) =~= tail);
        assert(done =~= NodeSlot::models(m.leaves@).skip(1));
        assert(sum_takes(tail, dacc, sum_outcome(Ok(res), *m)));
    }
    Ok(res)
}

} // verus!
