//! Building the roll tree from tokens, as `parse::tree_of` describes it.
//! Each function states which random numbers it takes from the generator:
//! some `d` such that the description, run on `d` followed by anything,
//! gives the same result and leaves that rest untouched.
use vstd::prelude::*;
use crate::rng::{Dice, draws, lemma_draws_none, lemma_draws_concat};
use crate::tree::{
    Node, NodeSlot, NodeType, BinaryNodeSlot, ManyNodeSlot, BinaryNodeType, ManyNodeType, Token,
    empty_pos,
};
use crate::eval::{fill, fill_takes, outcome, evaluated, EvalError, lemma_assoc, lemma_empty_prefix};
use crate::msg::{
    msg_eval, empty_message, not_a_number_message, not_understood_message,
    bad_repetition_message, eval_message,
};
use crate::parse::{
    tree_of, split_tree, count_leaf, copies, dice_copies, die_node, times_node, binary_op_of,
    repetitions, build_number, position_of_splitter,
};

verus! {

/// The model of what a parsing step returned.
pub open spec fn parsed(r: Result<NodeSlot, String>) -> Result<Node, Seq<char>> {
    match r {
        Ok(n) => Ok(n@),
        Err(m) => Err(m@),
    }
}

/// No number token is `i32::MIN`, whose magnitude `i32` cannot hold.
pub open spec fn no_min_number(v: Seq<Token>) -> bool {
    forall|i: int| 0 <= i < v.len() ==> #[trigger] v[i] != Token::Number(i32::MIN)
}

/// Parsing `v` takes exactly the numbers `d` and gives `out`.
pub open spec fn tree_takes(v: Seq<Token>, d: Seq<u32>, out: Result<Node, Seq<char>>) -> bool {
    forall|c: Seq<u32>| #[trigger] tree_of(v, d + c) == (out, c)
}

pub open spec fn split_takes(v: Seq<Token>, poz: int, d: Seq<u32>, out: Result<Node, Seq<char>>) -> bool {
    forall|c: Seq<u32>| #[trigger] split_tree(v, poz, d + c) == (out, c)
}

pub open spec fn count_takes(v: Seq<Token>, d: Seq<u32>, out: Result<Node, Seq<char>>) -> bool {
    forall|c: Seq<u32>| #[trigger] count_leaf(v, d + c) == (out, c)
}

pub open spec fn copies_takes(e: Seq<Token>, k: int, d: Seq<u32>, out: Result<Seq<Node>, Seq<char>>) -> bool {
    forall|c: Seq<u32>| #[trigger] copies(e, k, d + c) == (out, c)
}

pub open spec fn dice_copies_takes(
    e: Seq<Token>,
    hidden: bool,
    k: int,
    d: Seq<u32>,
    out: Result<(Seq<Node>, Option<i32>), Seq<char>>,
) -> bool {
    forall|c: Seq<u32>| #[trigger] dice_copies(e, hidden, k, d + c) == (out, c)
}

pub open spec fn copies_out(r: Result<Vec<NodeSlot>, String>) -> Result<Seq<Node>, Seq<char>> {
    match r {
        Ok(v) => Ok(NodeSlot::models(v@)),
        Err(m) => Err(m@),
    }
}

pub open spec fn dice_out(r: Result<(Vec<NodeSlot>, Option<i32>), String>) -> Result<
    (Seq<Node>, Option<i32>),
    Seq<char>,
> {
    match r {
        Ok((v, s)) => Ok((NodeSlot::models(v@), s)),
        Err(m) => Err(m@),
    }
}

proof fn lemma_no_min_sub(v: Seq<Token>, a: int, b: int)
    requires
        no_min_number(v),
        0 <= a <= b <= v.len(),
    ensures
        no_min_number(v.subrange(a, b)),
{
    assert forall|i: int| 0 <= i < v.subrange(a, b).len() implies #[trigger] v.subrange(a, b)[i]
        != Token::Number(i32::MIN) by {
        assert(v.subrange(a, b)[i] == v[a + i]);
    }
}

proof fn lemma_tree_no_rolls(v: Seq<Token>, out: Result<Node, Seq<char>>)
    requires
        forall|c: Seq<u32>| #[trigger] tree_of(v, c) == (out, c),
    ensures
        tree_takes(v, Seq::empty(), out),
{
    assert forall|c: Seq<u32>| #[trigger] tree_of(v, Seq::empty() + c) == (out, c) by {
        lemma_empty_prefix(c);
        assert(tree_of(v, c) == (out, c));
    }
}

proof fn lemma_split_no_rolls(v: Seq<Token>, poz: int, out: Result<Node, Seq<char>>)
    requires
        forall|c: Seq<u32>| #[trigger] split_tree(v, poz, c) == (out, c),
    ensures
        split_takes(v, poz, Seq::empty(), out),
{
    assert forall|c: Seq<u32>| #[trigger] split_tree(v, poz, Seq::empty() + c) == (out, c) by {
        lemma_empty_prefix(c);
        assert(split_tree(v, poz, c) == (out, c));
    }
}

proof fn lemma_copies_err(e: Seq<Token>, j: int, k: int, rolls: Seq<u32>, m: Seq<char>, rest: Seq<u32>)
    requires
        0 <= j <= k,
        copies(e, j, rolls) == (Err::<Seq<Node>, Seq<char>>(m), rest),
    ensures
        copies(e, k, rolls) == (Err::<Seq<Node>, Seq<char>>(m), rest),
    decreases k - j,
{
    if j < k {
        lemma_copies_err(e, j, k - 1, rolls, m, rest);
    }
}

proof fn lemma_dice_copies_err(
    e: Seq<Token>,
    hidden: bool,
    j: int,
    k: int,
    rolls: Seq<u32>,
    m: Seq<char>,
    rest: Seq<u32>,
)
    requires
        0 <= j <= k,
        dice_copies(e, hidden, j, rolls) == (Err::<(Seq<Node>, Option<i32>), Seq<char>>(m), rest),
    ensures
        dice_copies(e, hidden, k, rolls) == (Err::<(Seq<Node>, Option<i32>), Seq<char>>(m), rest),
    decreases k - j,
{
    if j < k {
        lemma_dice_copies_err(e, hidden, j, k - 1, rolls, m, rest);
    }
}

proof fn lemma_models_prepend(a: NodeSlot, s: Seq<NodeSlot>)
    ensures
        NodeSlot::models(seq![a] + s) == seq![a@] + NodeSlot::models(s),
{
    NodeSlot::lemma_models(seq![a] + s);
    NodeSlot::lemma_models(s);
    assert(NodeSlot::models(seq![a] + s) =~= seq![a@] + NodeSlot::models(s));
}

proof fn lemma_models_push(s: Seq<NodeSlot>, a: NodeSlot)
    ensures
        NodeSlot::models(s.push(a)) == NodeSlot::models(s).push(a@),
{
    assert(s.push(a).drop_last() =~= s);
}

/// One die whose number of faces is the value of `size`.
fn die_slot(hidden: bool, size: NodeSlot) -> (n: NodeSlot)
    ensures
        n@ == die_node(hidden, size@),
{
    let one = build_number(1);
    NodeSlot {
        pos: empty_pos(),
        noderesult: None,
        node: NodeType::Binary(
            BinaryNodeSlot {
                leftleaf: Box::new(one),
                rightleaf: Box::new(size),
                binode: BinaryNodeType::DiceRoll { hidden },
            },
        ),
    }
}

/// A repetition node: the count leaf first, then the repeated leaves.
fn times_slot(count: NodeSlot, rest: Vec<NodeSlot>, special: Option<i32>) -> (n: NodeSlot)
    ensures
        n@ == times_node(special, seq![count@] + NodeSlot::models(rest@)),
{
    let ghost c0 = count;
    let ghost r0 = rest@;
    let mut leaves: Vec<NodeSlot> = Vec::new();
    leaves.push(count);
    let mut rest = rest;
    leaves.append(&mut rest);
    proof {
        assert(leaves@ =~= seq![c0] + r0);
        lemma_models_prepend(c0, r0);
    }
    NodeSlot {
        pos: empty_pos(),
        noderesult: None,
        node: NodeType::Many(
            ManyNodeSlot { leaves, manynode: ManyNodeType::Times { dice_special: special } },
        ),
    }
}

/// The number of repetitions that a filled count leaf gives.
fn repetitions_of(n: &NodeSlot) -> (k: i32)
    requires
        n.noderesult is Some,
    ensures
        k == repetitions(n@),
        0 <= k,
{
    match n.noderesult {
        Some(res) => if res.value < 0 {
            0
        } else {
            res.value
        },
        None => 0,
    }
}

/// The roll tree of `vec`. The counts of repetitions are computed while
/// the tree is built, so building it already rolls the dice that those
/// counts and the repeated dice need, from `rng`. The error says why `vec`
/// is not a roll expression, or why a count has no value. The dice take
/// the next numbers of `rng`, in order.
pub fn build_tree(vec: &[Token], rng: &mut Dice) -> (r: Result<NodeSlot, String>)
    requires
        no_min_number(vec@),
    ensures
        exists|d: Seq<u32>| #[trigger] tree_takes(vec@, d, parsed(r)) && draws(old(rng)@, final(rng)@, d),
    decreases vec@.len(), 2int, 0int,
{
    let len = vec.len();
    let ghost v = vec@;
    if len == 0 {
        let r: Result<NodeSlot, String> = Err(empty_message());
        proof {
            lemma_tree_no_rolls(v, parsed(r));
            lemma_draws_none(rng@);
        }
        return r;
    }
    if len == 1 {
        let t = vec[0];
        let r: Result<NodeSlot, String> = match t {
            Token::Number(i) => Ok(build_number(i)),
            _ => Err(not_a_number_message(t)),
        };
        proof {
            lemma_tree_no_rolls(v, parsed(r));
            lemma_draws_none(rng@);
        }
        return r;
    }
    match position_of_splitter(vec) {
        None => {
            if vec[0] == Token::LeftPar {
                let inner = vstd::slice::slice_subrange(vec, 1, len - 1);
                proof {
                    lemma_no_min_sub(v, 1, len - 1);
                }
                let ghost g_r = rng@;
                let r = build_tree(inner, rng);
                proof {
                    let d = choose|d: Seq<u32>| #[trigger] tree_takes(inner@, d, parsed(r)) && draws(g_r, rng@, d);
                    assert forall|c: Seq<u32>| #[trigger] tree_of(v, d + c) == (parsed(r), c) by {
                        assert(tree_of(inner@, d + c) == (parsed(r), c));
                    }
                    assert(tree_takes(v, d, parsed(r)));
                }
                r
            } else {
                let r: Result<NodeSlot, String> = Err(not_understood_message(vec));
                proof {
                    lemma_tree_no_rolls(v, parsed(r));
                    lemma_draws_none(rng@);
                }
                r
            }
        },
        Some(poz) => {
            let ghost g_r = rng@;
            let r = build_node_from_splitter(vec, vec[poz], poz, rng);
            proof {
                let d = choose|d: Seq<u32>| #[trigger] split_takes(v, poz as int, d, parsed(r)) && draws(g_r, rng@, d);
                assert forall|c: Seq<u32>| #[trigger] tree_of(v, d + c) == (parsed(r), c) by {
                    assert(split_tree(v, poz as int, d + c) == (parsed(r), c));
                }
                assert(tree_takes(v, d, parsed(r)));
            }
            r
        },
    }
}

/// The node for the operator `splitter` found at `poz`, with the parts of
/// `vec` on its two sides parsed into its leaves.
pub fn build_node_from_splitter(vec: &[Token], splitter: Token, poz: usize, rng: &mut Dice) -> (r:
    Result<NodeSlot, String>)
    requires
        poz < vec@.len(),
        splitter == vec@[poz as int],
        no_min_number(vec@),
    ensures
        exists|d: Seq<u32>| #[trigger] split_takes(vec@, poz as int, d, parsed(r)) && draws(old(rng)@, final(rng)@, d),
    decreases vec@.len(), 1int, 0int,
{
    match splitter {
        Token::DiceRoll => build_dice(vec, poz, rng),
        Token::Times => build_times(vec, poz, rng),
        Token::Addition => build_binary(vec, poz, BinaryNodeType::Addition, rng),
        Token::Subtraction => build_binary(vec, poz, BinaryNodeType::Subtraction, rng),
        Token::Multiplication => build_binary(vec, poz, BinaryNodeType::Multiplication, rng),
        Token::Division => build_binary(vec, poz, BinaryNodeType::Division, rng),
        Token::Hit => build_binary(vec, poz, BinaryNodeType::Hit, rng),
        _ => {
            let r: Result<NodeSlot, String> = Err(not_understood_message(vec));
            proof {
                lemma_split_no_rolls(vec@, poz as int, parsed(r));
                lemma_draws_none(rng@);
            }
            r
        },
    }
}


/// An operator with the parts of `vec` before and after `poz` as leaves.
fn build_binary(vec: &[Token], poz: usize, op: BinaryNodeType, rng: &mut Dice) -> (r: Result<
    NodeSlot,
    String,
>)
    requires
        poz < vec@.len(),
        no_min_number(vec@),
        vec@[poz as int] == Token::Addition || vec@[poz as int] == Token::Subtraction || vec@[poz as int]
            == Token::Multiplication || vec@[poz as int] == Token::Division || vec@[poz as int] == Token::Hit,
        op == binary_op_of(vec@[poz as int]),
    ensures
        exists|d: Seq<u32>| #[trigger] split_takes(vec@, poz as int, d, parsed(r)) && draws(old(rng)@, final(rng)@, d),
    decreases vec@.len(), 0int, 0int,
{
    let len = vec.len();
    let ghost v = vec@;
    let ghost p = poz as int;
    let left = vstd::slice::slice_subrange(vec, 0, poz);
    let right = vstd::slice::slice_subrange(vec, poz + 1, len);
    proof {
        lemma_no_min_sub(v, 0, p);
        lemma_no_min_sub(v, p + 1, len as int);
        assert(left@ =~= v.take(p));
        assert(right@ =~= v.skip(p + 1));
    }
    let ghost g_lo = rng@;
    let lo = build_tree(left, rng);
    let ghost plo = parsed(lo);
    let ghost d1 = choose|d: Seq<u32>| #[trigger] tree_takes(left@, d, plo) && draws(g_lo, rng@, d);
    match lo {
        Err(m) => {
            let r: Result<NodeSlot, String> = Err(m);
            proof {
                assert forall|c: Seq<u32>| #[trigger] split_tree(v, p, d1 + c) == (parsed(r), c) by {
                    assert(tree_of(left@, d1 + c) == (plo, c));
                }
                assert(split_takes(v, p, d1, parsed(r)));
            }
            r
        },
        Ok(ln) => {
            let ghost lm = ln@;
            let ghost g_ro = rng@;
            let ro = build_tree(right, rng);
            let ghost pro = parsed(ro);
            let ghost d2 = choose|d: Seq<u32>| #[trigger] tree_takes(right@, d, pro) && draws(g_ro, rng@, d);
            let r: Result<NodeSlot, String> = match ro {
                Err(m) => Err(m),
                Ok(rn) => Ok(
                    NodeSlot {
                        pos: empty_pos(),
                        noderesult: None,
                        node: NodeType::Binary(
                            BinaryNodeSlot { leftleaf: Box::new(ln), rightleaf: Box::new(rn), binode: op },
                        ),
                    },
                ),
            };
            proof {
                assert forall|c: Seq<u32>| #[trigger] split_tree(v, p, (d1 + d2) + c) == (parsed(r), c) by {
                    lemma_assoc(d1, d2, c);
                    assert(tree_of(left@, d1 + (d2 + c)) == (Ok::<Node, Seq<char>>(lm), d2 + c));
                    assert(tree_of(right@, d2 + c) == (pro, c));
                }
                lemma_draws_concat(g_lo, g_ro, rng@, d1, d2);
                assert(split_takes(v, p, d1 + d2, parsed(r)));
            }
            r
        },
    }
}

/// The count leaf of a repetition: parsed, then computed.
fn count_leaf_exec(v: &[Token], rng: &mut Dice) -> (r: Result<NodeSlot, String>)
    requires
        no_min_number(v@),
    ensures
        exists|d: Seq<u32>| #[trigger] count_takes(v@, d, parsed(r)) && draws(old(rng)@, final(rng)@, d),
        r matches Ok(n) ==> n.noderesult is Some,
    decreases v@.len(), 2int, 1int,
{
    let ghost g_t = rng@;
    let t = build_tree(v, rng);
    let ghost pt = parsed(t);
    let ghost d1 = choose|d: Seq<u32>| #[trigger] tree_takes(v@, d, pt) && draws(g_t, rng@, d);
    match t {
        Err(m) => {
            let r: Result<NodeSlot, String> = Err(m);
            proof {
                assert forall|c: Seq<u32>| #[trigger] count_leaf(v@, d1 + c) == (parsed(r), c) by {
                    assert(tree_of(v@, d1 + c) == (pt, c));
                }
                assert(count_takes(v@, d1, parsed(r)));
            }
            r
        },
        Ok(nl) => {
            let mut nl = nl;
            let ghost n0 = nl@;
            let ghost g_f = rng@;
            let f = fill(&mut nl, rng);
            let ghost d2 = choose|d: Seq<u32>| #[trigger] fill_takes(n0, d, outcome(f, nl@)) && draws(g_f, rng@, d);
            let r: Result<NodeSlot, String> = match f {
                Err(e) => Err(eval_message(e)),
                Ok(()) => if nl.noderesult.is_some() {
                    Ok(nl)
                } else {
                    Err(eval_message(EvalError::Malformed))
                },
            };
            proof {
                assert forall|c: Seq<u32>| #[trigger] count_leaf(v@, (d1 + d2) + c) == (parsed(r), c) by {
                    lemma_assoc(d1, d2, c);
                    assert(tree_of(v@, d1 + (d2 + c)) == (Ok::<Node, Seq<char>>(n0), d2 + c));
                    assert(evaluated(n0, d2 + c) == (outcome(f, nl@), c));
                }
                lemma_draws_concat(g_t, g_f, rng@, d1, d2);
                assert(count_takes(v@, d1 + d2, parsed(r)));
            }
            r
        },
    }
}

/// `k` copies of the tree of `e`, each parsed anew.
fn copies_exec(e: &[Token], k: i32, rng: &mut Dice) -> (r: Result<Vec<NodeSlot>, String>)
    requires
        no_min_number(e@),
        0 <= k,
    ensures
        exists|d: Seq<u32>| #[trigger] copies_takes(e@, k as int, d, copies_out(r)) && draws(old(rng)@, final(rng)@, d),
    decreases e@.len(), 3int, 0int,
{
    let mut done: Vec<NodeSlot> = Vec::new();
    let ghost mut dacc: Seq<u32> = Seq::empty();
    let mut j: i32 = 0;
    let ghost g0 = rng@;
    proof {
        lemma_draws_none(g0);
        assert forall|c: Seq<u32>| #[trigger] copies(e@, 0, dacc + c) == (
            Ok::<Seq<Node>, Seq<char>>(NodeSlot::models(done@)),
            c,
        ) by {
            lemma_empty_prefix(c);
        }
    }
    while j < k
        invariant
            0 <= j <= k,
            no_min_number(e@),
            copies_takes(e@, j as int, dacc, Ok(NodeSlot::models(done@))),
            g0 == old(rng)@,
            draws(g0, rng@, dacc),
        decreases k - j,
    {
        let ghost done0 = done@;
        let ghost g_t = rng@;
        let t = build_tree(e, rng);
        let ghost pt = parsed(t);
        let ghost d = choose|d: Seq<u32>| #[trigger] tree_takes(e@, d, pt) && draws(g_t, rng@, d);
        match t {
            Err(m) => {
                let r: Result<Vec<NodeSlot>, String> = Err(m);
                proof {
                    assert forall|c: Seq<u32>| #[trigger] copies(e@, k as int, (dacc + d) + c) == (
                        copies_out(r),
                        c,
                    ) by {
                        lemma_assoc(dacc, d, c);
                        assert(copies(e@, j as int, dacc + (d + c)) == (
                            Ok::<Seq<Node>, Seq<char>>(NodeSlot::models(done0)),
                            d + c,
                        ));
                        assert(tree_of(e@, d + c) == (pt, c));
                        lemma_copies_err(e@, j + 1, k as int, (dacc + d) + c, m@, c);
                    }
                    assert(copies_takes(e@, k as int, dacc + d, copies_out(r)));
                    lemma_draws_concat(g0, g_t, rng@, dacc, d);
                }
                return r;
            },
            Ok(n) => {
                let ghost nm = n@;
                done.push(n);
                proof {
                    lemma_models_push(done0, n);
                    assert forall|c: Seq<u32>| #[trigger] copies(e@, j + 1, (dacc + d) + c) == (
                        Ok::<Seq<Node>, Seq<char>>(NodeSlot::models(done@)),
                        c,
                    ) by {
                        lemma_assoc(dacc, d, c);
                        assert(copies(e@, j as int, dacc + (d + c)) == (
                            Ok::<Seq<Node>, Seq<char>>(NodeSlot::models(done0)),
                            d + c,
                        ));
                        assert(tree_of(e@, d + c) == (pt, c));
                    }
                    lemma_draws_concat(g0, g_t, rng@, dacc, d);
                    dacc = dacc + d;
                }
            },
        }
        j = j + 1;
    }
    let r: Result<Vec<NodeSlot>, String> = Ok(done);
    proof {
        assert(copies_takes(e@, k as int, dacc, copies_out(r)));
    }
    r
}


/// `k` single dice whose size is the tree of `e`, each parsed anew and
/// rolled; with the size of the second one when the dice are `hidden`.
fn dice_copies_exec(e: &[Token], hidden: bool, k: i32, rng: &mut Dice) -> (r: Result<
    (Vec<NodeSlot>, Option<i32>),
    String,
>)
    requires
        no_min_number(e@),
        0 <= k,
    ensures
        exists|d: Seq<u32>| #[trigger] dice_copies_takes(e@, hidden, k as int, d, dice_out(r)) && draws(old(rng)@, final(rng)@, d),
    decreases e@.len(), 3int, 0int,
{
    let mut done: Vec<NodeSlot> = Vec::new();
    let mut single: Option<i32> = None;
    let ghost mut dacc: Seq<u32> = Seq::empty();
    let mut j: i32 = 0;
    let ghost g0 = rng@;
    proof {
        lemma_draws_none(g0);
        assert forall|c: Seq<u32>| #[trigger] dice_copies(e@, hidden, 0, dacc + c) == (
            Ok::<(Seq<Node>, Option<i32>), Seq<char>>((NodeSlot::models(done@), single)),
            c,
        ) by {
            lemma_empty_prefix(c);
        }
    }
    while j < k
        invariant
            0 <= j <= k,
            no_min_number(e@),
            dice_copies_takes(e@, hidden, j as int, dacc, Ok((NodeSlot::models(done@), single))),
            g0 == old(rng)@,
            draws(g0, rng@, dacc),
        decreases k - j,
    {
        let ghost done0 = done@;
        let ghost single0 = single;
        let ghost g_t = rng@;
        let t = build_tree(e, rng);
        let ghost pt = parsed(t);
        let ghost d = choose|d: Seq<u32>| #[trigger] tree_takes(e@, d, pt) && draws(g_t, rng@, d);
        proof {
            assert forall|c: Seq<u32>| #[trigger] dice_copies(e@, hidden, j as int, dacc + (d + c)) == (
                Ok::<(Seq<Node>, Option<i32>), Seq<char>>((NodeSlot::models(done0), single0)),
                d + c,
            ) by {}
        }
        match t {
            Err(m) => {
                let r: Result<(Vec<NodeSlot>, Option<i32>), String> = Err(m);
                proof {
                    assert forall|c: Seq<u32>| #[trigger] dice_copies(e@, hidden, k as int, (dacc + d) + c)
                        == (dice_out(r), c) by {
                        lemma_assoc(dacc, d, c);
                        assert(dice_copies(e@, hidden, j as int, dacc + (d + c)) == (
                            Ok::<(Seq<Node>, Option<i32>), Seq<char>>((NodeSlot::models(done0), single0)),
                            d + c,
                        ));
                        assert(tree_of(e@, d + c) == (pt, c));
                        lemma_dice_copies_err(e@, hidden, j + 1, k as int, (dacc + d) + c, m@, c);
                    }
                    assert(dice_copies_takes(e@, hidden, k as int, dacc + d, dice_out(r)));
                    lemma_draws_concat(g0, g_t, rng@, dacc, d);
                }
                return r;
            },
            Ok(size) => {
                let ghost sm = size@;
                if j == 1 && hidden {
                    match size.noderesult {
                        Some(sr) => {
                            single = Some(sr.value);
                        },
                        None => {
                            let r: Result<(Vec<NodeSlot>, Option<i32>), String> = Err(
                                eval_message(EvalError::Malformed),
                            );
                            proof {
                                assert forall|c: Seq<u32>| #[trigger] dice_copies(
                                    e@,
                                    hidden,
                                    k as int,
                                    (dacc + d) + c,
                                ) == (dice_out(r), c) by {
                                    lemma_assoc(dacc, d, c);
                                    assert(dice_copies(e@, hidden, j as int, dacc + (d + c)) == (
                                        Ok::<(Seq<Node>, Option<i32>), Seq<char>>(
                                            (NodeSlot::models(done0), single0),
                                        ),
                                        d + c,
                                    ));
                                    assert(tree_of(e@, d + c) == (pt, c));
                                    lemma_dice_copies_err(
                                        e@,
                                        hidden,
                                        j + 1,
                                        k as int,
                                        (dacc + d) + c,
                                        msg_eval(EvalError::Malformed),
                                        c,
                                    );
                                }
                                assert(dice_copies_takes(e@, hidden, k as int, dacc + d, dice_out(r)));
                    lemma_draws_concat(g0, g_t, rng@, dacc, d);
                            }
                            return r;
                        },
                    }
                }
                let mut die = die_slot(hidden, size);
                let ghost die0 = die@;
                let ghost g_f = rng@;
                let f = fill(&mut die, rng);
                let ghost d2 = choose|x: Seq<u32>| #[trigger] fill_takes(die0, x, outcome(f, die@)) && draws(g_f, rng@, x);
                match f {
                    Err(ev) => {
                        let r: Result<(Vec<NodeSlot>, Option<i32>), String> = Err(eval_message(ev));
                        proof {
                            assert forall|c: Seq<u32>| #[trigger] dice_copies(
                                e@,
                                hidden,
                                k as int,
                                ((dacc + d) + d2) + c,
                            ) == (dice_out(r), c) by {
                                lemma_assoc(dacc, d, d2);
                                lemma_assoc(dacc + d, d2, c);
                                lemma_assoc(dacc, d, d2 + c);
                                assert(dice_copies(e@, hidden, j as int, dacc + (d + (d2 + c))) == (
                                    Ok::<(Seq<Node>, Option<i32>), Seq<char>>(
                                        (NodeSlot::models(done0), single0),
                                    ),
                                    d + (d2 + c),
                                ));
                                assert(tree_of(e@, d + (d2 + c)) == (pt, d2 + c));
                                assert(evaluated(die0, d2 + c) == (outcome(f, die@), c));
                                lemma_dice_copies_err(
                                    e@,
                                    hidden,
                                    j + 1,
                                    k as int,
                                    ((dacc + d) + d2) + c,
                                    msg_eval(ev),
                                    c,
                                );
                            }
                            assert(dice_copies_takes(e@, hidden, k as int, (dacc + d) + d2, dice_out(r)));
                            lemma_draws_concat(g0, g_t, g_f, dacc, d);
                            lemma_draws_concat(g0, g_f, rng@, dacc + d, d2);
                        }
                        return r;
                    },
                    Ok(()) => {
                        let ghost dm = die@;
                        done.push(die);
                        proof {
                            lemma_models_push(done0, die);
                            assert forall|c: Seq<u32>| #[trigger] dice_copies(
                                e@,
                                hidden,
                                j + 1,
                                ((dacc + d) + d2) + c,
                            ) == (
                                Ok::<(Seq<Node>, Option<i32>), Seq<char>>(
                                    (NodeSlot::models(done@), single),
                                ),
                                c,
                            ) by {
                                lemma_assoc(dacc, d, d2);
                                lemma_assoc(dacc + d, d2, c);
                                lemma_assoc(dacc, d, d2 + c);
                                assert(dice_copies(e@, hidden, j as int, dacc + (d + (d2 + c))) == (
                                    Ok::<(Seq<Node>, Option<i32>), Seq<char>>(
                                        (NodeSlot::models(done0), single0),
                                    ),
                                    d + (d2 + c),
                                ));
                                assert(tree_of(e@, d + (d2 + c)) == (pt, d2 + c));
                                assert(evaluated(die0, d2 + c) == (outcome(f, dm), c));
                            }
                            lemma_draws_concat(g0, g_t, g_f, dacc, d);
                            lemma_draws_concat(g0, g_f, rng@, dacc + d, d2);
                            dacc = (dacc + d) + d2;
                        }
                    },
                }
            },
        }
        j = j + 1;
    }
    let r: Result<(Vec<NodeSlot>, Option<i32>), String> = Ok((done, single));
    proof {
        assert(dice_copies_takes(e@, hidden, k as int, dacc, dice_out(r)));
    }
    r
}

/// A die roll at `poz`: one die for `dX` and `1dX`, else a repetition of
/// single dice whose count is the part before `poz`.
fn build_dice(vec: &[Token], poz: usize, rng: &mut Dice) -> (r: Result<NodeSlot, String>)
    requires
        poz < vec@.len(),
        no_min_number(vec@),
        vec@[poz as int] == Token::DiceRoll,
    ensures
        exists|d: Seq<u32>| #[trigger] split_takes(vec@, poz as int, d, parsed(r)) && draws(old(rng)@, final(rng)@, d),
    decreases vec@.len(), 0int, 0int,
{
    let len = vec.len();
    let ghost v = vec@;
    let ghost p = poz as int;
    let left = vstd::slice::slice_subrange(vec, 0, poz);
    let right = vstd::slice::slice_subrange(vec, poz + 1, len);
    proof {
        lemma_no_min_sub(v, 0, p);
        lemma_no_min_sub(v, p + 1, len as int);
        assert(left@ =~= v.take(p));
        assert(right@ =~= v.skip(p + 1));
    }
    if (poz == 0 || poz == 1) && (vec[0] == Token::Number(1) || vec[0] == Token::DiceRoll) {
        let ghost g_ro = rng@;
        let ro = build_tree(right, rng);
        let ghost pro = parsed(ro);
        let ghost d = choose|d: Seq<u32>| #[trigger] tree_takes(right@, d, pro) && draws(g_ro, rng@, d);
        let r: Result<NodeSlot, String> = match ro {
            Err(m) => Err(m),
            Ok(rn) => Ok(die_slot(false, rn)),
        };
        proof {
            assert forall|c: Seq<u32>| #[trigger] split_tree(v, p, d + c) == (parsed(r), c) by {
                assert(tree_of(right@, d + c) == (pro, c));
            }
            assert(split_takes(v, p, d, parsed(r)));
        }
        r
    } else {
        let ghost g_co = rng@;
        let co = count_leaf_exec(left, rng);
        let ghost pco = parsed(co);
        let ghost d1 = choose|d: Seq<u32>| #[trigger] count_takes(left@, d, pco) && draws(g_co, rng@, d);
        match co {
            Err(m) => {
                let r: Result<NodeSlot, String> = Err(m);
                proof {
                    assert forall|c: Seq<u32>| #[trigger] split_tree(v, p, d1 + c) == (parsed(r), c) by {
                        assert(count_leaf(left@, d1 + c) == (pco, c));
                    }
                    assert(split_takes(v, p, d1, parsed(r)));
                }
                r
            },
            Ok(nf) => {
                let ghost nm = nf@;
                let n_times = repetitions_of(&nf);
                let hidden = right.len() == 1;
                let ghost g_dc = rng@;
                let dc = dice_copies_exec(right, hidden, n_times, rng);
                let ghost pdc = dice_out(dc);
                let ghost d2 = choose|d: Seq<u32>| #[trigger] dice_copies_takes(
                    right@,
                    hidden,
                    n_times as int,
                    d,
                    pdc,
                ) && draws(g_dc, rng@, d);
                let r: Result<NodeSlot, String> = match dc {
                    Err(m) => Err(m),
                    Ok((dice, single)) => Ok(times_slot(nf, dice, single)),
                };
                proof {
                    assert forall|c: Seq<u32>| #[trigger] split_tree(v, p, (d1 + d2) + c) == (parsed(r), c) by {
                        lemma_assoc(d1, d2, c);
                        assert(count_leaf(left@, d1 + (d2 + c)) == (Ok::<Node, Seq<char>>(nm), d2 + c));
                        assert(dice_copies(right@, hidden, n_times as int, d2 + c) == (pdc, c));
                    }
                    lemma_draws_concat(g_co, g_dc, rng@, d1, d2);
                    assert(split_takes(v, p, d1 + d2, parsed(r)));
                }
                r
            },
        }
    }
}

/// A repetition at `poz`: copies of one side, counted by the other.
fn build_times(vec: &[Token], poz: usize, rng: &mut Dice) -> (r: Result<NodeSlot, String>)
    requires
        poz < vec@.len(),
        no_min_number(vec@),
        vec@[poz as int] == Token::Times,
    ensures
        exists|d: Seq<u32>| #[trigger] split_takes(vec@, poz as int, d, parsed(r)) && draws(old(rng)@, final(rng)@, d),
    decreases vec@.len(), 0int, 0int,
{
    let len = vec.len();
    let ghost v = vec@;
    let ghost p = poz as int;
    let left = vstd::slice::slice_subrange(vec, 0, poz);
    let right = vstd::slice::slice_subrange(vec, poz + 1, len);
    proof {
        lemma_no_min_sub(v, 0, p);
        lemma_no_min_sub(v, p + 1, len as int);
        assert(left@ =~= v.take(p));
        assert(right@ =~= v.skip(p + 1));
    }
    let right_is_number = right.len() == 1 && match right[0] {
        Token::Number(_) => true,
        _ => false,
    };
    if right.len() == 1 && left.len() != 1 && !right_is_number {
        let r: Result<NodeSlot, String> = Err(bad_repetition_message());
        proof {
            lemma_split_no_rolls(v, p, parsed(r));
            lemma_draws_none(rng@);
        }
        return r;
    }
    let swap = right.len() == 1 && left.len() != 1;
    let count_str = if swap {
        right
    } else {
        left
    };
    let expr = if swap {
        left
    } else {
        right
    };
    let ghost g_co = rng@;
    let co = count_leaf_exec(count_str, rng);
    let ghost pco = parsed(co);
    let ghost d1 = choose|d: Seq<u32>| #[trigger] count_takes(count_str@, d, pco) && draws(g_co, rng@, d);
    match co {
        Err(m) => {
            let r: Result<NodeSlot, String> = Err(m);
            proof {
                assert forall|c: Seq<u32>| #[trigger] split_tree(v, p, d1 + c) == (parsed(r), c) by {
                    assert(count_leaf(count_str@, d1 + c) == (pco, c));
                }
                assert(split_takes(v, p, d1, parsed(r)));
            }
            r
        },
        Ok(nf) => {
            let ghost nm = nf@;
            let n_times = repetitions_of(&nf);
            let ghost g_cs = rng@;
            let cs = copies_exec(expr, n_times, rng);
            let ghost pcs = copies_out(cs);
            let ghost d2 = choose|d: Seq<u32>| #[trigger] copies_takes(expr@, n_times as int, d, pcs) && draws(g_cs, rng@, d);
            let r: Result<NodeSlot, String> = match cs {
                Err(m) => Err(m),
                Ok(done) => Ok(times_slot(nf, done, None)),
            };
            proof {
                assert forall|c: Seq<u32>| #[trigger] split_tree(v, p, (d1 + d2) + c) == (parsed(r), c) by {
                    lemma_assoc(d1, d2, c);
                    assert(count_leaf(count_str@, d1 + (d2 + c)) == (Ok::<Node, Seq<char>>(nm), d2 + c));
                    assert(copies(expr@, n_times as int, d2 + c) == (pcs, c));
                }
                lemma_draws_concat(g_co, g_cs, rng@, d1, d2);
                assert(split_takes(v, p, d1 + d2, parsed(r)));
            }
            r
        },
    }
}

} // verus!
