//! What layout gives every node of a tree that parsing built: all its
//! widths and its height, a tip no wider than its base, and a place
//! relative to its root.
use vstd::prelude::*;
use crate::tree::{Node, NodeKind, NodePositionInfo, Token, empty_pos_spec};
use crate::eval::{evaluated, binary_value, filled_leaf, filled_sum};
use crate::builder::no_min_number;
use crate::parse::{
    tree_of, split_tree, count_leaf, copies, dice_copies, die_node, number_node, times_node,
    find_splitter, repetitions,
};
use crate::parse::number_pos;
use crate::layout::{
    layout, prepared, prepared_all, lemma_prepared_all, layout_binary, layout_many, complete,
    spacing, at, tw, te, be, hh, half, imin,
};
use crate::draw::placed;
use crate::digits::{number_w_spec, lemma_ndigits_bound};

verus! {

/// A tree as parsing builds it, before layout: number leaves carry the
/// layout data they are built with, every other node carries none; a
/// repetition has at most `i32::MAX` repeated leaves.
pub open spec fn fresh(n: Node) -> bool
    decreases n, 1int,
{
    match n.kind {
        NodeKind::Number(v) => n.pos == number_pos(v) && v != i32::MIN,
        NodeKind::Binary(_, l, r) => n.pos == empty_pos_spec() && fresh(*l) && fresh(*r),
        NodeKind::Many(_, s) => n.pos == empty_pos_spec() && s.len() <= 0x8000_0000 && fresh_all(s),
    }
}

pub open spec fn fresh_all(s: Seq<Node>) -> bool
    decreases s, 2int,
{
    if s.len() == 0 {
        true
    } else {
        fresh_all(s.drop_last()) && fresh(s.last())
    }
}

/// All the widths and the height are there, the height is at least 1,
/// and each tip is no wider than its base.
pub open spec fn widths_ok(p: NodePositionInfo) -> bool {
    &&& complete(p)
    &&& p.branch_type is Some
    &&& p.h.unwrap() >= 1
    &&& 0 <= p.tipwidth_going_west.unwrap() <= p.basewidth_going_west.unwrap()
    &&& 0 <= p.tipwidth_going_east.unwrap() <= p.basewidth_going_east.unwrap()
}

/// Every node has its widths, and every node under the root its place.
pub open spec fn laid_out(n: Node) -> bool
    decreases n, 1int,
{
    widths_ok(n.pos) && match n.kind {
        NodeKind::Number(_) => true,
        NodeKind::Binary(_, l, r) => placed(*l) && placed(*r) && laid_out(*l) && laid_out(*r),
        NodeKind::Many(_, s) => laid_out_all(s),
    }
}

pub open spec fn laid_out_all(s: Seq<Node>) -> bool
    decreases s, 2int,
{
    if s.len() == 0 {
        true
    } else {
        laid_out_all(s.drop_last()) && placed(s.last()) && laid_out(s.last())
    }
}

proof fn lemma_fresh_all(s: Seq<Node>)
    ensures
        fresh_all(s) == (forall|i: int| 0 <= i < s.len() ==> #[trigger] fresh(s[i])),
    decreases s.len(),
{
    if s.len() > 0 {
        lemma_fresh_all(s.drop_last());
        assert forall|i: int| 0 <= i < s.len() - 1 implies s.drop_last()[i] == s[i] by {}
        if !fresh_all(s) && fresh_all(s.drop_last()) {
            assert(!fresh(s[s.len() - 1]));
        }
    }
}

proof fn lemma_laid_out_all(s: Seq<Node>)
    ensures
        laid_out_all(s) == (forall|i: int| 0 <= i < s.len() ==> placed(#[trigger] s[i]) && laid_out(s[i])),
    decreases s.len(),
{
    if s.len() > 0 {
        lemma_laid_out_all(s.drop_last());
        assert forall|i: int| 0 <= i < s.len() - 1 implies s.drop_last()[i] == s[i] by {}
        if !laid_out_all(s) && laid_out_all(s.drop_last()) {
            assert(!(placed(s[s.len() - 1]) && laid_out(s[s.len() - 1])));
        }
    }
}

proof fn lemma_at_laid_out(c: Node, x: int, y: int)
    requires
        laid_out(c),
    ensures
        laid_out(at(c, x, y)),
        placed(at(c, x, y)),
{
}

proof fn lemma_number_laid_out(n: Node)
    requires
        fresh(n),
        n.kind is Number,
    ensures
        laid_out(n),
{
    if let NodeKind::Number(v) = n.kind {
        let a: int = if v < 0 {
            -v
        } else {
            v as int
        };
        lemma_ndigits_bound(a as nat);
        assert(1 <= number_w_spec(v as int) <= 6);
    }
}

/// A leaf made ready to be placed is laid out.
proof fn lemma_prepared_laid_out(c: Node)
    requires
        fresh(c),
        prepared(c) is Some,
    ensures
        laid_out(prepared(c).unwrap()),
    decreases c, 2int,
{
    if c.pos.h is None {
        lemma_layout_laid_out(c);
    } else {
        lemma_number_laid_out(c);
    }
}

/// Laying out a tree that parsing built lays out all of it.
pub proof fn lemma_layout_laid_out(n: Node)
    requires
        fresh(n),
        layout(n) is Some,
    ensures
        laid_out(layout(n).unwrap()),
    decreases n, 1int,
{
    match n.kind {
        NodeKind::Number(_) => {
            lemma_number_laid_out(n);
        },
        NodeKind::Binary(op, l, r) => {
            lemma_prepared_laid_out(*l);
            lemma_prepared_laid_out(*r);
            let l1 = prepared(*l).unwrap();
            let r1 = prepared(*r).unwrap();
            lemma_binary_laid_out(n, op, l1, r1);
        },
        NodeKind::Many(m, s) => {
            lemma_fresh_all(s);
            lemma_prepared_all(s);
            let s1 = prepared_all(s).unwrap();
            assert forall|i: int| 0 <= i < s1.len() implies #[trigger] laid_out(s1[i]) by {
                assert(prepared(s[i]) == Some(s1[i]));
                lemma_prepared_laid_out(s[i]);
            }
            lemma_many_laid_out(n, m, s1);
        },
    }
}

proof fn lemma_binary_laid_out(n: Node, op: crate::tree::BinaryNodeType, l: Node, r: Node)
    requires
        laid_out(l),
        laid_out(r),
        layout_binary(n, op, l, r) is Some,
    ensures
        laid_out(layout_binary(n, op, l, r).unwrap()),
{
    if op == (crate::tree::BinaryNodeType::DiceRoll { hidden: true }) {
        lemma_at_laid_out(l, 2, 2);
        lemma_at_laid_out(r, 2, 2);
    } else if te(l) == 0 && tw(r) == 0 && (hh(l) == 1 || hh(r) == 1) {
        lemma_at_laid_out(l, -2, -2);
        lemma_at_laid_out(r, 2, -2);
    } else if te(l) == 0 && tw(r) == 0 && (hh(l) == 3 || hh(r) == 3) {
        lemma_at_laid_out(l, -3, -3);
        lemma_at_laid_out(r, 3, -3);
    } else {
        let tl = if te(l) < 1 {
            1
        } else {
            te(l)
        };
        let tr = if tw(r) < 1 {
            1
        } else {
            tw(r)
        };
        let d = spacing(tl, tr, imin(hh(l), hh(r))).unwrap();
        assert(d >= 5);
        assert(half(d) >= 2);
        assert(half(-d) == -half(d));
        lemma_at_laid_out(l, half(-d), -4);
        lemma_at_laid_out(r, half(d), -4);
    }
}

proof fn lemma_many_laid_out(n: Node, m: crate::tree::ManyNodeType, s: Seq<Node>)
    requires
        forall|i: int| 0 <= i < s.len() ==> #[trigger] laid_out(s[i]),
        s.len() <= 0x8000_0000,
        layout_many(n, m, s) is Some,
    ensures
        laid_out(layout_many(n, m, s).unwrap()),
{
    let t = layout_many(n, m, s).unwrap();
    assert(laid_out(s[0]));
    if s.len() >= 2 {
        assert(laid_out(s[1]));
    }
    if s.len() >= 3 {
        assert(laid_out(s[2]));
    }
    if let NodeKind::Many(_, u) = t.kind {
        if s.len() == 1 {
            lemma_at_laid_out(s[0], 0, -3);
            assert(u =~= seq![at(s[0], 0, -3)]);
            assert(widths_ok(t.pos));
        } else if s.len() == 2 {
            let d = spacing(tw(s[0]), te(s[1]), imin(hh(s[0]), hh(s[1]))).unwrap();
            lemma_at_laid_out(s[0], -d, -2);
            lemma_at_laid_out(s[1], 0, -2);
            assert(widths_ok(t.pos));
        } else if s.len() == 3 && (hh(s[1]) == 1 || hh(s[2]) == 1) {
            assert(widths_ok(t.pos));
        } else {
            let l1 = s[1];
            let cnt = (s.len() - 1) as int;
            let ni = cnt as i32 as int;
            assert(ni == cnt);
            let d1 = spacing(te(l1), tw(s[2]), imin(hh(l1), hh(s[2]))).unwrap();
            assert(d1 >= 1);
            let e = d1 * ni + (ni - 1) - (d1 - 1);
            assert(e >= 0) by (nonlinear_arith)
                requires
                    d1 >= 1,
                    ni >= 2,
                    e == d1 * ni + (ni - 1) - (d1 - 1),
            ;
            assert(half(e) >= 0);
            let d2 = spacing(te(s[0]), tw(l1), imin(hh(s[0]), hh(l1))).unwrap();
            assert(d2 >= 1);
            assert(widths_ok(t.pos));
        }
        lemma_laid_out_all(u);
        assert forall|i: int| 0 <= i < u.len() implies placed(#[trigger] u[i]) && laid_out(u[i]) by {
            if s.len() >= 3 && !(s.len() == 3 && (hh(s[1]) == 1 || hh(s[2]) == 1)) {
                lemma_at_laid_out(s[i], u[i].pos.x.unwrap() as int, -4);
            } else if s.len() == 3 {
                if i == 0 {
                    lemma_at_laid_out(s[0], u[0].pos.x.unwrap() as int, -2);
                } else if i == 1 {
                    lemma_at_laid_out(s[1], -2, -2);
                } else {
                    lemma_at_laid_out(s[2], 2, -2);
                }
            }
        }
    }
}


proof fn lemma_evaluated_fresh(n: Node, r: Seq<u32>)
    requires
        fresh(n),
    ensures
        evaluated(n, r).0 matches Ok(m) ==> fresh(m),
    decreases n, 1int,
{
    match n.kind {
        NodeKind::Number(_) => {},
        NodeKind::Binary(op, l, rt) => {
            lemma_binary_value_fresh(n, r);
        },
        NodeKind::Many(m, sq) => {
            if sq.len() > 0 {
                lemma_fresh_all(sq);
                assert forall|i: int| 0 <= i < sq.skip(1).len() implies #[trigger] fresh(sq.skip(1)[i]) by {
                    assert(sq.skip(1)[i] == sq[i + 1]);
                }
                lemma_fresh_all(sq.skip(1));
                lemma_filled_sum_fresh(sq.skip(1), r);
                if let Ok((done, sum)) = filled_sum(sq.skip(1), r).0 {
                    let t = seq![sq[0]] + done;
                    lemma_fresh_all(done);
                    assert forall|i: int| 0 <= i < t.len() implies #[trigger] fresh(t[i]) by {
                        if i > 0 {
                            assert(t[i] == done[i - 1]);
                        }
                    }
                    lemma_fresh_all(t);
                }
            }
        },
    }
}

proof fn lemma_filled_leaf_fresh(c: Node, r: Seq<u32>)
    requires
        fresh(c),
    ensures
        filled_leaf(c, r).0 matches Ok(m) ==> fresh(m),
    decreases c, 2int,
{
    if c.res is None {
        lemma_evaluated_fresh(c, r);
    }
}

proof fn lemma_binary_value_fresh(n: Node, r: Seq<u32>)
    requires
        fresh(n),
    ensures
        binary_value(n, r).0 matches Ok((_d, l1, r1)) ==> fresh(l1) && fresh(r1),
    decreases n, 0int,
{
    if let NodeKind::Binary(op, l, rt) = n.kind {
        lemma_filled_leaf_fresh(*l, r);
        let r1 = filled_leaf(*l, r).1;
        lemma_filled_leaf_fresh(*rt, r1);
    }
}

proof fn lemma_filled_sum_fresh(sq: Seq<Node>, r: Seq<u32>)
    requires
        fresh_all(sq),
    ensures
        filled_sum(sq, r).0 matches Ok((done, _sum)) ==> fresh_all(done) && done.len() == sq.len(),
    decreases sq, 3int,
{
    if sq.len() > 0 {
        lemma_filled_sum_fresh(sq.drop_last(), r);
        let r1 = filled_sum(sq.drop_last(), r).1;
        lemma_filled_leaf_fresh(sq.last(), r1);
        if let Ok((done, sum)) = filled_sum(sq.drop_last(), r).0 {
            if let Ok(c1) = filled_leaf(sq.last(), r1).0 {
                assert(done.push(c1).drop_last() =~= done);
            }
        }
    }
}

proof fn lemma_tokens_sub(v: Seq<Token>, a: int, b: int)
    requires
        no_min_number(v),
        0 <= a <= b <= v.len(),
    ensures
        no_min_number(v.subrange(a, b)),
{
    assert forall|i: int| 0 <= i < v.subrange(a, b).len() implies #[trigger] v.subrange(a, b)[i]
        != Token::Number(i32::MIN) by {
        assert(v.subrange(a, b)[i] == v[a + i]);
    }
}

proof fn lemma_tree_of_fresh(v: Seq<Token>, r: Seq<u32>)
    requires
        no_min_number(v),
    ensures
        tree_of(v, r).0 matches Ok(n) ==> fresh(n),
    decreases v.len(), 2int, 0int,
{
    if v.len() == 1 {
        if let Token::Number(i) = v[0] {
            assert(v[0] != Token::Number(i32::MIN));
        }
    } else if v.len() >= 2 {
        match find_splitter(v) {
            None => {
                if v[0] == Token::LeftPar {
                    lemma_tokens_sub(v, 1, v.len() - 1);
                    lemma_tree_of_fresh(v.subrange(1, v.len() - 1), r);
                }
            },
            Some(poz) => {
                lemma_split_fresh(v, poz, r);
            },
        }
    }
}

proof fn lemma_count_fresh(v: Seq<Token>, r: Seq<u32>)
    requires
        no_min_number(v),
    ensures
        count_leaf(v, r).0 matches Ok(n) ==> fresh(n),
    decreases v.len(), 2int, 1int,
{
    lemma_tree_of_fresh(v, r);
    if let Ok(nl) = tree_of(v, r).0 {
        lemma_evaluated_fresh(nl, tree_of(v, r).1);
    }
}

proof fn lemma_copies_fresh(e: Seq<Token>, k: int, r: Seq<u32>)
    requires
        no_min_number(e),
        k >= 0,
    ensures
        copies(e, k, r).0 matches Ok(done) ==> fresh_all(done) && done.len() == k,
    decreases e.len(), 3int, k,
{
    if k > 0 {
        lemma_copies_fresh(e, k - 1, r);
        let r1 = copies(e, k - 1, r).1;
        lemma_tree_of_fresh(e, r1);
        if let Ok(done) = copies(e, k - 1, r).0 {
            if let Ok(n) = tree_of(e, r1).0 {
                assert(done.push(n).drop_last() =~= done);
            }
        }
    }
}

proof fn lemma_dice_copies_fresh(e: Seq<Token>, hidden: bool, k: int, r: Seq<u32>)
    requires
        no_min_number(e),
        k >= 0,
    ensures
        dice_copies(e, hidden, k, r).0 matches Ok((done, _s)) ==> fresh_all(done) && done.len() == k,
    decreases e.len(), 3int, k,
{
    if k > 0 {
        lemma_dice_copies_fresh(e, hidden, k - 1, r);
        let r1 = dice_copies(e, hidden, k - 1, r).1;
        lemma_tree_of_fresh(e, r1);
        if let Ok((done, single)) = dice_copies(e, hidden, k - 1, r).0 {
            let r2 = tree_of(e, r1).1;
            if let Ok(size) = tree_of(e, r1).0 {
                let die = die_node(hidden, size);
                assert(fresh(number_node(1)));
                assert(fresh(die));
                lemma_evaluated_fresh(die, r2);
                if let Ok(dd) = evaluated(die, r2).0 {
                    assert(done.push(dd).drop_last() =~= done);
                }
            }
        }
    }
}

proof fn lemma_times_fresh(nf: Node, done: Seq<Node>, single: Option<i32>)
    requires
        fresh(nf),
        fresh_all(done),
        done.len() <= i32::MAX,
    ensures
        fresh(times_node(single, seq![nf] + done)),
{
    let t = seq![nf] + done;
    lemma_fresh_all(done);
    assert forall|i: int| 0 <= i < t.len() implies #[trigger] fresh(t[i]) by {
        if i > 0 {
            assert(t[i] == done[i - 1]);
        }
    }
    lemma_fresh_all(t);
}

proof fn lemma_split_fresh(v: Seq<Token>, poz: int, r: Seq<u32>)
    requires
        no_min_number(v),
    ensures
        split_tree(v, poz, r).0 matches Ok(n) ==> fresh(n),
    decreases v.len(), 1int, 0int,
{
    if 0 <= poz < v.len() {
        let left = v.take(poz);
        let right = v.skip(poz + 1);
        lemma_tokens_sub(v, 0, poz);
        lemma_tokens_sub(v, poz + 1, v.len() as int);
        if v[poz] == Token::DiceRoll {
            if (poz == 0 || poz == 1) && (v[0] == Token::Number(1) || v[0] == Token::DiceRoll) {
                lemma_tree_of_fresh(right, r);
                assert(fresh(number_node(1)));
            } else {
                lemma_count_fresh(left, r);
                if let Ok(nf) = count_leaf(left, r).0 {
                    let r1 = count_leaf(left, r).1;
                    let k = repetitions(nf);
                    assert(k <= i32::MAX);
                    lemma_dice_copies_fresh(right, right.len() == 1, k, r1);
                    if let Ok((dice, single)) = dice_copies(right, right.len() == 1, k, r1).0 {
                        lemma_times_fresh(nf, dice, single);
                    }
                }
            }
        } else if v[poz] == Token::Times {
            if !(right.len() == 1 && left.len() != 1 && !(right[0] is Number)) {
                let swap = right.len() == 1 && left.len() != 1;
                let count_str = if swap {
                    right
                } else {
                    left
                };
                let expr = if swap {
                    left
                } else {
                    right
                };
                lemma_count_fresh(count_str, r);
                if let Ok(nf) = count_leaf(count_str, r).0 {
                    let r1 = count_leaf(count_str, r).1;
                    let k = repetitions(nf);
                    lemma_copies_fresh(expr, k, r1);
                    if let Ok(done) = copies(expr, k, r1).0 {
                        lemma_times_fresh(nf, done, None);
                    }
                }
            }
        } else {
            lemma_tree_of_fresh(left, r);
            lemma_tree_of_fresh(right, tree_of(left, r).1);
        }
    }
}

/// Every tree that parsing builds is fresh, stays fresh when its values are
/// computed, and, where it can be laid out, is laid out in full: every node
/// has its widths and a height of at least 1, no tip is wider than its
/// base, and every node under the root has its place.
pub proof fn parsed_trees_lay_out(v: Seq<Token>, rolls: Seq<u32>, more: Seq<u32>)
    requires
        no_min_number(v),
    ensures
        tree_of(v, rolls).0 matches Ok(n) ==> {
            &&& fresh(n)
            &&& layout(n) is Some ==> laid_out(layout(n).unwrap())
            &&& evaluated(n, more).0 matches Ok(n2) ==> fresh(n2) && (layout(n2) is Some ==> laid_out(
                layout(n2).unwrap(),
            ))
        },
{
    lemma_tree_of_fresh(v, rolls);
    if let Ok(n) = tree_of(v, rolls).0 {
        if layout(n) is Some {
            lemma_layout_laid_out(n);
        }
        lemma_evaluated_fresh(n, more);
        if let Ok(n2) = evaluated(n, more).0 {
            if layout(n2) is Some {
                lemma_layout_laid_out(n2);
            }
        }
    }
}

} // verus!
