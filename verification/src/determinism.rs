//! A roll without dice takes no random number: its tree and its value do
//! not depend on the generator.
use vstd::prelude::*;
use crate::tree::{Node, NodeKind, Token, BinaryNodeType};
use crate::eval::{evaluated, binary_value, filled_leaf, filled_sum, combine};
use crate::api::{roll, roll_text, text_takes};
use crate::rng::draws;
use crate::tokens::{
    lex, lex_from, without_spaces, lemma_run_ends, is_digit, digit_run_end, space_run_end,
    literal_fits, digits_value, single_token,
};
use crate::parse::{tree_of, split_tree, count_leaf, copies, find_splitter, repetitions};

verus! {

/// A tree with no die in it.
pub open spec fn tree_dice_free(n: Node) -> bool
    decreases n, 1int,
{
    match n.kind {
        NodeKind::Number(_) => true,
        NodeKind::Binary(op, l, r) => !(op is DiceRoll) && tree_dice_free(*l) && tree_dice_free(*r),
        NodeKind::Many(_, s) => trees_dice_free(s),
    }
}

/// Trees with no die in them.
pub open spec fn trees_dice_free(s: Seq<Node>) -> bool
    decreases s, 2int,
{
    if s.len() == 0 {
        true
    } else {
        trees_dice_free(s.drop_last()) && tree_dice_free(s.last())
    }
}

/// Tokens with no die in them.
pub open spec fn tokens_dice_free(v: Seq<Token>) -> bool {
    forall|i: int| 0 <= i < v.len() ==> #[trigger] v[i] != Token::DiceRoll
}

proof fn lemma_trees_dice_free(s: Seq<Node>)
    ensures
        trees_dice_free(s) == (forall|i: int| 0 <= i < s.len() ==> #[trigger] tree_dice_free(s[i])),
    decreases s.len(),
{
    if s.len() > 0 {
        lemma_trees_dice_free(s.drop_last());
        if trees_dice_free(s) {
            assert forall|i: int| 0 <= i < s.len() implies #[trigger] tree_dice_free(s[i]) by {
                if i < s.len() - 1 {
                    assert(s.drop_last()[i] == s[i]);
                }
            }
        }
        if forall|i: int| 0 <= i < s.len() ==> #[trigger] tree_dice_free(s[i]) {
            assert forall|i: int| 0 <= i < s.drop_last().len() implies #[trigger] tree_dice_free(
                s.drop_last()[i],
            ) by {
                assert(s.drop_last()[i] == s[i]);
            }
            assert(tree_dice_free(s[s.len() - 1]));
        }
    }
}

proof fn lemma_combine_no_dice(op: BinaryNodeType, a: crate::tree::DiceResult, b: crate::tree::DiceResult, r: Seq<u32>)
    requires
        !(op is DiceRoll),
    ensures
        combine(op, a, b, r) == (combine(op, a, b, Seq::empty()).0, r),
{
}

/// Computing a tree without dice takes no random number, and the computed
/// tree has no dice.
proof fn lemma_evaluated_no_dice(n: Node, r: Seq<u32>)
    requires
        tree_dice_free(n),
    ensures
        evaluated(n, r) == (evaluated(n, Seq::empty()).0, r),
        evaluated(n, r).0 matches Ok(m) ==> tree_dice_free(m),
    decreases n, 1int,
{
    match n.kind {
        NodeKind::Number(_) => {},
        NodeKind::Binary(op, l, rt) => {
            lemma_binary_value_no_dice(n, r);
            lemma_binary_value_no_dice(n, Seq::empty());
        },
        NodeKind::Many(m, s) => {
            if s.len() > 0 {
                lemma_trees_dice_free(s);
                assert forall|i: int| 0 <= i < s.skip(1).len() implies #[trigger] tree_dice_free(
                    s.skip(1)[i],
                ) by {
                    assert(s.skip(1)[i] == s[i + 1]);
                }
                lemma_trees_dice_free(s.skip(1));
                lemma_filled_sum_no_dice(s.skip(1), r);
                lemma_filled_sum_no_dice(s.skip(1), Seq::empty());
                if let Ok((done, sum)) = filled_sum(s.skip(1), r).0 {
                    let t = seq![s[0]] + done;
                    lemma_trees_dice_free(done);
                    assert forall|i: int| 0 <= i < t.len() implies #[trigger] tree_dice_free(t[i]) by {
                        if i > 0 {
                            assert(t[i] == done[i - 1]);
                        }
                    }
                    lemma_trees_dice_free(t);
                }
            }
        },
    }
}

proof fn lemma_filled_leaf_no_dice(c: Node, r: Seq<u32>)
    requires
        tree_dice_free(c),
    ensures
        filled_leaf(c, r) == (filled_leaf(c, Seq::empty()).0, r),
        filled_leaf(c, r).0 matches Ok(m) ==> tree_dice_free(m),
    decreases c, 2int,
{
    if c.res is None {
        lemma_evaluated_no_dice(c, r);
        lemma_evaluated_no_dice(c, Seq::empty());
    }
}

proof fn lemma_binary_value_no_dice(n: Node, r: Seq<u32>)
    requires
        tree_dice_free(n),
    ensures
        binary_value(n, r) == (binary_value(n, Seq::empty()).0, r),
        binary_value(n, r).0 matches Ok((_d, l1, r1)) ==> tree_dice_free(l1) && tree_dice_free(r1),
    decreases n, 0int,
{
    if let NodeKind::Binary(op, l, rt) = n.kind {
        lemma_filled_leaf_no_dice(*l, r);
        lemma_filled_leaf_no_dice(*l, Seq::empty());
        lemma_filled_leaf_no_dice(*rt, r);
        lemma_filled_leaf_no_dice(*rt, Seq::empty());
        if let Ok(l1) = filled_leaf(*l, r).0 {
            if let Ok(r1) = filled_leaf(*rt, r).0 {
                if let (Some(a), Some(b)) = (l1.res, r1.res) {
                    lemma_combine_no_dice(op, a, b, r);
                }
            }
        }
    }
}

proof fn lemma_filled_sum_no_dice(s: Seq<Node>, r: Seq<u32>)
    requires
        trees_dice_free(s),
    ensures
        filled_sum(s, r) == (filled_sum(s, Seq::empty()).0, r),
        filled_sum(s, r).0 matches Ok((done, _sum)) ==> trees_dice_free(done),
    decreases s, 3int,
{
    if s.len() > 0 {
        lemma_filled_sum_no_dice(s.drop_last(), r);
        lemma_filled_sum_no_dice(s.drop_last(), Seq::empty());
        lemma_filled_leaf_no_dice(s.last(), r);
        lemma_filled_leaf_no_dice(s.last(), Seq::empty());
        if let Ok((done, sum)) = filled_sum(s.drop_last(), r).0 {
            if let Ok(c1) = filled_leaf(s.last(), r).0 {
                let d2 = done.push(c1);
                assert(d2.drop_last() =~= done);
            }
        }
    }
}


proof fn lemma_tokens_sub(v: Seq<Token>, a: int, b: int)
    requires
        tokens_dice_free(v),
        0 <= a <= b <= v.len(),
    ensures
        tokens_dice_free(v.subrange(a, b)),
{
    assert forall|i: int| 0 <= i < v.subrange(a, b).len() implies #[trigger] v.subrange(a, b)[i]
        != Token::DiceRoll by {
        assert(v.subrange(a, b)[i] == v[a + i]);
    }
}

pub(crate) proof fn lemma_tree_of_no_dice(v: Seq<Token>, r: Seq<u32>)
    requires
        tokens_dice_free(v),
    ensures
        tree_of(v, r) == (tree_of(v, Seq::empty()).0, r),
        tree_of(v, r).0 matches Ok(n) ==> tree_dice_free(n),
    decreases v.len(), 2int, 0int,
{
    if v.len() >= 2 {
        match find_splitter(v) {
            None => {
                if v[0] == Token::LeftPar {
                    let sub = v.subrange(1, v.len() - 1);
                    lemma_tokens_sub(v, 1, v.len() - 1);
                    lemma_tree_of_no_dice(sub, r);
                    lemma_tree_of_no_dice(sub, Seq::empty());
                }
            },
            Some(poz) => {
                lemma_split_no_dice(v, poz, r);
                lemma_split_no_dice(v, poz, Seq::empty());
            },
        }
    }
}

proof fn lemma_count_no_dice(v: Seq<Token>, r: Seq<u32>)
    requires
        tokens_dice_free(v),
    ensures
        count_leaf(v, r) == (count_leaf(v, Seq::empty()).0, r),
        count_leaf(v, r).0 matches Ok(n) ==> tree_dice_free(n),
    decreases v.len(), 2int, 1int,
{
    lemma_tree_of_no_dice(v, r);
    lemma_tree_of_no_dice(v, Seq::empty());
    if let Ok(nl) = tree_of(v, r).0 {
        lemma_evaluated_no_dice(nl, r);
        lemma_evaluated_no_dice(nl, Seq::empty());
    }
}

proof fn lemma_copies_no_dice(e: Seq<Token>, k: int, r: Seq<u32>)
    requires
        tokens_dice_free(e),
    ensures
        copies(e, k, r) == (copies(e, k, Seq::empty()).0, r),
        copies(e, k, r).0 matches Ok(done) ==> trees_dice_free(done),
    decreases e.len(), 3int, k,
{
    if k > 0 {
        lemma_copies_no_dice(e, k - 1, r);
        lemma_copies_no_dice(e, k - 1, Seq::empty());
        lemma_tree_of_no_dice(e, r);
        lemma_tree_of_no_dice(e, Seq::empty());
        if let Ok(done) = copies(e, k - 1, r).0 {
            if let Ok(n) = tree_of(e, r).0 {
                assert(done.push(n).drop_last() =~= done);
            }
        }
    }
}

proof fn lemma_split_no_dice(v: Seq<Token>, poz: int, r: Seq<u32>)
    requires
        tokens_dice_free(v),
    ensures
        split_tree(v, poz, r) == (split_tree(v, poz, Seq::empty()).0, r),
        split_tree(v, poz, r).0 matches Ok(n) ==> tree_dice_free(n),
    decreases v.len(), 1int, 0int,
{
    if 0 <= poz < v.len() {
        let left = v.take(poz);
        let right = v.skip(poz + 1);
        lemma_tokens_sub(v, 0, poz);
        lemma_tokens_sub(v, poz + 1, v.len() as int);
        assert(v[poz] != Token::DiceRoll);
        if v[poz] == Token::Times {
            if !(right.len() == 1 && left.len() != 1 && !(right[0] is Number)) {
                let swap = right.len() == 1 && left.len() != 1;
                let count_str = if swap {
                    right
                } else {
                    left
                };
                let expr = if swap {
                    left
                } else {
                    right
                };
                lemma_count_no_dice(count_str, r);
                lemma_count_no_dice(count_str, Seq::empty());
                if let Ok(nf) = count_leaf(count_str, r).0 {
                    lemma_copies_no_dice(expr, repetitions(nf), r);
                    lemma_copies_no_dice(expr, repetitions(nf), Seq::empty());
                    if let Ok(done) = copies(expr, repetitions(nf), r).0 {
                        let t = seq![nf] + done;
                        lemma_trees_dice_free(done);
                        assert forall|i: int| 0 <= i < t.len() implies #[trigger] tree_dice_free(t[i]) by {
                            if i > 0 {
                                assert(t[i] == done[i - 1]);
                            }
                        }
                        lemma_trees_dice_free(t);
                    }
                }
            }
        } else {
            lemma_tree_of_no_dice(left, r);
            lemma_tree_of_no_dice(left, Seq::empty());
            lemma_tree_of_no_dice(right, r);
            lemma_tree_of_no_dice(right, Seq::empty());
        }
    }
}


proof fn lemma_push_dice_free(acc: Seq<Token>, t: Token)
    requires
        tokens_dice_free(acc),
        t != Token::DiceRoll,
    ensures
        tokens_dice_free(acc.push(t)),
{
    assert forall|i: int| 0 <= i < acc.push(t).len() implies #[trigger] acc.push(t)[i] != Token::DiceRoll by {
        if i < acc.len() {
            assert(acc.push(t)[i] == acc[i]);
        }
    }
}

proof fn lemma_lex_no_dice(s: Seq<char>, i: int, acc: Seq<Token>)
    requires
        tokens_dice_free(acc),
        forall|j: int| 0 <= j < s.len() ==> #[trigger] s[j] != 'd',
    ensures
        lex_from(s, i, acc) matches Ok(t) ==> tokens_dice_free(t),
    decreases s.len() - i,
{
    if 0 <= i < s.len() {
        lemma_run_ends(s, i);
        if is_digit(s[i]) {
            let j = digit_run_end(s, i);
            let lit = s.subrange(i, j);
            if literal_fits(lit) {
                lemma_push_dice_free(acc, Token::Number(digits_value(lit) as i32));
                lemma_lex_no_dice(s, j, acc.push(Token::Number(digits_value(lit) as i32)));
            }
        } else if s[i] == ' ' {
            let j = space_run_end(s, i);
            lemma_push_dice_free(acc, Token::Spaces((j - i) as i32));
            lemma_lex_no_dice(s, j, acc.push(Token::Spaces((j - i) as i32)));
        } else if s[i] == 'h' {
            if i + 2 < s.len() && s[i + 1] == 'i' && s[i + 2] == 't' {
                lemma_push_dice_free(acc, Token::Hit);
                lemma_lex_no_dice(s, i + 3, acc.push(Token::Hit));
            }
        } else if s[i] == '|' {
            lemma_push_dice_free(acc, Token::RightPar);
            let a2 = seq![Token::LeftPar] + acc.push(Token::RightPar);
            assert forall|k: int| 0 <= k < a2.len() implies #[trigger] a2[k] != Token::DiceRoll by {
                if k > 0 {
                    assert(a2[k] == acc.push(Token::RightPar)[k - 1]);
                }
            }
            lemma_lex_no_dice(s, i + 1, a2);
        } else {
            if let Some(t) = single_token(s[i]) {
                assert(s[i] != 'd');
                lemma_push_dice_free(acc, t);
                lemma_lex_no_dice(s, i + 1, acc.push(t));
            }
        }
    }
}

proof fn lemma_without_spaces_no_dice(v: Seq<Token>)
    requires
        tokens_dice_free(v),
    ensures
        tokens_dice_free(without_spaces(v)),
    decreases v.len(),
{
    if v.len() > 0 {
        assert forall|i: int| 0 <= i < v.drop_last().len() implies #[trigger] v.drop_last()[i]
            != Token::DiceRoll by {
            assert(v.drop_last()[i] == v[i]);
        }
        lemma_without_spaces_no_dice(v.drop_last());
        if !(v.last() is Spaces) {
            lemma_push_dice_free(without_spaces(v.drop_last()), v.last());
        }
    }
}

/// A roll whose text has no `d` takes no random number: what it gives
/// does not depend on the generator.
pub proof fn roll_without_dice_is_fixed(s: Seq<char>, r: Seq<u32>)
    requires
        forall|j: int| 0 <= j < s.len() ==> #[trigger] s[j] != 'd',
    ensures
        roll(s, r) == (roll(s, Seq::empty()).0, r),
{
    lemma_lex_no_dice(s, 0, Seq::empty());
    if let Ok(toks) = lex(s) {
        lemma_without_spaces_no_dice(toks);
        let v = without_spaces(toks);
        lemma_tree_of_no_dice(v, r);
        lemma_tree_of_no_dice(v, Seq::empty());
        if let Ok(n) = tree_of(v, r).0 {
            lemma_evaluated_no_dice(n, r);
            lemma_evaluated_no_dice(n, Seq::empty());
        }
    }
}


/// A roll whose text has no `d`, or whose text does not tokenize, takes no
/// random number, so the generator is left as it was.
pub proof fn rolls_without_dice_keep_the_generator(
    s: Seq<char>,
    d: Seq<u32>,
    o: Result<Seq<char>, Seq<char>>,
    a: (Option<u64>, Seq<u32>),
    b: (Option<u64>, Seq<u32>),
)
    requires
        text_takes(s, d, o),
        draws(a, b, d),
        (forall|j: int| 0 <= j < s.len() ==> #[trigger] s[j] != 'd') || lex(s) is Err,
    ensures
        d.len() == 0,
        b == a,
{
    assert(d + Seq::<u32>::empty() =~= d);
    assert(roll_text(s, d + Seq::<u32>::empty()) == (o, Seq::<u32>::empty()));
    if lex(s) is Err {
        assert(roll(s, d).1 == d);
    } else {
        roll_without_dice_is_fixed(s, d);
    }
    assert(b.1 =~= a.1);
}

} // verus!
