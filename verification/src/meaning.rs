//! What the parts of a roll mean: how a hit is decided, how tightly each
//! operator binds, what a repetition repeats, and what the drawing shows.
use vstd::prelude::*;
use crate::tree::{Node, NodeKind, Token, Crit, DiceResult, BinaryNodeType, ManyNodeType};
use crate::eval::{combine, die_face, die_rolls, evaluated};
use crate::parse::{
    tree_of, split_tree, find_splitter, splitter_from, first_at_depth_zero, splitters, net,
    paren_delta, binary_node, binary_op_of, number_node, times_node, count_leaf, copies,
    repetitions,
};
use crate::draw::{op_char, put, put_row, write_number, abs};
use crate::digits::{digits, int_text, lemma_digits_len, ndigits};
use crate::laws::{token_chars, balanced};
use crate::determinism::{tokens_dice_free, lemma_tree_of_no_dice};

verus! {

/// A hit succeeds when either side is a natural maximum, whatever the
/// values; otherwise exactly when the attack is at least the defence. It
/// rolls nothing and its result is never critical.
pub proof fn hit_rule(a: DiceResult, b: DiceResult, rolls: Seq<u32>)
    ensures
        a.crit == Crit::NatMax || b.crit == Crit::NatMax ==> combine(BinaryNodeType::Hit, a, b, rolls)
            == (Ok::<DiceResult, crate::eval::EvalError>(DiceResult { value: 1, crit: Crit::Normal }), rolls),
        a.crit != Crit::NatMax && b.crit != Crit::NatMax ==> combine(BinaryNodeType::Hit, a, b, rolls)
            == (
            Ok::<DiceResult, crate::eval::EvalError>(
                DiceResult { value: if a.value >= b.value { 1 } else { 0 }, crit: Crit::Normal },
            ),
            rolls,
        ),
{
}

/// A twenty-sided die that shows 20 is a natural maximum, so a hit it
/// takes part in succeeds whatever it is compared with.
pub proof fn natural_twenty_always_hits(r: u32, rest: Seq<u32>, b: DiceResult)
    requires
        die_rolls(20, r as int),
        die_face(20, r as int) == 20,
    ensures
        ({
            let one = DiceResult { value: 1, crit: Crit::Normal };
            let twenty = DiceResult { value: 20, crit: Crit::Normal };
            let (d, rest1) = combine(BinaryNodeType::DiceRoll { hidden: false }, one, twenty, seq![r] + rest);
            &&& d == Ok::<DiceResult, crate::eval::EvalError>(DiceResult { value: 20, crit: Crit::NatMax })
            &&& rest1 == rest
            &&& combine(BinaryNodeType::Hit, d.unwrap(), b, rest1).0 == Ok::<DiceResult, crate::eval::EvalError>(
                DiceResult { value: 1, crit: Crit::Normal },
            )
        }),
{
    assert((seq![r] + rest).drop_first() =~= rest);
    assert((seq![r] + rest)[0] == r);
}

/// The character drawn for an operator is the character it was typed
/// with: `+`, `-`, `*`, `/`, `d`, and the `h` of `hit`.
pub proof fn operator_drawn_as_typed(t: Token, hidden: bool)
    requires
        t == Token::Addition || t == Token::Subtraction || t == Token::Multiplication || t
            == Token::Division || t == Token::Hit,
    ensures
        op_char(binary_op_of(t)) == token_chars(t)[0],
        op_char(BinaryNodeType::DiceRoll { hidden }) == token_chars(Token::DiceRoll)[0],
{
}


/// How loosely each operator binds, from `hit`, the loosest, to `d`, the
/// tightest; tokens that are no operator come after all of them.
pub open spec fn looseness(t: Token) -> int {
    match t {
        Token::Hit => 0,
        Token::Addition => 1,
        Token::Subtraction => 2,
        Token::Division => 3,
        Token::Multiplication => 4,
        Token::Times => 5,
        Token::DiceRoll => 6,
        _ => 7,
    }
}

/// The node that a binary operator token stands for.
pub open spec fn typed_op(t: Token) -> BinaryNodeType {
    match t {
        Token::Addition => BinaryNodeType::Addition,
        Token::Subtraction => BinaryNodeType::Subtraction,
        Token::Multiplication => BinaryNodeType::Multiplication,
        Token::Division => BinaryNodeType::Division,
        _ => BinaryNodeType::Hit,
    }
}

/// Every token of `a` that is `t`, or binds more loosely than `t`, stands
/// inside parentheses, counting from depth `d0`.
pub open spec fn nothing_looser_outside(a: Seq<Token>, t: Token, d0: int) -> bool {
    forall|i: int|
        0 <= i < a.len() && looseness(a[i]) <= looseness(t) ==> d0 + #[trigger] net(a.take(i)) != 0
}

pub(crate) proof fn lemma_net_concat(x: Seq<Token>, y: Seq<Token>)
    ensures
        net(x + y) == net(x) + net(y),
    decreases y.len(),
{
    if y.len() == 0 {
        assert(x + y =~= x);
    } else {
        assert((x + y).drop_last() =~= x + y.drop_last());
        assert((x + y).last() == y.last());
        lemma_net_concat(x, y.drop_last());
    }
}

proof fn lemma_found_from(v: Seq<Token>, spl: Token, p: int, j: int)
    requires
        0 <= j <= p < v.len(),
        v[p] == spl,
        net(v.take(p)) == 0,
        forall|i: int| j <= i < p && v[i] == spl ==> #[trigger] net(v.take(i)) != 0,
    ensures
        first_at_depth_zero(v, spl, 0, j) == Some(p),
    decreases p - j,
{
    if j < p {
        lemma_found_from(v, spl, p, j + 1);
    }
}

proof fn lemma_splitter_search(v: Seq<Token>, k: int, p: int, j: int)
    requires
        0 <= j <= k < 7,
        net(v) == 0,
        forall|jj: int| j <= jj < k ==> #[trigger] first_at_depth_zero(v, splitters()[jj], 0, 0) is None,
        first_at_depth_zero(v, splitters()[k], 0, 0) == Some(p),
    ensures
        splitter_from(v, j) == Some(p),
    decreases k - j,
{
    assert(j * net(v) == 0);
    if j < k {
        assert(first_at_depth_zero(v, splitters()[j], 0, 0) is None);
        lemma_splitter_search(v, k, p, j + 1);
    }
}

proof fn lemma_splitters_by_looseness(j: int)
    requires
        0 <= j < 7,
    ensures
        looseness(splitters()[j]) == j,
{
}

/// The operator that a sequence is split at is the loosest one outside
/// parentheses, and the first of its kind there.
pub proof fn loosest_operator_splits(a: Seq<Token>, t: Token, b: Seq<Token>)
    requires
        looseness(t) < 7,
        net(a) == 0,
        net(b) == 0,
        nothing_looser_outside(a, t, 0),
        forall|i: int| 0 <= i < b.len() && looseness(b[i]) < looseness(t) ==> #[trigger] net(b.take(i)) != 0,
    ensures
        find_splitter(a + seq![t] + b) == Some(a.len() as int),
{
    let v = a + seq![t] + b;
    let k = looseness(t);
    let p = a.len() as int;
    lemma_net_concat(a, seq![t]);
    lemma_net_concat(a + seq![t], b);
    assert(seq![t].drop_last() =~= Seq::<Token>::empty());
    assert(net(seq![t].drop_last()) == 0);
    assert(seq![t].last() == t);
    assert(net(seq![t]) == net(seq![t].drop_last()) + paren_delta(seq![t].last()));
    assert(net(seq![t]) == 0);
    assert(net(v) == 0);
    assert(v.take(p) =~= a);
    assert forall|i: int| 0 <= i < v.len() && looseness(v[i]) < k implies #[trigger] net(v.take(i)) != 0 by {
        if i < p {
            assert(v[i] == a[i]);
            assert(v.take(i) =~= a.take(i));
        } else if i > p {
            let q = i - p - 1;
            assert(v[i] == b[q]);
            assert(v.take(i) =~= (a + seq![t]) + b.take(q));
            lemma_net_concat(a + seq![t], b.take(q));
        }
    }
    assert forall|jj: int| 0 <= jj < k implies #[trigger] first_at_depth_zero(v, splitters()[jj], 0, 0) is None by {
        lemma_splitters_by_looseness(jj);
        let spl = splitters()[jj];
        assert forall|i: int| 0 <= i < v.len() implies !(v[i] == spl && 0 + #[trigger] net(v.take(i)) == 0) by {
            if v[i] == spl {
                assert(looseness(v[i]) == jj);
            }
        }
        crate::laws::lemma_no_split_from(v, spl, 0, 0);
    }
    lemma_splitters_by_looseness(k);
    assert(splitters()[k] == t) by {
        lemma_splitters_by_looseness(k);
    }
    assert forall|i: int| 0 <= i < p && v[i] == t implies #[trigger] net(v.take(i)) != 0 by {
        assert(v[i] == a[i]);
        assert(v.take(i) =~= a.take(i));
    }
    lemma_found_from(v, t, p, 0);
    lemma_splitter_search(v, k, p, 0);
}

/// The loosest operator outside parentheses is the root: `a op b` is the
/// node of `op` over the tree of `a` and the tree of `b`, the dice of `a`
/// rolled first. So `hit` binds more loosely than everything, `+` and `-`
/// more loosely than `*` and `/`.
pub proof fn loosest_operator_is_the_root(a: Seq<Token>, t: Token, b: Seq<Token>, rolls: Seq<u32>)
    requires
        t == Token::Hit || t == Token::Addition || t == Token::Subtraction || t == Token::Division
            || t == Token::Multiplication,
        a.len() + b.len() >= 1,
        net(a) == 0,
        net(b) == 0,
        nothing_looser_outside(a, t, 0),
        forall|i: int| 0 <= i < b.len() && looseness(b[i]) < looseness(t) ==> #[trigger] net(b.take(i)) != 0,
    ensures
        tree_of(a + seq![t] + b, rolls) == match tree_of(a, rolls) {
            (Ok(l), r1) => match tree_of(b, r1) {
                (Ok(r), r2) => (Ok::<Node, Seq<char>>(binary_node(typed_op(t), l, r)), r2),
                (Err(m), r2) => (Err::<Node, Seq<char>>(m), r2),
            },
            (Err(m), r1) => (Err::<Node, Seq<char>>(m), r1),
        },
{
    let v = a + seq![t] + b;
    loosest_operator_splits(a, t, b);
    let p = a.len() as int;
    assert(v.take(p) =~= a);
    assert(v.skip(p + 1) =~= b);
    assert(v[p] == t);
    assert(tree_of(v, rolls) == split_tree(v, p, rolls));
}


/// `t` is a tree that parsing `l` builds on some stream of numbers.
pub open spec fn parse_of(l: Seq<Token>, t: Node) -> bool {
    exists|r: Seq<u32>| #[trigger] tree_of(l, r).0 == Ok::<Node, Seq<char>>(t)
}

proof fn lemma_copies_parses(e: Seq<Token>, k: int, r: Seq<u32>)
    requires
        k >= 0,
    ensures
        copies(e, k, r).0 matches Ok(done) ==> done.len() == k && forall|i: int|
            0 <= i < k ==> #[trigger] parse_of(e, done[i]),
    decreases k,
{
    if k > 0 {
        lemma_copies_parses(e, k - 1, r);
        let r1 = copies(e, k - 1, r).1;
        if let Ok(done) = copies(e, k - 1, r).0 {
            if let Ok(t) = tree_of(e, r1).0 {
                let d2 = done.push(t);
                assert(parse_of(e, t));
                assert forall|i: int| 0 <= i < k implies #[trigger] parse_of(e, d2[i]) by {
                    if i < k - 1 {
                        assert(d2[i] == done[i]);
                    }
                }
            }
        }
    }
}

proof fn lemma_copies_fixed(e: Seq<Token>, k: int, r: Seq<u32>, t: Node)
    requires
        k >= 0,
        forall|x: Seq<u32>| #[trigger] tree_of(e, x) == (Ok::<Node, Seq<char>>(t), x),
    ensures
        copies(e, k, r) == (Ok::<Seq<Node>, Seq<char>>(Seq::new(k as nat, |i: int| t)), r),
    decreases k,
{
    if k > 0 {
        lemma_copies_fixed(e, k - 1, r, t);
        assert(tree_of(e, r) == (Ok::<Node, Seq<char>>(t), r));
        assert(Seq::new((k - 1) as nat, |i: int| t).push(t) =~= Seq::new(k as nat, |i: int| t));
    } else {
        assert(Seq::new(0, |i: int| t) =~= Seq::<Node>::empty());
    }
}

/// `L x n`, for a number `n >= 0` and an expression `L` of more than one
/// token with no `x` or looser operator outside parentheses, repeats `L`:
/// the tree is a repetition whose count leaf is the number `n` and whose
/// other leaves are `n` trees of `L`, each built anew on the numbers that
/// follow the ones before.
pub proof fn times_number_repeats_left(l: Seq<Token>, n: i32, rolls: Seq<u32>)
    requires
        l.len() >= 2,
        net(l) == 0,
        nothing_looser_outside(l, Token::Times, 0),
        n >= 0,
    ensures
        tree_of(l + seq![Token::Times] + seq![Token::Number(n)], rolls) == match copies(
            l,
            n as int,
            rolls,
        ) {
            (Ok(done), r2) => (
                Ok::<Node, Seq<char>>(times_node(None, seq![number_node(n)] + done)),
                r2,
            ),
            (Err(m), r2) => (Err::<Node, Seq<char>>(m), r2),
        },
{
    let b = seq![Token::Number(n)];
    let v = l + seq![Token::Times] + b;
    assert(b.drop_last() =~= Seq::<Token>::empty());
    assert(net(b.drop_last()) == 0);
    assert(net(b) == 0);
    loosest_operator_splits(l, Token::Times, b);
    let p = l.len() as int;
    assert(v.take(p) =~= l);
    assert(v.skip(p + 1) =~= b);
    assert(tree_of(v, rolls) == split_tree(v, p, rolls));
    assert(tree_of(b, rolls) == (Ok::<Node, Seq<char>>(number_node(n)), rolls));
    assert(evaluated(number_node(n), rolls) == (Ok::<Node, crate::eval::EvalError>(number_node(n)), rolls));
    assert(count_leaf(b, rolls) == (Ok::<Node, Seq<char>>(number_node(n)), rolls));
    assert(repetitions(number_node(n)) == n);
}

/// `m x B`, for a number `m >= 0` on the left, repeats `B` whatever its
/// length: the count leaf is the number `m` and the other leaves are `m`
/// trees of `B`, each built anew, when `B` has no operator looser than `x`
/// outside parentheses.
pub proof fn number_times_repeats_right(m: i32, b: Seq<Token>, rolls: Seq<u32>)
    requires
        m >= 0,
        b.len() >= 1,
        net(b) == 0,
        forall|i: int| 0 <= i < b.len() && looseness(b[i]) < looseness(Token::Times) ==> #[trigger] net(b.take(i)) != 0,
    ensures
        tree_of(seq![Token::Number(m)] + seq![Token::Times] + b, rolls) == match copies(
            b,
            m as int,
            rolls,
        ) {
            (Ok(done), r2) => (
                Ok::<Node, Seq<char>>(times_node(None, seq![number_node(m)] + done)),
                r2,
            ),
            (Err(e), r2) => (Err::<Node, Seq<char>>(e), r2),
        },
{
    let a = seq![Token::Number(m)];
    let v = a + seq![Token::Times] + b;
    assert(a.drop_last() =~= Seq::<Token>::empty());
    assert(net(a.drop_last()) == 0);
    assert(net(a) == 0);
    assert(nothing_looser_outside(a, Token::Times, 0));
    loosest_operator_splits(a, Token::Times, b);
    assert(v.take(1) =~= a);
    assert(v.skip(2) =~= b);
    assert(tree_of(v, rolls) == split_tree(v, 1, rolls));
    assert(tree_of(a, rolls) == (Ok::<Node, Seq<char>>(number_node(m)), rolls));
    assert(evaluated(number_node(m), rolls) == (Ok::<Node, crate::eval::EvalError>(number_node(m)), rolls));
    assert(count_leaf(a, rolls) == (Ok::<Node, Seq<char>>(number_node(m)), rolls));
    assert(repetitions(number_node(m)) == m);
}

proof fn lemma_group_times_number(e: Seq<Token>, n: i32, rolls: Seq<u32>)
    requires
        e.len() >= 1,
        balanced(e),
        n >= 0,
    ensures
        ({
            let l = seq![Token::LeftPar] + e + seq![Token::RightPar];
            tree_of(l + seq![Token::Times] + seq![Token::Number(n)], rolls) == match copies(
                l,
                n as int,
                rolls,
            ) {
                (Ok(done), r2) => (
                    Ok::<Node, Seq<char>>(times_node(None, seq![number_node(n)] + done)),
                    r2,
                ),
                (Err(m), r2) => (Err::<Node, Seq<char>>(m), r2),
            }
        }),
{
    let l = seq![Token::LeftPar] + e + seq![Token::RightPar];
    crate::laws::lemma_net_after_left_par(e);
    assert(l.drop_last() =~= seq![Token::LeftPar] + e);
    assert(net(l) == 0);
    assert forall|i: int| 0 <= i < l.len() && looseness(l[i]) <= looseness(Token::Times) implies 0
        + #[trigger] net(l.take(i)) != 0 by {
        if 1 <= i <= e.len() {
            assert(l.take(i) =~= seq![Token::LeftPar] + e.take(i - 1));
            crate::laws::lemma_net_after_left_par(e.take(i - 1));
            assert(net(e.take(i - 1)) >= 0);
        }
    }
    times_number_repeats_left(l, n, rolls);
}

/// `(E) x n`, for a number `n`, repeats the group `n` times: the tree is a
/// repetition whose count leaf is the number `n` and whose `n` other
/// leaves are each a tree that parsing `(E)` builds. So `(2+3)x2` sums two
/// copies of `2+3`, and `(1d6)x3` rolls three dice.
pub proof fn group_times_number(e: Seq<Token>, n: i32, rolls: Seq<u32>)
    requires
        e.len() >= 1,
        balanced(e),
        n >= 0,
    ensures
        ({
            let l = seq![Token::LeftPar] + e + seq![Token::RightPar];
            tree_of(l + seq![Token::Times] + seq![Token::Number(n)], rolls).0 matches Ok(t) ==> {
                &&& t.kind matches NodeKind::Many(m, s) && m == (ManyNodeType::Times {
                    dice_special: None,
                }) && s.len() == n + 1 && s[0] == number_node(n) && forall|i: int|
                    1 <= i <= n ==> #[trigger] parse_of(l, s[i])
            }
        }),
{
    let l = seq![Token::LeftPar] + e + seq![Token::RightPar];
    lemma_group_times_number(e, n, rolls);
    lemma_copies_parses(l, n as int, rolls);
    if let Ok(done) = copies(l, n as int, rolls).0 {
        let s = seq![number_node(n)] + done;
        assert(s[0] == number_node(n));
        assert forall|i: int| 1 <= i <= n implies #[trigger] parse_of(l, s[i]) by {
            assert(s[i] == done[i - 1]);
        }
    }
}

/// `(E) x n` for a group without dice whose tree is `g`: `n` equal copies
/// of `g`, and no random number taken.
pub proof fn group_times_number_without_dice(e: Seq<Token>, g: Node, n: i32, rolls: Seq<u32>)
    requires
        e.len() >= 1,
        balanced(e),
        n >= 0,
        tokens_dice_free(e),
        tree_of(e, Seq::empty()).0 == Ok::<Node, Seq<char>>(g),
    ensures
        ({
            let l = seq![Token::LeftPar] + e + seq![Token::RightPar];
            tree_of(l + seq![Token::Times] + seq![Token::Number(n)], rolls) == (
                Ok::<Node, Seq<char>>(
                    times_node(None, seq![number_node(n)] + Seq::new(n as nat, |i: int| g)),
                ),
                rolls,
            )
        }),
{
    let l = seq![Token::LeftPar] + e + seq![Token::RightPar];
    assert forall|x: Seq<u32>| #[trigger] tree_of(l, x) == (Ok::<Node, Seq<char>>(g), x) by {
        crate::laws::parentheses_group(e, x);
        lemma_tree_of_no_dice(e, x);
    }
    lemma_copies_fixed(l, n as int, rolls, g);
    lemma_group_times_number(e, n, rolls);
}

/// Writing `ds` on row `y` from column `x0` sets exactly those cells and
/// leaves the rest of the canvas as it was.
proof fn lemma_put_row_cells(c: Seq<Seq<char>>, y: int, x0: int, ds: Seq<char>)
    requires
        put_row(c, y, x0, ds) is Some,
    ensures
        ({
            let c2 = put_row(c, y, x0, ds).unwrap();
            &&& 0 <= y < c.len() || ds.len() == 0
            &&& c2.len() == c.len()
            &&& forall|i: int| 0 <= i < c.len() && i != y ==> #[trigger] c2[i] == c[i]
            &&& ds.len() > 0 ==> {
                &&& 0 <= x0 && x0 + ds.len() <= c[y].len()
                &&& c2[y].len() == c[y].len()
                &&& c2[y].subrange(x0, x0 + ds.len()) == ds
                &&& forall|j: int|
                    0 <= j < c[y].len() && (j < x0 || j >= x0 + ds.len()) ==> #[trigger] c2[y][j]
                        == c[y][j]
            }
        }),
    decreases ds.len(),
{
    if ds.len() > 0 {
        let d1 = ds.drop_last();
        lemma_put_row_cells(c, y, x0, d1);
        let c1 = put_row(c, y, x0, d1).unwrap();
        let c2 = put_row(c, y, x0, ds).unwrap();
        assert(c2 == put(c1, y, x0 + ds.len() - 1, ds.last()).unwrap());
        if d1.len() == 0 {
            assert(c1 == c);
        }
        assert(c2[y].subrange(x0, x0 + ds.len()) =~= ds) by {
            assert forall|k: int| 0 <= k < ds.len() implies c2[y].subrange(x0, x0 + ds.len())[k] == ds[k] by {
                if k < d1.len() {
                    assert(c1[y].subrange(x0, x0 + d1.len())[k] == d1[k]);
                }
            }
        }
    }
}

proof fn lemma_ndigits_small(n: nat)
    ensures
        n < 10 ==> ndigits(n) == 1,
        10 <= n < 100 ==> ndigits(n) == 2,
        100 <= n < 1000 ==> ndigits(n) == 3,
        1000 <= n < 10000 ==> ndigits(n) == 4,
        10000 <= n < 100000 ==> ndigits(n) == 5,
        100000 <= n ==> ndigits(n) >= 6,
    decreases n,
{
    if n >= 10 {
        lemma_ndigits_small(n / 10);
    }
}

/// A number is written centred on column `x` of row `y`: its digits stand
/// from column `x - len / 2`, and a negative number has its minus sign to
/// their left, right before the first digit or one cell further with the
/// cell between left as it was. Up to three digits the row reads the
/// number's whole text, sign included. No other cell changes.
pub proof fn number_written_as_text(c: Seq<Seq<char>>, n: int, x: int, y: int)
    requires
        write_number(c, n, x, y) is Some,
    ensures
        ({
            let c2 = write_number(c, n, x, y).unwrap();
            let ds = digits(abs(n) as nat);
            let x0 = x - ds.len() / 2;
            &&& 0 <= y < c.len()
            &&& c2.len() == c.len()
            &&& c2[y].len() == c[y].len()
            &&& forall|i: int| 0 <= i < c.len() && i != y ==> #[trigger] c2[i] == c[i]
            &&& c2[y].subrange(x0, x0 + ds.len()) == ds
            &&& n >= 0 ==> c2[y].subrange(x0, x0 + ds.len()) == int_text(n)
            &&& n < 0 ==> (c2[y][x0 - 1] == '-' || (x0 >= 2 && c2[y][x0 - 2] == '-'
                && c2[y][x0 - 1] == c[y][x0 - 1]))
            &&& -999 <= n < 0 ==> x0 >= 1 && c2[y].subrange(x0 - 1, x0 + ds.len()) == int_text(n)
            &&& forall|j: int|
                0 <= j < c[y].len() && (j < x0 - 2 || j >= x0 + ds.len()) ==> #[trigger] c2[y][j]
                    == c[y][j]
        }),
{
    let ds = digits(abs(n) as nat);
    lemma_digits_len(abs(n) as nat);
    let x0 = x - ds.len() / 2;
    if n >= 0 {
        lemma_put_row_cells(c, y, x0, ds);
    } else {
        let stepback = if n < -99999 {
            int_text(n).len() / 2 + 1
        } else if n < -999 {
            4
        } else if n < -9 {
            2
        } else {
            1
        };
        assert(int_text(n).len() == ds.len() + 1);
        let m = x - stepback;
        let c1 = put(c, y, m, '-').unwrap();
        lemma_put_row_cells(c1, y, x0, ds);
        let c2 = write_number(c, n, x, y).unwrap();
        assert(c2 == put_row(c1, y, x0, ds).unwrap());
        lemma_ndigits_small(abs(n) as nat);
        assert(m == x0 - 1 || m == x0 - 2);
        assert(m == x0 - 2 ==> ds.len() >= 4);
        assert(-999 <= n ==> m == x0 - 1);
        if -999 <= n {
            assert(c2[y].subrange(x0 - 1, x0 + ds.len()) =~= int_text(n)) by {
                assert forall|k: int| 0 <= k < ds.len() + 1 implies c2[y].subrange(x0 - 1, x0 + ds.len())[k]
                    == int_text(n)[k] by {
                    if k >= 1 {
                        assert(c2[y].subrange(x0, x0 + ds.len())[k - 1] == ds[k - 1]);
                    }
                }
            }
        }
    }
}

} // verus!
