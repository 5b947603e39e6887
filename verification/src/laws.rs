//! Properties of the roll language that hold of every input.
use vstd::prelude::*;
use crate::tree::{Node, NodeKind, Token, Crit};
use crate::eval::{crit_combine, die_rolls, die_face, evaluated};
use crate::parse::{
    tree_of, split_tree, find_splitter, splitter_from, first_at_depth_zero, splitters, net,
    paren_delta, die_node, number_node,
};
use crate::place::{shifted, shifted_all};
use crate::layout::{at, layout, layout_binary, layout_many, prepared, prepared_all};
use crate::draw::{drawing, frame};
use crate::place::absolute;
use crate::tokens::{
    without_spaces, lex, lex_from, is_digit, all_digits, char_digit, digits_value, digit_run_end,
    space_run_end, lemma_run_ends, single_token,
};
use crate::digits::{int_text, digits, digit_char};
use crate::api::{
    roll, roll_text, text_takes, text_either, seeded_text, terminal_takes, roll_terminal_text,
};
use crate::rng::{seeded_stream, draws};

verus! {

/// Combining critical statuses does not depend on the order of the two
/// values, nor on how three values are grouped; a natural maximum always
/// wins, and a normal value changes nothing.
pub proof fn crit_combine_laws(a: Crit, b: Crit, c: Crit)
    ensures
        crit_combine(a, b) == crit_combine(b, a),
        crit_combine(crit_combine(a, b), c) == crit_combine(a, crit_combine(b, c)),
        crit_combine(Crit::NatMax, a) == Crit::NatMax,
        crit_combine(Crit::Normal, a) == a,
{
}

/// A die with at most 65535 faces shows a face from 1 to one more than
/// its number of faces: the top face is shown for the last random numbers
/// of the `u32` range, which the chunks of `u32::MAX / size` leave over.
pub proof fn die_face_range(size: int, r: int)
    requires
        1 <= size <= 65535,
        0 <= r <= u32::MAX,
    ensures
        die_rolls(size, r),
        1 <= die_face(size, r) <= size + 1,
{
    let m = 0xffff_ffffint;
    let ch = m / size;
    assert(size * size <= m) by (nonlinear_arith)
        requires
            1 <= size <= 65535,
            m == 0xffff_ffffint,
    ;
    assert(ch * size <= m < ch * size + size) by (nonlinear_arith)
        requires
            ch == m / size,
            size >= 1,
    ;
    assert(ch >= size) by (nonlinear_arith)
        requires
            ch == m / size,
            size >= 1,
            size * size <= m,
    ;
    assert(r / ch <= size) by (nonlinear_arith)
        requires
            0 <= r <= m,
            m < ch * size + size,
            ch >= size >= 1,
    ;
    assert(r / ch >= 0) by (nonlinear_arith)
        requires
            0 <= r,
            ch >= 1,
    ;
}

/// `dX` is short for `1dX`: both give one die of `X` faces and roll nothing.
pub proof fn d_is_one_d(n: i32, rolls: Seq<u32>)
    ensures
        tree_of(seq![Token::DiceRoll, Token::Number(n)], rolls) == tree_of(
            seq![Token::Number(1), Token::DiceRoll, Token::Number(n)],
            rolls,
        ),
        tree_of(seq![Token::DiceRoll, Token::Number(n)], rolls) == (
            Ok::<Node, Seq<char>>(die_node(false, number_node(n))),
            rolls,
        ),
{
    let a = seq![Token::DiceRoll, Token::Number(n)];
    let b = seq![Token::Number(1), Token::DiceRoll, Token::Number(n)];
    reveal_with_fuel(net, 4);
    reveal_with_fuel(first_at_depth_zero, 4);
    reveal_with_fuel(splitter_from, 8);
    assert(a.take(0) =~= Seq::<Token>::empty());
    assert(a.take(1) =~= seq![Token::DiceRoll]);
    assert(a.take(2) =~= a);
    assert(a.drop_last() =~= seq![Token::DiceRoll]);
    assert(seq![Token::DiceRoll].drop_last() =~= Seq::<Token>::empty());
    assert(b.take(0) =~= Seq::<Token>::empty());
    assert(b.take(1) =~= seq![Token::Number(1)]);
    assert(b.take(2) =~= seq![Token::Number(1), Token::DiceRoll]);
    assert(b.take(3) =~= b);
    assert(b.drop_last() =~= seq![Token::Number(1), Token::DiceRoll]);
    assert(seq![Token::Number(1), Token::DiceRoll].drop_last() =~= seq![Token::Number(1)]);
    assert(seq![Token::Number(1)].drop_last() =~= Seq::<Token>::empty());
    assert(net(a) == 0);
    assert(net(b) == 0);
    assert(find_splitter(a) == Some(0int));
    assert(find_splitter(b) == Some(1int));
    assert(a.skip(1) =~= seq![Token::Number(n)]);
    assert(b.skip(2) =~= seq![Token::Number(n)]);
    let one = seq![Token::Number(n)];
    assert(tree_of(one, rolls) == (Ok::<Node, Seq<char>>(number_node(n)), rolls));
    assert(tree_of(a, rolls) == split_tree(a, 0, rolls));
    assert(tree_of(b, rolls) == split_tree(b, 1, rolls));
    assert(split_tree(a, 0, rolls) == (Ok::<Node, Seq<char>>(die_node(false, number_node(n))), rolls));
    assert(split_tree(b, 1, rolls) == (Ok::<Node, Seq<char>>(die_node(false, number_node(n))), rolls));
}


/// A sequence of tokens whose parentheses are balanced: no prefix closes
/// more than it opens, and the whole closes all it opens.
pub open spec fn balanced(e: Seq<Token>) -> bool {
    net(e) == 0 && forall|i: int| 0 <= i <= e.len() ==> #[trigger] net(e.take(i)) >= 0
}

pub(crate) proof fn lemma_net_after_left_par(s: Seq<Token>)
    ensures
        net(seq![Token::LeftPar] + s) == 1 + net(s),
    decreases s.len(),
{
    if s.len() > 0 {
        let w = seq![Token::LeftPar] + s;
        assert(w.drop_last() =~= seq![Token::LeftPar] + s.drop_last());
        assert(w.last() == s.last());
        lemma_net_after_left_par(s.drop_last());
        assert(net(w) == net(w.drop_last()) + paren_delta(w.last()));
        assert(net(s) == net(s.drop_last()) + paren_delta(s.last()));
    } else {
        let w = seq![Token::LeftPar] + s;
        assert(w =~= seq![Token::LeftPar]);
        assert(w.drop_last() =~= Seq::<Token>::empty());
        assert(net(w.drop_last()) == 0);
        assert(net(w) == net(w.drop_last()) + paren_delta(w.last()));
    }
}

pub(crate) proof fn lemma_no_split_from(v: Seq<Token>, spl: Token, b0: int, i: int)
    requires
        0 <= i,
        forall|j: int| i <= j < v.len() ==> !(v[j] == spl && b0 + #[trigger] net(v.take(j)) == 0),
    ensures
        first_at_depth_zero(v, spl, b0, i) is None,
    decreases v.len() - i,
{
    if i < v.len() {
        lemma_no_split_from(v, spl, b0, i + 1);
    }
}

proof fn lemma_no_splitter_from(v: Seq<Token>, k: int)
    requires
        0 <= k <= 7,
        forall|kk: int| k <= kk < 7 ==> #[trigger] first_at_depth_zero(v, splitters()[kk], kk * net(v), 0) is None,
    ensures
        splitter_from(v, k) is None,
    decreases 7 - k,
{
    if k < 7 {
        assert(first_at_depth_zero(v, splitters()[k], k * net(v), 0) is None);
        lemma_no_splitter_from(v, k + 1);
    }
}

/// Parentheses group: a balanced, nonempty sequence of tokens in
/// parentheses parses as the sequence itself, rolling the same dice.
pub proof fn parentheses_group(e: Seq<Token>, rolls: Seq<u32>)
    requires
        e.len() >= 1,
        balanced(e),
    ensures
        tree_of(seq![Token::LeftPar] + e + seq![Token::RightPar], rolls) == tree_of(e, rolls),
{
    let w = seq![Token::LeftPar] + e + seq![Token::RightPar];
    lemma_net_after_left_par(e);
    assert(w.drop_last() =~= seq![Token::LeftPar] + e);
    assert(net(w) == 0);
    assert forall|j: int| 0 <= j < w.len() implies (w[j] == Token::LeftPar || w[j] == Token::RightPar
        || #[trigger] net(w.take(j)) >= 1) by {
        if 1 <= j <= e.len() {
            assert(w.take(j) =~= seq![Token::LeftPar] + e.take(j - 1));
            lemma_net_after_left_par(e.take(j - 1));
            assert(net(e.take(j - 1)) >= 0);
        }
    }
    assert forall|kk: int| 0 <= kk < 7 implies #[trigger] first_at_depth_zero(
        w,
        splitters()[kk],
        kk * net(w),
        0,
    ) is None by {
        let spl = splitters()[kk];
        assert(spl != Token::LeftPar && spl != Token::RightPar);
        assert(kk * net(w) == 0);
        assert forall|j: int| 0 <= j < w.len() implies !(w[j] == spl && 0 + #[trigger] net(w.take(j))
            == 0) by {
            assert(w[j] == Token::LeftPar || w[j] == Token::RightPar || net(w.take(j)) >= 1);
        }
        lemma_no_split_from(w, spl, 0, 0);
    }
    lemma_no_splitter_from(w, 0);
    assert(find_splitter(w) is None);
    assert(w.subrange(1, w.len() - 1) =~= e);
}

/// A translation is undone by the opposite translation.
pub proof fn shift_undo(n: Node, dx: int, dy: int)
    requires
        shifted(n, dx, dy) is Some,
    ensures
        shifted(shifted(n, dx, dy).unwrap(), -dx, -dy) == Some(n),
    decreases n, 1int,
{
    let n1 = shifted(n, dx, dy).unwrap();
    let x = n.pos.x.unwrap() as int;
    let y = n.pos.y.unwrap() as int;
    assert(n1.pos.x == Some((x + dx) as i32));
    assert(n1.pos.y == Some((y + dy) as i32));
    assert(at(n1, x, y).pos == n.pos);
    match n.kind {
        NodeKind::Number(_) => {},
        NodeKind::Binary(op, l, r) => {
            shift_undo(*l, dx, dy);
            shift_undo(*r, dx, dy);
        },
        NodeKind::Many(m, s) => {
            shift_all_undo(s, dx, dy);
        },
    }
}

/// A translation of a sequence of trees is undone by the opposite one.
pub proof fn shift_all_undo(s: Seq<Node>, dx: int, dy: int)
    requires
        shifted_all(s, dx, dy) is Some,
    ensures
        shifted_all(shifted_all(s, dx, dy).unwrap(), -dx, -dy) == Some(s),
    decreases s, 2int,
{
    if s.len() > 0 {
        shift_all_undo(s.drop_last(), dx, dy);
        shift_undo(s.last(), dx, dy);
        let p = shifted_all(s.drop_last(), dx, dy).unwrap();
        let c = shifted(s.last(), dx, dy).unwrap();
        assert(p.push(c).drop_last() =~= p);
        assert(p.push(c).last() == c);
        assert(s.drop_last().push(s.last()) =~= s);
    } else {
        assert(shifted_all(s, dx, dy).unwrap() =~= s);
    }
}

/// Once the spaces are cleared none is left, and clearing them again
/// changes nothing.
pub proof fn clear_spaces_laws(v: Seq<Token>)
    ensures
        forall|i: int| 0 <= i < without_spaces(v).len() ==> !(#[trigger] without_spaces(v)[i] is Spaces),
        without_spaces(without_spaces(v)) == without_spaces(v),
    decreases v.len(),
{
    if v.len() > 0 {
        clear_spaces_laws(v.drop_last());
        let w1 = without_spaces(v.drop_last());
        if !(v.last() is Spaces) {
            let w = w1.push(v.last());
            assert(w.drop_last() =~= w1);
            assert(w.last() == v.last());
        }
    }
}


/// Laying out and drawing a tree keeps the value at its root: the result
/// shown under a drawing is the one computed.
pub proof fn drawing_keeps_result(n: Node)
    requires
        drawing(n) is Some,
    ensures
        drawing(n).unwrap().0.res == n.res,
{
    let n1 = layout(n).unwrap();
    match n.kind {
        NodeKind::Number(_) => {},
        NodeKind::Binary(op, l, r) => {
            let l1 = prepared(*l).unwrap();
            let r1 = prepared(*r).unwrap();
            assert(layout_binary(n, op, l1, r1).unwrap().res == n.res);
        },
        NodeKind::Many(m, sq) => {
            let s1 = prepared_all(sq).unwrap();
            assert(layout_many(n, m, s1).unwrap().res == n.res);
        },
    }
    assert(n1.res == n.res);
    let a = at(n1, 0, 0);
    let (n2, mx) = absolute(a).unwrap();
    assert(n2.res == n.res);
    let (dx, dy, rows, cols) = frame(mx).unwrap();
    assert(shifted(n2, dx, dy).unwrap().res == n.res);
}


/// Computing a tree keeps its layout data; a tree with leaves gets a value
/// at its root, and a number leaf stays as it is.
pub proof fn evaluation_gives_a_value(n: Node, rolls: Seq<u32>)
    requires
        evaluated(n, rolls).0 is Ok,
    ensures
        evaluated(n, rolls).0.unwrap().pos == n.pos,
        !(n.kind is Number) ==> evaluated(n, rolls).0.unwrap().res is Some,
        n.kind is Number ==> evaluated(n, rolls).0.unwrap() == n,
{
}


proof fn lemma_number_trees_have_values(v: Seq<Token>, rolls: Seq<u32>)
    ensures
        tree_of(v, rolls).0 matches Ok(n) ==> (n.kind is Number ==> n.res is Some),
    decreases v.len(),
{
    if v.len() >= 2 {
        match find_splitter(v) {
            None => if v[0] == Token::LeftPar {
                lemma_number_trees_have_values(v.subrange(1, v.len() - 1), rolls);
            },
            Some(poz) => {
                assert(split_tree(v, poz, rolls).0 matches Ok(n) ==> !(n.kind is Number));
            },
        }
    }
}

/// Every roll that succeeds has a value at the root of its drawn tree:
/// the result that is shown under the drawing always exists.
pub proof fn successful_roll_has_result(s: Seq<char>, rolls: Seq<u32>)
    ensures
        roll(s, rolls).0 matches Ok((n, _c)) ==> n.res is Some,
{
    if let Ok(toks) = lex(s) {
        let v = without_spaces(toks);
        lemma_number_trees_have_values(v, rolls);
        if let Ok(n) = tree_of(v, rolls).0 {
            let r1 = tree_of(v, rolls).1;
            if let Ok(n2) = evaluated(n, r1).0 {
                evaluation_gives_a_value(n, r1);
                if drawing(n2) is Some {
                    drawing_keeps_result(n2);
                }
            }
        }
    }
}


/// The text of a roll is fixed by the numbers its dice take: two runs
/// whose numbers agree (one stream a start of the other) give the same text
/// and take the same numbers.
pub proof fn text_fixed_by_numbers(
    expr: Seq<char>,
    d1: Seq<u32>,
    d2: Seq<u32>,
    o1: Result<Seq<char>, Seq<char>>,
    o2: Result<Seq<char>, Seq<char>>,
)
    requires
        text_takes(expr, d1, o1),
        text_takes(expr, d2, o2),
        d1.len() <= d2.len(),
        d1 == d2.take(d1.len() as int),
    ensures
        o1 == o2,
        d1 == d2,
{
    let c = d2.skip(d1.len() as int);
    assert(d1 + c =~= d2);
    assert(d2 + Seq::<u32>::empty() =~= d2);
    assert(roll_text(expr, d1 + c) == (o1, c));
    assert(roll_text(expr, d2 + Seq::<u32>::empty()) == (o2, Seq::<u32>::empty()));
    assert(c.len() == 0);
    assert(d1 =~= d2);
}

/// One expression and one seed always give the same text.
pub proof fn same_seed_same_text(expr: Seq<char>, seed: u64, t1: Seq<char>, t2: Seq<char>)
    requires
        seeded_text(expr, seed, t1),
        seeded_text(expr, seed, t2),
    ensures
        t1 == t2,
{
    let n1 = choose|n: nat| #[trigger] text_either(expr, seeded_stream(seed, 0, n), t1);
    let n2 = choose|n: nat| #[trigger] text_either(expr, seeded_stream(seed, 0, n), t2);
    let a = seeded_stream(seed, 0, n1);
    let b = seeded_stream(seed, 0, n2);
    let o1 = if text_takes(expr, a, Ok(t1)) {
        Ok::<Seq<char>, Seq<char>>(t1)
    } else {
        Err::<Seq<char>, Seq<char>>(t1)
    };
    let o2 = if text_takes(expr, b, Ok(t2)) {
        Ok::<Seq<char>, Seq<char>>(t2)
    } else {
        Err::<Seq<char>, Seq<char>>(t2)
    };
    if n1 <= n2 {
        assert(a =~= b.take(n1 as int));
        text_fixed_by_numbers(expr, a, b, o1, o2);
    } else {
        assert(b =~= a.take(n2 as int));
        text_fixed_by_numbers(expr, b, a, o2, o1);
    }
}

/// Two translations in a row are one translation by their sum.
pub proof fn shift_compose(n: Node, a: int, b: int, c: int, d: int)
    requires
        shifted(n, a, b) is Some,
        shifted(shifted(n, a, b).unwrap(), c, d) is Some,
    ensures
        shifted(n, a + c, b + d) == shifted(shifted(n, a, b).unwrap(), c, d),
    decreases n, 1int,
{
    let n1 = shifted(n, a, b).unwrap();
    let x = n.pos.x.unwrap() as int;
    let y = n.pos.y.unwrap() as int;
    assert(n1.pos.x == Some((x + a) as i32));
    assert(n1.pos.y == Some((y + b) as i32));
    assert(at(n1, x + a + c, y + b + d).pos == at(n, x + a + c, y + b + d).pos);
    match n.kind {
        NodeKind::Number(_) => {},
        NodeKind::Binary(op, l, r) => {
            shift_compose(*l, a, b, c, d);
            shift_compose(*r, a, b, c, d);
        },
        NodeKind::Many(m, sq) => {
            shift_all_compose(sq, a, b, c, d);
        },
    }
}

/// Two translations in a row of a sequence of trees are one translation by
/// their sum.
pub proof fn shift_all_compose(s: Seq<Node>, a: int, b: int, c: int, d: int)
    requires
        shifted_all(s, a, b) is Some,
        shifted_all(shifted_all(s, a, b).unwrap(), c, d) is Some,
    ensures
        shifted_all(s, a + c, b + d) == shifted_all(shifted_all(s, a, b).unwrap(), c, d),
    decreases s, 2int,
{
    if s.len() > 0 {
        let p = shifted_all(s.drop_last(), a, b).unwrap();
        let q = shifted(s.last(), a, b).unwrap();
        let s1 = p.push(q);
        assert(s1.drop_last() =~= p);
        assert(s1.last() == q);
        shift_all_compose(s.drop_last(), a, b, c, d);
        shift_compose(s.last(), a, b, c, d);
    }
}


proof fn lemma_net_after_number(s: Seq<Token>, n: i32)
    ensures
        net(seq![Token::Number(n)] + s) == net(s),
    decreases s.len(),
{
    let w = seq![Token::Number(n)] + s;
    if s.len() > 0 {
        assert(w.drop_last() =~= seq![Token::Number(n)] + s.drop_last());
        assert(w.last() == s.last());
        lemma_net_after_number(s.drop_last(), n);
        assert(net(w) == net(w.drop_last()) + paren_delta(w.last()));
        assert(net(s) == net(s.drop_last()) + paren_delta(s.last()));
    } else {
        assert(w =~= seq![Token::Number(n)]);
        assert(w.drop_last() =~= Seq::<Token>::empty());
        assert(net(w.drop_last()) == 0);
        assert(net(w) == net(w.drop_last()) + paren_delta(w.last()));
    }
}

pub open spec fn shifted_index(o: Option<int>) -> Option<int> {
    match o {
        Some(i) => Some(i + 1),
        None => None,
    }
}

proof fn lemma_search_after_number(v: Seq<Token>, n: i32, spl: Token, b0: int, j: int)
    requires
        0 <= j,
        spl != Token::Number(n),
    ensures
        first_at_depth_zero(seq![Token::Number(n)] + v, spl, b0, j + 1) == shifted_index(
            first_at_depth_zero(v, spl, b0, j),
        ),
    decreases v.len() - j,
{
    let w = seq![Token::Number(n)] + v;
    if j < v.len() {
        assert(w.take(j + 1) =~= seq![Token::Number(n)] + v.take(j));
        lemma_net_after_number(v.take(j), n);
        assert(w[j + 1] == v[j]);
        lemma_search_after_number(v, n, spl, b0, j + 1);
    }
}

proof fn lemma_splitter_after_number(v: Seq<Token>, n: i32, k: int)
    requires
        0 <= k,
        n == 1,
    ensures
        splitter_from(seq![Token::Number(n)] + v, k) == shifted_index(splitter_from(v, k)),
    decreases 7 - k,
{
    let w = seq![Token::Number(n)] + v;
    if k < 7 {
        lemma_net_after_number(v, n);
        let spl = splitters()[k];
        assert(spl != Token::Number(n));
        lemma_search_after_number(v, n, spl, k * net(v), 0);
        assert(w.take(0) =~= Seq::<Token>::empty());
        assert(w[0] != spl);
        assert(first_at_depth_zero(w, spl, k * net(w), 0) == first_at_depth_zero(w, spl, k * net(w), 1));
        lemma_splitter_after_number(v, n, k + 1);
    }
}

/// `dX` is short for `1dX` for any `X` under the die: where the die is the
/// top operator of `dX`, `dX` and `1dX` give the same tree and roll the
/// same dice.
pub proof fn d_is_one_d_before_anything(x: Seq<Token>, rolls: Seq<u32>)
    requires
        x.len() >= 1,
        find_splitter(seq![Token::DiceRoll] + x) == Some(0int),
    ensures
        tree_of(seq![Token::DiceRoll] + x, rolls) == tree_of(
            seq![Token::Number(1), Token::DiceRoll] + x,
            rolls,
        ),
{
    let v = seq![Token::DiceRoll] + x;
    let w = seq![Token::Number(1)] + v;
    assert(w =~= seq![Token::Number(1), Token::DiceRoll] + x);
    lemma_splitter_after_number(v, 1, 0);
    assert(find_splitter(w) == Some(1int));
    assert(v.skip(1) =~= x);
    assert(w.skip(2) =~= x);
    assert(tree_of(v, rolls) == split_tree(v, 0, rolls));
    assert(tree_of(w, rolls) == split_tree(w, 1, rolls));
}


/// The characters that a token stands for in an expression.
pub open spec fn token_chars(t: Token) -> Seq<char> {
    match t {
        Token::LeftPar => seq!['('],
        Token::RightPar => seq![')'],
        Token::DiceRoll => seq!['d'],
        Token::Times => seq!['x'],
        Token::Division => seq!['/'],
        Token::Multiplication => seq!['*'],
        Token::Addition => seq!['+'],
        Token::Subtraction => seq!['-'],
        Token::Hit => seq!['h', 'i', 't'],
        Token::Spaces(k) => Seq::new(k as nat, |i: int| ' '),
        Token::Number(v) => int_text(v as int),
    }
}

/// Tokens written back as text, one after the other.
pub open spec fn render(v: Seq<Token>) -> Seq<char>
    decreases v.len(),
{
    if v.len() == 0 {
        Seq::empty()
    } else {
        render(v.drop_last()) + token_chars(v.last())
    }
}

/// No number in `s` is written with a leading zero: a digit right after a
/// `0` means that the `0` is not the first digit of its run.
pub open spec fn no_leading_zeros(s: Seq<char>) -> bool {
    forall|i: int|
        1 <= i < s.len() && is_digit(#[trigger] s[i]) && s[i - 1] == '0' ==> i >= 2 && is_digit(s[i - 2])
}

proof fn lemma_render_push(v: Seq<Token>, t: Token)
    ensures
        render(v.push(t)) == render(v) + token_chars(t),
{
    assert(v.push(t).drop_last() =~= v);
}

proof fn lemma_digit_run(s: Seq<char>, i: int)
    requires
        0 <= i <= s.len(),
    ensures
        forall|k: int| i <= k < digit_run_end(s, i) ==> #[trigger] is_digit(s[k]),
        digit_run_end(s, i) == s.len() || !is_digit(s[digit_run_end(s, i)]),
    decreases s.len() - i,
{
    lemma_run_ends(s, i);
    if i < s.len() && is_digit(s[i]) {
        lemma_digit_run(s, i + 1);
    }
}

proof fn lemma_space_run(s: Seq<char>, i: int)
    requires
        0 <= i <= s.len(),
    ensures
        forall|k: int| i <= k < space_run_end(s, i) ==> #[trigger] s[k] == ' ',
        space_run_end(s, i) == s.len() || s[space_run_end(s, i)] != ' ',
    decreases s.len() - i,
{
    lemma_run_ends(s, i);
    if i < s.len() && s[i] == ' ' {
        lemma_space_run(s, i + 1);
    }
}

proof fn lemma_value_positive(p: Seq<char>)
    requires
        p.len() >= 1,
        all_digits(p),
        p[0] != '0',
    ensures
        digits_value(p) >= 1,
    decreases p.len(),
{
    assert(is_digit(p.last()));
    let q = p.drop_last();
    if p.len() == 1 {
        assert(q =~= Seq::<char>::empty());
        assert(digits_value(q) == 0);
        assert(p.last() == p[0]);
    } else {
        assert(q[0] == p[0]);
        assert forall|k: int| 0 <= k < q.len() implies #[trigger] is_digit(q[k]) by {
            assert(q[k] == p[k]);
        }
        lemma_value_positive(q);
    }
}

proof fn lemma_value_nonneg_all(p: Seq<char>)
    requires
        all_digits(p),
    ensures
        digits_value(p) >= 0,
    decreases p.len(),
{
    if p.len() > 0 {
        let q = p.drop_last();
        assert(is_digit(p.last()));
        assert forall|k: int| 0 <= k < q.len() implies #[trigger] is_digit(q[k]) by {
            assert(q[k] == p[k]);
        }
        lemma_value_nonneg_all(q);
    }
}

/// A literal without a leading zero is the text of its value.
proof fn lemma_literal_text(lit: Seq<char>)
    requires
        lit.len() >= 1,
        all_digits(lit),
        lit.len() == 1 || lit[0] != '0',
    ensures
        digits(digits_value(lit) as nat) == lit,
    decreases lit.len(),
{
    let c = lit.last();
    assert(is_digit(c));
    let d = match char_digit(c) {
        Some(x) => x,
        None => 0,
    };
    assert(0 <= d < 10);
    assert(digit_char(d as nat) == c);
    if lit.len() == 1 {
        assert(lit.drop_last() =~= Seq::<char>::empty());
        assert(digits_value(lit.drop_last()) == 0);
        assert(digits_value(lit) == d);
        assert(lit =~= seq![c]);
    } else {
        let p = lit.drop_last();
        assert(p[0] == lit[0]);
        assert forall|k: int| 0 <= k < p.len() implies #[trigger] is_digit(p[k]) by {
            assert(p[k] == lit[k]);
        }
        lemma_literal_text(p);
        lemma_value_positive(p);
        let v = digits_value(p);
        assert(digits_value(lit) == v * 10 + d);
        assert((v * 10 + d) / 10 == v && (v * 10 + d) % 10 == d && v * 10 + d >= 10) by (nonlinear_arith)
            requires
                0 <= d < 10,
                v >= 1,
        ;
        assert(lit =~= p.push(c));
    }
}

proof fn lemma_single_chars(c: char)
    requires
        single_token(c) is Some,
    ensures
        token_chars(single_token(c).unwrap()) == seq![c],
{
}

proof fn lemma_print_back_from(s: Seq<char>, i: int, acc: Seq<Token>)
    requires
        0 <= i <= s.len(),
        forall|k: int| 0 <= k <= s.len() ==> #[trigger] space_run_end(s, k) - k <= i32::MAX,
        forall|k: int| 0 <= k < s.len() ==> #[trigger] s[k] != '|',
        no_leading_zeros(s),
        render(acc) == s.take(i),
        i < s.len() && is_digit(s[i]) && i > 0 ==> !is_digit(s[i - 1]),
        lex_from(s, i, acc) is Ok,
    ensures
        lex_from(s, i, acc) matches Ok(t) && render(t) == s,
    decreases s.len() - i,
{
    if i == s.len() {
        assert(s.take(i) =~= s);
    } else {
        lemma_run_ends(s, i);
        if is_digit(s[i]) {
            let j = digit_run_end(s, i);
            let lit = s.subrange(i, j);
            lemma_digit_run(s, i);
            assert forall|k: int| 0 <= k < lit.len() implies #[trigger] is_digit(lit[k]) by {
                assert(lit[k] == s[i + k]);
            }
            if lit.len() >= 2 && lit[0] == '0' {
                assert(is_digit(s[i + 1]));
                assert(s[i + 1 - 1] == '0');
            }
            lemma_literal_text(lit);
            lemma_value_nonneg_all(lit);
            let t = Token::Number(digits_value(lit) as i32);
            lemma_render_push(acc, t);
            assert(token_chars(t) == lit);
            assert(s.take(j) =~= s.take(i) + lit);
            lemma_print_back_from(s, j, acc.push(t));
        } else if s[i] == ' ' {
            let j = space_run_end(s, i);
            lemma_space_run(s, i);
            let t = Token::Spaces((j - i) as i32);
            lemma_render_push(acc, t);
            assert(token_chars(t) =~= s.subrange(i, j));
            assert(s.take(j) =~= s.take(i) + s.subrange(i, j));
            lemma_print_back_from(s, j, acc.push(t));
        } else if s[i] == 'h' {
            lemma_render_push(acc, Token::Hit);
            assert(s.take(i + 3) =~= s.take(i) + seq!['h', 'i', 't']);
            lemma_print_back_from(s, i + 3, acc.push(Token::Hit));
        } else {
            assert(s[i] != '|');
            let t = single_token(s[i]).unwrap();
            lemma_single_chars(s[i]);
            lemma_render_push(acc, t);
            assert(s.take(i + 1) =~= s.take(i) + seq![s[i]]);
            lemma_print_back_from(s, i + 1, acc.push(t));
        }
    }
}

/// Writing the tokens of an expression back gives the expression, where it
/// has no `|` (which moves parentheses), no number with a leading zero, and
/// no run of spaces longer than a token can count.
pub proof fn tokens_print_back(s: Seq<char>)
    requires
        forall|k: int| 0 <= k <= s.len() ==> #[trigger] space_run_end(s, k) - k <= i32::MAX,
        forall|k: int| 0 <= k < s.len() ==> #[trigger] s[k] != '|',
        no_leading_zeros(s),
        lex(s) is Ok,
    ensures
        lex(s) matches Ok(t) && render(t) == s,
{
    assert(s.take(0) =~= Seq::<char>::empty());
    lemma_print_back_from(s, 0, Seq::empty());
}


/// The terminal text of a roll is fixed by the numbers its dice take.
pub proof fn terminal_fixed_by_numbers(
    expr: Seq<char>,
    w: int,
    d1: Seq<u32>,
    d2: Seq<u32>,
    o1: Result<Seq<char>, Seq<char>>,
    o2: Result<Seq<char>, Seq<char>>,
)
    requires
        terminal_takes(expr, w, d1, o1),
        terminal_takes(expr, w, d2, o2),
        d1.len() <= d2.len(),
        d1 == d2.take(d1.len() as int),
    ensures
        o1 == o2,
        d1 == d2,
{
    let c = d2.skip(d1.len() as int);
    assert(d1 + c =~= d2);
    assert(d2 + Seq::<u32>::empty() =~= d2);
    assert(roll_terminal_text(expr, w, d1 + c) == (o1, c));
    assert(roll_terminal_text(expr, w, d2 + Seq::<u32>::empty()) == (o2, Seq::<u32>::empty()));
    assert(c.len() == 0);
    assert(d1 =~= d2);
}

proof fn lemma_seeded_prefix(s: u64, from: nat, d1: Seq<u32>, d2: Seq<u32>)
    requires
        d1 == seeded_stream(s, from, d1.len()),
        d2 == seeded_stream(s, from, d2.len()),
        d1.len() <= d2.len(),
    ensures
        d1 == d2.take(d1.len() as int),
{
    assert(d1 =~= d2.take(d1.len() as int));
}

/// Two rolls of one expression on seeded generators in the same state give
/// the same text and leave the generators in the same state.
pub proof fn same_state_same_text(
    expr: Seq<char>,
    a: (Option<u64>, Seq<u32>),
    b1: (Option<u64>, Seq<u32>),
    b2: (Option<u64>, Seq<u32>),
    d1: Seq<u32>,
    d2: Seq<u32>,
    o1: Result<Seq<char>, Seq<char>>,
    o2: Result<Seq<char>, Seq<char>>,
)
    requires
        a.0 is Some,
        text_takes(expr, d1, o1),
        draws(a, b1, d1),
        text_takes(expr, d2, o2),
        draws(a, b2, d2),
    ensures
        o1 == o2,
        b1 == b2,
{
    let s = a.0.unwrap();
    if d1.len() <= d2.len() {
        lemma_seeded_prefix(s, a.1.len(), d1, d2);
        text_fixed_by_numbers(expr, d1, d2, o1, o2);
    } else {
        lemma_seeded_prefix(s, a.1.len(), d2, d1);
        text_fixed_by_numbers(expr, d2, d1, o2, o1);
    }
}

/// Two terminal rolls of one expression on seeded generators in the same
/// state give the same text and leave the generators in the same state.
pub proof fn same_state_same_terminal_text(
    expr: Seq<char>,
    w: int,
    a: (Option<u64>, Seq<u32>),
    b1: (Option<u64>, Seq<u32>),
    b2: (Option<u64>, Seq<u32>),
    d1: Seq<u32>,
    d2: Seq<u32>,
    o1: Result<Seq<char>, Seq<char>>,
    o2: Result<Seq<char>, Seq<char>>,
)
    requires
        a.0 is Some,
        terminal_takes(expr, w, d1, o1),
        draws(a, b1, d1),
        terminal_takes(expr, w, d2, o2),
        draws(a, b2, d2),
    ensures
        o1 == o2,
        b1 == b2,
{
    let s = a.0.unwrap();
    if d1.len() <= d2.len() {
        lemma_seeded_prefix(s, a.1.len(), d1, d2);
        terminal_fixed_by_numbers(expr, w, d1, d2, o1, o2);
    } else {
        lemma_seeded_prefix(s, a.1.len(), d2, d1);
        terminal_fixed_by_numbers(expr, w, d2, d1, o2, o1);
    }
}

/// `parse_to_string` on a generator freshly made from `seed` gives what
/// `parse_to_string_from_u64_seed` gives for that seed: the text when the
/// roll succeeds, the error's text when it fails.
pub proof fn seeded_parse_agrees(
    expr: Seq<char>,
    seed: u64,
    d: Seq<u32>,
    o: Result<Seq<char>, Seq<char>>,
    b: (Option<u64>, Seq<u32>),
    t: Seq<char>,
)
    requires
        text_takes(expr, d, o),
        draws((Some(seed), Seq::<u32>::empty()), b, d),
        seeded_text(expr, seed, t),
    ensures
        o == Ok::<Seq<char>, Seq<char>>(t) || o == Err::<Seq<char>, Seq<char>>(t),
{
    let t0 = match o {
        Ok(x) => x,
        Err(x) => x,
    };
    assert(d == seeded_stream(seed, 0, d.len()));
    assert(text_either(expr, seeded_stream(seed, 0, d.len()), t0));
    assert(seeded_text(expr, seed, t0));
    same_seed_same_text(expr, seed, t0, t);
}


/// No two neighbouring tokens are both numbers, or both runs of spaces.
pub open spec fn no_double_runs(v: Seq<Token>) -> bool {
    forall|i: int, j: int|
        0 <= i && j == i + 1 && j < v.len() ==> !(#[trigger] v[i] is Number && #[trigger] v[j] is Number)
            && !(v[i] is Spaces && v[j] is Spaces)
}

proof fn lemma_no_double_push(v: Seq<Token>, t: Token)
    requires
        no_double_runs(v),
        v.len() > 0 && v.last() is Number ==> !(t is Number),
        v.len() > 0 && v.last() is Spaces ==> !(t is Spaces),
    ensures
        no_double_runs(v.push(t)),
{
    let w = v.push(t);
    assert forall|i: int, j: int| 0 <= i && j == i + 1 && j < w.len() implies !(#[trigger] w[i] is Number
        && #[trigger] w[j] is Number) && !(w[i] is Spaces && w[j] is Spaces) by {
        if j < v.len() {
            assert(w[i] == v[i] && w[j] == v[j]);
        } else {
            assert(w[i] == v.last());
        }
    }
}

proof fn lemma_no_double_bars(v: Seq<Token>)
    requires
        no_double_runs(v),
    ensures
        no_double_runs(seq![Token::LeftPar] + v.push(Token::RightPar)),
{
    lemma_no_double_push(v, Token::RightPar);
    let u = v.push(Token::RightPar);
    let w = seq![Token::LeftPar] + u;
    assert forall|i: int, j: int| 0 <= i && j == i + 1 && j < w.len() implies !(#[trigger] w[i] is Number
        && #[trigger] w[j] is Number) && !(w[i] is Spaces && w[j] is Spaces) by {
        if i >= 1 {
            assert(w[i] == u[i - 1] && w[j] == u[j - 1]);
        }
    }
}

proof fn lemma_runs_from(s: Seq<char>, i: int, acc: Seq<Token>)
    requires
        0 <= i <= s.len(),
        no_double_runs(acc),
        acc.len() > 0 && acc.last() is Number ==> i == s.len() || !is_digit(s[i]),
        acc.len() > 0 && acc.last() is Spaces ==> i == s.len() || s[i] != ' ',
    ensures
        lex_from(s, i, acc) matches Ok(t) ==> no_double_runs(t),
    decreases s.len() - i,
{
    if i < s.len() {
        lemma_run_ends(s, i);
        if is_digit(s[i]) {
            let j = digit_run_end(s, i);
            let lit = s.subrange(i, j);
            lemma_digit_run(s, i);
            let t = Token::Number(digits_value(lit) as i32);
            lemma_no_double_push(acc, t);
            lemma_runs_from(s, j, acc.push(t));
        } else if s[i] == ' ' {
            let j = space_run_end(s, i);
            lemma_space_run(s, i);
            let t = Token::Spaces((j - i) as i32);
            lemma_no_double_push(acc, t);
            lemma_runs_from(s, j, acc.push(t));
        } else if s[i] == 'h' {
            if i + 2 < s.len() && s[i + 1] == 'i' && s[i + 2] == 't' {
                lemma_no_double_push(acc, Token::Hit);
                lemma_runs_from(s, i + 3, acc.push(Token::Hit));
            }
        } else if s[i] == '|' {
            lemma_no_double_bars(acc);
            lemma_runs_from(s, i + 1, seq![Token::LeftPar] + acc.push(Token::RightPar));
        } else {
            if let Some(t) = single_token(s[i]) {
                lemma_no_double_push(acc, t);
                lemma_runs_from(s, i + 1, acc.push(t));
            }
        }
    }
}

/// In the tokens of any expression, no two neighbouring tokens are both
/// numbers or both runs of spaces: each run is read whole.
pub proof fn tokens_runs_are_whole(s: Seq<char>)
    ensures
        lex(s) matches Ok(t) ==> no_double_runs(t),
{
    lemma_runs_from(s, 0, Seq::empty());
}


/// A die with nothing, or with `1`, before it is one die: the split at it
/// gives a die whose size is the tree of what follows, rolling what that
/// tree rolls.
pub proof fn single_die_step(v: Seq<Token>, poz: int, rolls: Seq<u32>)
    requires
        0 <= poz < v.len(),
        v[poz] == Token::DiceRoll,
        (poz == 0 && v[0] == Token::DiceRoll) || (poz == 1 && v[0] == Token::Number(1)),
    ensures
        split_tree(v, poz, rolls) == (
            match tree_of(v.skip(poz + 1), rolls).0 {
                Ok(r) => Ok::<Node, Seq<char>>(die_node(false, r)),
                Err(m) => Err::<Node, Seq<char>>(m),
            },
            tree_of(v.skip(poz + 1), rolls).1,
        ),
{
}

} // verus!
