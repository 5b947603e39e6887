//! Drawing a filled roll tree as a 2D array of characters. Each write goes to
//! one cell; the drawing fails where a write falls outside the canvas.
use vstd::prelude::*;
use crate::tree::{
    Node, NodeKind, NodeSlot, NodeType, BinaryNodeType, ManyNodeType, BranchType, BinaryNodeSlot,
    ManyNodeSlot, NodePositionInfo,
};
use crate::layout::{half, layout, at, fits, set_pos};
use crate::place::{absolute, shifted, set_pos_abs, trasl, MaxVals};
use crate::digits::{
    digits, int_text, number_w_spec, number_w_left_spec, number_w, number_w_left,
    decimal_digits, lemma_digits_len, abs_i32,
};

verus! {

/// The rows of a canvas.
pub open spec fn grid(v: Vec<Vec<char>>) -> Seq<Seq<char>> {
    v@.map_values(|r: Vec<char>| r@)
}

/// `ch` written at row `y`, column `x`; `None` outside the canvas.
pub open spec fn put(c: Seq<Seq<char>>, y: int, x: int, ch: char) -> Option<Seq<Seq<char>>> {
    if 0 <= y < c.len() && 0 <= x < c[y].len() {
        Some(c.update(y, c[y].update(x, ch)))
    } else {
        None
    }
}

/// `ds` written on row `y` from column `x0` rightward.
pub open spec fn put_row(c: Seq<Seq<char>>, y: int, x0: int, ds: Seq<char>) -> Option<Seq<Seq<char>>>
    decreases ds.len(),
{
    if ds.len() == 0 {
        Some(c)
    } else {
        match put_row(c, y, x0, ds.drop_last()) {
            Some(c1) => put(c1, y, x0 + ds.len() - 1, ds.last()),
            None => None,
        }
    }
}

/// `ch` on row `y` at every column from `a` to `b` included.
pub open spec fn hline(c: Seq<Seq<char>>, y: int, a: int, b: int, ch: char) -> Option<Seq<Seq<char>>>
    decreases b - a + 1,
{
    if b < a {
        Some(c)
    } else {
        match hline(c, y, a, b - 1, ch) {
            Some(c1) => put(c1, y, b, ch),
            None => None,
        }
    }
}

/// The two arms of a cone over `(x, y)`, `k - 1` cells long; with `plus`,
/// also a `+` at `(x, py)` for each cell.
pub open spec fn arms(c: Seq<Seq<char>>, x: int, y: int, k: int, plus: bool, py: int) -> Option<
    Seq<Seq<char>>,
>
    decreases k,
{
    if k <= 1 {
        Some(c)
    } else {
        let l = k - 1;
        match arms(c, x, y, k - 1, plus, py) {
            Some(c1) => match put(c1, y - l, x - l, '\\') {
                Some(c2) => match put(c2, y - l, x + l, '/') {
                    Some(c3) => if plus {
                        put(c3, py, x, '+')
                    } else {
                        Some(c3)
                    },
                    None => None,
                },
                None => None,
            },
            None => None,
        }
    }
}

/// A number written centered at `(x, y)`, its minus sign to the left.
pub open spec fn write_number(c: Seq<Seq<char>>, n: int, x: int, y: int) -> Option<Seq<Seq<char>>> {
    if n < 0 {
        if n == i32::MIN {
            None
        } else {
            let stepback = if n < -99999 {
                int_text(n).len() / 2 + 1
            } else if n < -999 {
                4
            } else if n < -9 {
                2
            } else {
                1
            };
            match put(c, y, x - stepback, '-') {
                Some(c1) => {
                    let ds = digits((-n) as nat);
                    put_row(c1, y, x - ds.len() / 2, ds)
                },
                None => None,
            }
        }
    } else {
        let ds = digits(n as nat);
        put_row(c, y, x - ds.len() / 2, ds)
    }
}

pub open spec fn op_char(op: BinaryNodeType) -> char {
    match op {
        BinaryNodeType::Addition => '+',
        BinaryNodeType::Subtraction => '-',
        BinaryNodeType::Multiplication => '*',
        BinaryNodeType::Division => '/',
        BinaryNodeType::DiceRoll { .. } => 'd',
        BinaryNodeType::Hit => 'h',
    }
}

pub open spec fn abs(v: int) -> int {
    if v < 0 {
        -v
    } else {
        v
    }
}

pub open spec fn xof(n: Node) -> int {
    n.pos.x.unwrap() as int
}

pub open spec fn yof(n: Node) -> int {
    n.pos.y.unwrap() as int
}

pub open spec fn placed(n: Node) -> bool {
    n.pos.x is Some && n.pos.y is Some
}

/// The branches between a binary node at `(x, y)` and its leaves.
pub open spec fn draw_binary(c: Seq<Seq<char>>, n: Node, op: BinaryNodeType, l: Node, r: Node) -> Option<
    Seq<Seq<char>>,
> {
    let x = xof(n);
    let y = yof(n);
    let ch = op_char(op);
    match n.pos.branch_type {
        Some(BranchType::Cone) => if l.pos.y is Some {
            let ly = yof(l);
            match put(c, ly, x, ch) {
                Some(c1) => arms(c1, x, y, abs(y - ly), false, 0),
                None => None,
            }
        } else {
            None
        },
        Some(BranchType::Trapezoid) => if placed(l) && r.pos.x is Some {
            let ly = yof(l);
            let lx = xof(l);
            let rx = xof(r);
            match put(c, ly, x, ch) {
                Some(c1) => match hline(c1, ly + 2, abs(lx) + 2, abs(rx) - 2, '\u{2010}') {
                    Some(c2) => match put(c2, ly + 1, lx + 1, '\\') {
                        Some(c3) => match put(c3, ly + 1, rx - 1, '/') {
                            Some(c4) => put(c4, y - 1, x, '|'),
                            None => None,
                        },
                        None => None,
                    },
                    None => None,
                },
                None => None,
            }
        } else {
            None
        },
        _ => Some(c),
    }
}

/// A `|` under each leaf `k` with `a <= k < b`, on row `y`.
pub open spec fn bars(c: Seq<Seq<char>>, s: Seq<Node>, y: int, a: int, b: int) -> Option<Seq<Seq<char>>>
    decreases b - a,
{
    if b <= a {
        Some(c)
    } else {
        match bars(c, s, y, a, b - 1) {
            Some(c1) => if s[b - 1].pos.x is Some {
                put(c1, y, xof(s[b - 1]), '|')
            } else {
                None
            },
            None => None,
        }
    }
}

/// A `+` after each leaf `k` with `a <= k < b`, `gap` further right, on row `y`.
pub open spec fn pluses(c: Seq<Seq<char>>, s: Seq<Node>, y: int, gap: int, a: int, b: int) -> Option<
    Seq<Seq<char>>,
>
    decreases b - a,
{
    if b <= a {
        Some(c)
    } else {
        match pluses(c, s, y, gap, a, b - 1) {
            Some(c1) => if s[b - 1].pos.x is Some {
                put(c1, y, xof(s[b - 1]) + gap, '+')
            } else {
                None
            },
            None => None,
        }
    }
}

/// The arrow from the count of a `Times` node to its first summed leaf.
pub open spec fn draw_arrow(c: Seq<Seq<char>>, s: Seq<Node>, tx: int, ty: int) -> Option<Seq<Seq<char>>> {
    if s.len() == 1 {
        match put(c, ty + 1, tx, '|') {
            Some(c1) => put(c1, ty + 2, tx, '|'),
            None => None,
        }
    } else if s[1].pos.x is Some {
        let fx = xof(s[1]);
        match hline(c, ty, tx + 2, fx - 3, '-') {
            Some(c1) => put(c1, ty, fx - 2, '>'),
            None => None,
        }
    } else {
        None
    }
}

/// The `x` after the count, or `d` and the die size for a `Times` of dice.
pub open spec fn draw_label(c: Seq<Seq<char>>, m: ManyNodeType, s: Seq<Node>, tx: int, ty: int) -> Option<
    Seq<Seq<char>>,
> {
    match m {
        ManyNodeType::Times { dice_special: Some(ds) } => match s[0].res {
            Some(r) => if r.value != i32::MIN && ds != i32::MIN {
                let wstep = number_w_spec(r.value as int);
                let wds = number_w_left_spec(ds as int);
                match put(c, ty, tx + wstep, 'd') {
                    Some(c1) => write_number(c1, ds as int, tx + wstep + wds, ty),
                    None => None,
                }
            } else {
                None
            },
            None => None,
        },
        ManyNodeType::Times { dice_special: None } => put(c, ty, tx - 1, 'x'),
    }
}

/// The frame joining the summed leaves of a `Times` node at `(x, y)`.
pub open spec fn draw_scaffold(c: Seq<Seq<char>>, s: Seq<Node>, x: int, y: int, ty: int) -> Option<
    Seq<Seq<char>>,
> {
    let len = s.len() as int;
    if len == 3 && (s[1].pos.h is None || (s[1].pos.h != Some(1i32) && s[2].pos.h is None)) {
        None
    } else if len == 3 && (s[1].pos.h == Some(1i32) || s[2].pos.h == Some(1i32)) {
        if s[1].pos.y is Some {
            arms(c, x, y, abs(y - yof(s[1])), true, ty)
        } else {
            None
        }
    } else if len >= 3 {
        if s[1].pos.x is Some && s[len - 1].pos.x is Some && s[2].pos.x is Some {
            let fx = xof(s[1]);
            let lastx = xof(s[len - 1]);
            match hline(c, ty + 2, fx + 2, lastx - 2, '\u{2010}') {
                Some(c1) => match put(c1, ty + 1, fx + 1, '\\') {
                    Some(c2) => match put(c2, ty + 1, lastx - 1, '/') {
                        Some(c3) => match bars(c3, s, ty + 1, 2, len - 1) {
                            Some(c4) => match pluses(
                                c4,
                                s,
                                ty,
                                half(xof(s[2]) - xof(s[1])),
                                1,
                                len - 1,
                            ) {
                                Some(c5) => put(c5, y - 1, x, '|'),
                                None => None,
                            },
                            None => None,
                        },
                        None => None,
                    },
                    None => None,
                },
                None => None,
            }
        } else {
            None
        }
    } else if len == 2 {
        if s[1].pos.x is Some {
            match put(c, ty + 1, xof(s[1]), '|') {
                Some(c1) => put(c1, y - 1, x, '|'),
                None => None,
            }
        } else {
            None
        }
    } else {
        Some(c)
    }
}

pub open spec fn draw_many(c: Seq<Seq<char>>, n: Node, m: ManyNodeType, s: Seq<Node>) -> Option<
    Seq<Seq<char>>,
> {
    if s.len() >= 1 && placed(s[0]) {
        let tx = xof(s[0]);
        let ty = yof(s[0]);
        match draw_arrow(c, s, tx, ty) {
            Some(c1) => match draw_label(c1, m, s, tx, ty) {
                Some(c2) => draw_scaffold(c2, s, xof(n), yof(n), ty),
                None => None,
            },
            None => None,
        }
    } else {
        None
    }
}

/// The drawing of a node and of everything under it, in preorder; the leaves
/// of a hidden die are not drawn.
pub open spec fn write_node(c: Seq<Seq<char>>, n: Node) -> Option<Seq<Seq<char>>>
    decreases n, 1int,
{
    if placed(n) && n.res is Some {
        match write_number(c, n.res.unwrap().value as int, xof(n), yof(n)) {
            Some(c1) => {
                let c2 = match n.kind {
                    NodeKind::Binary(op, l, r) => draw_binary(c1, n, op, *l, *r),
                    NodeKind::Number(_) => Some(c1),
                    NodeKind::Many(m, s) => draw_many(c1, n, m, s),
                };
                match c2 {
                    Some(c3) => match n.pos.branch_type {
                        Some(BranchType::Dot) => Some(c3),
                        Some(_) => match n.kind {
                            NodeKind::Number(_) => Some(c3),
                            NodeKind::Binary(op, l, r) => match write_node(c3, *l) {
                                Some(c4) => write_node(c4, *r),
                                None => None,
                            },
                            NodeKind::Many(m, s) => write_all(c3, s),
                        },
                        None => None,
                    },
                    None => None,
                }
            },
            None => None,
        }
    } else {
        None
    }
}

pub open spec fn write_all(c: Seq<Seq<char>>, s: Seq<Node>) -> Option<Seq<Seq<char>>>
    decreases s, 2int,
{
    if s.len() == 0 {
        Some(c)
    } else {
        match write_all(c, s.drop_last()) {
            Some(c1) => write_node(c1, s.last()),
            None => None,
        }
    }
}

/// A canvas of `rows` rows of `cols` spaces.
pub open spec fn blank(rows: nat, cols: nat) -> Seq<Seq<char>> {
    Seq::new(rows, |i: int| Seq::new(cols, |j: int| ' '))
}

/// Where the drawing of a laid out tree is translated to, and the canvas
/// size: `(dx, dy, rows, cols)`.
pub open spec fn frame(mx: MaxVals) -> Option<(int, int, nat, nat)> {
    let span = mx.max_x - mx.min_x;
    let full_w = span + 1;
    let dx = -mx.min_x + 4;
    let dy = -mx.min_y + 1;
    if fits(span) && fits(full_w) && mx.min_y != i32::MIN && fits(-mx.min_x) && fits(dx) && fits(
        -mx.min_y,
    ) && fits(dy) && full_w >= 0 {
        Some((dx, dy, (abs(mx.min_y as int) + 3) as nat, (full_w + 9) as nat))
    } else {
        None
    }
}


/// Two canvases with the same number of rows, row by row as wide.
pub open spec fn same_shape(a: Seq<Seq<char>>, b: Seq<Seq<char>>) -> bool {
    a.len() == b.len() && forall|i: int| 0 <= i < a.len() ==> #[trigger] a[i].len() == b[i].len()
}

proof fn lemma_put_shape(c: Seq<Seq<char>>, y: int, x: int, ch: char)
    requires
        put(c, y, x, ch) is Some,
    ensures
        same_shape(c, put(c, y, x, ch).unwrap()),
{
    let c1 = put(c, y, x, ch).unwrap();
    assert forall|i: int| 0 <= i < c.len() implies #[trigger] c[i].len() == c1[i].len() by {
        if i == y {
        }
    }
}

proof fn lemma_put_row_shape(c: Seq<Seq<char>>, y: int, x0: int, ds: Seq<char>)
    requires
        put_row(c, y, x0, ds) is Some,
    ensures
        same_shape(c, put_row(c, y, x0, ds).unwrap()),
    decreases ds.len(),
{
    if ds.len() > 0 {
        lemma_put_row_shape(c, y, x0, ds.drop_last());
        let c1 = put_row(c, y, x0, ds.drop_last()).unwrap();
        lemma_put_shape(c1, y, x0 + ds.len() - 1, ds.last());
    }
}

proof fn lemma_hline_shape(c: Seq<Seq<char>>, y: int, a: int, b: int, ch: char)
    requires
        hline(c, y, a, b, ch) is Some,
    ensures
        same_shape(c, hline(c, y, a, b, ch).unwrap()),
    decreases b - a + 1,
{
    if b >= a {
        lemma_hline_shape(c, y, a, b - 1, ch);
        let c1 = hline(c, y, a, b - 1, ch).unwrap();
        lemma_put_shape(c1, y, b, ch);
    }
}

proof fn lemma_arms_shape(c: Seq<Seq<char>>, x: int, y: int, k: int, plus: bool, py: int)
    requires
        arms(c, x, y, k, plus, py) is Some,
    ensures
        same_shape(c, arms(c, x, y, k, plus, py).unwrap()),
    decreases k,
{
    if k > 1 {
        let l = k - 1;
        lemma_arms_shape(c, x, y, k - 1, plus, py);
        let c1 = arms(c, x, y, k - 1, plus, py).unwrap();
        lemma_put_shape(c1, y - l, x - l, '\\');
        let c2 = put(c1, y - l, x - l, '\\').unwrap();
        lemma_put_shape(c2, y - l, x + l, '/');
        let c3 = put(c2, y - l, x + l, '/').unwrap();
        if plus {
            lemma_put_shape(c3, py, x, '+');
        }
    }
}

proof fn lemma_write_number_shape(c: Seq<Seq<char>>, n: int, x: int, y: int)
    requires
        write_number(c, n, x, y) is Some,
    ensures
        same_shape(c, write_number(c, n, x, y).unwrap()),
{
    if n < 0 {
        let stepback = if n < -99999 {
            int_text(n).len() / 2 + 1
        } else if n < -999 {
            4
        } else if n < -9 {
            2
        } else {
            1
        };
        lemma_put_shape(c, y, x - stepback, '-');
        let c1 = put(c, y, x - stepback, '-').unwrap();
        let ds = digits((-n) as nat);
        lemma_put_row_shape(c1, y, x - ds.len() / 2, ds);
    } else {
        let ds = digits(n as nat);
        lemma_put_row_shape(c, y, x - ds.len() / 2, ds);
    }
}

proof fn lemma_draw_binary_shape(c: Seq<Seq<char>>, n: Node, op: BinaryNodeType, l: Node, r: Node)
    requires
        draw_binary(c, n, op, l, r) is Some,
    ensures
        same_shape(c, draw_binary(c, n, op, l, r).unwrap()),
{
    let x = xof(n);
    let y = yof(n);
    let ch = op_char(op);
    match n.pos.branch_type {
        Some(BranchType::Cone) => {
            let ly = yof(l);
            lemma_put_shape(c, ly, x, ch);
            let c1 = put(c, ly, x, ch).unwrap();
            lemma_arms_shape(c1, x, y, abs(y - ly), false, 0);
        },
        Some(BranchType::Trapezoid) => {
            let ly = yof(l);
            let lx = xof(l);
            let rx = xof(r);
            lemma_put_shape(c, ly, x, ch);
            let c1 = put(c, ly, x, ch).unwrap();
            lemma_hline_shape(c1, ly + 2, abs(lx) + 2, abs(rx) - 2, '\u{2010}');
            let c2 = hline(c1, ly + 2, abs(lx) + 2, abs(rx) - 2, '\u{2010}').unwrap();
            lemma_put_shape(c2, ly + 1, lx + 1, '\\');
            let c3 = put(c2, ly + 1, lx + 1, '\\').unwrap();
            lemma_put_shape(c3, ly + 1, rx - 1, '/');
            let c4 = put(c3, ly + 1, rx - 1, '/').unwrap();
            lemma_put_shape(c4, y - 1, x, '|');
        },
        _ => {},
    }
}

proof fn lemma_bars_shape(c: Seq<Seq<char>>, s: Seq<Node>, y: int, a: int, b: int)
    requires
        bars(c, s, y, a, b) is Some,
    ensures
        same_shape(c, bars(c, s, y, a, b).unwrap()),
    decreases b - a,
{
    if b > a {
        lemma_bars_shape(c, s, y, a, b - 1);
        let c1 = bars(c, s, y, a, b - 1).unwrap();
        lemma_put_shape(c1, y, xof(s[b - 1]), '|');
    }
}

proof fn lemma_pluses_shape(c: Seq<Seq<char>>, s: Seq<Node>, y: int, gap: int, a: int, b: int)
    requires
        pluses(c, s, y, gap, a, b) is Some,
    ensures
        same_shape(c, pluses(c, s, y, gap, a, b).unwrap()),
    decreases b - a,
{
    if b > a {
        lemma_pluses_shape(c, s, y, gap, a, b - 1);
        let c1 = pluses(c, s, y, gap, a, b - 1).unwrap();
        lemma_put_shape(c1, y, xof(s[b - 1]) + gap, '+');
    }
}

proof fn lemma_draw_many_shape(c: Seq<Seq<char>>, n: Node, m: ManyNodeType, s: Seq<Node>)
    requires
        draw_many(c, n, m, s) is Some,
    ensures
        same_shape(c, draw_many(c, n, m, s).unwrap()),
{
    let tx = xof(s[0]);
    let ty = yof(s[0]);
    // the arrow
    if s.len() == 1 {
        lemma_put_shape(c, ty + 1, tx, '|');
        let a1 = put(c, ty + 1, tx, '|').unwrap();
        lemma_put_shape(a1, ty + 2, tx, '|');
    } else {
        let fx = xof(s[1]);
        lemma_hline_shape(c, ty, tx + 2, fx - 3, '-');
        let a1 = hline(c, ty, tx + 2, fx - 3, '-').unwrap();
        lemma_put_shape(a1, ty, fx - 2, '>');
    }
    let c1 = draw_arrow(c, s, tx, ty).unwrap();
    // the label
    match m {
        ManyNodeType::Times { dice_special: Some(ds) } => {
            let r = s[0].res.unwrap();
            let wstep = number_w_spec(r.value as int);
            let wds = number_w_left_spec(ds as int);
            lemma_put_shape(c1, ty, tx + wstep, 'd');
            let b1 = put(c1, ty, tx + wstep, 'd').unwrap();
            lemma_write_number_shape(b1, ds as int, tx + wstep + wds, ty);
        },
        ManyNodeType::Times { dice_special: None } => {
            lemma_put_shape(c1, ty, tx - 1, 'x');
        },
    }
    let c2 = draw_label(c1, m, s, tx, ty).unwrap();
    // the scaffold
    let x = xof(n);
    let y = yof(n);
    let len = s.len() as int;
    if len == 3 && (s[1].pos.h == Some(1i32) || s[2].pos.h == Some(1i32)) && !(s[1].pos.h is None || (
    s[1].pos.h != Some(1i32) && s[2].pos.h is None)) {
        lemma_arms_shape(c2, x, y, abs(y - yof(s[1])), true, ty);
    } else if len >= 3 {
        let fx = xof(s[1]);
        let lastx = xof(s[len - 1]);
        lemma_hline_shape(c2, ty + 2, fx + 2, lastx - 2, '\u{2010}');
        let d1 = hline(c2, ty + 2, fx + 2, lastx - 2, '\u{2010}').unwrap();
        lemma_put_shape(d1, ty + 1, fx + 1, '\\');
        let d2 = put(d1, ty + 1, fx + 1, '\\').unwrap();
        lemma_put_shape(d2, ty + 1, lastx - 1, '/');
        let d3 = put(d2, ty + 1, lastx - 1, '/').unwrap();
        lemma_bars_shape(d3, s, ty + 1, 2, len - 1);
        let d4 = bars(d3, s, ty + 1, 2, len - 1).unwrap();
        let gap = half(xof(s[2]) - xof(s[1]));
        lemma_pluses_shape(d4, s, ty, gap, 1, len - 1);
        let d5 = pluses(d4, s, ty, gap, 1, len - 1).unwrap();
        lemma_put_shape(d5, y - 1, x, '|');
    } else if len == 2 {
        lemma_put_shape(c2, ty + 1, xof(s[1]), '|');
        let d1 = put(c2, ty + 1, xof(s[1]), '|').unwrap();
        lemma_put_shape(d1, y - 1, x, '|');
    }
}

proof fn lemma_write_node_shape(c: Seq<Seq<char>>, n: Node)
    requires
        write_node(c, n) is Some,
    ensures
        same_shape(c, write_node(c, n).unwrap()),
    decreases n, 1int,
{
    lemma_write_number_shape(c, n.res.unwrap().value as int, xof(n), yof(n));
    let c1 = write_number(c, n.res.unwrap().value as int, xof(n), yof(n)).unwrap();
    match n.kind {
        NodeKind::Binary(op, l, r) => {
            lemma_draw_binary_shape(c1, n, op, *l, *r);
            let c3 = draw_binary(c1, n, op, *l, *r).unwrap();
            if n.pos.branch_type != Some(BranchType::Dot) {
                lemma_write_node_shape(c3, *l);
                let c4 = write_node(c3, *l).unwrap();
                lemma_write_node_shape(c4, *r);
            }
        },
        NodeKind::Number(_) => {},
        NodeKind::Many(m, s) => {
            lemma_draw_many_shape(c1, n, m, s);
            let c3 = draw_many(c1, n, m, s).unwrap();
            if n.pos.branch_type != Some(BranchType::Dot) {
                lemma_write_all_shape(c3, s);
            }
        },
    }
}

proof fn lemma_write_all_shape(c: Seq<Seq<char>>, s: Seq<Node>)
    requires
        write_all(c, s) is Some,
    ensures
        same_shape(c, write_all(c, s).unwrap()),
    decreases s, 2int,
{
    if s.len() > 0 {
        lemma_write_all_shape(c, s.drop_last());
        let c1 = write_all(c, s.drop_last()).unwrap();
        lemma_write_node_shape(c1, s.last());
    }
}

/// A drawing is a canvas of as many rows as the frame gives, each as wide
/// as the first.
pub proof fn lemma_drawing_shape(n: Node)
    requires
        drawing(n) is Some,
    ensures
        drawing(n).unwrap().1.len() >= 1,
        forall|k: int| 0 <= k < drawing(n).unwrap().1.len() ==> drawing(n).unwrap().1[0].len()
            == #[trigger] drawing(n).unwrap().1[k].len(),
{
    let n1 = layout(n).unwrap();
    let (n2, mx) = absolute(at(n1, 0, 0)).unwrap();
    let (dx, dy, rows, cols) = frame(mx).unwrap();
    let n3 = shifted(n2, dx, dy).unwrap();
    let b = blank(rows, cols);
    lemma_write_node_shape(b, n3);
    let c = write_node(b, n3).unwrap();
    assert(rows >= 1);
    assert forall|k: int| 0 <= k < c.len() implies c[0].len() == #[trigger] c[k].len() by {
        assert(c[k].len() == b[k].len());
        assert(c[0].len() == b[0].len());
    }
}

/// The tree once laid out, with absolute positions, as it is drawn, and the canvas.
pub open spec fn drawing(n: Node) -> Option<(Node, Seq<Seq<char>>)> {
    match layout(n) {
        Some(n1) => match absolute(at(n1, 0, 0)) {
            Some((n2, mx)) => match frame(mx) {
                Some((dx, dy, rows, cols)) => match shifted(n2, dx, dy) {
                    Some(n3) => match write_node(blank(rows, cols), n3) {
                        Some(c) => Some((n3, c)),
                        None => None,
                    },
                    None => None,
                },
                None => None,
            },
            None => None,
        },
        None => None,
    }
}


proof fn lemma_put_row_prefix(c: Seq<Seq<char>>, y: int, x0: int, ds: Seq<char>, k: int)
    requires
        0 <= k <= ds.len(),
        put_row(c, y, x0, ds.take(k)) is None,
    ensures
        put_row(c, y, x0, ds) is None,
    decreases ds.len() - k,
{
    if k == ds.len() {
        assert(ds.take(k) =~= ds);
    } else {
        assert(ds.take(k + 1).drop_last() =~= ds.take(k));
        lemma_put_row_prefix(c, y, x0, ds, k + 1);
    }
}

proof fn lemma_hline_prefix(c: Seq<Seq<char>>, y: int, a: int, j: int, b: int, ch: char)
    requires
        j <= b,
        hline(c, y, a, j, ch) is None,
    ensures
        hline(c, y, a, b, ch) is None,
    decreases b - j,
{
    if j < b {
        lemma_hline_prefix(c, y, a, j + 1, b, ch);
    }
}

proof fn lemma_arms_prefix(c: Seq<Seq<char>>, x: int, y: int, j: int, k: int, plus: bool, py: int)
    requires
        j <= k,
        arms(c, x, y, j, plus, py) is None,
    ensures
        arms(c, x, y, k, plus, py) is None,
    decreases k - j,
{
    if j < k {
        lemma_arms_prefix(c, x, y, j + 1, k, plus, py);
    }
}

proof fn lemma_bars_prefix(c: Seq<Seq<char>>, s: Seq<Node>, y: int, a: int, j: int, b: int)
    requires
        j <= b,
        bars(c, s, y, a, j) is None,
    ensures
        bars(c, s, y, a, b) is None,
    decreases b - j,
{
    if j < b {
        lemma_bars_prefix(c, s, y, a, j + 1, b);
    }
}

proof fn lemma_pluses_prefix(c: Seq<Seq<char>>, s: Seq<Node>, y: int, gap: int, a: int, j: int, b: int)
    requires
        j <= b,
        pluses(c, s, y, gap, a, j) is None,
    ensures
        pluses(c, s, y, gap, a, b) is None,
    decreases b - j,
{
    if j < b {
        lemma_pluses_prefix(c, s, y, gap, a, j + 1, b);
    }
}

/// Writes `ch` at row `y`, column `x`; `false` outside the canvas.
fn put_cell(v: &mut Vec<Vec<char>>, y: i64, x: i64, ch: char) -> (ok: bool)
    ensures
        ok == (put(grid(*old(v)), y as int, x as int, ch) is Some),
        ok ==> grid(*final(v)) == put(grid(*old(v)), y as int, x as int, ch).unwrap(),
{
    if y < 0 || x < 0 {
        return false;
    }
    if y as u64 >= v.len() as u64 {
        return false;
    }
    let yu = y as usize;
    if x as u64 >= v[yu].len() as u64 {
        return false;
    }
    let ghost g0 = grid(*v);
    v[yu].set(x as usize, ch);
    assert(grid(*v) =~= g0.update(y as int, g0[y as int].update(x as int, ch)));
    true
}

fn put_row_exec(v: &mut Vec<Vec<char>>, y: i64, x0: i64, ds: &Vec<char>) -> (ok: bool)
    requires
        ds.len() <= 16,
        -0x1000_0000_0000_0000 <= x0 <= 0x1000_0000_0000_0000,
    ensures
        ok == (put_row(grid(*old(v)), y as int, x0 as int, ds@) is Some),
        ok ==> grid(*final(v)) == put_row(grid(*old(v)), y as int, x0 as int, ds@).unwrap(),
{
    let ghost c0 = grid(*v);
    let mut i: usize = 0;
    assert(ds@.take(0) =~= Seq::<char>::empty());
    while i < ds.len()
        invariant
            0 <= i <= ds.len(),
            ds.len() <= 16,
            -0x1000_0000_0000_0000 <= x0 <= 0x1000_0000_0000_0000,
            c0 == grid(*old(v)),
            put_row(c0, y as int, x0 as int, ds@.take(i as int)) == Some(grid(*v)),
        decreases ds.len() - i,
    {
        assert(ds@.take(i + 1).drop_last() =~= ds@.take(i as int));
        let ok = put_cell(v, y, x0 + i as i64, ds[i]);
        if !ok {
            proof {
                lemma_put_row_prefix(c0, y as int, x0 as int, ds@, i + 1);
            }
            return false;
        }
        i = i + 1;
    }
    assert(ds@.take(ds.len() as int) =~= ds@);
    true
}

fn hline_exec(v: &mut Vec<Vec<char>>, y: i64, a: i64, b: i64, ch: char) -> (ok: bool)
    requires
        -0x1_0000_0000_0000 <= a <= 0x1_0000_0000_0000,
        -0x1_0000_0000_0000 <= b <= 0x1_0000_0000_0000,
    ensures
        ok == (hline(grid(*old(v)), y as int, a as int, b as int, ch) is Some),
        ok ==> grid(*final(v)) == hline(grid(*old(v)), y as int, a as int, b as int, ch).unwrap(),
{
    let ghost c0 = grid(*v);
    if b < a {
        return true;
    }
    let mut j: i64 = a;
    while j <= b
        invariant
            a <= j <= b + 1,
            -0x1_0000_0000_0000 <= a <= 0x1_0000_0000_0000,
            -0x1_0000_0000_0000 <= b <= 0x1_0000_0000_0000,
            c0 == grid(*old(v)),
            hline(c0, y as int, a as int, j - 1, ch) == Some(grid(*v)),
        decreases b + 1 - j,
    {
        if !put_cell(v, y, j, ch) {
            proof {
                lemma_hline_prefix(c0, y as int, a as int, j as int, b as int, ch);
            }
            return false;
        }
        j = j + 1;
    }
    true
}

fn arms_exec(v: &mut Vec<Vec<char>>, x: i64, y: i64, k: i64, plus: bool, py: i64) -> (ok: bool)
    requires
        -0x1_0000_0000_0000 <= x <= 0x1_0000_0000_0000,
        -0x1_0000_0000_0000 <= y <= 0x1_0000_0000_0000,
        -0x1_0000_0000_0000 <= k <= 0x1_0000_0000_0000,
    ensures
        ok == (arms(grid(*old(v)), x as int, y as int, k as int, plus, py as int) is Some),
        ok ==> grid(*final(v)) == arms(grid(*old(v)), x as int, y as int, k as int, plus, py as int).unwrap(),
{
    let ghost c0 = grid(*v);
    let mut l: i64 = 1;
    if k <= 1 {
        return true;
    }
    while l < k
        invariant
            1 <= l <= k,
            -0x1_0000_0000_0000 <= x <= 0x1_0000_0000_0000,
            -0x1_0000_0000_0000 <= y <= 0x1_0000_0000_0000,
            -0x1_0000_0000_0000 <= k <= 0x1_0000_0000_0000,
            c0 == grid(*old(v)),
            arms(c0, x as int, y as int, l as int, plus, py as int) == Some(grid(*v)),
        decreases k - l,
    {
        let ok = put_cell(v, y - l, x - l, '\\') && put_cell(v, y - l, x + l, '/') && (!plus
            || put_cell(v, py, x, '+'));
        if !ok {
            proof {
                lemma_arms_prefix(c0, x as int, y as int, l + 1, k as int, plus, py as int);
            }
            return false;
        }
        l = l + 1;
    }
    true
}


fn bars_exec(v: &mut Vec<Vec<char>>, leaves: &Vec<NodeSlot>, y: i64, a: usize, b: usize) -> (ok: bool)
    requires
        b <= leaves.len(),
        -0x1_0000_0000_0000 <= y <= 0x1_0000_0000_0000,
    ensures
        ok == (bars(grid(*old(v)), NodeSlot::models(leaves@), y as int, a as int, b as int) is Some),
        ok ==> grid(*final(v)) == bars(grid(*old(v)), NodeSlot::models(leaves@), y as int, a as int, b as int).unwrap(),
{
    let ghost c0 = grid(*v);
    let ghost s = NodeSlot::models(leaves@);
    proof {
        NodeSlot::lemma_models(leaves@);
    }
    if b <= a {
        return true;
    }
    let mut k: usize = a;
    while k < b
        invariant
            a <= k <= b,
            b <= leaves.len(),
            -0x1_0000_0000_0000 <= y <= 0x1_0000_0000_0000,
            c0 == grid(*old(v)),
            s == NodeSlot::models(leaves@),
            s.len() == leaves.len(),
            forall|i: int| 0 <= i < leaves.len() ==> #[trigger] s[i] == leaves@[i]@,
            bars(c0, s, y as int, a as int, k as int) == Some(grid(*v)),
        decreases b - k,
    {
        assert(s[k as int].pos == leaves@[k as int].pos);
        let ok = match leaves[k].pos.x {
            Some(x) => put_cell(v, y, x as i64, '|'),
            None => false,
        };
        if !ok {
            proof {
                lemma_bars_prefix(c0, s, y as int, a as int, k + 1, b as int);
            }
            return false;
        }
        k = k + 1;
    }
    true
}

fn pluses_exec(v: &mut Vec<Vec<char>>, leaves: &Vec<NodeSlot>, y: i64, gap: i64, a: usize, b: usize) -> (ok: bool)
    requires
        b <= leaves.len(),
        -0x1_0000_0000_0000 <= y <= 0x1_0000_0000_0000,
        -0x1_0000_0000_0000 <= gap <= 0x1_0000_0000_0000,
    ensures
        ok == (pluses(grid(*old(v)), NodeSlot::models(leaves@), y as int, gap as int, a as int, b as int) is Some),
        ok ==> grid(*final(v)) == pluses(grid(*old(v)), NodeSlot::models(leaves@), y as int, gap as int, a as int, b as int).unwrap(),
{
    let ghost c0 = grid(*v);
    let ghost s = NodeSlot::models(leaves@);
    proof {
        NodeSlot::lemma_models(leaves@);
    }
    if b <= a {
        return true;
    }
    let mut k: usize = a;
    while k < b
        invariant
            a <= k <= b,
            b <= leaves.len(),
            -0x1_0000_0000_0000 <= y <= 0x1_0000_0000_0000,
            -0x1_0000_0000_0000 <= gap <= 0x1_0000_0000_0000,
            c0 == grid(*old(v)),
            s == NodeSlot::models(leaves@),
            s.len() == leaves.len(),
            forall|i: int| 0 <= i < leaves.len() ==> #[trigger] s[i] == leaves@[i]@,
            pluses(c0, s, y as int, gap as int, a as int, k as int) == Some(grid(*v)),
        decreases b - k,
    {
        assert(s[k as int].pos == leaves@[k as int].pos);
        let ok = match leaves[k].pos.x {
            Some(x) => put_cell(v, y, x as i64 + gap, '+'),
            None => false,
        };
        if !ok {
            proof {
                lemma_pluses_prefix(c0, s, y as int, gap as int, a as int, k + 1, b as int);
            }
            return false;
        }
        k = k + 1;
    }
    true
}

/// Writes `number` centered at `(x, y)`, its minus sign to the left.
fn write_number_center(v: &mut Vec<Vec<char>>, number: i32, x: i64, y: i64) -> (ok: bool)
    requires
        -0x1_0000_0000_0000 <= x <= 0x1_0000_0000_0000,
    ensures
        ok == (write_number(grid(*old(v)), number as int, x as int, y as int) is Some),
        ok ==> grid(*final(v)) == write_number(grid(*old(v)), number as int, x as int, y as int).unwrap(),
{
    if number < 0 {
        if number == i32::MIN {
            return false;
        }
        let mag = abs_i32(number);
        let ds = decimal_digits(mag);
        proof {
            lemma_digits_len(mag as nat);
            crate::digits::lemma_ndigits_bound(mag as nat);
        }
        let stepback: i64 = if number < -99999 {
            ((ds.len() + 1) / 2 + 1) as i64
        } else if number < -999 {
            4
        } else if number < -9 {
            2
        } else {
            1
        };
        assert(int_text(number as int).len() == ds@.len() + 1);
        if !put_cell(v, y, x - stepback, '-') {
            return false;
        }
        put_row_exec(v, y, x - (ds.len() / 2) as i64, &ds)
    } else {
        let ds = decimal_digits(number as u32);
        proof {
            lemma_digits_len(number as nat);
            crate::digits::lemma_ndigits_bound(number as nat);
        }
        put_row_exec(v, y, x - (ds.len() / 2) as i64, &ds)
    }
}


fn op_char_exec(op: BinaryNodeType) -> (c: char)
    ensures
        c == op_char(op),
{
    match op {
        BinaryNodeType::Addition => '+',
        BinaryNodeType::Subtraction => '-',
        BinaryNodeType::Multiplication => '*',
        BinaryNodeType::Division => '/',
        BinaryNodeType::DiceRoll { .. } => 'd',
        BinaryNodeType::Hit => 'h',
    }
}

fn abs_i64(v: i64) -> (r: i64)
    requires
        -0x1_0000_0000_0000 <= v <= 0x1_0000_0000_0000,
    ensures
        r == abs(v as int),
{
    if v < 0 {
        -v
    } else {
        v
    }
}

/// The branches between a binary node and its leaves.
fn draw_binary_exec(
    v: &mut Vec<Vec<char>>,
    pos: &NodePositionInfo,
    Ghost(n): Ghost<Node>,
    b: &BinaryNodeSlot,
) -> (ok: bool)
    requires
        placed(n),
        n.pos == *pos,
    ensures
        ok == (draw_binary(grid(*old(v)), n, b.binode, b.leftleaf@, b.rightleaf@) is Some),
        ok ==> grid(*final(v)) == draw_binary(
            grid(*old(v)),
            n,
            b.binode,
            b.leftleaf@,
            b.rightleaf@,
        ).unwrap(),
{
    let x = pos.x.unwrap() as i64;
    let y = pos.y.unwrap() as i64;
    let ch = op_char_exec(b.binode);
    match pos.branch_type {
        Some(BranchType::Cone) => {
            let ly = match b.leftleaf.pos.y {
                Some(v) => v as i64,
                None => return false,
            };
            if !put_cell(v, ly, x, ch) {
                return false;
            }
            arms_exec(v, x, y, abs_i64(y - ly), false, 0)
        },
        Some(BranchType::Trapezoid) => {
            let ly = match b.leftleaf.pos.y {
                Some(v) => v as i64,
                None => return false,
            };
            let lx = match b.leftleaf.pos.x {
                Some(v) => v as i64,
                None => return false,
            };
            let rx = match b.rightleaf.pos.x {
                Some(v) => v as i64,
                None => return false,
            };
            put_cell(v, ly, x, ch) && hline_exec(v, ly + 2, abs_i64(lx) + 2, abs_i64(rx) - 2, '\u{2010}')
                && put_cell(v, ly + 1, lx + 1, '\\') && put_cell(v, ly + 1, rx - 1, '/') && put_cell(
                v,
                y - 1,
                x,
                '|',
            )
        },
        _ => true,
    }
}


fn coord(o: Option<i32>) -> (r: Option<i64>)
    ensures
        r is Some == o is Some,
        r is Some ==> r.unwrap() as int == o.unwrap() as int,
{
    match o {
        Some(v) => Some(v as i64),
        None => None,
    }
}

/// The count, arrow, label and frame of a `Times` node.
#[verifier::rlimit(30)]
fn draw_many_exec(v: &mut Vec<Vec<char>>, pos: &NodePositionInfo, Ghost(n): Ghost<Node>, m: &ManyNodeSlot) -> (ok: bool)
    requires
        placed(n),
        n.pos == *pos,
    ensures
        ok == (draw_many(grid(*old(v)), n, m.manynode, NodeSlot::models(m.leaves@)) is Some),
        ok ==> grid(*final(v)) == draw_many(
            grid(*old(v)),
            n,
            m.manynode,
            NodeSlot::models(m.leaves@),
        ).unwrap(),
{
    let ghost s = NodeSlot::models(m.leaves@);
    proof {
        NodeSlot::lemma_models(m.leaves@);
    }
    let x = pos.x.unwrap() as i64;
    let y = pos.y.unwrap() as i64;
    let len = m.leaves.len();
    if len == 0 {
        return false;
    }
    assert(s[0].pos == m.leaves@[0].pos);
    let tx = match coord(m.leaves[0].pos.x) {
        Some(c) => c,
        None => return false,
    };
    let ty = match coord(m.leaves[0].pos.y) {
        Some(c) => c,
        None => return false,
    };
    // arrow
    if len == 1 {
        if !(put_cell(v, ty + 1, tx, '|') && put_cell(v, ty + 2, tx, '|')) {
            return false;
        }
    } else {
        assert(s[1].pos == m.leaves@[1].pos);
        let fx = match coord(m.leaves[1].pos.x) {
            Some(c) => c,
            None => return false,
        };
        if !(hline_exec(v, ty, tx + 2, fx - 3, '-') && put_cell(v, ty, fx - 2, '>')) {
            return false;
        }
    }
    let ghost c1 = grid(*v);
    // label
    match m.manynode {
        ManyNodeType::Times { dice_special: Some(ds) } => {
            let r = match m.leaves[0].noderesult {
                Some(r) => r,
                None => return false,
            };
            if r.value == i32::MIN || ds == i32::MIN {
                return false;
            }
            let wstep = number_w(r.value) as i64;
            let wds = number_w_left(ds) as i64;
            if !(put_cell(v, ty, tx + wstep, 'd') && write_number_center(v, ds, tx + wstep + wds, ty)) {
                return false;
            }
        },
        ManyNodeType::Times { dice_special: None } => {
            if !put_cell(v, ty, tx - 1, 'x') {
                return false;
            }
        },
    }
    assert(draw_label(c1, m.manynode, s, tx as int, ty as int) == Some(grid(*v)));
    draw_scaffold_exec(v, x, y, ty, m)
}

/// The frame joining the summed leaves of a `Times` node at `(x, y)`.
#[verifier::rlimit(30)]
fn draw_scaffold_exec(v: &mut Vec<Vec<char>>, x: i64, y: i64, ty: i64, m: &ManyNodeSlot) -> (ok: bool)
    requires
        -0x8000_0000 <= x < 0x8000_0000,
        -0x8000_0000 <= y < 0x8000_0000,
        -0x8000_0000 <= ty < 0x8000_0000,
    ensures
        ok == (draw_scaffold(grid(*old(v)), NodeSlot::models(m.leaves@), x as int, y as int, ty as int) is Some),
        ok ==> grid(*final(v)) == draw_scaffold(
            grid(*old(v)),
            NodeSlot::models(m.leaves@),
            x as int,
            y as int,
            ty as int,
        ).unwrap(),
{
    let ghost s = NodeSlot::models(m.leaves@);
    proof {
        NodeSlot::lemma_models(m.leaves@);
    }
    let len = m.leaves.len();
    if len == 3 {
        assert(s[1].pos == m.leaves@[1].pos);
        assert(s[2].pos == m.leaves@[2].pos);
        let h1 = match m.leaves[1].pos.h {
            Some(h) => h,
            None => return false,
        };
        let small = if h1 == 1 {
            true
        } else {
            match m.leaves[2].pos.h {
                Some(h) => h == 1,
                None => return false,
            }
        };
        if small {
            let ly = match coord(m.leaves[1].pos.y) {
                Some(c) => c,
                None => return false,
            };
            return arms_exec(v, x, y, abs_i64(y - ly), true, ty);
        }
    }
    if len >= 3 {
        assert(s[1].pos == m.leaves@[1].pos);
        assert(s[2].pos == m.leaves@[2].pos);
        assert(s[len - 1].pos == m.leaves@[len - 1].pos);
        let fx = match coord(m.leaves[1].pos.x) {
            Some(c) => c,
            None => return false,
        };
        let lastx = match coord(m.leaves[len - 1].pos.x) {
            Some(c) => c,
            None => return false,
        };
        let x2 = match coord(m.leaves[2].pos.x) {
            Some(c) => c,
            None => return false,
        };
        let gap = (x2 - fx) / 2;
        assert(gap as int == half(x2 - fx));
        return hline_exec(v, ty + 2, fx + 2, lastx - 2, '\u{2010}') && put_cell(v, ty + 1, fx + 1, '\\')
            && put_cell(v, ty + 1, lastx - 1, '/') && bars_exec(v, &m.leaves, ty + 1, 2, len - 1)
            && pluses_exec(v, &m.leaves, ty, gap, 1, len - 1) && put_cell(v, y - 1, x, '|');
    }
    if len == 2 {
        assert(s[1].pos == m.leaves@[1].pos);
        let cx = match coord(m.leaves[1].pos.x) {
            Some(c) => c,
            None => return false,
        };
        return put_cell(v, ty + 1, cx, '|') && put_cell(v, y - 1, x, '|');
    }
    true
}


proof fn lemma_write_all_prefix(c: Seq<Seq<char>>, s: Seq<Node>, k: int)
    requires
        0 <= k <= s.len(),
        write_all(c, s.take(k)) is None,
    ensures
        write_all(c, s) is None,
    decreases s.len() - k,
{
    if k == s.len() {
        assert(s.take(k) =~= s);
    } else {
        assert(s.take(k + 1).drop_last() =~= s.take(k));
        lemma_write_all_prefix(c, s, k + 1);
    }
}

/// Draws a node and everything under it (but the leaves of a hidden die).
fn write(slot: &NodeSlot, v: &mut Vec<Vec<char>>) -> (ok: bool)
    ensures
        ok == (write_node(grid(*old(v)), slot@) is Some),
        ok ==> grid(*final(v)) == write_node(grid(*old(v)), slot@).unwrap(),
    decreases slot,
{
    let newx = match slot.pos.x {
        Some(c) => c as i64,
        None => return false,
    };
    let newy = match slot.pos.y {
        Some(c) => c as i64,
        None => return false,
    };
    let number = match slot.noderesult {
        Some(r) => r.value,
        None => return false,
    };
    if !write_number_center(v, number, newx, newy) {
        return false;
    }
    let ok = match &slot.node {
        NodeType::Binary(b) => draw_binary_exec(v, &slot.pos, Ghost(slot@), b),
        NodeType::Zero(_) => true,
        NodeType::Many(m) => draw_many_exec(v, &slot.pos, Ghost(slot@), m),
    };
    if !ok {
        return false;
    }
    match slot.pos.branch_type {
        Some(BranchType::Dot) => true,
        Some(_) => match &slot.node {
            NodeType::Zero(_) => true,
            NodeType::Binary(b) => {
                proof {
                    assert(decreases_to!(slot => slot.node));
                    assert(decreases_to!(slot.node => *b));
                    assert(decreases_to!(*b => b.leftleaf));
                    assert(decreases_to!(*b => b.rightleaf));
                }
                write(&b.leftleaf, v) && write(&b.rightleaf, v)
            },
            NodeType::Many(m) => {
                proof {
                    assert(decreases_to!(slot => slot.node));
                    assert(decreases_to!(slot.node => *m));
                }
                write_leaves(m, v)
            },
        },
        None => false,
    }
}

fn write_leaves(m: &ManyNodeSlot, v: &mut Vec<Vec<char>>) -> (ok: bool)
    ensures
        ok == (write_all(grid(*old(v)), NodeSlot::models(m.leaves@)) is Some),
        ok ==> grid(*final(v)) == write_all(grid(*old(v)), NodeSlot::models(m.leaves@)).unwrap(),
    decreases m,
{
    let ghost c0 = grid(*v);
    let ghost s0 = NodeSlot::models(m.leaves@);
    proof {
        NodeSlot::lemma_models(m.leaves@);
    }
    let len = m.leaves.len();
    let mut i: usize = 0;
    assert(s0.take(0) =~= Seq::<Node>::empty());
    while i < len
        invariant
            0 <= i <= len,
            len == m.leaves@.len(),
            c0 == grid(*old(v)),
            s0 == NodeSlot::models(m.leaves@),
            s0.len() == len,
            forall|k: int| 0 <= k < len ==> #[trigger] s0[k] == m.leaves@[k]@,
            write_all(c0, s0.take(i as int)) == Some(grid(*v)),
        decreases len - i,
    {
        proof {
            assert(decreases_to!(m => m.leaves));
            assert(decreases_to!(m.leaves => m.leaves@));
            assert(decreases_to!(m.leaves@ => m.leaves@[i as int]));
            assert(s0.take(i + 1).drop_last() =~= s0.take(i as int));
            assert(s0.take(i + 1).last() == s0[i as int]);
        }
        if !write(&m.leaves[i], v) {
            proof {
                lemma_write_all_prefix(c0, s0, i + 1);
            }
            return false;
        }
        i = i + 1;
    }
    assert(s0.take(len as int) =~= s0);
    true
}

fn blank_row(cols: usize) -> (row: Vec<char>)
    ensures
        row@ == Seq::new(cols as nat, |k: int| ' '),
{
    let mut row: Vec<char> = Vec::new();
    let mut j: usize = 0;
    while j < cols
        invariant
            j <= cols,
            row@ =~= Seq::new(j as nat, |k: int| ' '),
        decreases cols - j,
    {
        row.push(' ');
        j = j + 1;
    }
    row
}

/// A canvas of `rows` rows of `cols` spaces.
fn blank_canvas(rows: usize, cols: usize) -> (v: Vec<Vec<char>>)
    ensures
        grid(v) == blank(rows as nat, cols as nat),
{
    let mut v: Vec<Vec<char>> = Vec::new();
    let mut i: usize = 0;
    while i < rows
        invariant
            i <= rows,
            v@.len() == i,
            grid(v) =~= Seq::new(i as nat, |k: int| Seq::new(cols as nat, |j: int| ' ')),
        decreases rows - i,
    {
        let row = blank_row(cols);
        let ghost g0 = grid(v);
        let ghost v0 = v@;
        v.push(row);
        proof {
            assert forall|k: int| 0 <= k < i + 1 implies #[trigger] grid(v)[k] == Seq::new(
                cols as nat,
                |j: int| ' ',
            ) by {
                if k < i {
                    assert(v@[k] == v0[k]);
                    assert(g0[k] == v0[k]@);
                }
            }
        }
        i = i + 1;
    }
    v
}


/// Lays out the tree and draws it on a canvas large enough for every node,
/// with four free columns on each side and a free row above and below. The
/// tree is left with absolute canvas positions. Returns `None` where the
/// layout fails or a write falls outside the canvas.
pub fn draw_2d_vec(startslot: &mut NodeSlot) -> (r: Option<Vec<Vec<char>>>)
    ensures
        r is Some == (drawing(old(startslot)@) is Some),
        r is Some ==> drawing(old(startslot)@) == Some((final(startslot)@, grid(r.unwrap()))),
{
    let ghost n0 = startslot@;
    if !set_pos(startslot) {
        return None;
    }
    startslot.pos.x = Some(0);
    startslot.pos.y = Some(0);
    assert(startslot@ == at(layout(n0).unwrap(), 0, 0));
    let max = match set_pos_abs(startslot) {
        Some(m) => m,
        None => return None,
    };
    let span = match max.max_x.checked_sub(max.min_x) {
        Some(v) => v,
        None => return None,
    };
    let full_w = match span.checked_add(1) {
        Some(v) => v,
        None => return None,
    };
    if max.min_y == i32::MIN || full_w < 0 {
        return None;
    }
    let nminx = match 0i32.checked_sub(max.min_x) {
        Some(v) => v,
        None => return None,
    };
    let dx = match nminx.checked_add(4) {
        Some(v) => v,
        None => return None,
    };
    let nminy = match 0i32.checked_sub(max.min_y) {
        Some(v) => v,
        None => return None,
    };
    let dy = match nminy.checked_add(1) {
        Some(v) => v,
        None => return None,
    };
    let rows = (abs_i32(max.min_y) as usize) + 3;
    let cols = (full_w as usize) + 9;
    let mut v = blank_canvas(rows, cols);
    if !trasl(startslot, dx, dy) {
        return None;
    }
    if !write(startslot, &mut v) {
        return None;
    }
    Some(v)
}

/// The canvas as text: each row, cut to the width of the first, and a newline.
pub open spec fn canvas_text(c: Seq<Seq<char>>, w: int) -> Seq<char>
    decreases c.len(),
{
    if c.len() == 0 {
        Seq::empty()
    } else {
        canvas_text(c.drop_last(), w) + c.last().take(w).push('\n')
    }
}

/// Columns `a` to `b` (excluded) of every row, each followed by a newline.
pub open spec fn block_text(c: Seq<Seq<char>>, a: int, b: int) -> Seq<char>
    decreases c.len(),
{
    if c.len() == 0 {
        Seq::empty()
    } else {
        block_text(c.drop_last(), a, b) + c.last().subrange(a, b).push('\n')
    }
}

/// The first `k` full blocks of `t` columns.
pub open spec fn blocks_text(c: Seq<Seq<char>>, t: int, k: int) -> Seq<char>
    decreases k,
{
    if k <= 0 {
        Seq::empty()
    } else {
        blocks_text(c, t, k - 1) + block_text(c, (k - 1) * t, k * t)
    }
}

/// The canvas cut into blocks of `t` columns, one under the other.
pub open spec fn terminal_text(c: Seq<Seq<char>>, t: int) -> Seq<char> {
    let w = c[0].len() as int;
    blocks_text(c, t, w / t) + block_text(c, (w / t) * t, w)
}

} // verus!
