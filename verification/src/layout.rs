//! Layout of a roll tree for its ascii drawing: each node gets the widths and
//! height of the trapezoid under it, and each leaf its position relative to
//! its root. Every step is done in `i32`; the layout fails where a value
//! leaves that range or where a node lacks the data the step reads.
use vstd::prelude::*;
use crate::tree::{
    Node, NodeKind, NodePositionInfo, BranchType, BinaryNodeType, ManyNodeType, NodeSlot, NodeType,
    BinaryNodeSlot, ManyNodeSlot, DiceResult,
};
use crate::digits::{number_w_left_spec, number_w_left};

verus! {

pub open spec fn fits(v: int) -> bool {
    i32::MIN <= v <= i32::MAX
}

/// Rust's `/ 2` on integers, which rounds toward zero.
pub open spec fn half(v: int) -> int {
    if v >= 0 {
        v / 2
    } else {
        -((-v) / 2)
    }
}

pub open spec fn imax(a: int, b: int) -> int {
    if a >= b {
        a
    } else {
        b
    }
}

pub open spec fn imin(a: int, b: int) -> int {
    if a <= b {
        a
    } else {
        b
    }
}

pub open spec fn clamp0(v: int) -> int {
    if v < 0 {
        0
    } else {
        v
    }
}

/// The widths and the height of a node are all known.
pub open spec fn complete(p: NodePositionInfo) -> bool {
    &&& p.tipwidth_going_west is Some
    &&& p.tipwidth_going_east is Some
    &&& p.basewidth_going_west is Some
    &&& p.basewidth_going_east is Some
    &&& p.h is Some
}

pub open spec fn tw(n: Node) -> int {
    n.pos.tipwidth_going_west.unwrap() as int
}

pub open spec fn te(n: Node) -> int {
    n.pos.tipwidth_going_east.unwrap() as int
}

pub open spec fn bw(n: Node) -> int {
    n.pos.basewidth_going_west.unwrap() as int
}

pub open spec fn be(n: Node) -> int {
    n.pos.basewidth_going_east.unwrap() as int
}

pub open spec fn hh(n: Node) -> int {
    n.pos.h.unwrap() as int
}

/// `n` placed at `(x, y)` relative to its root.
pub open spec fn at(n: Node, x: int, y: int) -> Node {
    Node { pos: NodePositionInfo { x: Some(x as i32), y: Some(y as i32), ..n.pos }, ..n }
}

/// The layout data of a node with the given widths and height.
pub open spec fn shape(
    old_pos: NodePositionInfo,
    tip_w: int,
    tip_e: int,
    base_w: int,
    base_e: int,
    h: int,
    b: BranchType,
) -> NodePositionInfo {
    NodePositionInfo {
        tipwidth_going_west: Some(tip_w as i32),
        tipwidth_going_east: Some(tip_e as i32),
        basewidth_going_west: Some(base_w as i32),
        basewidth_going_east: Some(base_e as i32),
        h: Some(h as i32),
        branch_type: Some(b),
        ..old_pos
    }
}

/// `tip_l + 1 + tip_r + 1 + 2 * (hmin - 1) + 1`, the distance between two
/// neighbouring leaves, computed step by step in `i32`.
pub open spec fn spacing(tip_l: int, tip_r: int, hmin: int) -> Option<int> {
    let a1 = tip_l + 1;
    let a2 = a1 + tip_r;
    let a3 = a2 + 1;
    let b1 = hmin - 1;
    let b2 = 2 * b1;
    let a4 = a3 + b2;
    let d = a4 + 1;
    if fits(a1) && fits(a2) && fits(a3) && fits(b1) && fits(b2) && fits(a4) && fits(d) {
        Some(d)
    } else {
        None
    }
}

/// A leaf ready to be placed: laid out first when it has no height yet.
pub open spec fn prepared(c: Node) -> Option<Node>
    decreases c, 2int,
{
    let c1 = if c.pos.h is None {
        layout(c)
    } else {
        Some(c)
    };
    match c1 {
        Some(c2) => if complete(c2.pos) {
            Some(c2)
        } else {
            None
        },
        None => None,
    }
}

/// Every leaf prepared, in order.
pub open spec fn prepared_all(s: Seq<Node>) -> Option<Seq<Node>>
    decreases s, 3int,
{
    if s.len() == 0 {
        Some(Seq::empty())
    } else {
        match prepared_all(s.drop_last()) {
            Some(p) => match prepared(s.last()) {
                Some(c) => Some(p.push(c)),
                None => None,
            },
            None => None,
        }
    }
}

/// A hidden die: a dot as wide as its size.
pub open spec fn layout_dot(n: Node, op: BinaryNodeType, l: Node, r: Node) -> Node {
    let w = be(r);
    Node {
        pos: shape(n.pos, w, w, w, w, 1, BranchType::Dot),
        res: n.res,
        kind: NodeKind::Binary(op, Box::new(at(l, 2, 2)), Box::new(at(r, 2, 2))),
    }
}

/// Two leaves under a small cone; `pad` is 2 beside a single number, 1 beside a small cone.
pub open spec fn layout_cone(n: Node, op: BinaryNodeType, l: Node, r: Node, pad: int) -> Option<
    Node,
> {
    let s = bw(l) + be(r);
    let base = s + pad;
    let tip = tw(l) + te(r);
    let h = imax(hh(l), hh(r)) + (4 - pad);
    let off = 4 - pad;
    if fits(s) && fits(base) && fits(tip) && fits(h) {
        Some(
            Node {
                pos: shape(n.pos, tip, tip, base, base, h, BranchType::Cone),
                res: n.res,
                kind: NodeKind::Binary(op, Box::new(at(l, -off, -off)), Box::new(at(r, off, -off))),
            },
        )
    } else {
        None
    }
}

/// Two leaves under a trapezoid.
pub open spec fn layout_trapezoid(n: Node, op: BinaryNodeType, l: Node, r: Node) -> Option<Node> {
    let tl = if te(l) < 1 {
        1
    } else {
        te(l)
    };
    let tr = if tw(r) < 1 {
        1
    } else {
        tw(r)
    };
    match spacing(tl, tr, imin(hh(l), hh(r))) {
        Some(d) => {
            let base_w = bw(l) + half(d);
            let base_e = be(l) + half(d);
            let h = imax(hh(l), hh(r)) + 4;
            let te1 = base_e - h;
            let te2 = te1 + 1;
            let tw1 = base_w - h;
            let tw2 = tw1 + 1;
            if fits(base_w) && fits(base_e) && fits(h) && fits(te1) && fits(te2) && fits(tw1)
                && fits(tw2) && fits(-d) {
                Some(
                    Node {
                        pos: shape(
                            n.pos,
                            clamp0(tw2),
                            clamp0(te2),
                            base_w,
                            base_e,
                            h,
                            BranchType::Trapezoid,
                        ),
                        res: n.res,
                        kind: NodeKind::Binary(
                            op,
                            Box::new(at(l, half(-d), -4)),
                            Box::new(at(r, half(d), -4)),
                        ),
                    },
                )
            } else {
                None
            }
        },
        None => None,
    }
}

pub open spec fn layout_binary(n: Node, op: BinaryNodeType, l: Node, r: Node) -> Option<Node> {
    if op == (BinaryNodeType::DiceRoll { hidden: true }) {
        Some(layout_dot(n, op, l, r))
    } else if te(l) == 0 && tw(r) == 0 && (hh(l) == 1 || hh(r) == 1) {
        layout_cone(n, op, l, r, 2)
    } else if te(l) == 0 && tw(r) == 0 && (hh(l) == 3 || hh(r) == 3) {
        layout_cone(n, op, l, r, 1)
    } else {
        layout_trapezoid(n, op, l, r)
    }
}

/// Zero repetitions: the count alone, under a short trunk.
pub open spec fn layout_times0(n: Node, m: ManyNodeType, s: Seq<Node>) -> Option<Node> {
    let lone = s[0];
    let tw1 = tw(lone) - 3;
    let te1 = te(lone) - 3;
    let h = hh(lone) + 3;
    if fits(tw1) && fits(te1) && fits(h) {
        Some(
            Node {
                pos: shape(
                    n.pos,
                    clamp0(tw1),
                    clamp0(te1),
                    bw(lone),
                    be(lone),
                    h,
                    BranchType::Trapezoid,
                ),
                res: n.res,
                kind: NodeKind::Many(m, seq![at(lone, 0, -3)]),
            },
        )
    } else {
        None
    }
}

/// One repetition: the count on the left, the expression under the node.
pub open spec fn layout_times1(n: Node, m: ManyNodeType, s: Seq<Node>) -> Option<Node> {
    let l0 = s[0];
    let l1 = s[1];
    match spacing(tw(l0), te(l1), imin(hh(l0), hh(l1))) {
        Some(d) => {
            let base_w = bw(l0) + d;
            let base_e = be(l1);
            let h = imax(hh(l0), hh(l1)) + 2;
            let te1 = base_e - h;
            let te2 = te1 + 1;
            let tw1 = base_w - h;
            let tw2 = tw1 + 1;
            let tw3 = tw2 + 2;
            if fits(base_w) && fits(h) && fits(te1) && fits(te2) && fits(tw1) && fits(tw2) && fits(
                tw3,
            ) && fits(-d) {
                Some(
                    Node {
                        pos: shape(
                            n.pos,
                            clamp0(tw3),
                            clamp0(te2),
                            base_w,
                            base_e,
                            h,
                            BranchType::Trapezoid,
                        ),
                        res: n.res,
                        kind: NodeKind::Many(m, seq![at(l0, -d, -2), at(l1, 0, -2)]),
                    },
                )
            } else {
                None
            }
        },
        None => None,
    }
}

/// The die size written after the count of a `Times` of dice, or 0.
pub open spec fn dice_size_of(m: ManyNodeType) -> int {
    match m {
        ManyNodeType::Times { dice_special: Some(d) } => d as int,
        ManyNodeType::Times { dice_special: None } => 0,
    }
}

/// Two repetitions of a single number or die: a small cone and a `x2`.
pub open spec fn layout_times2(n: Node, m: ManyNodeType, s: Seq<Node>) -> Option<Node> {
    let l0 = s[0];
    let l1 = s[1];
    let l2 = s[2];
    let sw = be(l1) + be(l2);
    let base_e = sw + 2;
    let bw1 = sw + 7;
    let base_w = bw1 + 2;
    let h = imax(hh(l1), hh(l2)) + 2;
    let ds = dice_size_of(m);
    if fits(sw) && fits(base_e) && fits(bw1) && fits(base_w) && fits(h) && ds != i32::MIN {
        let step = number_w_left_spec(ds);
        Some(
            Node {
                pos: shape(n.pos, 5, 0, base_w, base_e, h, BranchType::Times2Cone1),
                res: n.res,
                kind: NodeKind::Many(
                    m,
                    seq![at(l0, -6 - 2 * step, -2), at(l1, -2, -2), at(l2, 2, -2)],
                ),
            },
        )
    } else {
        None
    }
}

/// Where the `j`-th summed leaf of an n-times node is placed.
pub open spec fn times_leaf_x(x0: int, step: int, j: int) -> int {
    x0 + (j - 1) * step
}

/// The leaves of an n-times node once placed: the count at `lx`, the others in a row.
pub open spec fn times_n_leaves(s: Seq<Node>, lx: int, x0: int, step: int) -> Seq<Node> {
    Seq::new(
        s.len(),
        |j: int|
            if j == 0 {
                at(s[0], lx, -4)
            } else {
                at(s[j], times_leaf_x(x0, step, j), -4)
            },
    )
}

/// Any number of repetitions: the summed leaves in a row, the count on the left.
pub open spec fn layout_times_n(n: Node, m: ManyNodeType, s: Seq<Node>) -> Option<Node> {
    let l0 = s[0];
    let l1 = s[1];
    let l2 = s[2];
    let cnt = (s.len() - 1) as int;
    let ni = cnt as i32 as int;
    match spacing(te(l1), tw(l2), imin(hh(l1), hh(l2))) {
        Some(d1) => {
            let p1 = d1 * ni;
            let q1 = ni - 1;
            let s1 = p1 + q1;
            let r1 = d1 - 1;
            let e = s1 - r1;
            let step = d1 + 1;
            let x0 = half(-e);
            match spacing(te(l0), tw(l1), imin(hh(l0), hh(l1))) {
                Some(d2) => {
                    let ds = dice_size_of(m);
                    let a0 = x0 - d2;
                    let a1 = a0 - 1;
                    let h = imax(hh(l0), hh(l1)) + 4;
                    let he = half(e);
                    let te1 = he + te(l1);
                    let te2 = te1 - 4;
                    let tw1 = he + d2;
                    let tw2 = tw1 + tw(l0);
                    let tw3 = tw2 - 4;
                    let tw4 = tw3 + 1;
                    let base_e = he + be(l1);
                    let bw1 = he + d2;
                    let bw2 = bw1 + bw(l0);
                    let base_w = bw2 + 1;
                    if fits(p1) && fits(q1) && fits(s1) && fits(r1) && fits(e) && fits(-e) && fits(
                        step,
                    ) && (forall|j: int| 1 <= j <= cnt ==> fits(#[trigger] times_leaf_x(x0, step, j + 1)))
                        && ds != i32::MIN && fits(a0) && fits(a1) && fits(
                        a1 - 2 * number_w_left_spec(ds),
                    ) && fits(h) && fits(te1) && fits(te2) && fits(tw1) && fits(tw2) && fits(
                        tw3,
                    ) && fits(tw4) && fits(base_e) && fits(bw1) && fits(bw2) && fits(base_w) {
                        Some(
                            Node {
                                pos: shape(
                                    n.pos,
                                    clamp0(tw4),
                                    clamp0(te2),
                                    base_w,
                                    base_e,
                                    h,
                                    BranchType::TimesN,
                                ),
                                res: n.res,
                                kind: NodeKind::Many(
                                    m,
                                    times_n_leaves(
                                        s,
                                        a1 - 2 * number_w_left_spec(ds),
                                        x0,
                                        step,
                                    ),
                                ),
                            },
                        )
                    } else {
                        None
                    }
                },
                None => None,
            }
        },
        None => None,
    }
}

pub open spec fn layout_many(n: Node, m: ManyNodeType, s: Seq<Node>) -> Option<Node> {
    if s.len() == 1 {
        layout_times0(n, m, s)
    } else if s.len() == 2 {
        layout_times1(n, m, s)
    } else if s.len() == 3 && (hh(s[1]) == 1 || hh(s[2]) == 1) {
        layout_times2(n, m, s)
    } else if s.len() >= 3 {
        layout_times_n(n, m, s)
    } else {
        None
    }
}

/// The layout of a node and of every leaf under it that has no height yet.
pub open spec fn layout(n: Node) -> Option<Node>
    decreases n, 1int,
{
    match n.kind {
        NodeKind::Number(_) => Some(n),
        NodeKind::Binary(op, l, r) => match prepared(*l) {
            Some(l1) => match prepared(*r) {
                Some(r1) => layout_binary(n, op, l1, r1),
                None => None,
            },
            None => None,
        },
        NodeKind::Many(m, s) => match prepared_all(s) {
            Some(s1) => layout_many(n, m, s1),
            None => None,
        },
    }
}

pub proof fn lemma_prepared_all(s: Seq<Node>)
    ensures
        prepared_all(s) is Some <==> (forall|k: int| 0 <= k < s.len() ==> #[trigger] prepared(s[k]) is Some),
        prepared_all(s) is Some ==> prepared_all(s).unwrap().len() == s.len() && (forall|k: int|
            0 <= k < s.len() ==> #[trigger] prepared(s[k]) == Some(prepared_all(s).unwrap()[k])),
    decreases s.len(),
{
    if s.len() > 0 {
        lemma_prepared_all(s.drop_last());
        assert forall|k: int| 0 <= k < s.len() - 1 implies s.drop_last()[k] == s[k] by {}
        if prepared_all(s) is None {
            if prepared_all(s.drop_last()) is None {
                let k = choose|k: int| 0 <= k < s.len() - 1 && !(#[trigger] prepared(s.drop_last()[k]) is Some);
                assert(prepared(s[k]) is None);
            } else {
                assert(prepared(s[s.len() - 1]) is None);
            }
        }
    }
}


fn complete_pos(p: &NodePositionInfo) -> (b: bool)
    ensures
        b == complete(*p),
{
    p.tipwidth_going_west.is_some() && p.tipwidth_going_east.is_some()
        && p.basewidth_going_west.is_some() && p.basewidth_going_east.is_some() && p.h.is_some()
}

/// The distance between the centers of two neighbouring leaves.
fn spacing_exec(tl: i32, tr: i32, hmin: i32) -> (r: Option<i32>)
    ensures
        r matches Some(d) ==> spacing(tl as int, tr as int, hmin as int) == Some(d as int),
        r is None ==> spacing(tl as int, tr as int, hmin as int) is None,
{
    let a1 = match tl.checked_add(1) {
        Some(v) => v,
        None => return None,
    };
    let a2 = match a1.checked_add(tr) {
        Some(v) => v,
        None => return None,
    };
    let a3 = match a2.checked_add(1) {
        Some(v) => v,
        None => return None,
    };
    let b1 = match hmin.checked_sub(1) {
        Some(v) => v,
        None => return None,
    };
    let b2 = match 2i32.checked_mul(b1) {
        Some(v) => v,
        None => return None,
    };
    let a4 = match a3.checked_add(b2) {
        Some(v) => v,
        None => return None,
    };
    let d = match a4.checked_add(1) {
        Some(v) => v,
        None => return None,
    };
    Some(d)
}

fn max_i32(a: i32, b: i32) -> (r: i32)
    ensures
        r as int == imax(a as int, b as int),
{
    if a >= b {
        a
    } else {
        b
    }
}

fn min_i32(a: i32, b: i32) -> (r: i32)
    ensures
        r as int == imin(a as int, b as int),
{
    if a <= b {
        a
    } else {
        b
    }
}

fn clamp0_i32(v: i32) -> (r: i32)
    ensures
        r as int == clamp0(v as int),
{
    if v < 0 {
        0
    } else {
        v
    }
}

fn half_i32(v: i32) -> (r: i32)
    ensures
        r as int == half(v as int),
{
    v / 2
}

fn place(n: &mut NodeSlot, x: i32, y: i32)
    ensures
        final(n)@ == at(old(n)@, x as int, y as int),
{
    n.pos.x = Some(x);
    n.pos.y = Some(y);
}

fn set_shape(
    p: &mut NodePositionInfo,
    tip_w: i32,
    tip_e: i32,
    base_w: i32,
    base_e: i32,
    h: i32,
    b: BranchType,
)
    ensures
        *final(p) == shape(
            *old(p),
            tip_w as int,
            tip_e as int,
            base_w as int,
            base_e as int,
            h as int,
            b,
        ),
{
    p.tipwidth_going_west = Some(tip_w);
    p.tipwidth_going_east = Some(tip_e);
    p.basewidth_going_west = Some(base_w);
    p.basewidth_going_east = Some(base_e);
    p.h = Some(h);
    p.branch_type = Some(b);
}


pub open spec fn binary_model(p: NodePositionInfo, res: Option<DiceResult>, b: BinaryNodeSlot) -> Node {
    Node {
        pos: p,
        res: res,
        kind: NodeKind::Binary(b.binode, Box::new(b.leftleaf@), Box::new(b.rightleaf@)),
    }
}

/// The layout of a node with two prepared leaves.
fn binary_shape(
    p: &mut NodePositionInfo,
    b: &mut BinaryNodeSlot,
    Ghost(res): Ghost<Option<DiceResult>>,
) -> (ok: bool)
    requires
        complete(old(b).leftleaf@.pos),
        complete(old(b).rightleaf@.pos),
    ensures
        ok == (layout_binary(
            binary_model(*old(p), res, *old(b)),
            old(b).binode,
            old(b).leftleaf@,
            old(b).rightleaf@,
        ) is Some),
        ok ==> layout_binary(
            binary_model(*old(p), res, *old(b)),
            old(b).binode,
            old(b).leftleaf@,
            old(b).rightleaf@,
        ).unwrap() == binary_model(*final(p), res, *final(b)),
{
    let ghost n0 = binary_model(*p, res, *b);
    let ghost l = b.leftleaf@;
    let ghost r = b.rightleaf@;
    let op = b.binode;
    let lte = b.leftleaf.pos.tipwidth_going_east.unwrap();
    let ltw = b.leftleaf.pos.tipwidth_going_west.unwrap();
    let lbe = b.leftleaf.pos.basewidth_going_east.unwrap();
    let lbw = b.leftleaf.pos.basewidth_going_west.unwrap();
    let lh = b.leftleaf.pos.h.unwrap();
    let rte = b.rightleaf.pos.tipwidth_going_east.unwrap();
    let rtw = b.rightleaf.pos.tipwidth_going_west.unwrap();
    let rbe = b.rightleaf.pos.basewidth_going_east.unwrap();
    let rh = b.rightleaf.pos.h.unwrap();
    if op == (BinaryNodeType::DiceRoll { hidden: true }) {
        set_shape(p, rbe, rbe, rbe, rbe, 1, BranchType::Dot);
        place(&mut b.leftleaf, 2, 2);
        place(&mut b.rightleaf, 2, 2);
        assert(binary_model(*p, res, *b) == layout_dot(n0, op, l, r));
        return true;
    }
    if lte == 0 && rtw == 0 && (lh == 1 || rh == 1 || lh == 3 || rh == 3) {
        let pad: i32 = if lh == 1 || rh == 1 {
            2
        } else {
            1
        };
        let off: i32 = 4 - pad;
        let sw = match lbw.checked_add(rbe) {
            Some(v) => v,
            None => return false,
        };
        let base = match sw.checked_add(pad) {
            Some(v) => v,
            None => return false,
        };
        let tip = match ltw.checked_add(rte) {
            Some(v) => v,
            None => return false,
        };
        let h = match max_i32(lh, rh).checked_add(off) {
            Some(v) => v,
            None => return false,
        };
        set_shape(p, tip, tip, base, base, h, BranchType::Cone);
        place(&mut b.leftleaf, -off, -off);
        place(&mut b.rightleaf, off, -off);
        assert(layout_cone(n0, op, l, r, pad as int) == Some(binary_model(*p, res, *b)));
        return true;
    }
    let tl = if lte < 1 {
        1
    } else {
        lte
    };
    let tr = if rtw < 1 {
        1
    } else {
        rtw
    };
    let d = match spacing_exec(tl, tr, min_i32(lh, rh)) {
        Some(v) => v,
        None => return false,
    };
    let hd = half_i32(d);
    let base_w = match lbw.checked_add(hd) {
        Some(v) => v,
        None => return false,
    };
    let base_e = match lbe.checked_add(hd) {
        Some(v) => v,
        None => return false,
    };
    let h = match max_i32(lh, rh).checked_add(4) {
        Some(v) => v,
        None => return false,
    };
    let te1 = match base_e.checked_sub(h) {
        Some(v) => v,
        None => return false,
    };
    let te2 = match te1.checked_add(1) {
        Some(v) => v,
        None => return false,
    };
    let tw1 = match base_w.checked_sub(h) {
        Some(v) => v,
        None => return false,
    };
    let tw2 = match tw1.checked_add(1) {
        Some(v) => v,
        None => return false,
    };
    let nd = match 0i32.checked_sub(d) {
        Some(v) => v,
        None => return false,
    };
    set_shape(p, clamp0_i32(tw2), clamp0_i32(te2), base_w, base_e, h, BranchType::Trapezoid);
    place(&mut b.leftleaf, half_i32(nd), -4);
    place(&mut b.rightleaf, hd, -4);
    assert(layout_trapezoid(n0, op, l, r) == Some(binary_model(*p, res, *b)));
    true
}


pub open spec fn many_model(p: NodePositionInfo, res: Option<DiceResult>, m: ManyNodeSlot) -> Node {
    Node { pos: p, res: res, kind: NodeKind::Many(m.manynode, NodeSlot::models(m.leaves@)) }
}

fn dice_size_exec(m: ManyNodeType) -> (d: i32)
    ensures
        d as int == dice_size_of(m),
{
    match m {
        ManyNodeType::Times { dice_special: Some(d) } => d,
        ManyNodeType::Times { dice_special: None } => 0,
    }
}

/// The layout of a `Times` node with prepared leaves.
fn times_small_shape(p: &mut NodePositionInfo, m: &mut ManyNodeSlot, Ghost(res): Ghost<Option<DiceResult>>) -> (ok: bool)
    requires
        forall|k: int| 0 <= k < old(m).leaves@.len() ==> complete(#[trigger] old(m).leaves@[k].pos),
        old(m).leaves@.len() == 1 || old(m).leaves@.len() == 2 || (old(m).leaves@.len() == 3 && (
        old(m).leaves@[1].pos.h.unwrap() == 1 || old(m).leaves@[2].pos.h.unwrap() == 1)),
    ensures
        ok == (layout_many(
            many_model(*old(p), res, *old(m)),
            old(m).manynode,
            NodeSlot::models(old(m).leaves@),
        ) is Some),
        ok ==> layout_many(
            many_model(*old(p), res, *old(m)),
            old(m).manynode,
            NodeSlot::models(old(m).leaves@),
        ).unwrap() == many_model(*final(p), res, *final(m)),
{
    let ghost n0 = many_model(*p, res, *m);
    let ghost s = NodeSlot::models(m.leaves@);
    let ghost orig = m.leaves@;
    proof {
        NodeSlot::lemma_models(m.leaves@);
    }
    let len = m.leaves.len();
    if len == 0 {
        return false;
    }
    assert(complete(m.leaves@[0].pos));
    if len >= 2 {
        assert(complete(m.leaves@[1].pos));
    }
    if len >= 3 {
        assert(complete(m.leaves@[2].pos));
    }
    if len == 1 {
        let tw0 = m.leaves[0].pos.tipwidth_going_west.unwrap();
        let te0 = m.leaves[0].pos.tipwidth_going_east.unwrap();
        let bw0 = m.leaves[0].pos.basewidth_going_west.unwrap();
        let be0 = m.leaves[0].pos.basewidth_going_east.unwrap();
        let h0 = m.leaves[0].pos.h.unwrap();
        let tw1 = match tw0.checked_sub(3) {
            Some(v) => v,
            None => return false,
        };
        let te1 = match te0.checked_sub(3) {
            Some(v) => v,
            None => return false,
        };
        let h = match h0.checked_add(3) {
            Some(v) => v,
            None => return false,
        };
        set_shape(p, clamp0_i32(tw1), clamp0_i32(te1), bw0, be0, h, BranchType::Trapezoid);
        place(&mut m.leaves[0], 0, -3);
        proof {
            NodeSlot::lemma_models(m.leaves@);
            assert(NodeSlot::models(m.leaves@) =~= seq![at(s[0], 0, -3)]);
        }
        return true;
    }
    if len == 2 {
        let tw0 = m.leaves[0].pos.tipwidth_going_west.unwrap();
        let bw0 = m.leaves[0].pos.basewidth_going_west.unwrap();
        let h0 = m.leaves[0].pos.h.unwrap();
        let te1 = m.leaves[1].pos.tipwidth_going_east.unwrap();
        let be1 = m.leaves[1].pos.basewidth_going_east.unwrap();
        let h1 = m.leaves[1].pos.h.unwrap();
        let d = match spacing_exec(tw0, te1, min_i32(h0, h1)) {
            Some(v) => v,
            None => return false,
        };
        let base_w = match bw0.checked_add(d) {
            Some(v) => v,
            None => return false,
        };
        let h = match max_i32(h0, h1).checked_add(2) {
            Some(v) => v,
            None => return false,
        };
        let e1 = match be1.checked_sub(h) {
            Some(v) => v,
            None => return false,
        };
        let e2 = match e1.checked_add(1) {
            Some(v) => v,
            None => return false,
        };
        let w1 = match base_w.checked_sub(h) {
            Some(v) => v,
            None => return false,
        };
        let w2 = match w1.checked_add(1) {
            Some(v) => v,
            None => return false,
        };
        let w3 = match w2.checked_add(2) {
            Some(v) => v,
            None => return false,
        };
        let nd = match 0i32.checked_sub(d) {
            Some(v) => v,
            None => return false,
        };
        set_shape(p, clamp0_i32(w3), clamp0_i32(e2), base_w, be1, h, BranchType::Trapezoid);
        place(&mut m.leaves[0], nd, -2);
        place(&mut m.leaves[1], 0, -2);
        proof {
            NodeSlot::lemma_models(m.leaves@);
            assert(NodeSlot::models(m.leaves@) =~= seq![at(s[0], -d, -2), at(s[1], 0, -2)]);
        }
        return true;
    }
    let h1 = m.leaves[1].pos.h.unwrap();
    let h2 = m.leaves[2].pos.h.unwrap();
    let ds = dice_size_exec(m.manynode);
    if len == 3 && (h1 == 1 || h2 == 1) {
        let be1 = m.leaves[1].pos.basewidth_going_east.unwrap();
        let be2 = m.leaves[2].pos.basewidth_going_east.unwrap();
        let sw = match be1.checked_add(be2) {
            Some(v) => v,
            None => return false,
        };
        let base_e = match sw.checked_add(2) {
            Some(v) => v,
            None => return false,
        };
        let bw1 = match sw.checked_add(7) {
            Some(v) => v,
            None => return false,
        };
        let base_w = match bw1.checked_add(2) {
            Some(v) => v,
            None => return false,
        };
        let h = match max_i32(h1, h2).checked_add(2) {
            Some(v) => v,
            None => return false,
        };
        if ds == i32::MIN {
            return false;
        }
        let step = number_w_left(ds);
        set_shape(p, 5, 0, base_w, base_e, h, BranchType::Times2Cone1);
        place(&mut m.leaves[1], -2, -2);
        place(&mut m.leaves[2], 2, -2);
        place(&mut m.leaves[0], -6 - 2 * step, -2);
        proof {
            NodeSlot::lemma_models(m.leaves@);
            assert(NodeSlot::models(m.leaves@) =~= seq![
                at(s[0], -6 - 2 * step, -2),
                at(s[1], -2, -2),
                at(s[2], 2, -2),
            ]);
        }
        return true;
    }
    false
}

/// The layout of a `Times` node with three or more prepared leaves, in a row.
#[verifier::rlimit(40)]
fn times_n_shape(p: &mut NodePositionInfo, m: &mut ManyNodeSlot, Ghost(res): Ghost<Option<DiceResult>>) -> (ok: bool)
    requires
        forall|k: int| 0 <= k < old(m).leaves@.len() ==> complete(#[trigger] old(m).leaves@[k].pos),
        old(m).leaves@.len() >= 3,
    ensures
        ok == (layout_times_n(
            many_model(*old(p), res, *old(m)),
            old(m).manynode,
            NodeSlot::models(old(m).leaves@),
        ) is Some),
        ok ==> layout_times_n(
            many_model(*old(p), res, *old(m)),
            old(m).manynode,
            NodeSlot::models(old(m).leaves@),
        ).unwrap() == many_model(*final(p), res, *final(m)),
{
    let ghost n0 = many_model(*p, res, *m);
    let ghost s = NodeSlot::models(m.leaves@);
    let ghost orig = m.leaves@;
    proof {
        NodeSlot::lemma_models(m.leaves@);
    }
    let len = m.leaves.len();
    assert(complete(m.leaves@[0].pos));
    assert(complete(m.leaves@[1].pos));
    assert(complete(m.leaves@[2].pos));
    let h1 = m.leaves[1].pos.h.unwrap();
    let h2 = m.leaves[2].pos.h.unwrap();
    let ds = dice_size_exec(m.manynode);
    let te1 = m.leaves[1].pos.tipwidth_going_east.unwrap();
    let tw1 = m.leaves[1].pos.tipwidth_going_west.unwrap();
    let be1 = m.leaves[1].pos.basewidth_going_east.unwrap();
    let tw2 = m.leaves[2].pos.tipwidth_going_west.unwrap();
    let te0 = m.leaves[0].pos.tipwidth_going_east.unwrap();
    let tw0 = m.leaves[0].pos.tipwidth_going_west.unwrap();
    let bw0 = m.leaves[0].pos.basewidth_going_west.unwrap();
    let h0 = m.leaves[0].pos.h.unwrap();
    let d1 = match spacing_exec(te1, tw2, min_i32(h1, h2)) {
        Some(v) => v,
        None => return false,
    };
    let cnt = len - 1;
    let ni = #[verifier::truncate] (cnt as i32);
    let p1 = match d1.checked_mul(ni) {
        Some(v) => v,
        None => return false,
    };
    let q1 = match ni.checked_sub(1) {
        Some(v) => v,
        None => return false,
    };
    let s1 = match p1.checked_add(q1) {
        Some(v) => v,
        None => return false,
    };
    let r1 = match d1.checked_sub(1) {
        Some(v) => v,
        None => return false,
    };
    let e = match s1.checked_sub(r1) {
        Some(v) => v,
        None => return false,
    };
    let ne = match 0i32.checked_sub(e) {
        Some(v) => v,
        None => return false,
    };
    let step = match d1.checked_add(1) {
        Some(v) => v,
        None => return false,
    };
    let x0 = half_i32(ne);
    let mut xcount = x0;
    let mut j: usize = 1;
    #[verifier::loop_isolation(false)]
    while j <= cnt
        invariant
            1 <= j <= cnt + 1,
            cnt == len - 1,
            len == orig.len(),
            len >= 3,
            m.leaves@.len() == len,
            m.manynode == old(m).manynode,
            s == NodeSlot::models(orig),
            s.len() == len,
            forall|k: int| 0 <= k < len ==> #[trigger] s[k] == orig[k]@,
            xcount as int == times_leaf_x(x0 as int, step as int, j as int),
            forall|k: int| 1 <= k < j ==> fits(#[trigger] times_leaf_x(x0 as int, step as int, k + 1)),
            forall|k: int|
                1 <= k < j ==> #[trigger] m.leaves@[k]@ == at(
                    s[k],
                    times_leaf_x(x0 as int, step as int, k),
                    -4,
                ),
            forall|k: int| (k == 0 || j <= k < len) ==> #[trigger] m.leaves@[k] == orig[k],
        decreases cnt + 1 - j,
    {
        place(&mut m.leaves[j], xcount, -4);
        proof {
            assert(times_leaf_x(x0 as int, step as int, j as int) + step == times_leaf_x(
                x0 as int,
                step as int,
                j as int + 1,
            )) by (nonlinear_arith);
        }
        xcount = match xcount.checked_add(step) {
            Some(v) => v,
            None => return false,
        };
        j = j + 1;
    }
    let d2 = match spacing_exec(te0, tw1, min_i32(h0, h1)) {
        Some(v) => v,
        None => return false,
    };
    if ds == i32::MIN {
        return false;
    }
    let wl = number_w_left(ds);
    let a0 = match x0.checked_sub(d2) {
        Some(v) => v,
        None => return false,
    };
    let a1 = match a0.checked_sub(1) {
        Some(v) => v,
        None => return false,
    };
    let lx = match a1.checked_sub(2 * wl) {
        Some(v) => v,
        None => return false,
    };
    let h = match max_i32(h0, h1).checked_add(4) {
        Some(v) => v,
        None => return false,
    };
    let he = half_i32(e);
    let te_1 = match he.checked_add(te1) {
        Some(v) => v,
        None => return false,
    };
    let te_2 = match te_1.checked_sub(4) {
        Some(v) => v,
        None => return false,
    };
    let tw_1 = match he.checked_add(d2) {
        Some(v) => v,
        None => return false,
    };
    let tw_2 = match tw_1.checked_add(tw0) {
        Some(v) => v,
        None => return false,
    };
    let tw_3 = match tw_2.checked_sub(4) {
        Some(v) => v,
        None => return false,
    };
    let tw_4 = match tw_3.checked_add(1) {
        Some(v) => v,
        None => return false,
    };
    let base_e = match he.checked_add(be1) {
        Some(v) => v,
        None => return false,
    };
    let bw_1 = match he.checked_add(d2) {
        Some(v) => v,
        None => return false,
    };
    let bw_2 = match bw_1.checked_add(bw0) {
        Some(v) => v,
        None => return false,
    };
    let base_w = match bw_2.checked_add(1) {
        Some(v) => v,
        None => return false,
    };
    let ghost after_loop = m.leaves@;
    assert(forall|k: int|
        1 <= k < len ==> #[trigger] after_loop[k]@ == at(
            s[k],
            times_leaf_x(x0 as int, step as int, k),
            -4,
        ));
    place(&mut m.leaves[0], lx, -4);
    set_shape(p, clamp0_i32(tw_4), clamp0_i32(te_2), base_w, base_e, h, BranchType::TimesN);
    proof {
        NodeSlot::lemma_models(m.leaves@);
        assert(m.leaves@.len() == len);
        assert forall|k: int| 1 <= k < len implies #[trigger] m.leaves@[k]@ == at(
            s[k],
            times_leaf_x(x0 as int, step as int, k),
            -4,
        ) by {
            assert(m.leaves@[k] == after_loop[k]);
        }
        assert(m.leaves@[0]@ == at(s[0], lx as int, -4));
        let target = times_n_leaves(s, lx as int, x0 as int, step as int);
        assert forall|k: int| 0 <= k < len implies #[trigger] NodeSlot::models(m.leaves@)[k]
            == target[k] by {
            if k == 0 {
                assert(NodeSlot::models(m.leaves@)[0] == m.leaves@[0]@);
            } else {
                assert(NodeSlot::models(m.leaves@)[k] == m.leaves@[k]@);
            }
        }
        assert(NodeSlot::models(m.leaves@) =~= target);
        let cntg = (s.len() - 1) as int;
        assert(spacing(te(s[1]), tw(s[2]), imin(hh(s[1]), hh(s[2]))) == Some(d1 as int));
        assert(spacing(te(s[0]), tw(s[1]), imin(hh(s[0]), hh(s[1]))) == Some(d2 as int));
        assert(dice_size_of(m.manynode) == ds as int);
        assert(forall|j: int| 1 <= j <= cntg ==> fits(#[trigger] times_leaf_x(x0 as int, step as int, j + 1)));
        assert(layout_times_n(n0, m.manynode, s) == Some(many_model(*p, res, *m)));
    }
    true
}

/// The layout of a `Times` node with prepared leaves.
fn many_shape(p: &mut NodePositionInfo, m: &mut ManyNodeSlot, Ghost(res): Ghost<Option<DiceResult>>) -> (ok: bool)
    requires
        forall|k: int| 0 <= k < old(m).leaves@.len() ==> complete(#[trigger] old(m).leaves@[k].pos),
    ensures
        ok == (layout_many(
            many_model(*old(p), res, *old(m)),
            old(m).manynode,
            NodeSlot::models(old(m).leaves@),
        ) is Some),
        ok ==> layout_many(
            many_model(*old(p), res, *old(m)),
            old(m).manynode,
            NodeSlot::models(old(m).leaves@),
        ).unwrap() == many_model(*final(p), res, *final(m)),
{
    proof {
        NodeSlot::lemma_models(m.leaves@);
    }
    let len = m.leaves.len();
    if len == 0 {
        return false;
    }
    if len <= 2 {
        return times_small_shape(p, m, Ghost(res));
    }
    assert(complete(m.leaves@[1].pos));
    assert(complete(m.leaves@[2].pos));
    if len == 3 && (m.leaves[1].pos.h.unwrap() == 1 || m.leaves[2].pos.h.unwrap() == 1) {
        return times_small_shape(p, m, Ghost(res));
    }
    times_n_shape(p, m, Ghost(res))
}


/// Computes the layout of `slot` and of every leaf under it that has no
/// height yet: widths, height and branch shape of each node, and each
/// leaf's position relative to its root. Returns `false` where a value
/// leaves the `i32` range or a leaf lacks its widths; the tree is then
/// left partly laid out.
#[verifier::rlimit(40)]
pub fn set_pos(slot: &mut NodeSlot) -> (ok: bool)
    ensures
        ok == (layout(old(slot)@) is Some),
        ok ==> final(slot)@ == layout(old(slot)@).unwrap(),
    decreases *old(slot),
{
    let ghost n0 = slot@;
    let ghost res = slot.noderesult;
    match &mut slot.node {
        NodeType::Zero(_) => true,
        NodeType::Binary(b) => {
            let ghost l0 = b.leftleaf@;
            let ghost r0 = b.rightleaf@;
            proof {
                let k = old(slot).node;
                assert(decreases_to!(*old(slot) => k));
                if let NodeType::Binary(ob) = k {
                    assert(decreases_to!(k => ob));
                    assert(decreases_to!(ob => ob.leftleaf));
                    assert(decreases_to!(ob => ob.rightleaf));
                }
            }
            if b.leftleaf.pos.h.is_none() {
                if !set_pos(&mut b.leftleaf) {
                    return false;
                }
            }
            if !complete_pos(&b.leftleaf.pos) {
                return false;
            }
            if b.rightleaf.pos.h.is_none() {
                if !set_pos(&mut b.rightleaf) {
                    return false;
                }
            }
            if !complete_pos(&b.rightleaf.pos) {
                return false;
            }
            assert(prepared(l0) == Some(b.leftleaf@));
            assert(prepared(r0) == Some(b.rightleaf@));
            binary_shape(&mut slot.pos, b, Ghost(res))
        },
        NodeType::Many(m) => {
            proof {
                let k = old(slot).node;
                assert(decreases_to!(*old(slot) => k));
                if let NodeType::Many(om) = k {
                    assert(decreases_to!(k => om));
                }
            }
            if !prepare_leaves(m) {
                return false;
            }
            many_shape(&mut slot.pos, m, Ghost(res))
        },
    }
}


/// Lays out, in order, each leaf of `m` that has no height yet, and checks
/// that every leaf has its widths.
fn prepare_leaves(m: &mut ManyNodeSlot) -> (ok: bool)
    ensures
        ok == (prepared_all(NodeSlot::models(old(m).leaves@)) is Some),
        ok ==> prepared_all(NodeSlot::models(old(m).leaves@)).unwrap() == NodeSlot::models(
            final(m).leaves@,
        ),
        ok ==> forall|k: int|
            0 <= k < final(m).leaves@.len() ==> complete(#[trigger] final(m).leaves@[k].pos),
        final(m).manynode == old(m).manynode,
    decreases *old(m),
{
    let ghost orig = m.leaves@;
    let ghost s0 = NodeSlot::models(orig);
    proof {
        NodeSlot::lemma_models(orig);
    }
    let len = m.leaves.len();
    let mut i: usize = 0;
    while i < len
        invariant
            len == orig.len(),
            orig == old(m).leaves@,
            m.leaves@.len() == len,
            m.manynode == old(m).manynode,
            s0 == NodeSlot::models(orig),
            s0.len() == len,
            forall|k: int| 0 <= k < len ==> #[trigger] s0[k] == orig[k]@,
            forall|k: int|
                0 <= k < i ==> prepared(#[trigger] s0[k]) == Some(m.leaves@[k]@) && complete(
                    m.leaves@[k].pos,
                ),
            forall|k: int| i <= k < len ==> #[trigger] m.leaves@[k] == orig[k],
        decreases len - i,
    {
        proof {
            assert(decreases_to!(*old(m) => old(m).leaves));
            assert(decreases_to!(old(m).leaves => old(m).leaves@));
            assert(decreases_to!(old(m).leaves@ => old(m).leaves@[i as int]));
        }
        if m.leaves[i].pos.h.is_none() {
            if !set_pos(&mut m.leaves[i]) {
                proof {
                    assert(prepared(s0[i as int]) is None);
                    lemma_prepared_all(s0);
                }
                return false;
            }
        }
        if !complete_pos(&m.leaves[i].pos) {
            proof {
                assert(prepared(s0[i as int]) is None);
                lemma_prepared_all(s0);
            }
            return false;
        }
        i = i + 1;
    }
    proof {
        lemma_prepared_all(s0);
        NodeSlot::lemma_models(m.leaves@);
        assert forall|k: int| 0 <= k < len implies prepared_all(s0).unwrap()[k]
            == #[trigger] NodeSlot::models(m.leaves@)[k] && complete(m.leaves@[k].pos) by {
            assert(prepared(s0[k]) == Some(m.leaves@[k]@));
        }
        assert(prepared_all(s0).unwrap() =~= NodeSlot::models(m.leaves@));
        assert forall|k: int| 0 <= k < len implies complete(#[trigger] m.leaves@[k].pos) by {
            assert(prepared(s0[k]) == Some(m.leaves@[k]@));
        }
    }
    true
}

} // verus!
