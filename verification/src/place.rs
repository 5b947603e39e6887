//! Absolute positions: from positions relative to the root to positions on
//! the canvas.
use vstd::prelude::*;
use crate::tree::{Node, NodeKind, NodeSlot, NodeType, ManyNodeSlot};
use crate::layout::{fits, at};

verus! {

/// The extent of a laid out tree: the largest and smallest column, and the
/// highest row (rows grow downward, so the highest row is the smallest).
#[derive(Clone, Copy, PartialEq, Eq, Structural, Debug)]
pub struct MaxVals {
    pub max_x: i32,
    pub min_x: i32,
    pub min_y: i32,
}

/// The extent after meeting a node at `(x, y)`.
pub open spec fn extend(mx: MaxVals, x: int, y: int) -> MaxVals {
    let m1 = if x > mx.max_x {
        MaxVals { max_x: x as i32, ..mx }
    } else if x < mx.min_x {
        MaxVals { min_x: x as i32, ..mx }
    } else {
        mx
    };
    if y < m1.min_y {
        MaxVals { min_y: y as i32, ..m1 }
    } else {
        m1
    }
}

/// Absolute positions of `n` and of the nodes under it, `n`'s root being at
/// `(lastx, lasty)`, in preorder, with the extent met along the way.
pub open spec fn dive(n: Node, lastx: int, lasty: int, mx: MaxVals) -> Option<(Node, MaxVals)>
    decreases n, 1int,
{
    match (n.pos.x, n.pos.y) {
        (Some(rx), Some(ry)) => {
            let newx = lastx + rx;
            let newy = lasty + ry;
            if fits(newx) && fits(newy) {
                let n1 = at(n, newx, newy);
                let mx1 = extend(mx, newx, newy);
                match n.kind {
                    NodeKind::Number(_) => Some((n1, mx1)),
                    NodeKind::Binary(op, l, r) => match dive(*l, newx, newy, mx1) {
                        Some((l1, mx2)) => match dive(*r, newx, newy, mx2) {
                            Some((r1, mx3)) => Some(
                                (
                                    Node {
                                        kind: NodeKind::Binary(op, Box::new(l1), Box::new(r1)),
                                        ..n1
                                    },
                                    mx3,
                                ),
                            ),
                            None => None,
                        },
                        None => None,
                    },
                    NodeKind::Many(m, s) => match dive_all(s, newx, newy, mx1) {
                        Some((s1, mx2)) => Some((Node { kind: NodeKind::Many(m, s1), ..n1 }, mx2)),
                        None => None,
                    },
                }
            } else {
                None
            }
        },
        _ => None,
    }
}

pub open spec fn dive_all(s: Seq<Node>, x: int, y: int, mx: MaxVals) -> Option<(Seq<Node>, MaxVals)>
    decreases s, 2int,
{
    if s.len() == 0 {
        Some((Seq::empty(), mx))
    } else {
        match dive_all(s.drop_last(), x, y, mx) {
            Some((p, mx1)) => match dive(s.last(), x, y, mx1) {
                Some((c, mx2)) => Some((p.push(c), mx2)),
                None => None,
            },
            None => None,
        }
    }
}

/// The whole tree with absolute positions, its root placed at `(0, 0)`,
/// and its extent, starting from the root's former position.
pub open spec fn absolute(n: Node) -> Option<(Node, MaxVals)> {
    match (n.pos.x, n.pos.y) {
        (Some(x), Some(y)) => dive(at(n, 0, 0), 0, 0, MaxVals { max_x: x, min_x: x, min_y: y }),
        _ => None,
    }
}

/// Every position of the tree moved by `(dx, dy)`.
pub open spec fn shifted(n: Node, dx: int, dy: int) -> Option<Node>
    decreases n, 1int,
{
    match (n.pos.x, n.pos.y) {
        (Some(x), Some(y)) => if fits(x + dx) && fits(y + dy) {
            let n1 = at(n, x + dx, y + dy);
            match n.kind {
                NodeKind::Number(_) => Some(n1),
                NodeKind::Binary(op, l, r) => match (shifted(*l, dx, dy), shifted(*r, dx, dy)) {
                    (Some(l1), Some(r1)) => Some(
                        Node { kind: NodeKind::Binary(op, Box::new(l1), Box::new(r1)), ..n1 },
                    ),
                    _ => None,
                },
                NodeKind::Many(m, s) => match shifted_all(s, dx, dy) {
                    Some(s1) => Some(Node { kind: NodeKind::Many(m, s1), ..n1 }),
                    None => None,
                },
            }
        } else {
            None
        },
        _ => None,
    }
}

pub open spec fn shifted_all(s: Seq<Node>, dx: int, dy: int) -> Option<Seq<Node>>
    decreases s, 2int,
{
    if s.len() == 0 {
        Some(Seq::empty())
    } else {
        match (shifted_all(s.drop_last(), dx, dy), shifted(s.last(), dx, dy)) {
            (Some(p), Some(c)) => Some(p.push(c)),
            _ => None,
        }
    }
}


pub proof fn lemma_dive_all_prefix(s: Seq<Node>, k: int, x: int, y: int, mx: MaxVals)
    requires
        0 <= k <= s.len(),
        dive_all(s.take(k), x, y, mx) is None,
    ensures
        dive_all(s, x, y, mx) is None,
    decreases s.len() - k,
{
    if k == s.len() {
        assert(s.take(k) =~= s);
    } else {
        assert(s.take(k + 1).drop_last() =~= s.take(k));
        lemma_dive_all_prefix(s, k + 1, x, y, mx);
    }
}

pub proof fn lemma_shifted_all_prefix(s: Seq<Node>, k: int, dx: int, dy: int)
    requires
        0 <= k <= s.len(),
        shifted_all(s.take(k), dx, dy) is None,
    ensures
        shifted_all(s, dx, dy) is None,
    decreases s.len() - k,
{
    if k == s.len() {
        assert(s.take(k) =~= s);
    } else {
        assert(s.take(k + 1).drop_last() =~= s.take(k));
        lemma_shifted_all_prefix(s, k + 1, dx, dy);
    }
}

proof fn lemma_models_step(old_s: Seq<NodeSlot>, new_s: Seq<NodeSlot>, i: int)
    requires
        0 <= i < old_s.len(),
        new_s.len() == old_s.len(),
        forall|k: int| 0 <= k < old_s.len() && k != i ==> new_s[k] == old_s[k],
    ensures
        NodeSlot::models(new_s.take(i + 1)) == NodeSlot::models(old_s.take(i)).push(new_s[i]@),
{
    assert(new_s.take(i + 1).drop_last() =~= old_s.take(i));
}

/// Moves every position of the tree by `(xtrasl, ytrasl)`. Returns `false`
/// where a node has no position or a moved position leaves the `i32` range.
pub fn trasl(slot: &mut NodeSlot, xtrasl: i32, ytrasl: i32) -> (ok: bool)
    ensures
        ok == (shifted(old(slot)@, xtrasl as int, ytrasl as int) is Some),
        ok ==> final(slot)@ == shifted(old(slot)@, xtrasl as int, ytrasl as int).unwrap(),
    decreases *old(slot),
{
    let oldx = match slot.pos.x {
        Some(v) => v,
        None => return false,
    };
    let oldy = match slot.pos.y {
        Some(v) => v,
        None => return false,
    };
    let nx = match oldx.checked_add(xtrasl) {
        Some(v) => v,
        None => return false,
    };
    let ny = match oldy.checked_add(ytrasl) {
        Some(v) => v,
        None => return false,
    };
    slot.pos.x = Some(nx);
    slot.pos.y = Some(ny);
    match &mut slot.node {
        NodeType::Zero(_) => true,
        NodeType::Binary(b) => {
            proof {
                let k = old(slot).node;
                assert(decreases_to!(*old(slot) => k));
                if let NodeType::Binary(ob) = k {
                    assert(decreases_to!(k => ob));
                    assert(decreases_to!(ob => ob.leftleaf));
                    assert(decreases_to!(ob => ob.rightleaf));
                }
            }
            if !trasl(&mut b.leftleaf, xtrasl, ytrasl) {
                return false;
            }
            trasl(&mut b.rightleaf, xtrasl, ytrasl)
        },
        NodeType::Many(m) => {
            proof {
                let k = old(slot).node;
                assert(decreases_to!(*old(slot) => k));
                if let NodeType::Many(om) = k {
                    assert(decreases_to!(k => om));
                }
            }
            trasl_all(m, xtrasl, ytrasl)
        },
    }
}

fn trasl_all(m: &mut ManyNodeSlot, xtrasl: i32, ytrasl: i32) -> (ok: bool)
    ensures
        ok == (shifted_all(NodeSlot::models(old(m).leaves@), xtrasl as int, ytrasl as int) is Some),
        ok ==> shifted_all(NodeSlot::models(old(m).leaves@), xtrasl as int, ytrasl as int).unwrap()
            == NodeSlot::models(final(m).leaves@),
        final(m).manynode == old(m).manynode,
    decreases *old(m),
{
    let ghost orig = m.leaves@;
    let ghost s0 = NodeSlot::models(orig);
    proof {
        NodeSlot::lemma_models(orig);
    }
    let len = m.leaves.len();
    let mut i: usize = 0;
    assert(orig.take(0) =~= Seq::<NodeSlot>::empty());
    assert(s0.take(0) =~= Seq::<Node>::empty());
    while i < len
        invariant
            len == orig.len(),
            orig == old(m).leaves@,
            m.leaves@.len() == len,
            m.manynode == old(m).manynode,
            s0 == NodeSlot::models(orig),
            s0.len() == len,
            forall|k: int| 0 <= k < len ==> #[trigger] s0[k] == orig[k]@,
            0 <= i <= len,
            shifted_all(s0.take(i as int), xtrasl as int, ytrasl as int) == Some(
                NodeSlot::models(m.leaves@.take(i as int)),
            ),
            forall|k: int| i <= k < len ==> #[trigger] m.leaves@[k] == orig[k],
        decreases len - i,
    {
        proof {
            assert(decreases_to!(*old(m) => old(m).leaves));
            assert(decreases_to!(old(m).leaves => old(m).leaves@));
            assert(decreases_to!(old(m).leaves@ => old(m).leaves@[i as int]));
        }
        let ghost before = m.leaves@;
        let ok = trasl(&mut m.leaves[i], xtrasl, ytrasl);
        proof {
            assert(s0.take(i + 1).drop_last() =~= s0.take(i as int));
            assert(s0.take(i + 1).last() == s0[i as int]);
        }
        if !ok {
            proof {
                lemma_shifted_all_prefix(s0, i + 1, xtrasl as int, ytrasl as int);
            }
            return false;
        }
        proof {
            lemma_models_step(before, m.leaves@, i as int);
        }
        i = i + 1;
    }
    assert(s0.take(len as int) =~= s0);
    assert(m.leaves@.take(len as int) =~= m.leaves@);
    true
}

/// Makes every position absolute, placing the root at `(0, 0)`, and returns
/// the extent of the tree, starting from the root's former position.
/// Returns `None` where a node has no position or a position leaves the
/// `i32` range.
pub fn set_pos_abs(startslot: &mut NodeSlot) -> (r: Option<MaxVals>)
    ensures
        r is Some == (absolute(old(startslot)@) is Some),
        r is Some ==> absolute(old(startslot)@) == Some((final(startslot)@, r.unwrap())),
{
    let x = match startslot.pos.x {
        Some(v) => v,
        None => return None,
    };
    let y = match startslot.pos.y {
        Some(v) => v,
        None => return None,
    };
    let mut max = MaxVals { max_x: x, min_x: x, min_y: y };
    startslot.pos.x = Some(0);
    startslot.pos.y = Some(0);
    if dive2(startslot, 0, 0, &mut max) {
        Some(max)
    } else {
        None
    }
}

fn dive2(slot: &mut NodeSlot, lastx: i32, lasty: i32, max: &mut MaxVals) -> (ok: bool)
    ensures
        ok == (dive(old(slot)@, lastx as int, lasty as int, *old(max)) is Some),
        ok ==> dive(old(slot)@, lastx as int, lasty as int, *old(max)) == Some(
            (final(slot)@, *final(max)),
        ),
    decreases *old(slot),
{
    let rx = match slot.pos.x {
        Some(v) => v,
        None => return false,
    };
    let ry = match slot.pos.y {
        Some(v) => v,
        None => return false,
    };
    let newx = match lastx.checked_add(rx) {
        Some(v) => v,
        None => return false,
    };
    let newy = match lasty.checked_add(ry) {
        Some(v) => v,
        None => return false,
    };
    if newx > max.max_x {
        max.max_x = newx;
    } else if newx < max.min_x {
        max.min_x = newx;
    }
    if newy < max.min_y {
        max.min_y = newy;
    }
    slot.pos.x = Some(newx);
    slot.pos.y = Some(newy);
    match &mut slot.node {
        NodeType::Zero(_) => true,
        NodeType::Binary(b) => {
            proof {
                let k = old(slot).node;
                assert(decreases_to!(*old(slot) => k));
                if let NodeType::Binary(ob) = k {
                    assert(decreases_to!(k => ob));
                    assert(decreases_to!(ob => ob.leftleaf));
                    assert(decreases_to!(ob => ob.rightleaf));
                }
            }
            if !dive2(&mut b.leftleaf, newx, newy, max) {
                return false;
            }
            dive2(&mut b.rightleaf, newx, newy, max)
        },
        NodeType::Many(m) => {
            proof {
                let k = old(slot).node;
                assert(decreases_to!(*old(slot) => k));
                if let NodeType::Many(om) = k {
                    assert(decreases_to!(k => om));
                }
            }
            dive2_all(m, newx, newy, max)
        },
    }
}

fn dive2_all(m: &mut ManyNodeSlot, x: i32, y: i32, max: &mut MaxVals) -> (ok: bool)
    ensures
        ok == (dive_all(NodeSlot::models(old(m).leaves@), x as int, y as int, *old(max)) is Some),
        ok ==> dive_all(NodeSlot::models(old(m).leaves@), x as int, y as int, *old(max)) == Some(
            (NodeSlot::models(final(m).leaves@), *final(max)),
        ),
        final(m).manynode == old(m).manynode,
    decreases *old(m),
{
    let ghost orig = m.leaves@;
    let ghost s0 = NodeSlot::models(orig);
    let ghost mx0 = *max;
    proof {
        NodeSlot::lemma_models(orig);
    }
    let len = m.leaves.len();
    let mut i: usize = 0;
    assert(orig.take(0) =~= Seq::<NodeSlot>::empty());
    assert(s0.take(0) =~= Seq::<Node>::empty());
    while i < len
        invariant
            len == orig.len(),
            orig == old(m).leaves@,
            mx0 == *old(max),
            m.leaves@.len() == len,
            m.manynode == old(m).manynode,
            s0 == NodeSlot::models(orig),
            s0.len() == len,
            forall|k: int| 0 <= k < len ==> #[trigger] s0[k] == orig[k]@,
            0 <= i <= len,
            dive_all(s0.take(i as int), x as int, y as int, mx0) == Some(
                (NodeSlot::models(m.leaves@.take(i as int)), *max),
            ),
            forall|k: int| i <= k < len ==> #[trigger] m.leaves@[k] == orig[k],
        decreases len - i,
    {
        proof {
            assert(decreases_to!(*old(m) => old(m).leaves));
            assert(decreases_to!(old(m).leaves => old(m).leaves@));
            assert(decreases_to!(old(m).leaves@ => old(m).leaves@[i as int]));
        }
        let ghost before = m.leaves@;
        let ok = dive2(&mut m.leaves[i], x, y, max);
        proof {
            assert(s0.take(i + 1).drop_last() =~= s0.take(i as int));
            assert(s0.take(i + 1).last() == s0[i as int]);
        }
        if !ok {
            proof {
                lemma_dive_all_prefix(s0, i + 1, x as int, y as int, mx0);
            }
            return false;
        }
        proof {
            lemma_models_step(before, m.leaves@, i as int);
        }
        i = i + 1;
    }
    assert(s0.take(len as int) =~= s0);
    assert(m.leaves@.take(len as int) =~= m.leaves@);
    true
}

} // verus!
