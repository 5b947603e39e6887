//! Turning a drawn canvas into text.
use vstd::prelude::*;
use crate::draw::{grid, canvas_text, block_text, blocks_text, terminal_text};

verus! {

/// `String::push`: appends one character.
#[verifier::external_body]
pub(crate) fn push_char(s: &mut String, c: char)
    ensures
        final(s)@ == old(s)@.push(c),
{
    s.push(c)
}

/// Appends columns `a` to `b` (excluded) of every row of `v`, each row
/// followed by a newline.
fn push_block(res: &mut String, v: &Vec<Vec<char>>, a: usize, b: usize)
    requires
        a <= b,
        forall|k: int| 0 <= k < v@.len() ==> b <= #[trigger] v@[k]@.len(),
    ensures
        final(res)@ == old(res)@ + block_text(grid(*v), a as int, b as int),
{
    let ghost g = grid(*v);
    let ghost start = res@;
    let mut i: usize = 0;
    assert(g.take(0) =~= Seq::<Seq<char>>::empty());
    while i < v.len()
        invariant
            0 <= i <= v@.len(),
            a <= b,
            g == grid(*v),
            g.len() == v@.len(),
            forall|k: int| 0 <= k < v@.len() ==> b <= #[trigger] v@[k]@.len(),
            res@ == start + block_text(g.take(i as int), a as int, b as int),
        decreases v@.len() - i,
    {
        let ghost before = res@;
        assert(g[i as int] == v@[i as int]@);
        let mut j: usize = a;
        while j < b
            invariant
                a <= j <= b,
                i < v@.len(),
                b <= v@[i as int]@.len(),
                res@ == before + v@[i as int]@.subrange(a as int, j as int),
            decreases b - j,
        {
            push_char(res, v[i][j]);
            assert(v@[i as int]@.subrange(a as int, j + 1) =~= v@[i as int]@.subrange(
                a as int,
                j as int,
            ).push(v@[i as int]@[j as int]));
            j = j + 1;
        }
        push_char(res, '\n');
        assert(g.take(i + 1).drop_last() =~= g.take(i as int));
        assert(res@ =~= start + block_text(g.take(i + 1), a as int, b as int));
        i = i + 1;
    }
    assert(g.take(v@.len() as int) =~= g);
}

proof fn lemma_block_is_canvas_text(c: Seq<Seq<char>>, w: int)
    requires
        0 <= w,
        forall|k: int| 0 <= k < c.len() ==> w <= #[trigger] c[k].len(),
    ensures
        block_text(c, 0, w) == canvas_text(c, w),
    decreases c.len(),
{
    if c.len() > 0 {
        lemma_block_is_canvas_text(c.drop_last(), w);
        assert(c.last().subrange(0, w) =~= c.last().take(w));
    }
}

/// The canvas as a single string: each row, as wide as the first, and a
/// newline after it.
pub fn print_2d_vec_to_string(v: Vec<Vec<char>>) -> (s: String)
    requires
        v@.len() >= 1,
        forall|k: int| 0 <= k < v@.len() ==> v@[0]@.len() <= #[trigger] v@[k]@.len(),
    ensures
        s@ == canvas_text(grid(v), v@[0]@.len() as int),
{
    let mut res = String::new();
    let w = v[0].len();
    push_block(&mut res, &v, 0, w);
    proof {
        assert forall|k: int| 0 <= k < grid(v).len() implies w <= #[trigger] grid(v)[k].len() by {
            assert(grid(v)[k] == v@[k]@);
        }
        lemma_block_is_canvas_text(grid(v), w as int);
    }
    res
}

/// The canvas cut for a terminal `termw` columns wide: blocks of `termw`
/// columns, the last one narrower, one under the other.
pub fn terminal_layout(v: &Vec<Vec<char>>, termw: usize) -> (s: String)
    requires
        termw > 0,
        v@.len() >= 1,
        forall|k: int| 0 <= k < v@.len() ==> v@[0]@.len() <= #[trigger] v@[k]@.len(),
    ensures
        s@ == terminal_text(grid(*v), termw as int),
{
    let mut res = String::new();
    let xlen = v[0].len();
    let nblocks = xlen / termw;
    assert(grid(*v)[0] == v@[0]@);
    let mut n: usize = 0;
    while n < nblocks
        invariant
            n <= nblocks,
            nblocks == xlen / termw,
            termw > 0,
            xlen == v@[0]@.len(),
            forall|k: int| 0 <= k < v@.len() ==> v@[0]@.len() <= #[trigger] v@[k]@.len(),
            res@ == blocks_text(grid(*v), termw as int, n as int),
        decreases nblocks - n,
    {
        assert((n + 1) * termw <= nblocks * termw) by (nonlinear_arith)
            requires
                n < nblocks,
        ;
        assert(nblocks * termw <= xlen) by (nonlinear_arith)
            requires
                nblocks == xlen / termw,
                termw > 0,
        ;
        assert(n * termw <= (n + 1) * termw) by (nonlinear_arith);
        push_block(&mut res, v, n * termw, (n + 1) * termw);
        n = n + 1;
    }
    assert(nblocks * termw <= xlen) by (nonlinear_arith)
        requires
            nblocks == xlen / termw,
            termw > 0,
    ;
    push_block(&mut res, v, nblocks * termw, xlen);
    res
}

} // verus!
