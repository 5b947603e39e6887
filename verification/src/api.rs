//! Rolling an expression: tokens, tree, values, drawing and text.
use vstd::prelude::*;
use crate::tree::{Node, NodeSlot};
use crate::tokens::{lex, without_spaces, build_tokens, clear_spaces};
use crate::parse::tree_of;
use crate::builder::{build_tree, tree_takes, parsed};
use crate::eval::{evaluated, fill, fill_takes, outcome, lemma_assoc, lemma_empty_prefix};
use crate::draw::{drawing, grid, draw_2d_vec, canvas_text, terminal_text, lemma_drawing_shape};
use crate::text::{print_2d_vec_to_string, terminal_layout, push_char};
use crate::msg::{msg_eval, msg_cannot_draw, eval_message, cannot_draw_message, push_int};
use crate::digits::int_text;
use crate::rng::{Dice, draws, lemma_draws_none, lemma_draws_concat, seeded_stream};
use crate::laws::successful_roll_has_result;

verus! {

/// What rolling the expression `s` gives: the tree, computed and laid
/// out, with its drawing; or why there is none. The dice take their
/// numbers from the front of `rolls`; the rest of the stream comes back.
pub open spec fn roll(s: Seq<char>, rolls: Seq<u32>) -> (Result<(Node, Seq<Seq<char>>), Seq<char>>, Seq<u32>) {
    match lex(s) {
        Err(m) => (Err(m), rolls),
        Ok(toks) => {
            let (t, r1) = tree_of(without_spaces(toks), rolls);
            match t {
                Err(m) => (Err(m), r1),
                Ok(n) => {
                    let (f, r2) = evaluated(n, r1);
                    match f {
                        Err(e) => (Err(msg_eval(e)), r2),
                        Ok(n2) => match drawing(n2) {
                            Some((n3, c)) => (Ok((n3, c)), r2),
                            None => (Err(msg_cannot_draw()), r2),
                        },
                    }
                },
            }
        },
    }
}

/// The text of a roll: its drawing, one line per row.
pub open spec fn roll_text(s: Seq<char>, rolls: Seq<u32>) -> (Result<Seq<char>, Seq<char>>, Seq<u32>) {
    let (o, rest) = roll(s, rolls);
    (
        match o {
            Ok((_n, c)) => Ok(canvas_text(c, c[0].len() as int)),
            Err(m) => Err(m),
        },
        rest,
    )
}

/// The text of a roll for a terminal `t` columns wide, then its result.
pub open spec fn roll_terminal_text(s: Seq<char>, t: int, rolls: Seq<u32>) -> (
    Result<Seq<char>, Seq<char>>,
    Seq<u32>,
) {
    let (o, rest) = roll(s, rolls);
    (
        match o {
            Ok((n, c)) => Ok(
                terminal_text(c, t) + "result: "@ + int_text(n.res.unwrap().value as int) + "\n"@,
            ),
            Err(m) => Err(m),
        },
        rest,
    )
}

/// Rolling `s` takes exactly the numbers `d` and gives `out`.
pub open spec fn roll_takes(s: Seq<char>, d: Seq<u32>, out: Result<(Node, Seq<Seq<char>>), Seq<char>>) -> bool {
    forall|c: Seq<u32>| #[trigger] roll(s, d + c) == (out, c)
}

pub open spec fn text_takes(s: Seq<char>, d: Seq<u32>, out: Result<Seq<char>, Seq<char>>) -> bool {
    forall|c: Seq<u32>| #[trigger] roll_text(s, d + c) == (out, c)
}

pub open spec fn terminal_takes(s: Seq<char>, t: int, d: Seq<u32>, out: Result<Seq<char>, Seq<char>>) -> bool {
    forall|c: Seq<u32>| #[trigger] roll_terminal_text(s, t, d + c) == (out, c)
}

/// `t` is the text, or the error's text, of rolling `s` on the numbers `d`.
pub open spec fn text_either(s: Seq<char>, d: Seq<u32>, t: Seq<char>) -> bool {
    text_takes(s, d, Ok(t)) || text_takes(s, d, Err(t))
}

pub open spec fn rolled(r: Result<(NodeSlot, Vec<Vec<char>>), String>) -> Result<(Node, Seq<Seq<char>>), Seq<char>> {
    match r {
        Ok((n, v)) => Ok((n@, grid(v))),
        Err(m) => Err(m@),
    }
}

pub open spec fn text_of(r: Result<String, String>) -> Result<Seq<char>, Seq<char>> {
    match r {
        Ok(t) => Ok(t@),
        Err(m) => Err(m@),
    }
}

/// Tokens, tree, values and drawing of `expr`, the dice rolled with `rng`.
fn roll_tree(expr: &str, rng: &mut Dice) -> (r: Result<(NodeSlot, Vec<Vec<char>>), String>)
    requires
        expr@.len() <= i32::MAX,
    ensures
        exists|d: Seq<u32>| #[trigger] roll_takes(expr@, d, rolled(r)) && draws(old(rng)@, final(rng)@, d),
        r matches Ok((_n, v)) ==> v@.len() >= 1 && forall|k: int|
            0 <= k < v@.len() ==> v@[0]@.len() == #[trigger] v@[k]@.len(),
{
    let ghost s = expr@;
    let mut tokens = match build_tokens(expr) {
        Ok(t) => t,
        Err(m) => {
            let r: Result<(NodeSlot, Vec<Vec<char>>), String> = Err(m);
            proof {
                assert forall|c: Seq<u32>| #[trigger] roll(s, Seq::empty() + c) == (rolled(r), c) by {
                    lemma_empty_prefix(c);
                }
                assert(roll_takes(s, Seq::empty(), rolled(r)));
                lemma_draws_none(rng@);
            }
            return r;
        },
    };
    let ghost toks = tokens@;
    let spaceless = clear_spaces(&mut tokens);
    let ghost g0 = rng@;
    let tr = build_tree(spaceless.as_slice(), rng);
    let ghost ptr = parsed(tr);
    let ghost d1 = choose|d: Seq<u32>| #[trigger] tree_takes(without_spaces(toks), d, ptr) && draws(g0, rng@, d);
    let ghost g1 = rng@;
    match tr {
        Err(m) => {
            let r: Result<(NodeSlot, Vec<Vec<char>>), String> = Err(m);
            proof {
                assert forall|c: Seq<u32>| #[trigger] roll(s, d1 + c) == (rolled(r), c) by {
                    assert(tree_of(without_spaces(toks), d1 + c) == (ptr, c));
                }
                assert(roll_takes(s, d1, rolled(r)));
            }
            r
        },
        Ok(root) => {
            let mut root = root;
            let ghost n0 = root@;
            let f = fill(&mut root, rng);
            let ghost d2 = choose|d: Seq<u32>| #[trigger] fill_takes(n0, d, outcome(f, root@)) && draws(g1, rng@, d);
            proof {
                lemma_draws_concat(g0, g1, rng@, d1, d2);
            }
            let ghost n1 = root@;
            let r: Result<(NodeSlot, Vec<Vec<char>>), String> = match f {
                Err(e) => Err(eval_message(e)),
                Ok(()) => match draw_2d_vec(&mut root) {
                    None => Err(cannot_draw_message()),
                    Some(canvas) => {
                        proof {
                            lemma_drawing_shape(n1);
                            assert forall|k: int| 0 <= k < canvas@.len() implies canvas@[0]@.len()
                                == #[trigger] canvas@[k]@.len() by {
                                assert(grid(canvas)[k] == canvas@[k]@);
                                assert(grid(canvas)[0] == canvas@[0]@);
                            }
                        }
                        Ok((root, canvas))
                    },
                },
            };
            proof {
                assert forall|c: Seq<u32>| #[trigger] roll(s, (d1 + d2) + c) == (rolled(r), c) by {
                    lemma_assoc(d1, d2, c);
                    assert(tree_of(without_spaces(toks), d1 + (d2 + c)) == (Ok::<Node, Seq<char>>(n0), d2 + c));
                    assert(evaluated(n0, d2 + c) == (outcome(f, n1), c));
                }
                assert(roll_takes(s, d1 + d2, rolled(r)));
            }
            r
        },
    }
}

/// Rolls `expr` with `rng` and draws its roll tree: one line per row of
/// the drawing. The dice take the generator's next numbers, in order, and
/// the generator moves on by exactly those. The error says why `expr`
/// cannot be rolled.
pub fn parse_to_string(expr: &str, rng: &mut Dice) -> (r: Result<String, String>)
    requires
        expr@.len() <= i32::MAX,
    ensures
        exists|d: Seq<u32>| #[trigger] text_takes(expr@, d, text_of(r)) && draws(old(rng)@, final(rng)@, d),
{
    let rt = roll_tree(expr, rng);
    let ghost prt = rolled(rt);
    let ghost d = choose|d: Seq<u32>| #[trigger] roll_takes(expr@, d, prt) && draws(old(rng)@, rng@, d);
    let r: Result<String, String> = match rt {
        Err(m) => Err(m),
        Ok((_root, canvas)) => {
            proof {
                assert forall|k: int| 0 <= k < canvas@.len() implies canvas@[0]@.len()
                    <= #[trigger] canvas@[k]@.len() by {
                    assert(grid(canvas)[k] == canvas@[k]@);
                    assert(grid(canvas)[0] == canvas@[0]@);
                }
                assert(grid(canvas)[0] == canvas@[0]@);
            }
            Ok(print_2d_vec_to_string(canvas))
        },
    };
    proof {
        assert forall|c: Seq<u32>| #[trigger] roll_text(expr@, d + c) == (text_of(r), c) by {
            assert(roll(expr@, d + c) == (prt, c));
        }
        assert(text_takes(expr@, d, text_of(r)));
    }
    r
}

/// The text that rolling `expr` gives, or its error's text, when the dice
/// take the numbers of the stream of `seed` from its start.
pub open spec fn seeded_text(expr: Seq<char>, seed: u64, t: Seq<char>) -> bool {
    exists|n: nat| #[trigger] text_either(expr, seeded_stream(seed, 0, n), t)
}

/// Rolls `expr` with a generator seeded from `seed`, and returns the
/// drawing of its roll tree, or the error's text.
pub fn parse_to_string_from_u64_seed(expr: &str, seed: u64) -> (s: String)
    requires
        expr@.len() <= i32::MAX,
    ensures
        seeded_text(expr@, seed, s@),
{
    let mut dice = Dice::from_seed(seed);
    let ghost g0 = dice@;
    let r = parse_to_string(expr, &mut dice);
    let ghost d = choose|d: Seq<u32>| #[trigger] text_takes(expr@, d, text_of(r)) && draws(g0, dice@, d);
    proof {
        assert(d == seeded_stream(seed, 0, d.len()));
    }
    match r {
        Ok(a) => {
            assert(text_takes(expr@, d, Ok::<Seq<char>, Seq<char>>(a@)));
            assert(text_either(expr@, seeded_stream(seed, 0, d.len()), a@));
            a
        },
        Err(b) => {
            assert(text_takes(expr@, d, Err::<Seq<char>, Seq<char>>(b@)));
            assert(text_either(expr@, seeded_stream(seed, 0, d.len()), b@));
            b
        },
    }
}

/// Rolls `expr` with `rng` and lays out its drawing for a terminal
/// `term_width` columns wide, followed by the line `result: ` and the value.
/// The dice take the generator's next numbers, in order, and the generator
/// moves on by exactly those.
pub fn parse_to_terminal_text(expr: &str, rng: &mut Dice, term_width: usize) -> (r: Result<String, String>)
    requires
        expr@.len() <= i32::MAX,
        term_width > 0,
    ensures
        exists|d: Seq<u32>| #[trigger] terminal_takes(expr@, term_width as int, d, text_of(r)) && draws(
            old(rng)@,
            final(rng)@,
            d,
        ),
{
    let rt = roll_tree(expr, rng);
    let ghost prt = rolled(rt);
    let ghost d = choose|d: Seq<u32>| #[trigger] roll_takes(expr@, d, prt) && draws(old(rng)@, rng@, d);
    let r: Result<String, String> = match rt {
        Err(m) => Err(m),
        Ok((root, canvas)) => {
            proof {
                assert forall|k: int| 0 <= k < canvas@.len() implies canvas@[0]@.len()
                    <= #[trigger] canvas@[k]@.len() by {
                    assert(grid(canvas)[k] == canvas@[k]@);
                    assert(grid(canvas)[0] == canvas@[0]@);
                }
            }
            proof {
                successful_roll_has_result(expr@, d + Seq::empty());
                assert(roll(expr@, d + Seq::empty()) == (prt, Seq::<u32>::empty()));
            }
            let mut text = terminal_layout(&canvas, term_width);
            let ghost t0 = text@;
            let res = root.noderesult.unwrap();
            text.append("result: ");
            push_int(&mut text, res.value);
            push_char(&mut text, '\n');
            proof {
                reveal_strlit("result: ");
                reveal_strlit("\n");
                assert(text@ =~= t0 + "result: "@ + int_text(res.value as int) + "\n"@);
            }
            Ok(text)
        },
    };
    proof {
        reveal_strlit("result: ");
        reveal_strlit("\n");
        assert forall|c: Seq<u32>| #[trigger] roll_terminal_text(expr@, term_width as int, d + c) == (
            text_of(r),
            c,
        ) by {
            assert(roll(expr@, d + c) == (prt, c));
        }
        assert(terminal_takes(expr@, term_width as int, d, text_of(r)));
    }
    r
}


/// The words that end the prompt.
pub open spec fn is_exit_word(line: Seq<char>) -> bool {
    line == "exit"@ || line == "Exit"@ || line == "quit"@ || line == "Quit"@ || line == "q"@
}

/// Whether two texts hold the same characters.
fn same_text(a: &str, b: &str) -> (e: bool)
    ensures
        e == (a@ == b@),
{
    let n = a.unicode_len();
    if n != b.unicode_len() {
        return false;
    }
    let mut i: usize = 0;
    while i < n
        invariant
            i <= n,
            n == a@.len(),
            n == b@.len(),
            forall|k: int| 0 <= k < i ==> a@[k] == b@[k],
        decreases n - i,
    {
        if a.get_char(i) != b.get_char(i) {
            return false;
        }
        i = i + 1;
    }
    assert(a@ =~= b@);
    true
}

/// Whether the line typed at the prompt asks to leave it.
pub fn is_exit_command(line: &str) -> (b: bool)
    ensures
        b == is_exit_word(line@),
{
    same_text(line, "exit") || same_text(line, "Exit") || same_text(line, "quit") || same_text(
        line,
        "Quit",
    ) || same_text(line, "q")
}

} // verus!
