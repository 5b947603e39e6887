# roll

A dice roller for tabletop games. An expression such as `3d6 + 2`,
`(2d8 + 4) x 3` or `1d20 + 5 hit 15` is read, rolled, and drawn as an ASCII
tree whose leaves are the numbers and dice and whose root is the result.

The library is verified with Verus. Apart from the few functions that call
the outside crates and the standard library directly (in `rng.rs` and
`text.rs`), whose contracts are trusted, every function in `src/` carries a
contract that the verifier proves.

Layout of `src/`:

- `tree.rs`: tokens, the roll tree, and its mathematical model `Node`.
- `tokens.rs`: text to tokens (`build_tokens`, `clear_spaces`).
- `parse.rs`: the description of parsing (`tree_of`) and the splitter search.
- `builder.rs`: `build_tree`, which builds the tree as `tree_of` describes it.
- `eval.rs`: rolling the dice and computing values (`fill`).
- `layout.rs`, `place.rs`: widths, heights and positions of the nodes.
- `draw.rs`, `text.rs`, `digits.rs`: the drawing and its text.
- `msg.rs`: error messages.
- `rng.rs`: the pseudo-random generator (`rand_xoshiro`) and the stream of
  numbers that a seed gives.
- `api.rs`: `parse_to_string`, `parse_to_string_from_u64_seed`,
  `parse_to_terminal_text`.
- `laws.rs`, `determinism.rs`: properties proved of every input.

Random numbers are treated as a stream: the contracts say which numbers a
call takes from the generator, in order, and what it computes from them. For
a generator made from a seed these are the numbers of that seed's stream, so
one expression and one seed always give the same result. The rolling
functions take a `Dice`, the library's generator type, made with
`Dice::from_seed` (the prompt uses seed 729) or from an existing
`rand_xoshiro` generator.

`app/main.rs` is the interactive prompt (history, terminal width, printing).
