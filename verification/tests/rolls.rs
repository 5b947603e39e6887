use roll::rng::Dice;
use roll::{parse_to_string, parse_to_string_from_u64_seed, parse_to_terminal_text};

fn seeded(seed: u64) -> Dice {
    Dice::from_seed(seed)
}

fn result_line(text: &str) -> i64 {
    let last = text.lines().last().unwrap();
    assert!(last.starts_with("result: "), "no result line in {:?}", text);
    last["result: ".len()..].parse::<i64>().unwrap()
}

#[test]
fn single_number_is_drawn_centered() {
    assert_eq!(
        parse_to_string_from_u64_seed("5", 729),
        "          \n    5     \n          \n"
    );
}

#[test]
fn addition_is_drawn_as_a_cone() {
    let expected = "              \n    2 + 3     \n     \\ /      \n      5       \n              \n";
    assert_eq!(parse_to_string_from_u64_seed("2+3", 729), expected);
}

#[test]
fn spaces_do_not_change_the_drawing() {
    assert_eq!(
        parse_to_string_from_u64_seed("2 +   3", 1),
        parse_to_string_from_u64_seed("2+3", 1)
    );
}

#[test]
fn parentheses_around_everything_change_nothing() {
    assert_eq!(
        parse_to_string_from_u64_seed("(2+3)", 7),
        parse_to_string_from_u64_seed("2+3", 7)
    );
    assert_eq!(
        parse_to_string_from_u64_seed("((4*5))", 7),
        parse_to_string_from_u64_seed("4*5", 7)
    );
}

#[test]
fn d_is_short_for_one_d() {
    for seed in 0..20u64 {
        assert_eq!(
            parse_to_string_from_u64_seed("d6", seed),
            parse_to_string_from_u64_seed("1d6", seed)
        );
    }
}

#[test]
fn parse_to_string_returns_the_drawing() {
    let mut rng = seeded(3);
    let r = parse_to_string("5", &mut rng);
    assert_eq!(r, Ok("          \n    5     \n          \n".to_string()));
}

#[test]
fn parse_to_string_returns_the_error() {
    let mut rng = seeded(3);
    assert_eq!(
        parse_to_string("5$", &mut rng),
        Err("character $ not understood".to_string())
    );
}

#[test]
fn empty_expression_is_not_understood() {
    assert_eq!(parse_to_string_from_u64_seed("", 1), "string not understood");
}

#[test]
fn unknown_character_is_reported() {
    assert_eq!(parse_to_string_from_u64_seed("a", 1), "character a not understood");
}

#[test]
fn lone_h_asks_for_hit() {
    let msg = "character h not understood, did you mean \"hit\" ?";
    assert_eq!(parse_to_string_from_u64_seed("h", 1), msg);
    assert_eq!(parse_to_string_from_u64_seed("3 ha 4", 1), msg);
}

#[test]
fn operator_alone_is_not_a_number() {
    assert_eq!(
        parse_to_string_from_u64_seed("+", 1),
        "string not understood: found Addition instead of a number"
    );
}

#[test]
fn two_numbers_side_by_side_are_not_understood() {
    assert_eq!(
        parse_to_string_from_u64_seed("2 3", 1),
        "sequence [Number(2), Number(3)] not understood"
    );
}

#[test]
fn repetition_of_a_lone_operator_is_refused() {
    assert_eq!(parse_to_string_from_u64_seed("(1+2)xd", 1), "bad error");
}

#[test]
fn division_by_zero_is_reported() {
    assert_eq!(parse_to_string_from_u64_seed("5/0", 1), "attempt to divide by zero");
}

#[test]
fn overflow_is_reported() {
    assert_eq!(parse_to_string_from_u64_seed("2147483647+1", 1), "arithmetic overflow");
}

#[test]
fn too_long_number_is_reported() {
    assert_eq!(parse_to_string_from_u64_seed("99999999999", 1), "number too large");
    assert_eq!(parse_to_string_from_u64_seed("2147483648", 1), "number too large");
    assert_eq!(parse_to_string_from_u64_seed("00000000001", 1), "number too large");
}

#[test]
fn number_wider_than_the_canvas_cannot_be_drawn() {
    assert_eq!(
        parse_to_string_from_u64_seed("2147483647", 1),
        "the roll tree cannot be drawn"
    );
    let mut rng = seeded(1);
    let t = parse_to_terminal_text("99999", &mut rng, 80).unwrap();
    assert_eq!(result_line(&t), 99999);
}

#[test]
fn terminal_text_ends_with_the_result() {
    let mut rng = seeded(1);
    let t = parse_to_terminal_text("2+3", &mut rng, 80).unwrap();
    let expected = "              \n    2 + 3     \n     \\ /      \n      5       \n              \nresult: 5\n";
    assert_eq!(t, expected);
}

#[test]
fn terminal_text_is_cut_into_blocks() {
    let mut rng = seeded(1);
    let t = parse_to_terminal_text("5", &mut rng, 4).unwrap();
    let expected = "    \n    \n    \n    \n5   \n    \n  \n  \n  \nresult: 5\n";
    assert_eq!(t, expected);
}

#[test]
fn arithmetic_values() {
    let cases: [(&str, i64); 8] = [
        ("2*3+4", 10),
        ("2+3*4", 14),
        ("7/2", 3),
        ("(0-7)/2", -3),
        ("2-3-4", 3),
        ("5 hit 3", 1),
        ("2 hit 3", 0),
        ("3 hit 3", 1),
    ];
    for (expr, value) in cases {
        let mut rng = seeded(5);
        let t = parse_to_terminal_text(expr, &mut rng, 200).unwrap();
        assert_eq!(result_line(&t), value, "for {}", expr);
    }
}

#[test]
fn repetition_sums_its_copies() {
    let mut rng = seeded(5);
    let t = parse_to_terminal_text("3x2", &mut rng, 200).unwrap();
    assert_eq!(result_line(&t), 6);
    let t = parse_to_terminal_text("(2+3)x2", &mut rng, 200).unwrap();
    assert_eq!(result_line(&t), 10);
    let t = parse_to_terminal_text("0x5", &mut rng, 200).unwrap();
    assert_eq!(result_line(&t), 0);
}

#[test]
fn a_die_shows_a_face_in_range() {
    for seed in 0..50u64 {
        let mut rng = seeded(seed);
        let t = parse_to_terminal_text("1d6", &mut rng, 200).unwrap();
        let v = result_line(&t);
        assert!((1..=7).contains(&v), "face {} for seed {}", v, seed);
    }
}

#[test]
fn several_dice_sum_in_range() {
    for seed in 0..30u64 {
        let mut rng = seeded(seed);
        let t = parse_to_terminal_text("3d6+2", &mut rng, 200).unwrap();
        let v = result_line(&t);
        assert!((5..=23).contains(&v), "sum {} for seed {}", v, seed);
    }
}

#[test]
fn same_seed_same_roll() {
    assert_eq!(
        parse_to_string_from_u64_seed("4d20 + 2x(1d8)", 729),
        parse_to_string_from_u64_seed("4d20 + 2x(1d8)", 729)
    );
}

#[test]
fn roll_without_dice_ignores_the_seed() {
    let first = parse_to_string_from_u64_seed("(2*3+4)x3 - 7/2", 0);
    for seed in 1..10u64 {
        assert_eq!(parse_to_string_from_u64_seed("(2*3+4)x3 - 7/2", seed), first);
    }
    let mut rng = seeded(9);
    let t = parse_to_terminal_text("(2*3+4)x3 - 7/2", &mut rng, 300).unwrap();
    assert_eq!(result_line(&t), 27);
}

#[test]
fn hidden_cones_do_not_change_the_value() {
    for seed in 0..20u64 {
        let mut a = seeded(seed);
        let mut b = seeded(seed);
        let ta = parse_to_terminal_text("2d6", &mut a, 300).unwrap();
        let tb = parse_to_terminal_text("2d(6)", &mut b, 300).unwrap();
        assert_eq!(result_line(&ta), result_line(&tb));
    }
}

#[test]
fn one_repetition_drawing() {
    let expected = "             \n   x1> 2     \n       |     \n       2     \n             \n";
    assert_eq!(parse_to_string_from_u64_seed("1x2", 3), expected);
}

#[test]
fn zero_repetitions_drawing() {
    let expected = "          \n   x0     \n    |     \n    |     \n    0     \n          \n";
    assert_eq!(parse_to_string_from_u64_seed("0x5", 3), expected);
}

#[test]
fn single_die_drawing() {
    for seed in 0..10u64 {
        let mut rng = seeded(seed);
        let t = parse_to_terminal_text("1d6", &mut rng, 80).unwrap();
        let v = result_line(&t);
        let expected = format!(
            "              \n    1 d 6     \n     \\ /      \n      {}       \n              \nresult: {}\n",
            v, v
        );
        assert_eq!(t, expected);
    }
}

#[test]
fn two_repetitions_drawing() {
    let expected = concat_rows(&[
        "                    ",
        "   x2 --> 3 + 3     ",
        "           \\ /      ",
        "            6       ",
        "                    ",
    ]);
    assert_eq!(parse_to_string_from_u64_seed("2x3", 3), expected);
}

#[test]
fn three_repetitions_drawing() {
    let expected = concat_rows(&[
        "                        ",
        "   x3 --> 2 + 2 + 2     ",
        "           \\  |  /      ",
        "            \u{2010}\u{2010}\u{2010}\u{2010}\u{2010}       ",
        "              |         ",
        "              6         ",
        "                        ",
    ]);
    assert_eq!(parse_to_string_from_u64_seed("3x2", 3), expected);
}

fn concat_rows(rows: &[&str]) -> String {
    let mut s = String::new();
    for r in rows {
        s.push_str(r);
        s.push('\n');
    }
    s
}

#[test]
fn nested_cones_drawing() {
    let expected = concat_rows(&[
        "                    ",
        "    1 + 2 3 + 4     ",
        "     \\ /   \\ /      ",
        "      3  +  7       ",
        "       \\   /        ",
        "        \\ /         ",
        "        10          ",
        "                    ",
    ]);
    assert_eq!(parse_to_string_from_u64_seed("(1+2)+(3+4)", 3), expected);
}

#[test]
fn trapezoid_drawing() {
    let expected = concat_rows(&[
        "              ",
        "   100+200    ",
        "     \\ /      ",
        "      \u{2010}       ",
        "      |       ",
        "     300      ",
        "              ",
    ]);
    assert_eq!(parse_to_string_from_u64_seed("100+200", 3), expected);
}

#[test]
fn dice_repetition_drawing() {
    for seed in 0..10u64 {
        let mut rng = seeded(seed);
        let t = parse_to_terminal_text("2d6", &mut rng, 80).unwrap();
        let row1: Vec<char> = t.lines().nth(1).unwrap().chars().collect();
        let a = row1[10].to_digit(10).unwrap() as i64;
        let b = row1[14].to_digit(10).unwrap() as i64;
        assert!((1..=7).contains(&a) && (1..=7).contains(&b));
        let total = result_line(&t);
        assert_eq!(a + b, total);
        let total_row = if total < 10 {
            format!("            {}         ", total)
        } else {
            format!("           {}         ", total)
        };
        let expected = concat_rows(&[
            "                      ",
            &format!("    2d6-> {} + {}       ", a, b),
            "           \\ /        ",
            &total_row,
            "                      ",
            &format!("result: {}", total),
        ]);
        assert_eq!(t, expected);
    }
}

#[test]
fn d_before_a_group_is_one_d() {
    for seed in 0..10u64 {
        assert_eq!(
            parse_to_string_from_u64_seed("d(1d4+2)", seed),
            parse_to_string_from_u64_seed("1d(1d4+2)", seed)
        );
    }
}

#[test]
fn same_state_same_terminal_text() {
    let mut a = seeded(5);
    let mut b = seeded(5);
    let _ = parse_to_terminal_text("1d20", &mut a, 80);
    let _ = parse_to_terminal_text("1d20", &mut b, 80);
    let ta = parse_to_terminal_text("4d6 + 1d8", &mut a, 80);
    let tb = parse_to_terminal_text("4d6 + 1d8", &mut b, 80);
    assert_eq!(ta, tb);
    assert_eq!(a.next(), b.next());
}

#[test]
fn seeded_parse_to_string_agrees_with_the_seed_function() {
    for seed in [0u64, 1, 729] {
        let mut d = seeded(seed);
        let r = parse_to_string("2d6 hit 7", &mut d);
        let s = parse_to_string_from_u64_seed("2d6 hit 7", seed);
        assert_eq!(r, Ok(s));
    }
}
