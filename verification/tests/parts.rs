use roll::digits::{number_w, number_w_left};
use roll::eval::{dice_from_u32, std_crit_combine};
use roll::parse::build_number;
use roll::place::trasl;
use roll::text::{print_2d_vec_to_string, terminal_layout};
use roll::tokens::{build_tokens, clear_spaces, NumberStack};
use roll::tree::{Crit, Token};
use roll::builder::{build_tree, build_node_from_splitter};
use rand_xoshiro::rand_core::{Rng, SeedableRng};
use roll::rng::Dice;
use roll::parse_to_string;
use roll::parse_to_string_from_u64_seed;
use rand_xoshiro::Xoroshiro128StarStar;

#[test]
fn tokens_of_a_roll() {
    let t = build_tokens("12 hit 3d6").unwrap();
    assert_eq!(
        t,
        vec![
            Token::Number(12),
            Token::Spaces(1),
            Token::Hit,
            Token::Spaces(1),
            Token::Number(3),
            Token::DiceRoll,
            Token::Number(6),
        ]
    );
}

#[test]
fn tokens_of_every_operator() {
    let t = build_tokens("()dx/*+-").unwrap();
    assert_eq!(
        t,
        vec![
            Token::LeftPar,
            Token::RightPar,
            Token::DiceRoll,
            Token::Times,
            Token::Division,
            Token::Multiplication,
            Token::Addition,
            Token::Subtraction,
        ]
    );
}

#[test]
fn bars_wrap_everything_so_far() {
    let t = build_tokens("|3|").unwrap();
    assert_eq!(
        t,
        vec![Token::LeftPar, Token::LeftPar, Token::RightPar, Token::Number(3), Token::RightPar]
    );
}

#[test]
fn runs_of_spaces_are_one_token() {
    let t = build_tokens("1   +2").unwrap();
    assert_eq!(t, vec![Token::Number(1), Token::Spaces(3), Token::Addition, Token::Number(2)]);
}

#[test]
fn tokenizer_errors() {
    assert_eq!(build_tokens("1?"), Err("character ? not understood".to_string()));
    assert_eq!(
        build_tokens("hi"),
        Err("character h not understood, did you mean \"hit\" ?".to_string())
    );
    assert_eq!(build_tokens("12345678901"), Err("number too large".to_string()));
    assert_eq!(build_tokens("2147483647"), Ok(vec![Token::Number(2147483647)]));
}

#[test]
fn clearing_spaces_keeps_the_rest_in_order() {
    let mut v = vec![Token::Spaces(2), Token::Number(1), Token::Spaces(1), Token::Addition, Token::Number(2)];
    let w = clear_spaces(&mut v).clone();
    assert_eq!(w, vec![Token::Number(1), Token::Addition, Token::Number(2)]);
    assert_eq!(v, w);
    let again = clear_spaces(&mut v).clone();
    assert_eq!(again, w);
}

#[test]
fn number_stack_reads_digits() {
    let mut s = NumberStack { number_stack: Vec::new() };
    s.push('4');
    s.push('0');
    s.push('7');
    assert!(s.fits());
    assert_eq!(s.flush(), 407);
    assert!(s.number_stack.is_empty());
    for c in "2147483648".chars() {
        s.push(c);
    }
    assert!(!s.fits());
}

#[test]
fn number_widths() {
    assert_eq!(number_w(5), 1);
    assert_eq!(number_w(98), 1);
    assert_eq!(number_w(99), 2);
    assert_eq!(number_w(-100), 2);
    assert_eq!(number_w(9999), 3);
    assert_eq!(number_w(12345), 3);
    assert_eq!(number_w(1234567), 4);
    assert_eq!(number_w_left(8), 1);
    assert_eq!(number_w_left(9), 2);
    assert_eq!(number_w_left(998), 2);
    assert_eq!(number_w_left(999), 2);
    assert_eq!(number_w_left(1000), 3);
}

#[test]
fn dice_faces_from_random_numbers() {
    assert_eq!(dice_from_u32(6, 0), 1);
    assert_eq!(dice_from_u32(6, 715827881), 1);
    assert_eq!(dice_from_u32(6, 715827882), 2);
    assert_eq!(dice_from_u32(6, u32::MAX - 4), 6);
    assert_eq!(dice_from_u32(6, u32::MAX - 3), 7);
    assert_eq!(dice_from_u32(6, u32::MAX), 7);
    assert_eq!(dice_from_u32(20, 0), 1);
    assert_eq!(dice_from_u32(20, 4080218916), 20);
    assert_eq!(dice_from_u32(1, 12345), 1);
}

#[test]
fn crit_combination() {
    assert_eq!(std_crit_combine(Crit::NatMax, Crit::NatMin), Crit::NatMax);
    assert_eq!(std_crit_combine(Crit::NatMin, Crit::NatMax), Crit::NatMax);
    assert_eq!(std_crit_combine(Crit::Normal, Crit::NatMin), Crit::NatMin);
    assert_eq!(std_crit_combine(Crit::Normal, Crit::Normal), Crit::Normal);
    for a in [Crit::Normal, Crit::NatMax, Crit::NatMin] {
        for b in [Crit::Normal, Crit::NatMax, Crit::NatMin] {
            assert_eq!(std_crit_combine(a, b), std_crit_combine(b, a));
            assert_eq!(std_crit_combine(Crit::Normal, a), a);
        }
    }
}

#[test]
fn number_leaf() {
    let n = build_number(-123);
    assert_eq!(n.noderesult.unwrap().value, -123);
    assert_eq!(n.pos.h, Some(1));
    assert_eq!(n.pos.tipwidth_going_west, Some(1));
}

#[test]
fn translation_is_undone_by_the_opposite_one() {
    let mut n = build_number(7);
    n.pos.x = Some(1);
    n.pos.y = Some(2);
    assert!(trasl(&mut n, 3, -4));
    assert_eq!((n.pos.x, n.pos.y), (Some(4), Some(-2)));
    assert!(trasl(&mut n, -3, 4));
    assert_eq!((n.pos.x, n.pos.y), (Some(1), Some(2)));
    assert!(!trasl(&mut n, i32::MAX, 0));
}

#[test]
fn tree_errors() {
    let mut rng = Dice::from_seed(1);
    assert_eq!(build_tree(&[], &mut rng).err(), Some("string not understood".to_string()));
    assert_eq!(
        build_tree(&[Token::Hit], &mut rng).err(),
        Some("string not understood: found Hit instead of a number".to_string())
    );
    assert_eq!(
        build_tree(&[Token::Number(1), Token::LeftPar], &mut rng).err(),
        Some("sequence [Number(1), LeftPar] not understood".to_string())
    );
}

#[test]
fn canvas_to_string() {
    let v = vec![vec!['a', 'b', 'c'], vec!['d', 'e', 'f']];
    assert_eq!(print_2d_vec_to_string(v), "abc\ndef\n");
}

#[test]
fn canvas_cut_for_a_narrow_terminal() {
    let v = vec![vec!['a', 'b', 'c', 'd', 'e']];
    assert_eq!(terminal_layout(&v, 2), "ab\ncd\ne\n");
    assert_eq!(terminal_layout(&v, 5), "abcde\n\n");
    assert_eq!(terminal_layout(&v, 9), "abcde\n");
}

#[test]
fn seeded_dice_follow_the_seed_stream() {
    let mut dice = Dice::from_seed(42);
    let mut g = Xoroshiro128StarStar::seed_from_u64(42);
    for _ in 0..20 {
        assert_eq!(dice.next(), g.next_u32());
    }
}

#[test]
fn dice_given_back_go_on_with_the_stream() {
    let mut dice = Dice::from_seed(7);
    let first = dice.next();
    let mut g = dice.into_generator();
    let mut fresh = Xoroshiro128StarStar::seed_from_u64(7);
    assert_eq!(fresh.next_u32(), first);
    assert_eq!(g.next_u32(), fresh.next_u32());
}

#[test]
fn rolling_with_seeded_dice_is_the_seeded_roll() {
    for seed in 0..10u64 {
        let mut dice = Dice::from_seed(seed);
        let r = parse_to_string("3d6 + 1d20", &mut dice);
        let expected = parse_to_string_from_u64_seed("3d6 + 1d20", seed);
        assert_eq!(r, Ok(expected));
    }
}

#[test]
fn parse_to_string_advances_the_callers_generator() {
    let mut dice = Dice::from_seed(11);
    let _ = parse_to_string("1d6", &mut dice);
    let mut fresh = Xoroshiro128StarStar::seed_from_u64(11);
    fresh.next_u32();
    assert_eq!(dice.next(), fresh.next_u32());
}

#[test]
fn parse_to_string_without_dice_leaves_the_generator() {
    let mut dice = Dice::from_seed(11);
    assert_eq!(
        parse_to_string("2+3", &mut dice),
        Ok("              \n    2 + 3     \n     \\ /      \n      5       \n              \n".to_string())
    );
    assert_eq!(parse_to_string("2y", &mut dice), Err("character y not understood".to_string()));
    assert_eq!(parse_to_string("  ", &mut dice), Err("string not understood".to_string()));
    let mut fresh = Xoroshiro128StarStar::seed_from_u64(11);
    assert_eq!(dice.next(), fresh.next_u32());
}

fn token_text_back(t: &Token) -> String {
    match t {
        Token::LeftPar => "(".to_string(),
        Token::RightPar => ")".to_string(),
        Token::DiceRoll => "d".to_string(),
        Token::Times => "x".to_string(),
        Token::Division => "/".to_string(),
        Token::Multiplication => "*".to_string(),
        Token::Addition => "+".to_string(),
        Token::Subtraction => "-".to_string(),
        Token::Hit => "hit".to_string(),
        Token::Spaces(k) => " ".repeat(*k as usize),
        Token::Number(v) => v.to_string(),
    }
}

#[test]
fn tokens_print_back_to_the_expression() {
    for expr in ["12 hit (3d6+1)x2", "  d20  - 4/2*7", "0+10x(0)"] {
        let t = build_tokens(expr).unwrap();
        let back: String = t.iter().map(token_text_back).collect();
        assert_eq!(back, expr);
    }
}

#[test]
fn two_translations_make_one() {
    let mut a = build_number(3);
    a.pos.x = Some(5);
    a.pos.y = Some(-1);
    let mut b = build_number(3);
    b.pos.x = Some(5);
    b.pos.y = Some(-1);
    assert!(trasl(&mut a, 4, 2));
    assert!(trasl(&mut a, -10, 7));
    assert!(trasl(&mut b, -6, 9));
    assert_eq!((a.pos.x, a.pos.y), (b.pos.x, b.pos.y));
}

#[test]
fn laid_out_root_has_all_its_widths() {
    let tokens = build_tokens("(2+3)x3+1d6").unwrap();
    let mut dice = Dice::from_seed(4);
    let mut tree = build_tree(&tokens, &mut dice).unwrap();
    assert!(roll::layout::set_pos(&mut tree));
    let p = tree.pos;
    assert!(p.h.unwrap() >= 1);
    assert!(0 <= p.tipwidth_going_west.unwrap());
    assert!(p.tipwidth_going_west.unwrap() <= p.basewidth_going_west.unwrap());
    assert!(0 <= p.tipwidth_going_east.unwrap());
    assert!(p.tipwidth_going_east.unwrap() <= p.basewidth_going_east.unwrap());
    assert!(p.branch_type.is_some());
}

#[test]
fn d6_and_1d6_build_the_same_node() {
    let mut a = Dice::from_seed(2);
    let mut b = Dice::from_seed(2);
    let x = build_node_from_splitter(&[Token::DiceRoll, Token::Number(6)], Token::DiceRoll, 0, &mut a).unwrap();
    let y = build_node_from_splitter(
        &[Token::Number(1), Token::DiceRoll, Token::Number(6)],
        Token::DiceRoll,
        1,
        &mut b,
    )
    .unwrap();
    assert_eq!(format!("{:?}", x), format!("{:?}", y));
    assert_eq!(a.next(), b.next());
}

#[test]
fn exit_words_end_the_prompt() {
    for w in ["exit", "Exit", "quit", "Quit", "q"] {
        assert!(roll::api::is_exit_command(w));
    }
    for w in ["", "exit ", "EXIT", "qq", "Q", "1d6"] {
        assert!(!roll::api::is_exit_command(w));
    }
}

#[test]
fn dice_from_an_existing_generator_roll_its_numbers() {
    let mut a = Dice::from_generator(Xoroshiro128StarStar::seed_from_u64(3));
    let mut b = Dice::from_seed(3);
    assert_eq!(parse_to_string("3d6", &mut a), parse_to_string("3d6", &mut b));
}
