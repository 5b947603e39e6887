//! The texts of tokens and of the error messages.
use vstd::prelude::*;
use crate::tree::Token;
use crate::digits::{int_text, digits, decimal_digits, abs_i32};
use crate::eval::EvalError;
use crate::text::push_char;

verus! {

/// A token as `{:?}` writes it.
pub open spec fn token_text(t: Token) -> Seq<char> {
    match t {
        Token::LeftPar => "LeftPar"@,
        Token::RightPar => "RightPar"@,
        Token::DiceRoll => "DiceRoll"@,
        Token::Times => "Times"@,
        Token::Division => "Division"@,
        Token::Multiplication => "Multiplication"@,
        Token::Addition => "Addition"@,
        Token::Subtraction => "Subtraction"@,
        Token::Hit => "Hit"@,
        Token::Spaces(n) => "Spaces("@ + int_text(n as int) + ")"@,
        Token::Number(n) => "Number("@ + int_text(n as int) + ")"@,
    }
}

/// The tokens written one after the other, separated by `, `.
pub open spec fn joined_text(v: Seq<Token>) -> Seq<char>
    decreases v.len(),
{
    if v.len() == 0 {
        Seq::empty()
    } else if v.len() == 1 {
        token_text(v[0])
    } else {
        joined_text(v.drop_last()) + ", "@ + token_text(v.last())
    }
}

/// A sequence of tokens as `{:?}` writes it.
pub open spec fn tokens_text(v: Seq<Token>) -> Seq<char> {
    "["@ + joined_text(v) + "]"@
}

pub open spec fn msg_empty() -> Seq<char> {
    "string not understood"@
}

pub open spec fn msg_not_a_number(t: Token) -> Seq<char> {
    "string not understood: found "@ + token_text(t) + " instead of a number"@
}

pub open spec fn msg_not_understood(v: Seq<Token>) -> Seq<char> {
    "sequence "@ + tokens_text(v) + " not understood"@
}

pub open spec fn msg_bad_repetition() -> Seq<char> {
    "bad error"@
}

pub open spec fn msg_eval(e: EvalError) -> Seq<char> {
    match e {
        EvalError::Overflow => "arithmetic overflow"@,
        EvalError::DivisionByZero => "attempt to divide by zero"@,
        EvalError::Malformed => "malformed roll tree"@,
    }
}

pub open spec fn msg_hit_expected() -> Seq<char> {
    "character h not understood, did you mean \"hit\" ?"@
}

pub open spec fn msg_bad_char(c: char) -> Seq<char> {
    "character "@ + seq![c] + " not understood"@
}

pub open spec fn msg_number_too_large() -> Seq<char> {
    "number too large"@
}

pub open spec fn msg_cannot_draw() -> Seq<char> {
    "the roll tree cannot be drawn"@
}

/// Appends the decimal text of `n`.
pub fn push_int(s: &mut String, n: i32)
    ensures
        final(s)@ == old(s)@ + int_text(n as int),
{
    let ghost s0 = s@;
    let mag: u32 = if n < 0 {
        push_char(s, '-');
        if n == i32::MIN {
            0x8000_0000u32
        } else {
            abs_i32(n)
        }
    } else {
        n as u32
    };
    let ds = decimal_digits(mag);
    let ghost s1 = s@;
    let mut i: usize = 0;
    while i < ds.len()
        invariant
            0 <= i <= ds@.len(),
            s@ == s1 + ds@.take(i as int),
        decreases ds.len() - i,
    {
        push_char(s, ds[i]);
        assert(ds@.take(i + 1) =~= ds@.take(i as int).push(ds@[i as int]));
        i = i + 1;
    }
    assert(ds@.take(ds@.len() as int) =~= ds@);
    if n < 0 {
        assert(s@ =~= s0 + (seq!['-'] + digits(mag as nat)));
    }
}

/// A token as `{:?}` writes it.
pub fn token_string(t: Token) -> (s: String)
    ensures
        s@ == token_text(t),
{
    match t {
        Token::LeftPar => String::from_str("LeftPar"),
        Token::RightPar => String::from_str("RightPar"),
        Token::DiceRoll => String::from_str("DiceRoll"),
        Token::Times => String::from_str("Times"),
        Token::Division => String::from_str("Division"),
        Token::Multiplication => String::from_str("Multiplication"),
        Token::Addition => String::from_str("Addition"),
        Token::Subtraction => String::from_str("Subtraction"),
        Token::Hit => String::from_str("Hit"),
        Token::Spaces(n) => {
            let mut s = String::from_str("Spaces(");
            push_int(&mut s, n);
            s.append(")");
            s
        },
        Token::Number(n) => {
            let mut s = String::from_str("Number(");
            push_int(&mut s, n);
            s.append(")");
            s
        },
    }
}

/// A sequence of tokens as `{:?}` writes it.
pub fn tokens_string(v: &[Token]) -> (s: String)
    ensures
        s@ == tokens_text(v@),
{
    let mut s = String::from_str("[");
    let ghost s0 = s@;
    let mut i: usize = 0;
    assert(v@.take(0) =~= Seq::<Token>::empty());
    while i < v.len()
        invariant
            0 <= i <= v@.len(),
            s@ == s0 + joined_text(v@.take(i as int)),
        decreases v.len() - i,
    {
        assert(v@.take(i + 1).drop_last() =~= v@.take(i as int));
        if i > 0 {
            s.append(", ");
        }
        let t = token_string(v[i]);
        s.append(t.as_str());
        proof {
            if i == 0 {
                assert(v@.take(1) =~= seq![v@[0]]);
            }
            assert(s@ =~= s0 + joined_text(v@.take(i + 1)));
        }
        i = i + 1;
    }
    assert(v@.take(v@.len() as int) =~= v@);
    s.append("]");
    s
}

pub fn empty_message() -> (s: String)
    ensures
        s@ == msg_empty(),
{
    String::from_str("string not understood")
}

pub fn not_a_number_message(t: Token) -> (s: String)
    ensures
        s@ == msg_not_a_number(t),
{
    let mut s = String::from_str("string not understood: found ");
    let tt = token_string(t);
    s.append(tt.as_str());
    s.append(" instead of a number");
    s
}

pub fn not_understood_message(v: &[Token]) -> (s: String)
    ensures
        s@ == msg_not_understood(v@),
{
    let mut s = String::from_str("sequence ");
    let tt = tokens_string(v);
    s.append(tt.as_str());
    s.append(" not understood");
    s
}

pub fn bad_repetition_message() -> (s: String)
    ensures
        s@ == msg_bad_repetition(),
{
    String::from_str("bad error")
}

pub fn eval_message(e: EvalError) -> (s: String)
    ensures
        s@ == msg_eval(e),
{
    match e {
        EvalError::Overflow => String::from_str("arithmetic overflow"),
        EvalError::DivisionByZero => String::from_str("attempt to divide by zero"),
        EvalError::Malformed => String::from_str("malformed roll tree"),
    }
}

pub fn hit_expected_message() -> (s: String)
    ensures
        s@ == msg_hit_expected(),
{
    String::from_str("character h not understood, did you mean \"hit\" ?")
}

pub fn bad_char_message(c: char) -> (s: String)
    ensures
        s@ == msg_bad_char(c),
{
    let mut s = String::from_str("character ");
    push_char(&mut s, c);
    s.append(" not understood");
    s
}

pub fn number_too_large_message() -> (s: String)
    ensures
        s@ == msg_number_too_large(),
{
    String::from_str("number too large")
}

pub fn cannot_draw_message() -> (s: String)
    ensures
        s@ == msg_cannot_draw(),
{
    String::from_str("the roll tree cannot be drawn")
}

} // verus!
