//! Decimal digits of integers, and the drawing widths derived from them.
use vstd::prelude::*;

verus! {

/// The number of decimal digits of `n`.
pub open spec fn ndigits(n: nat) -> nat
    decreases n,
{
    if n < 10 {
        1
    } else {
        1 + ndigits(n / 10)
    }
}

pub open spec fn digit_char(d: nat) -> char {
    if d == 0 {
        '0'
    } else if d == 1 {
        '1'
    } else if d == 2 {
        '2'
    } else if d == 3 {
        '3'
    } else if d == 4 {
        '4'
    } else if d == 5 {
        '5'
    } else if d == 6 {
        '6'
    } else if d == 7 {
        '7'
    } else if d == 8 {
        '8'
    } else {
        '9'
    }
}

/// The decimal representation of `n`, most significant digit first.
pub open spec fn digits(n: nat) -> Seq<char>
    decreases n,
{
    if n < 10 {
        seq![digit_char(n)]
    } else {
        digits(n / 10).push(digit_char(n % 10))
    }
}

/// The text of an integer as Rust's `Display` writes it.
pub open spec fn int_text(v: int) -> Seq<char> {
    if v < 0 {
        seq!['-'] + digits((-v) as nat)
    } else {
        digits(v as nat)
    }
}

pub proof fn lemma_digits_len(n: nat)
    ensures
        digits(n).len() == ndigits(n),
        ndigits(n) >= 1,
    decreases n,
{
    if n >= 10 {
        lemma_digits_len(n / 10);
    }
}

pub proof fn lemma_ndigits_bound(n: nat)
    requires
        n <= 0xffff_ffff,
    ensures
        ndigits(n) <= 10,
{
    reveal_with_fuel(ndigits, 11);
}

fn digit_of(d: u32) -> (c: char)
    requires
        d < 10,
    ensures
        c == digit_char(d as nat),
{
    if d == 0 {
        '0'
    } else if d == 1 {
        '1'
    } else if d == 2 {
        '2'
    } else if d == 3 {
        '3'
    } else if d == 4 {
        '4'
    } else if d == 5 {
        '5'
    } else if d == 6 {
        '6'
    } else if d == 7 {
        '7'
    } else if d == 8 {
        '8'
    } else {
        '9'
    }
}

/// The decimal digits of `n`, most significant first.
pub fn decimal_digits(n: u32) -> (v: Vec<char>)
    ensures
        v@ == digits(n as nat),
    decreases n,
{
    if n < 10 {
        let mut v = Vec::new();
        v.push(digit_of(n));
        v
    } else {
        let mut v = decimal_digits(n / 10);
        v.push(digit_of(n % 10));
        v
    }
}

/// The magnitude of a value other than `i32::MIN`.
pub fn abs_i32(n: i32) -> (a: u32)
    requires
        n != i32::MIN,
    ensures
        a as int == (if n < 0 { -n } else { n as int }),
{
    if n < 0 {
        (-n) as u32
    } else {
        n as u32
    }
}

/// The number of decimal digits of `n`.
pub fn digit_count(n: u32) -> (c: usize)
    ensures
        c as nat == ndigits(n as nat),
        1 <= c <= 10,
{
    proof {
        lemma_ndigits_bound(n as nat);
        lemma_digits_len(n as nat);
    }
    let v = decimal_digits(n);
    v.len()
}

/// Half-width of a number drawn centered under a node, as `number_w` computes it.
pub open spec fn number_w_spec(n: int) -> int {
    let a = if n < 0 { -n } else { n };
    if a < 99 {
        1
    } else if a < 9999 {
        2
    } else {
        (ndigits(a as nat) / 2) as int + 1
    }
}

/// Width of a number drawn to the right of a point, as `number_w_left` computes it.
pub open spec fn number_w_left_spec(n: int) -> int {
    let a = if n < 0 { -n } else { n };
    if a < 9 {
        1
    } else if a < 999 {
        2
    } else {
        (ndigits(a as nat) / 2) as int + 1
    }
}

/// The horizontal room taken by `n` when it is written centered.
pub fn number_w(n: i32) -> (w: i32)
    requires
        n != i32::MIN,
    ensures
        w as int == number_w_spec(n as int),
        1 <= w <= 6,
{
    let absval = abs_i32(n);
    if absval < 99 {
        1
    } else if absval < 9999 {
        2
    } else {
        let c = digit_count(absval);
        (c / 2) as i32 + 1
    }
}

/// The horizontal room taken by `n` when it is written after a `d`.
pub fn number_w_left(n: i32) -> (w: i32)
    requires
        n != i32::MIN,
    ensures
        w as int == number_w_left_spec(n as int),
        1 <= w <= 6,
{
    let absval = abs_i32(n);
    if absval < 9 {
        1
    } else if absval < 999 {
        2
    } else {
        let c = digit_count(absval);
        (c / 2) as i32 + 1
    }
}

} // verus!
