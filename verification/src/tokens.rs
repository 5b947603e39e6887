//! From the text of a roll expression to tokens.
use vstd::prelude::*;
use crate::tree::Token;
use crate::msg::{
    msg_hit_expected, msg_bad_char, msg_number_too_large, hit_expected_message, bad_char_message,
    number_too_large_message,
};
use crate::builder::no_min_number;

verus! {

/// The value of a decimal digit.
pub open spec fn char_digit(c: char) -> Option<int> {
    match c {
        '0' => Some(0int),
        '1' => Some(1int),
        '2' => Some(2int),
        '3' => Some(3int),
        '4' => Some(4int),
        '5' => Some(5int),
        '6' => Some(6int),
        '7' => Some(7int),
        '8' => Some(8int),
        '9' => Some(9int),
        _ => None,
    }
}

pub open spec fn is_digit(c: char) -> bool {
    char_digit(c) is Some
}

pub open spec fn all_digits(s: Seq<char>) -> bool {
    forall|i: int| 0 <= i < s.len() ==> #[trigger] is_digit(s[i])
}

/// The number that the digits `s` write in base 10.
pub open spec fn digits_value(s: Seq<char>) -> int
    decreases s.len(),
{
    if s.len() == 0 {
        0
    } else {
        digits_value(s.drop_last()) * 10 + match char_digit(s.last()) {
            Some(d) => d,
            None => 0,
        }
    }
}

/// A literal that a number token can hold: at most ten digits, and a value
/// that fits in `i32`.
pub open spec fn literal_fits(s: Seq<char>) -> bool {
    s.len() <= 10 && digits_value(s) <= i32::MAX
}

/// The end of the run of digits that starts at `i`.
pub open spec fn digit_run_end(s: Seq<char>, i: int) -> int
    decreases s.len() - i,
{
    if 0 <= i < s.len() && is_digit(s[i]) {
        digit_run_end(s, i + 1)
    } else {
        i
    }
}

/// The end of the run of spaces that starts at `i`.
pub open spec fn space_run_end(s: Seq<char>, i: int) -> int
    decreases s.len() - i,
{
    if 0 <= i < s.len() && s[i] == ' ' {
        space_run_end(s, i + 1)
    } else {
        i
    }
}

pub proof fn lemma_run_ends(s: Seq<char>, i: int)
    requires
        0 <= i <= s.len(),
    ensures
        i <= digit_run_end(s, i) <= s.len(),
        i <= space_run_end(s, i) <= s.len(),
        i < s.len() && is_digit(s[i]) ==> i < digit_run_end(s, i),
        i < s.len() && s[i] == ' ' ==> i < space_run_end(s, i),
    decreases s.len() - i,
{
    if i < s.len() {
        lemma_run_ends(s, i + 1);
    }
}

/// The token of a character that is a token by itself.
pub open spec fn single_token(c: char) -> Option<Token> {
    match c {
        '(' => Some(Token::LeftPar),
        ')' => Some(Token::RightPar),
        'd' => Some(Token::DiceRoll),
        'x' => Some(Token::Times),
        '/' => Some(Token::Division),
        '*' => Some(Token::Multiplication),
        '+' => Some(Token::Addition),
        '-' => Some(Token::Subtraction),
        _ => None,
    }
}

/// The tokens of `s` from position `i` on, after the tokens `acc`. A run
/// of digits is one number, a run of spaces one `Spaces` token with its
/// length, `hit` is `Hit`, and `|` puts a parenthesis at the very start and
/// one at the current end.
pub open spec fn lex_from(s: Seq<char>, i: int, acc: Seq<Token>) -> Result<Seq<Token>, Seq<char>>
    decreases s.len() - i,
{
    if i < 0 || i >= s.len() {
        Ok(acc)
    } else if is_digit(s[i]) {
        proof {
            lemma_run_ends(s, i);
        }
        let j = digit_run_end(s, i);
        let lit = s.subrange(i, j);
        if literal_fits(lit) {
            lex_from(s, j, acc.push(Token::Number(digits_value(lit) as i32)))
        } else {
            Err(msg_number_too_large())
        }
    } else if s[i] == ' ' {
        proof {
            lemma_run_ends(s, i);
        }
        let j = space_run_end(s, i);
        lex_from(s, j, acc.push(Token::Spaces((j - i) as i32)))
    } else if s[i] == 'h' {
        if i + 2 < s.len() && s[i + 1] == 'i' && s[i + 2] == 't' {
            lex_from(s, i + 3, acc.push(Token::Hit))
        } else {
            Err(msg_hit_expected())
        }
    } else if s[i] == '|' {
        lex_from(s, i + 1, seq![Token::LeftPar] + acc.push(Token::RightPar))
    } else {
        match single_token(s[i]) {
            Some(t) => lex_from(s, i + 1, acc.push(t)),
            None => Err(msg_bad_char(s[i])),
        }
    }
}

/// The tokens of the expression `s`, or why it has none.
pub open spec fn lex(s: Seq<char>) -> Result<Seq<Token>, Seq<char>> {
    lex_from(s, 0, Seq::empty())
}

/// `v` without its `Spaces` tokens, the others in their order.
pub open spec fn without_spaces(v: Seq<Token>) -> Seq<Token>
    decreases v.len(),
{
    if v.len() == 0 {
        Seq::empty()
    } else if v.last() is Spaces {
        without_spaces(v.drop_last())
    } else {
        without_spaces(v.drop_last()).push(v.last())
    }
}

/// The digits of a number being read.
pub struct NumberStack {
    pub number_stack: Vec<char>,
}

proof fn lemma_value_prefix(s: Seq<char>, k: int)
    requires
        0 <= k <= s.len(),
        all_digits(s),
    ensures
        0 <= digits_value(s.take(k)) <= digits_value(s),
    decreases s.len() - k,
{
    if k < s.len() {
        assert(s.take(k + 1).drop_last() =~= s.take(k));
        assert(is_digit(s[k]));
        lemma_value_prefix(s, k + 1);
    } else {
        assert(s.take(k) =~= s);
        lemma_value_nonneg(s);
    }
}

proof fn lemma_value_nonneg(s: Seq<char>)
    requires
        all_digits(s),
    ensures
        0 <= digits_value(s),
    decreases s.len(),
{
    if s.len() > 0 {
        assert(is_digit(s.last()));
        lemma_value_nonneg(s.drop_last());
    }
}

fn digit_value(c: char) -> (d: Option<u32>)
    ensures
        match char_digit(c) {
            Some(v) => d == Some(v as u32),
            None => d is None,
        },
{
    match c {
        '0' => Some(0),
        '1' => Some(1),
        '2' => Some(2),
        '3' => Some(3),
        '4' => Some(4),
        '5' => Some(5),
        '6' => Some(6),
        '7' => Some(7),
        '8' => Some(8),
        '9' => Some(9),
        _ => None,
    }
}

impl NumberStack {
    /// Adds a digit after the others.
    pub fn push(&mut self, x: char)
        ensures
            final(self).number_stack@ == old(self).number_stack@.push(x),
    {
        self.number_stack.push(x);
    }

    /// Whether the digits read so far make a number that a token holds.
    pub fn fits(&self) -> (b: bool)
        requires
            all_digits(self.number_stack@),
        ensures
            b == literal_fits(self.number_stack@),
    {
        let s = &self.number_stack;
        if s.len() > 10 {
            return false;
        }
        let mut y: i64 = 0;
        let mut n: usize = 0;
        while n < s.len()
            invariant
                n <= s@.len() <= 10,
                s@ == self.number_stack@,
                all_digits(s@),
                y == digits_value(s@.take(n as int)),
                y <= i32::MAX,
            decreases s@.len() - n,
        {
            proof {
                assert(s@.take(n + 1).drop_last() =~= s@.take(n as int));
                assert(is_digit(s@[n as int]));
                lemma_value_prefix(s@, n as int);
            }
            let d = match digit_value(s[n]) {
                Some(d) => d,
                None => 0,
            };
            y = y * 10 + d as i64;
            proof {
                assert(s@.take(n + 1).last() == s@[n as int]);
                assert(y == digits_value(s@.take(n + 1)));
            }
            if y > i32::MAX as i64 {
                proof {
                    lemma_value_prefix(s@, n + 1);
                }
                return false;
            }
            n = n + 1;
        }
        proof {
            assert(s@.take(n as int) =~= s@);
        }
        true
    }

    /// The number that the digits make; the stack is emptied.
    pub fn flush(&mut self) -> (y: i32)
        requires
            all_digits(old(self).number_stack@),
            literal_fits(old(self).number_stack@),
        ensures
            y == digits_value(old(self).number_stack@),
            0 <= y,
            final(self).number_stack@ == Seq::<char>::empty(),
    {
        let ghost s0 = self.number_stack@;
        let mut y: i32 = 0;
        let mut n: usize = 0;
        let len = self.number_stack.len();
        while n < len
            invariant
                n <= len,
                len == s0.len(),
                self.number_stack@ == s0,
                all_digits(s0),
                literal_fits(s0),
                y == digits_value(s0.take(n as int)),
                0 <= y,
            decreases len - n,
        {
            proof {
                assert(s0.take(n + 1).drop_last() =~= s0.take(n as int));
                assert(is_digit(s0[n as int]));
                lemma_value_prefix(s0, n + 1);
            }
            let d = match digit_value(self.number_stack[n]) {
                Some(d) => d,
                None => 0,
            };
            y = y * 10 + d as i32;
            n = n + 1;
        }
        proof {
            assert(s0.take(n as int) =~= s0);
        }
        self.number_stack.clear();
        y
    }
}

fn single_token_exec(c: char) -> (t: Option<Token>)
    ensures
        t == single_token(c),
{
    match c {
        '(' => Some(Token::LeftPar),
        ')' => Some(Token::RightPar),
        'd' => Some(Token::DiceRoll),
        'x' => Some(Token::Times),
        '/' => Some(Token::Division),
        '*' => Some(Token::Multiplication),
        '+' => Some(Token::Addition),
        '-' => Some(Token::Subtraction),
        _ => None,
    }
}

fn is_digit_exec(c: char) -> (b: bool)
    ensures
        b == is_digit(c),
{
    digit_value(c).is_some()
}

/// The characters of `expr`, in order.
fn chars_of(expr: &str) -> (v: Vec<char>)
    ensures
        v@ == expr@,
{
    let len = expr.unicode_len();
    let mut v: Vec<char> = Vec::new();
    let mut i: usize = 0;
    while i < len
        invariant
            i <= len,
            len == expr@.len(),
            v@ == expr@.take(i as int),
        decreases len - i,
    {
        v.push(expr.get_char(i));
        assert(expr@.take(i + 1) =~= expr@.take(i as int).push(expr@[i as int]));
        i = i + 1;
    }
    assert(expr@.take(len as int) =~= expr@);
    v
}


/// The tokens of the roll expression `expr`. The error says which
/// character is not understood, or that a number is too large for a token.
pub fn build_tokens(expr: &str) -> (r: Result<Vec<Token>, String>)
    requires
        expr@.len() <= i32::MAX,
    ensures
        match r {
            Ok(v) => lex(expr@) == Ok::<Seq<Token>, Seq<char>>(v@) && no_min_number(v@),
            Err(m) => lex(expr@) == Err::<Seq<Token>, Seq<char>>(m@),
        },
{
    let ghost s = expr@;
    let chars = chars_of(expr);
    let len = chars.len();
    let mut res: Vec<Token> = Vec::new();
    let mut number_stack = NumberStack { number_stack: Vec::new() };
    let mut n: usize = 0;
    while n < len
        invariant
            n <= len,
            len == s.len(),
            s == expr@,
            len <= i32::MAX,
            chars@ == s,
            number_stack.number_stack@ == Seq::<char>::empty(),
            lex(s) == lex_from(s, n as int, res@),
            no_min_number(res@),
        decreases len - n,
    {
        let c = chars[n];
        let ghost acc = res@;
        let ghost i = n as int;
        proof {
            lemma_run_ends(s, i);
        }
        if is_digit_exec(c) {
            let start = n;
            while n < len && is_digit_exec(chars[n])
                invariant
                    start <= n <= len,
                    len == s.len(),
                    chars@ == s,
                    number_stack.number_stack@ == s.subrange(start as int, n as int),
                    digit_run_end(s, start as int) == digit_run_end(s, n as int),
                    all_digits(number_stack.number_stack@),
                decreases len - n,
            {
                number_stack.push(chars[n]);
                n = n + 1;
            }
            assert(digit_run_end(s, n as int) == n as int);
            if !number_stack.fits() {
                let r: Result<Vec<Token>, String> = Err(number_too_large_message());
                assert(lex_from(s, i, acc) == Err::<Seq<Token>, Seq<char>>(msg_number_too_large()));
                return r;
            }
            let val = number_stack.flush();
            res.push(Token::Number(val));
            assert(res@ == acc.push(Token::Number(digits_value(s.subrange(i, n as int)) as i32)));
        } else if c == ' ' {
            let start = n;
            let mut k: i32 = 0;
            while n < len && chars[n] == ' '
                invariant
                    start <= n <= len,
                    len == s.len(),
                    len <= i32::MAX,
                    chars@ == s,
                    k == n - start,
                    space_run_end(s, start as int) == space_run_end(s, n as int),
                decreases len - n,
            {
                k = k + 1;
                n = n + 1;
            }
            assert(space_run_end(s, n as int) == n as int);
            res.push(Token::Spaces(k));
        } else if c == 'h' {
            if n + 2 < len && chars[n + 1] == 'i' && chars[n + 2] == 't' {
                res.push(Token::Hit);
                n = n + 3;
            } else {
                let r: Result<Vec<Token>, String> = Err(hit_expected_message());
                return r;
            }
        } else if c == '|' {
            res.insert(0, Token::LeftPar);
            res.push(Token::RightPar);
            assert(res@ =~= seq![Token::LeftPar] + acc.push(Token::RightPar));
            n = n + 1;
        } else {
            match single_token_exec(c) {
                Some(t) => {
                    res.push(t);
                    n = n + 1;
                },
                None => {
                    let r: Result<Vec<Token>, String> = Err(bad_char_message(c));
                    assert(s[i] == c);
                    assert(lex_from(s, i, acc) == Err::<Seq<Token>, Seq<char>>(msg_bad_char(c)));
                    return r;
                },
            }
        }
    }
    Ok(res)
}

/// Removes the `Spaces` tokens, keeping the others in their order.
pub fn clear_spaces(vec: &mut Vec<Token>) -> (r: &Vec<Token>)
    ensures
        final(vec)@ == without_spaces(old(vec)@),
        r@ == without_spaces(old(vec)@),
        no_min_number(old(vec)@) ==> no_min_number(final(vec)@),
{
    let ghost v0 = vec@;
    let mut kept: Vec<Token> = Vec::new();
    let mut i: usize = 0;
    while i < vec.len()
        invariant
            i <= v0.len(),
            vec@ == v0,
            kept@ == without_spaces(v0.take(i as int)),
            forall|j: int| 0 <= j < kept@.len() ==> exists|k: int| 0 <= k < i && #[trigger] kept@[j] == v0[k],
        decreases v0.len() - i,
    {
        let t = vec[i];
        assert(v0.take(i + 1).drop_last() =~= v0.take(i as int));
        match t {
            Token::Spaces(_) => {},
            _ => {
                kept.push(t);
            },
        }
        i = i + 1;
    }
    assert(v0.take(i as int) =~= v0);
    *vec = kept;
    vec
}

} // verus!
