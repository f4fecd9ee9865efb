use vstd::prelude::*;
use vstd::string::*;

verus! {

/// Largest value a tile may hold; two tiles of this value never merge.
pub const MAX_TILE_VALUE: u32 = 2048;

/// Largest exponent the text encoding has a digit for (`2^11 == 2048`).
pub const MAX_EXPONENT: u32 = 11;

/// The content of one cell: nothing, or a number (a power of two on any
/// board that play can reach).
#[derive(Clone, Copy, Debug, PartialEq, Eq, Hash, Structural)]
pub enum Value {
    Empty,
    Number(u32),
}

/// Number of trailing zero bits of `n` (32 for zero), as `u32::trailing_zeros`
/// counts them.
pub open spec fn trailing_zero_bits(n: u32) -> nat
    decreases n,
{
    if n == 0 {
        32
    } else if n % 2 == 1 {
        0
    } else {
        1 + trailing_zero_bits(n / 2)
    }
}

proof fn lemma_trailing_zero_bits_bound(n: u32)
    requires
        n > 0,
    ensures
        trailing_zero_bits(n) <= n,
    decreases n,
{
    if n % 2 == 0 {
        lemma_trailing_zero_bits_bound(n / 2);
    }
}

/// `2^e`, for small exponents.
pub open spec fn pow2(e: nat) -> nat
    decreases e,
{
    if e == 0 {
        1
    } else {
        2 * pow2((e - 1) as nat)
    }
}

/// The digit that stands for exponent `e` in the text encoding.
pub open spec fn digit_of(e: nat) -> char {
    if e == 0 {
        '0'
    } else if e == 1 {
        '1'
    } else if e == 2 {
        '2'
    } else if e == 3 {
        '3'
    } else if e == 4 {
        '4'
    } else if e == 5 {
        '5'
    } else if e == 6 {
        '6'
    } else if e == 7 {
        '7'
    } else if e == 8 {
        '8'
    } else if e == 9 {
        '9'
    } else if e == 10 {
        'A'
    } else if e == 11 {
        'B'
    } else {
        '0'
    }
}

/// The exponent a digit of the text encoding stands for, if it is one.
pub open spec fn exponent_of_digit(c: char) -> Option<u32> {
    if c == '0' {
        Some(0)
    } else if c == '1' {
        Some(1)
    } else if c == '2' {
        Some(2)
    } else if c == '3' {
        Some(3)
    } else if c == '4' {
        Some(4)
    } else if c == '5' {
        Some(5)
    } else if c == '6' {
        Some(6)
    } else if c == '7' {
        Some(7)
    } else if c == '8' {
        Some(8)
    } else if c == '9' {
        Some(9)
    } else if c == 'A' {
        Some(10)
    } else if c == 'B' {
        Some(11)
    } else {
        None
    }
}

/// The value an exponent stands for: zero is the empty cell.
pub open spec fn value_of_exponent(e: u32) -> Value {
    if e == 0 {
        Value::Empty
    } else {
        Value::Number(pow2(e as nat) as u32)
    }
}

/// The value a character decodes to, if it is a digit of the encoding.
pub open spec fn value_of_char(c: char) -> Option<Value> {
    match exponent_of_digit(c) {
        Some(e) => Some(value_of_exponent(e)),
        None => None,
    }
}

/// The result of merging `a` into `b`.
pub open spec fn merged(a: Value, b: Value) -> Value {
    match a {
        Value::Empty => b,
        Value::Number(n) => match b {
            Value::Number(m) => Value::Number((n + m) as u32),
            Value::Empty => a,
        },
    }
}

impl Value {
    /// The exponent of the value: zero for an empty cell, the number of
    /// trailing zero bits of a number (its base-two logarithm for a power of two).
    pub open spec fn exponent(self) -> nat {
        match self {
            Value::Empty => 0,
            Value::Number(n) => trailing_zero_bits(n),
        }
    }

    /// The character that encodes the value.
    pub open spec fn text(self) -> char {
        digit_of(self.exponent())
    }

    /// A value that play can produce: empty, or `2^e` with `1 <= e <= 11`.
    pub open spec fn is_valid(self) -> bool {
        match self {
            Value::Empty => true,
            Value::Number(n) => exists|e: nat| 1 <= e <= 11 && n == pow2(e),
        }
    }

    /// Merges `other` into `self`: an empty cell takes the other value, two
    /// numbers add up. Equality of the two numbers is left to the caller.
    pub fn merge(self, other: Value) -> (r: Value)
        requires
            self matches Value::Number(n) && other matches Value::Number(m) ==> n + m <= u32::MAX,
        ensures
            r == merged(self, other),
    {
        match self {
            Value::Empty => other,
            Value::Number(n) => {
                if let Value::Number(m) = other {
                    Value::Number(n + m)
                } else {
                    self
                }
            },
        }
    }

    /// The exponent of the value (see `exponent`).
    pub fn to_exponent(&self) -> (r: u32)
        ensures
            r as nat == self.exponent(),
    {
        match self {
            Value::Empty => 0,
            Value::Number(n) => {
                if *n == 0 {
                    return 32;
                }
                proof {
                    lemma_trailing_zero_bits_bound(*n);
                }
                let mut m: u32 = *n;
                let mut count: u32 = 0;
                while m % 2 == 0
                    invariant
                        m > 0,
                        count + trailing_zero_bits(m) == trailing_zero_bits(*n),
                        trailing_zero_bits(*n) <= u32::MAX,
                    decreases m,
                {
                    m = m / 2;
                    count = count + 1;
                }
                count
            },
        }
    }

    /// The character that encodes the value.
    pub fn to_char(&self) -> (c: char)
        ensures
            c == self.text(),
    {
        digit(self.to_exponent())
    }

    /// The number as it is shown on a tile: nothing for an empty cell, else
    /// its decimal digits.
    pub fn text_value(&self) -> (s: String)
        ensures
            s@ == match self {
                Value::Empty => Seq::<char>::empty(),
                Value::Number(n) => decimal_text(*n as nat),
            },
    {
        match self {
            Value::Empty => String::new(),
            Value::Number(n) => decimal(*n),
        }
    }

    /// The one-character text of the value.
    pub fn to_string(&self) -> (s: String)
        ensures
            s@ == seq![self.text()],
    {
        let mut s = String::new();
        push_char(&mut s, self.to_char());
        s
    }

    /// Decodes one character of the text encoding.
    pub fn from_char(c: char) -> (r: Option<Value>)
        ensures
            r == value_of_char(c),
    {
        match exponent_from_digit(c) {
            Some(e) => Some(from_exponent(e)),
            None => None,
        }
    }
}

/// Decodes a one-character string.
impl core::str::FromStr for Value {
    type Err = ();

    fn from_str(s: &str) -> Result<Value, ()> {
        if s.unicode_len() != 1 {
            return Err(());
        }
        match Value::from_char(s.get_char(0)) {
            Some(v) => Ok(v),
            None => Err(()),
        }
    }
}

/// The digit for exponent `e`.
pub fn digit(e: u32) -> (c: char)
    ensures
        c == digit_of(e as nat),
{
    match e {
        0 => '0',
        1 => '1',
        2 => '2',
        3 => '3',
        4 => '4',
        5 => '5',
        6 => '6',
        7 => '7',
        8 => '8',
        9 => '9',
        10 => 'A',
        11 => 'B',
        _ => '0',
    }
}

/// The exponent a digit stands for.
pub fn exponent_from_digit(c: char) -> (r: Option<u32>)
    ensures
        r == exponent_of_digit(c),
{
    match c {
        '0' => Some(0),
        '1' => Some(1),
        '2' => Some(2),
        '3' => Some(3),
        '4' => Some(4),
        '5' => Some(5),
        '6' => Some(6),
        '7' => Some(7),
        '8' => Some(8),
        '9' => Some(9),
        'A' => Some(10),
        'B' => Some(11),
        _ => None,
    }
}

/// The decimal digits of `n`, most significant first.
pub open spec fn decimal_text(n: nat) -> Seq<char>
    decreases n,
{
    if n < 10 {
        seq![digit_of(n)]
    } else {
        decimal_text(n / 10).push(digit_of(n % 10))
    }
}

/// Relies on `u32::to_string` (its `Display`): the decimal digits of `n`,
/// without sign or leading zeros.
#[verifier::external_body]
fn decimal(n: u32) -> (r: String)
    ensures
        r@ == decimal_text(n as nat),
{
    n.to_string()
}

/// The value `2^e` (empty for zero).
pub fn from_exponent(e: u32) -> (v: Value)
    requires
        e <= MAX_EXPONENT,
    ensures
        v == value_of_exponent(e),
{
    if e == 0 {
        return Value::Empty;
    }
    let mut p: u32 = 1;
    let mut i: u32 = 0;
    while i < e
        invariant
            i <= e <= MAX_EXPONENT,
            p == pow2(i as nat),
            p <= 2048,
        decreases e - i,
    {
        proof {
            lemma_pow2_bound(i as nat, (e - 1) as nat);
        }
        p = p * 2;
        i = i + 1;
    }
    Value::Number(p)
}

/// `2^a <= 2^b` when `a <= b <= 11`, and `2^b <= 1024` when `b <= 10`.
pub(crate) proof fn lemma_pow2_bound(a: nat, b: nat)
    requires
        a <= b <= 10,
    ensures
        pow2(a) <= 1024,
    decreases b,
{
    reveal_with_fuel(pow2, 11);
    if a < b {
        lemma_pow2_bound(a, (b - 1) as nat);
        lemma_pow2_monotone(a, b);
    }
}

pub(crate) proof fn lemma_pow2_monotone(a: nat, b: nat)
    requires
        a <= b,
    ensures
        pow2(a) <= pow2(b),
    decreases b,
{
    if a < b {
        lemma_pow2_monotone(a, (b - 1) as nat);
    }
}

/// Relies on `String::push`: appends one character.
#[verifier::external_body]
pub(crate) fn push_char(s: &mut String, c: char)
    ensures
        final(s)@ == old(s)@.push(c),
{
    s.push(c);
}

} // verus!
