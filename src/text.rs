use vstd::prelude::*;
use vstd::string::*;

use crate::board::Board;
use crate::replay::all_valid;
use crate::tile::position::Position;
use crate::tile::value::{
    exponent_of_digit, lemma_pow2_bound, pow2, push_char, trailing_zero_bits, value_of_char, value_of_exponent, Value,
};

verus! {

/// Side of the boards that the text encoding describes.
pub const TEXT_BOARD_SIZE: usize = 4;

/// Number of characters of an encoded board.
pub const TEXT_LENGTH: usize = 16;

/// The text of the cells: one character per cell, row by row.
pub open spec fn text_of(cells: Seq<Value>) -> Seq<char> {
    cells.map_values(|v: Value| v.text())
}

/// The value of a character known to be a digit of the encoding.
pub open spec fn value_of_digit(c: char) -> Value {
    match value_of_char(c) {
        Some(v) => v,
        None => Value::Empty,
    }
}

/// Every character of `s` is a digit of the encoding.
pub open spec fn all_digits(s: Seq<char>) -> bool {
    forall|i: int| 0 <= i < s.len() ==> (#[trigger] value_of_char(s[i])) is Some
}

/// The cells that a text describes, if it describes a board.
pub open spec fn decoded(s: Seq<char>) -> Option<Seq<Value>> {
    if s.len() == TEXT_LENGTH && all_digits(s) {
        Some(s.map_values(|c: char| value_of_digit(c)))
    } else {
        None
    }
}

proof fn lemma_exponent_of_pow2(e: nat)
    requires
        e <= 11,
    ensures
        1 <= pow2(e) <= 2048,
        trailing_zero_bits(pow2(e) as u32) == e,
    decreases e,
{
    if e > 0 {
        lemma_exponent_of_pow2((e - 1) as nat);
        lemma_pow2_bound((e - 1) as nat, (e - 1) as nat);
        let x = pow2((e - 1) as nat) as u32;
        assert(pow2(e) == 2 * pow2((e - 1) as nat));
        assert((2 * x) as u32 % 2 == 0 && (2 * x) as u32 / 2 == x);
    }
}

/// Decoding a digit and encoding the value gives the digit back.
proof fn lemma_digit_round_trip(c: char)
    requires
        value_of_char(c) is Some,
    ensures
        value_of_digit(c).text() == c,
{
    let e = exponent_of_digit(c)->Some_0;
    lemma_exponent_of_pow2(e as nat);
}

/// Encoding a valid value and decoding the character gives the value back.
proof fn lemma_value_round_trip(v: Value)
    requires
        v.is_valid(),
    ensures
        value_of_char(v.text()) == Some(v),
{
    if let Value::Number(n) = v {
        let e = choose|e: nat| 1 <= e <= 11 && n == pow2(e);
        lemma_exponent_of_pow2(e);
        assert(value_of_exponent(e as u32) == v);
    }
}

/// Re-encoding the cells that a text decodes to gives the text back.
pub proof fn lemma_decode_encode(s: Seq<char>)
    requires
        decoded(s) is Some,
    ensures
        text_of(decoded(s)->Some_0) == s,
{
    let cells = decoded(s)->Some_0;
    assert forall|i: int| 0 <= i < s.len() implies #[trigger] text_of(cells)[i] == s[i] by {
        assert(value_of_char(s[i]) is Some);
        lemma_digit_round_trip(s[i]);
    }
    assert(text_of(cells) =~= s);
}

/// Decoding the text of a board of sixteen valid cells gives the cells back.
/// Every board that play reaches is valid: a new board is, and moves and
/// spawns keep it so.
pub proof fn lemma_encode_decode(cells: Seq<Value>)
    requires
        cells.len() == TEXT_LENGTH,
        all_valid(cells),
    ensures
        decoded(text_of(cells)) == Some(cells),
{
    let s = text_of(cells);
    assert forall|i: int| 0 <= i < s.len() implies (#[trigger] value_of_char(s[i])) is Some by {
        lemma_value_round_trip(cells[i]);
    }
    assert forall|i: int| 0 <= i < s.len() implies #[trigger] value_of_digit(s[i]) == cells[i] by {
        lemma_value_round_trip(cells[i]);
    }
    assert(s.map_values(|c: char| value_of_digit(c)) =~= cells);
}

impl Board {
    /// The text of the board: one digit per cell, row by row.
    pub fn to_string(&self) -> (s: String)
        requires
            self.wf(),
        ensures
            s@ == text_of(self.tiles@),
    {
        let mut s = String::new();
        let mut i: usize = 0;
        while i < self.tiles.len()
            invariant
                i <= self.tiles@.len(),
                s@ == text_of(self.tiles@.take(i as int)),
            decreases self.tiles@.len() - i,
        {
            push_char(&mut s, self.tiles[i].to_char());
            proof {
                assert(text_of(self.tiles@.take(i + 1)) =~= text_of(self.tiles@.take(i as int)).push(
                    self.tiles@[i as int].text(),
                ));
            }
            i = i + 1;
        }
        proof {
            assert(self.tiles@.take(i as int) =~= self.tiles@);
        }
        s
    }

    /// The board of side four that a text of sixteen digits describes; an
    /// error for any other text.
    pub fn decode(s: &str) -> (r: Result<Board, ()>)
        ensures
            r is Err <==> decoded(s@) is None,
            r matches Ok(b) ==> b.wf() && b.size == TEXT_BOARD_SIZE && Some(b.tiles@) == decoded(s@),
    {
        let n = s.unicode_len();
        if n != TEXT_LENGTH {
            return Err(());
        }
        let mut tiles: Vec<Value> = Vec::with_capacity(TEXT_LENGTH);
        let mut i: usize = 0;
        while i < n
            invariant
                n == s@.len() == TEXT_LENGTH,
                i <= n,
                tiles@ == s@.take(i as int).map_values(|c: char| value_of_digit(c)),
                forall|j: int| 0 <= j < i ==> (#[trigger] value_of_char(s@[j])) is Some,
            decreases n - i,
        {
            let c = s.get_char(i);
            match Value::from_char(c) {
                Some(v) => {
                    tiles.push(v);
                },
                None => {
                    return Err(());
                },
            }
            proof {
                assert(s@.take(i + 1).map_values(|c: char| value_of_digit(c)) =~= s@.take(i as int).map_values(
                    |c: char| value_of_digit(c),
                ).push(value_of_digit(s@[i as int])));
            }
            i = i + 1;
        }
        proof {
            assert(s@.take(n as int) =~= s@);
        }
        Ok(Board { size: TEXT_BOARD_SIZE, tiles, traversal_map: Position::generate_traversal_map(TEXT_BOARD_SIZE) })
    }
}

/// Decodes the text of a board of side four.
impl core::str::FromStr for Board {
    type Err = ();

    fn from_str(s: &str) -> Result<Board, ()> {
        Board::decode(s)
    }
}

} // verus!
