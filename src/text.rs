use vstd::prelude::*;
use vstd::string::StrSliceExecFns;

use crate::game::{Game, SegmentPlacement};
use crate::line::Square;
use crate::placement::{cells, left_positions, solvable};

verus! {

/// The letter of a cell: `_` unknown, `o` filled, `x` empty.
pub open spec fn square_char(s: Square) -> char {
    match s {
        Square::Unknown => '_',
        Square::Filled => 'o',
        Square::Empty => 'x',
    }
}

/// The cell that a letter stands for.
pub open spec fn char_square(c: char) -> Square {
    if c == 'o' {
        Square::Filled
    } else if c == 'x' {
        Square::Empty
    } else {
        Square::Unknown
    }
}

/// A letter that stands for a cell.
pub open spec fn is_square_char(c: char) -> bool {
    c == '_' || c == 'o' || c == 'x'
}

/// The lowercase hexadecimal digit of `d`, below 16.
pub open spec fn hex_digit(d: int) -> char {
    if d < 10 { ((d + 48) as u8) as char } else { ((d + 87) as u8) as char }
}

/// The leading digit of `n` written in lowercase hexadecimal.
pub open spec fn hex_lead(n: int) -> char
    decreases n,
{
    if n < 16 || n <= 0 { hex_digit(n) } else { hex_lead(n / 16) }
}

/// The letter of one cell of a placement: `_` outside every segment, else the leading
/// hexadecimal digit of the segment's index.
pub open spec fn placement_char(p: Option<usize>) -> char {
    match p {
        None => '_',
        Some(k) => hex_lead(k as int),
    }
}

/// The letters of a per-cell placement.
pub open spec fn placement_text(p: Seq<Option<usize>>) -> Seq<char> {
    p.map_values(|c: Option<usize>| placement_char(c))
}

/// The cells that a string of letters describes.
pub open spec fn parse_line(s: Seq<char>) -> Seq<Square> {
    s.map_values(|c: char| char_square(c))
}

/// The letters of a line.
pub open spec fn line_text(line: Seq<Square>) -> Seq<char> {
    line.map_values(|s: Square| square_char(s))
}

/// Relies on `String`'s `FromIterator<&char>`: the string of the given characters.
#[verifier::external_body]
fn string_of(chars: &Vec<char>) -> (r: String)
    ensures
        r@ == chars@,
{
    chars.iter().collect()
}

fn leading_hex_digit(n: usize) -> (c: char)
    ensures
        c == hex_lead(n as int),
{
    let mut m: usize = n;
    while m >= 16
        invariant
            hex_lead(m as int) == hex_lead(n as int),
        decreases m,
    {
        m = m / 16;
    }
    let d: u8 = m as u8;
    if d < 10 {
        (d + 48) as char
    } else {
        (d + 87) as char
    }
}

/// The line that a string of `_`, `o` and `x` describes.
pub fn line_from_str(line_str: &str) -> (r: Vec<Square>)
    requires
        forall|i: int| 0 <= i < line_str@.len() ==> is_square_char(#[trigger] line_str@[i]),
    ensures
        r@ == parse_line(line_str@),
{
    let n = line_str.unicode_len();
    let mut r: Vec<Square> = Vec::new();
    let mut i: usize = 0;
    while i < n
        invariant
            n == line_str@.len(),
            i <= n,
            r@ == parse_line(line_str@).take(i as int),
        decreases n - i,
    {
        let c = line_str.get_char(i);
        let s = if c == 'o' {
            Square::Filled
        } else if c == 'x' {
            Square::Empty
        } else {
            Square::Unknown
        };
        r.push(s);
        i = i + 1;
        assert(r@ =~= parse_line(line_str@).take(i as int));
    }
    assert(parse_line(line_str@).take(n as int) =~= parse_line(line_str@));
    r
}

/// The letters of a line, one per cell.
pub fn str_from_line(line: Vec<Square>) -> (r: String)
    ensures
        r@ == line_text(line@),
{
    let mut chars: Vec<char> = Vec::new();
    let mut i: usize = 0;
    while i < line.len()
        invariant
            i <= line@.len(),
            chars@ == line_text(line@).take(i as int),
        decreases line@.len() - i,
    {
        let c = match line[i] {
            Square::Unknown => '_',
            Square::Empty => 'x',
            Square::Filled => 'o',
        };
        chars.push(c);
        i = i + 1;
        assert(chars@ =~= line_text(line@).take(i as int));
    }
    assert(line_text(line@).take(i as int) =~= line_text(line@));
    string_of(&chars)
}

/// The letters of a placement, one per cell, if there is one.
pub fn str_from_placements(placements: Option<Vec<SegmentPlacement>>) -> (r: Option<String>)
    ensures
        r is Some <==> placements is Some,
        r matches Some(s) ==> s@ == placement_text(placements->0@),
{
    match placements {
        None => None,
        Some(placements) => {
            let mut chars: Vec<char> = Vec::new();
            let mut i: usize = 0;
            while i < placements.len()
                invariant
                    i <= placements@.len(),
                    chars@ == placement_text(placements@).take(i as int),
                decreases placements@.len() - i,
            {
                let c = match placements[i] {
                    None => '_',
                    Some(k) => leading_hex_digit(k),
                };
                chars.push(c);
                i = i + 1;
                assert(chars@ =~= placement_text(placements@).take(i as int));
            }
            assert(placement_text(placements@).take(i as int)
                =~= placement_text(placements@));
            Some(string_of(&chars))
        },
    }
}

/// Whether the leftmost placement of `hint` on the line that `line` describes reads
/// `expected_line`, or there is none and `expected_line` is `None`.
pub fn test_line(hint: &[u32], line: &str, expected_line: Option<&str>) -> (r: bool)
    requires
        forall|i: int| 0 <= i < line@.len() ==> is_square_char(#[trigger] line@[i]),
        line@.len() < usize::MAX,
    ensures
        ({
            let l = parse_line(line@);
            r == match expected_line {
                None => !solvable(hint@, l),
                Some(e) => solvable(hint@, l) && e@ == placement_text(cells(hint@, left_positions(hint@, l), l.len() as int)),
            }
        }),
{
    let l = line_from_str(line);
    let placed = Game::place_all_left(hint, l.as_slice());
    let ghost want = placement_text(placed->0@);
    let got = str_from_placements(placed);
    match got {
        None => expected_line.is_none(),
        Some(gs) => match expected_line {
            None => false,
            Some(e) => {
                assert(gs@ == want);
                assert(want == placement_text(cells(hint@, left_positions(hint@, parse_line(line@)), line@.len() as int)));
                let g = gs.as_str();
                let n = g.unicode_len();
                let en = e.unicode_len();
                if n != en {
                    assert(gs@.len() != e@.len());
                    return false;
                }
                let mut i: usize = 0;
                while i < n
                    invariant
                        n == g@.len() == e@.len(),
                        g@ == gs@,
                        gs@ == want,
                        want == placement_text(cells(hint@, left_positions(hint@, parse_line(line@)), line@.len() as int)),
                        solvable(hint@, parse_line(line@)),
                        expected_line == Some(e),
                        i <= n,
                        forall|j: int| 0 <= j < i ==> g@[j] == e@[j],
                    decreases n - i,
                {
                    if g.get_char(i) != e.get_char(i) {
                        assert(gs@[i as int] != e@[i as int]);
                        assert(gs@ != e@);
                        return false;
                    }
                    i = i + 1;
                }
                assert(g@ =~= e@);
                true
            },
        },
    }
}

} // verus!
