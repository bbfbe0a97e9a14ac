//! What a program around the searches needs to report a solution: numbers
//! with their digits in groups of three, the name of the file for a solved
//! picture, and the pixels on the straight line between two positions of a
//! path.

use vstd::prelude::*;
use vstd::string::*;
use crate::maze::node::Position;

verus! {

/// The place of the first `c` in `s`, or the length of `s` if there is none.
pub open spec fn index_of(s: Seq<char>, c: char) -> int
    decreases s.len(),
{
    if s.len() == 0 {
        0
    } else if s[0] == c {
        0
    } else {
        1 + index_of(s.drop_first(), c)
    }
}

/// `digits` with a comma before every group of three, counted from the
/// right.
pub open spec fn grouped(digits: Seq<char>) -> Seq<char>
    decreases digits.len(),
{
    if digits.len() <= 3 {
        digits
    } else {
        grouped(digits.subrange(0, digits.len() - 3)) + seq![','] + digits.subrange(
            digits.len() - 3,
            digits.len() as int,
        )
    }
}

/// Whether `number` starts with a minus sign.
pub open spec fn signed(number: Seq<char>) -> bool {
    number.len() > 0 && number[0] == '-'
}

/// `number` with the digits before the point in groups of three: a leading
/// minus sign and everything from the first point on stay as they are.
pub open spec fn formatted(number: Seq<char>) -> Seq<char> {
    let from = if signed(number) {
        1int
    } else {
        0int
    };
    let point = index_of(number, '.');
    number.subrange(0, from) + grouped(number.subrange(from, point)) + number.subrange(
        point,
        number.len() as int,
    )
}

/// What `index_of` returns: a place before which there is no `c`, and at
/// which there is one unless it is the end.
pub proof fn lemma_index_of(s: Seq<char>, c: char)
    ensures
        0 <= index_of(s, c) <= s.len(),
        forall|k: int| 0 <= k < index_of(s, c) ==> s[k] != c,
        index_of(s, c) < s.len() ==> s[index_of(s, c)] == c,
    decreases s.len(),
{
    if s.len() > 0 && s[0] != c {
        let rest = s.drop_first();
        lemma_index_of(rest, c);
        assert forall|k: int| 0 <= k < index_of(s, c) implies s[k] != c by {
            if k > 0 {
                assert(rest[k - 1] == s[k]);
            }
        }
    }
}

/// The place that is the first `c` of `s` is what `index_of` returns.
pub proof fn lemma_index_found(s: Seq<char>, c: char, at: int)
    requires
        0 <= at <= s.len(),
        forall|k: int| 0 <= k < at ==> s[k] != c,
        at < s.len() ==> s[at] == c,
    ensures
        index_of(s, c) == at,
{
    lemma_index_of(s, c);
    let found = index_of(s, c);
    if found < at {
        assert(s[found] != c);
    }
    if at < found {
        assert(s[at] != c);
    }
}

/// The place of the first `c` in `text`, or its length in characters.
fn find(text: &str, c: char) -> (at: usize)
    ensures
        at == index_of(text@, c),
        at <= text@.len(),
{
    let n = text.unicode_len();
    let mut at: usize = 0;
    while at < n
        invariant
            at <= n,
            n == text@.len(),
            forall|k: int| 0 <= k < at ==> text@[k] != c,
        ensures
            at <= n,
            forall|k: int| 0 <= k < at ==> text@[k] != c,
            at < n ==> text@[at as int] == c,
        decreases n - at,
    {
        if text.get_char(at) == c {
            break ;
        }
        at += 1;
    }
    proof {
        lemma_index_found(text@, c, at as int);
    }
    at
}

/// A number as text, with the digits before the point in groups of three:
/// `1234567.25` becomes `1,234,567.25`.
pub fn fmt_num(number: &str) -> (out: String)
    ensures
        out@ == formatted(number@),
{
    let n = number.unicode_len();
    let neg = n > 0 && number.get_char(0) == '-';
    let start_index: usize = if neg {
        1
    } else {
        0
    };
    let point_index = find(number, '.');
    proof {
        lemma_index_of(number@, '.');
    }
    let ghost s = number@;
    let mut out = String::from_str(number.substring_char(0, start_index));
    let lead = (point_index - start_index) % 3;
    let mut at = start_index;
    if lead > 0 {
        out.append(number.substring_char(at, at + lead));
        at = at + lead;
        proof {
            assert(grouped(s.subrange(start_index as int, at as int)) == s.subrange(
                start_index as int,
                at as int,
            ));
        }
    } else {
        proof {
            assert(s.subrange(start_index as int, at as int) =~= Seq::<char>::empty());
            assert(out@ =~= s.subrange(0, start_index as int) + grouped(
                s.subrange(start_index as int, at as int),
            ));
        }
    }
    while at < point_index
        invariant
            s == number@,
            start_index <= at <= point_index <= s.len(),
            (point_index - at) % 3 == 0,
            out@ == s.subrange(0, start_index as int) + grouped(
                s.subrange(start_index as int, at as int),
            ),
        decreases point_index - at,
    {
        let ghost done = s.subrange(start_index as int, at as int);
        let ghost more = s.subrange(start_index as int, at + 3);
        proof {
            assert(more.subrange(0, more.len() - 3) =~= done);
            assert(more.subrange(more.len() - 3, more.len() as int) =~= s.subrange(
                at as int,
                at + 3,
            ));
        }
        if at > start_index {
            out.append(",");
            proof {
                reveal_strlit(",");
                assert(","@ =~= seq![',']);
            }
        } else {
            proof {
                assert(done =~= Seq::<char>::empty());
                assert(more =~= s.subrange(at as int, at + 3));
            }
        }
        out.append(number.substring_char(at, at + 3));
        at = at + 3;
        proof {
            assert(out@ =~= s.subrange(0, start_index as int) + grouped(more));
        }
    }
    out.append(number.substring_char(point_index, n));
    out
}

/// The name of the file for the solved picture: the name of the picture up
/// to its first point, a hyphen, the name of the search, and `.png`.
pub fn solved_name(name: &str, algo_str: &str) -> (file: String)
    ensures
        file@ == name@.subrange(0, index_of(name@, '.')) + "-"@ + algo_str@ + ".png"@,
{
    let dot_index = find(name, '.');
    let mut file = String::from_str(name.substring_char(0, dot_index));
    file.append("-");
    file.append(algo_str);
    file.append(".png");
    file
}

/// The pixels from `a` to `b` along one row or one column.
pub open spec fn line(a: Position, b: Position) -> Seq<Position> {
    if a.row == b.row {
        let west = if a.col <= b.col {
            a.col
        } else {
            b.col
        };
        let east = if a.col <= b.col {
            b.col
        } else {
            a.col
        };
        Seq::new((east - west + 1) as nat, |k: int| Position { col: (west + k) as u32, row: a.row })
    } else {
        let north = if a.row <= b.row {
            a.row
        } else {
            b.row
        };
        let south = if a.row <= b.row {
            b.row
        } else {
            a.row
        };
        Seq::new(
            (south - north + 1) as nat,
            |k: int| Position { col: a.col, row: (north + k) as u32 },
        )
    }
}

/// The pixels to paint for the step of a path from `a` to `b`: where the two
/// lie in one row, that row from the one to the other; else the column of
/// `a` between their rows.
pub fn stroke(a: Position, b: Position) -> (pixels: Vec<Position>)
    ensures
        pixels@ == line(a, b),
{
    let mut pixels: Vec<Position> = Vec::new();
    if a.row() == b.row() {
        let west = if a.col() <= b.col() {
            a.col()
        } else {
            b.col()
        };
        let east = if a.col() <= b.col() {
            b.col()
        } else {
            a.col()
        };
        let mut x = west;
        while x < east
            invariant
                west <= x <= east,
                pixels.len() == x - west,
                forall|k: int|
                    0 <= k < pixels.len() ==> pixels[k] == (Position {
                        col: (west + k) as u32,
                        row: a.row,
                    }),
            decreases east - x,
        {
            pixels.push(Position::new(x, a.row()));
            x += 1;
        }
        pixels.push(Position::new(east, a.row()));
    } else {
        let north = if a.row() <= b.row() {
            a.row()
        } else {
            b.row()
        };
        let south = if a.row() <= b.row() {
            b.row()
        } else {
            a.row()
        };
        let mut y = north;
        while y < south
            invariant
                north <= y <= south,
                pixels.len() == y - north,
                forall|k: int|
                    0 <= k < pixels.len() ==> pixels[k] == (Position {
                        col: a.col,
                        row: (north + k) as u32,
                    }),
            decreases south - y,
        {
            pixels.push(Position::new(a.col(), y));
            y += 1;
        }
        pixels.push(Position::new(a.col(), south));
    }
    assert(pixels@ =~= line(a, b));
    pixels
}

} // verus!
