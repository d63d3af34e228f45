//! The text form of a maze: a header with the number of rooms, then the
//! grid inside a frame of walls.

use crate::grid::{Grid, MazeSpace};
use vstd::prelude::*;

verus! {

/// The character that stands for a cell.
pub open spec fn space_char(space: MazeSpace) -> char {
    match space {
        MazeSpace::Wall => 'X',
        MazeSpace::Open => ' ',
        MazeSpace::Goal => '*',
    }
}

/// The character of the decimal digit `d`.
pub open spec fn digit_char(d: int) -> char {
    if d == 0 {
        '0'
    } else if d == 1 {
        '1'
    } else if d == 2 {
        '2'
    } else if d == 3 {
        '3'
    } else if d == 4 {
        '4'
    } else if d == 5 {
        '5'
    } else if d == 6 {
        '6'
    } else if d == 7 {
        '7'
    } else if d == 8 {
        '8'
    } else {
        '9'
    }
}

/// `n` in decimal, without leading zeros.
pub open spec fn decimal(n: nat) -> Seq<char>
    decreases n,
{
    if n < 10 {
        seq![digit_char(n as int)]
    } else {
        decimal(n / 10).push(digit_char((n % 10) as int))
    }
}

/// `n` wall characters.
pub open spec fn wall_run(n: nat) -> Seq<char> {
    Seq::new(n, |i: int| 'X')
}

/// The first `n` cells of row `y` as characters.
pub open spec fn cells_text(g: Grid, y: int, n: nat) -> Seq<char> {
    Seq::new(n, |x: int| space_char(g.at(x, y)))
}

/// Row `y` between two walls, with the end of the line.
pub open spec fn row_text(g: Grid, y: int) -> Seq<char> {
    seq!['X'] + cells_text(g, y, g.width as nat) + seq!['X', '\n']
}

/// The first `n` rows, one line each.
pub open spec fn rows_text(g: Grid, n: nat) -> Seq<char>
    decreases n,
{
    if n == 0 {
        Seq::empty()
    } else {
        rows_text(g, (n - 1) as nat) + row_text(g, n - 1)
    }
}

/// The header `"<rooms per row>x<rooms per column> Maze:"`, a line of
/// walls, the rows, and a last line of walls without an end of line.
pub open spec fn render(g: Grid) -> Seq<char> {
    decimal(((g.width + 1) / 2) as nat) + seq!['x'] + decimal(((g.height + 1) / 2) as nat)
        + seq![' ', 'M', 'a', 'z', 'e', ':', '\n'] + wall_run((g.width + 2) as nat) + seq!['\n']
        + rows_text(g, g.height as nat) + wall_run((g.width + 2) as nat)
}

fn digit_str(d: usize) -> (text: &'static str)
    requires
        d < 10,
    ensures
        text@ == seq![digit_char(d as int)],
{
    proof {
        reveal_strlit("0");
        reveal_strlit("1");
        reveal_strlit("2");
        reveal_strlit("3");
        reveal_strlit("4");
        reveal_strlit("5");
        reveal_strlit("6");
        reveal_strlit("7");
        reveal_strlit("8");
        reveal_strlit("9");
    }
    let text = if d == 0 {
        "0"
    } else if d == 1 {
        "1"
    } else if d == 2 {
        "2"
    } else if d == 3 {
        "3"
    } else if d == 4 {
        "4"
    } else if d == 5 {
        "5"
    } else if d == 6 {
        "6"
    } else if d == 7 {
        "7"
    } else if d == 8 {
        "8"
    } else {
        "9"
    };
    assert(text@ =~= seq![digit_char(d as int)]);
    text
}

/// The one-character text that stands for a cell.
pub(crate) fn space_str(space: MazeSpace) -> (text: &'static str)
    ensures
        text@ == seq![space_char(space)],
{
    proof {
        reveal_strlit("X");
        reveal_strlit(" ");
        reveal_strlit("*");
    }
    let text = match space {
        MazeSpace::Wall => "X",
        MazeSpace::Open => " ",
        MazeSpace::Goal => "*",
    };
    assert(text@ =~= seq![space_char(space)]);
    text
}

/// Appends `n` in decimal.
pub(crate) fn push_decimal(text: &mut String, n: usize)
    ensures
        final(text)@ == old(text)@ + decimal(n as nat),
    decreases n,
{
    if n >= 10 {
        push_decimal(text, n / 10);
    }
    text.append(digit_str(n % 10));
    proof {
        assert(text@ =~= old(text)@ + decimal(n as nat));
    }
}

/// Appends `n` wall characters.
pub(crate) fn push_walls(text: &mut String, n: usize)
    ensures
        final(text)@ == old(text)@ + wall_run(n as nat),
{
    let mut i: usize = 0;
    proof {
        reveal_strlit("X");
        assert(text@ =~= old(text)@ + wall_run(0));
    }
    while i < n
        invariant
            i <= n,
            text@ == old(text)@ + wall_run(i as nat),
        decreases n - i,
    {
        text.append("X");
        proof {
            reveal_strlit("X");
            assert(text@ =~= old(text)@ + wall_run((i + 1) as nat));
        }
        i = i + 1;
    }
}

} // verus!
