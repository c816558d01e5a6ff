//! The board as text: a score line, then a bordered grid with each value
//! centred in its cell. The text comes in pieces, each with the emphasis it
//! is drawn with.

use vstd::prelude::*;
use crate::board::Board;
use crate::style::{style_of, tile_style, TileStyle};

verus! {

/// The character of the decimal digit `d`.
pub open spec fn digit_char(d: nat) -> char {
    if d == 0 {
        '0'
    } else if d == 1 {
        '1'
    } else if d == 2 {
        '2'
    } else if d == 3 {
        '3'
    } else if d == 4 {
        '4'
    } else if d == 5 {
        '5'
    } else if d == 6 {
        '6'
    } else if d == 7 {
        '7'
    } else if d == 8 {
        '8'
    } else {
        '9'
    }
}

/// The decimal digits of `n`, most significant first, without leading zeros.
pub open spec fn decimal(n: nat) -> Seq<char>
    decreases n,
{
    if n < 10 {
        seq![digit_char(n)]
    } else {
        decimal(n / 10).push(digit_char(n % 10))
    }
}

/// `k` spaces.
pub open spec fn spaces(k: nat) -> Seq<char> {
    Seq::new(k, |i: int| ' ')
}

/// `s` centred in `width` columns: an odd margin puts the extra space on the
/// right, and text as wide as `width` or wider stands as it is.
pub open spec fn centered(s: Seq<char>, width: nat) -> Seq<char> {
    if s.len() >= width {
        s
    } else {
        let pad = (width - s.len()) as nat;
        spaces(pad / 2) + s + spaces((pad - pad / 2) as nat)
    }
}

/// The text of a cell holding `value`: blank when empty, else its decimal
/// digits, centred in nine columns.
pub open spec fn cell_view(value: usize) -> Seq<char> {
    centered(if value == 0 { Seq::empty() } else { decimal(value as nat) }, 9)
}

fn digit_text(d: usize) -> (r: &'static str)
    requires
        d < 10,
    ensures
        r@ == seq![digit_char(d as nat)],
{
    proof {
        reveal_strlit("0");
        reveal_strlit("1");
        reveal_strlit("2");
        reveal_strlit("3");
        reveal_strlit("4");
        reveal_strlit("5");
        reveal_strlit("6");
        reveal_strlit("7");
        reveal_strlit("8");
        reveal_strlit("9");
    }
    match d {
        0 => "0",
        1 => "1",
        2 => "2",
        3 => "3",
        4 => "4",
        5 => "5",
        6 => "6",
        7 => "7",
        8 => "8",
        _ => "9",
    }
}

/// Returns the decimal digits of `n` and how many there are.
fn decimal_text(n: usize) -> (r: (String, usize))
    ensures
        r.0@ == decimal(n as nat),
        r.1 == decimal(n as nat).len(),
        r.1 <= n + 1,
    decreases n,
{
    if n < 10 {
        (String::from_str(digit_text(n)), 1)
    } else {
        let (mut s, len) = decimal_text(n / 10);
        s.append(digit_text(n % 10));
        (s, len + 1)
    }
}

fn spaces_text(k: usize) -> (r: String)
    ensures
        r@ == spaces(k as nat),
{
    let mut s = String::new();
    let mut i: usize = 0;
    while i < k
        invariant
            i <= k,
            s@ == spaces(i as nat),
        decreases k - i,
    {
        proof {
            reveal_strlit(" ");
        }
        s.append(" ");
        assert(s@ =~= spaces((i + 1) as nat));
        i = i + 1;
    }
    s
}

/// Returns the text of one cell: blank for 0, else its decimal digits,
/// centred in nine columns (an odd margin puts the extra space on the right).
pub fn cell_text(value: usize) -> (r: String)
    ensures
        r@ == cell_view(value),
{
    let (digits, len) = if value == 0 {
        (String::new(), 0)
    } else {
        decimal_text(value)
    };
    if len >= 9 {
        return digits;
    }
    let pad = 9 - len;
    let mut out = spaces_text(pad / 2);
    out.append(digits.as_str());
    let right = spaces_text(pad - pad / 2);
    out.append(right.as_str());
    out
}

/// The line above and below each row of cells.
pub open spec fn separator() -> Seq<char> {
    "+---------+---------+---------+---------+\n"@
}

/// The blank line above and below the values of a row.
pub open spec fn spacer() -> Seq<char> {
    "|         |         |         |         |\n"@
}

/// The first line: the score.
pub open spec fn score_line(score: usize) -> Seq<char> {
    "Score: "@ + decimal(score as nat) + "\n"@
}

/// A border piece, drawn without emphasis.
pub open spec fn plain(t: Seq<char>) -> (Seq<char>, TileStyle) {
    (t, TileStyle::Plain)
}

/// The piece for a cell holding `value`, drawn with that value's emphasis.
pub open spec fn cell_piece(value: usize) -> (Seq<char>, TileStyle) {
    (cell_view(value), style_of(value))
}

/// The pieces of row `r` of the grid `v`: separator, spacer, the value line
/// cell by cell, and spacer.
pub open spec fn row_pieces(v: Seq<usize>, r: int) -> Seq<(Seq<char>, TileStyle)> {
    seq![
        plain(separator()),
        plain(spacer()),
        plain("|"@),
        cell_piece(v[4 * r]),
        plain("|"@),
        cell_piece(v[4 * r + 1]),
        plain("|"@),
        cell_piece(v[4 * r + 2]),
        plain("|"@),
        cell_piece(v[4 * r + 3]),
        plain("|\n"@),
        plain(spacer()),
    ]
}

/// The pieces of the first `n` rows of `v`.
pub open spec fn rows_pieces(v: Seq<usize>, n: int) -> Seq<(Seq<char>, TileStyle)>
    decreases n,
{
    if n <= 0 {
        Seq::empty()
    } else {
        rows_pieces(v, n - 1) + row_pieces(v, n - 1)
    }
}

/// The board with cells `v` and score `score` as drawn: the score line,
/// the four rows, and a closing separator.
pub open spec fn board_pieces(v: Seq<usize>, score: usize) -> Seq<(Seq<char>, TileStyle)> {
    seq![plain(score_line(score))] + rows_pieces(v, 4) + seq![plain(separator())]
}

/// The text of a sequence of pieces, one after another.
pub open spec fn text_of(p: Seq<(Seq<char>, TileStyle)>) -> Seq<char>
    decreases p.len(),
{
    if p.len() == 0 {
        Seq::empty()
    } else {
        text_of(p.drop_last()) + p.last().0
    }
}

/// The whole text of the board as drawn.
pub open spec fn board_text(v: Seq<usize>, score: usize) -> Seq<char> {
    text_of(board_pieces(v, score))
}

/// The pieces held in `p`, as character sequences.
pub open spec fn pieces_view(p: Seq<(String, TileStyle)>) -> Seq<(Seq<char>, TileStyle)> {
    p.map_values(|x: (String, TileStyle)| (x.0@, x.1))
}

fn push_piece(out: &mut Vec<(String, TileStyle)>, text: String, style: TileStyle)
    ensures
        pieces_view(final(out)@) == pieces_view(old(out)@).push((text@, style)),
{
    let ghost before = out@;
    out.push((text, style));
    assert(pieces_view(out@) =~= pieces_view(before).push((text@, style)));
}

fn push_plain(out: &mut Vec<(String, TileStyle)>, text: &str)
    ensures
        pieces_view(final(out)@) == pieces_view(old(out)@).push(plain(text@)),
{
    push_piece(out, String::from_str(text), TileStyle::Plain);
}

fn push_cell(out: &mut Vec<(String, TileStyle)>, value: usize)
    ensures
        pieces_view(final(out)@) == pieces_view(old(out)@).push(cell_piece(value)),
{
    push_piece(out, cell_text(value), tile_style(value));
}

impl Board {
    /// The board as drawn, piece by piece: "Score: <score>", then for each
    /// row a separator, a spacer, the value line and a spacer, then a
    /// closing separator. Each cell's text carries the emphasis of its
    /// value; the borders are plain.
    pub fn render(&self) -> (r: Vec<(String, TileStyle)>)
        requires
            self.wf(),
        ensures
            pieces_view(r@) == board_pieces(self.values@, self.score),
            text_of(pieces_view(r@)) == board_text(self.values@, self.score),
    {
        let ghost v = self.values@;
        let mut out: Vec<(String, TileStyle)> = Vec::new();
        let mut line = String::from_str("Score: ");
        let (digits, _) = decimal_text(self.score);
        line.append(digits.as_str());
        line.append("\n");
        push_piece(&mut out, line, TileStyle::Plain);
        assert(pieces_view(out@) =~= seq![plain(score_line(self.score))] + rows_pieces(v, 0));
        let mut r: usize = 0;
        while r < 4
            invariant
                v == self.values@,
                v.len() == 16,
                r <= 4,
                pieces_view(out@) == seq![plain(score_line(self.score))] + rows_pieces(v, r as int),
            decreases 4 - r,
        {
            let ghost before = pieces_view(out@);
            let base = r * 4;
            push_plain(&mut out, "+---------+---------+---------+---------+\n");
            push_plain(&mut out, "|         |         |         |         |\n");
            push_plain(&mut out, "|");
            push_cell(&mut out, self.values[base]);
            push_plain(&mut out, "|");
            push_cell(&mut out, self.values[base + 1]);
            push_plain(&mut out, "|");
            push_cell(&mut out, self.values[base + 2]);
            push_plain(&mut out, "|");
            push_cell(&mut out, self.values[base + 3]);
            push_plain(&mut out, "|\n");
            push_plain(&mut out, "|         |         |         |         |\n");
            assert(pieces_view(out@) =~= before + row_pieces(v, r as int));
            assert(seq![plain(score_line(self.score))] + rows_pieces(v, r + 1) =~= before + row_pieces(v, r as int));
            r = r + 1;
        }
        push_plain(&mut out, "+---------+---------+---------+---------+\n");
        assert(pieces_view(out@) =~= board_pieces(v, self.score));
        out
    }
}

} // verus!
