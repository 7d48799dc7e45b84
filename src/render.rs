use vstd::prelude::*;
use vstd::string::StringExecFns;

use crate::board::Cell;
use crate::game::Game;

verus! {

/// The decimal digit for `d`.
pub open spec fn digit_char(d: nat) -> char {
    if d == 0 { '0' }
    else if d == 1 { '1' }
    else if d == 2 { '2' }
    else if d == 3 { '3' }
    else if d == 4 { '4' }
    else if d == 5 { '5' }
    else if d == 6 { '6' }
    else if d == 7 { '7' }
    else if d == 8 { '8' }
    else { '9' }
}

/// `n` written in decimal, without leading zeros.
pub open spec fn decimal(n: nat) -> Seq<char>
    decreases n,
{
    if n < 10 {
        seq![digit_char(n)]
    } else {
        decimal(n / 10).push(digit_char(n % 10))
    }
}

/// One space where `c` holds, else nothing.
pub open spec fn space_if(c: bool) -> Seq<char> {
    if c { seq![' '] } else { seq![] }
}

/// The column labels of the first `n` columns.
pub open spec fn header_cols(n: nat) -> Seq<char>
    decreases n,
{
    if n == 0 {
        seq![]
    } else {
        header_cols((n - 1) as nat) + decimal((n - 1) as nat) + seq![' '] + space_if(n - 1 < 10)
    }
}

/// `n` copies of `---`.
pub open spec fn dashes(n: nat) -> Seq<char>
    decreases n,
{
    if n == 0 {
        seq![]
    } else {
        dashes((n - 1) as nat) + seq!['-', '-', '-']
    }
}

/// A foreground color of the terminal.
#[derive(Debug, Clone, Copy, PartialEq, Eq, Structural)]
pub enum Paint {
    Blue,
    Green,
    Red,
    DarkBlue,
    DarkRed,
    LightBlue,
    Black,
    White,
    Yellow,
}

/// The color of a count from 1 to 8.
pub open spec fn count_paint(c: nat) -> Paint {
    if c == 1 { Paint::Blue }
    else if c == 2 { Paint::Green }
    else if c == 3 { Paint::Red }
    else if c == 4 { Paint::DarkBlue }
    else if c == 5 { Paint::DarkRed }
    else if c == 6 { Paint::LightBlue }
    else if c == 7 { Paint::Black }
    else { Paint::White }
}

/// The 256-color palette number of `color`, in decimal.
pub open spec fn paint_code(color: Paint) -> Seq<char> {
    match color {
        Paint::Blue => seq!['4'],
        Paint::Green => seq!['2'],
        Paint::Red => seq!['1'],
        Paint::DarkBlue => seq!['1', '8'],
        Paint::DarkRed => seq!['5', '2'],
        Paint::LightBlue => seq!['1', '2'],
        Paint::Black => seq!['0'],
        Paint::White => seq!['1', '5'],
        Paint::Yellow => seq!['3'],
    }
}

/// `text` in the foreground color `color`: the escape sequence that selects
/// the color, the text, then the sequence that resets it.
pub open spec fn painted(text: Seq<char>, color: Paint) -> Seq<char> {
    seq!['\x1B', '[', '3', '8', ';', '5', ';'] + paint_code(color) + seq!['m'] + text + seq!['\x1B', '[', '0', 'm']
}

impl Game {
    /// What an uncovered cell shows: `@` in red on a mine, else its count in
    /// that count's color, or a white `.` for none.
    pub open spec fn shown_text(&self, x: int, y: int) -> Seq<char> {
        if self.board.cell(x, y) == Cell::Bomb {
            painted(seq!['@'], Paint::Red)
        } else if 1 <= self.board.bomb_count(x, y) <= 8 {
            painted(seq![digit_char(self.board.bomb_count(x, y))], count_paint(self.board.bomb_count(x, y)))
        } else {
            painted(seq!['.'], Paint::White)
        }
    }

    /// How the cell at `(x, y)` is drawn: what it shows once uncovered; while
    /// covered, a yellow `F` if flagged and a plain `_` otherwise.
    pub open spec fn cell_text(&self, x: int, y: int) -> Seq<char> {
        if self.is_uncovered(x, y) {
            self.shown_text(x, y)
        } else if self.is_flagged(x, y) {
            painted(seq!['F'], Paint::Yellow)
        } else {
            seq!['_']
        }
    }

    /// The line of column labels.
    pub open spec fn header_text(&self) -> Seq<char> {
        seq![' ', ' '] + space_if(self.board.height > 10) + header_cols(self.board.width as nat)
    }

    /// The line under the column labels.
    pub open spec fn separator_text(&self) -> Seq<char> {
        space_if(self.board.height > 10) + seq![' ', '+'] + dashes(self.board.width as nat)
    }

    /// The first `n` cells of row `y`, each followed by two spaces.
    pub open spec fn row_cells(&self, y: int, n: nat) -> Seq<char>
        decreases n,
    {
        if n == 0 {
            seq![]
        } else {
            self.row_cells(y, (n - 1) as nat) + self.cell_text(n - 1, y) + seq![' ', ' ']
        }
    }

    /// Row `y`: its label, a bar, and its cells.
    pub open spec fn row_text(&self, y: nat) -> Seq<char> {
        decimal(y) + space_if(y < 10 && self.board.height > 10) + seq!['|'] + self.row_cells(y as int, self.board.width as nat)
    }

    /// The first `n` rows, each after a line break.
    pub open spec fn rows_text(&self, n: nat) -> Seq<char>
        decreases n,
    {
        if n == 0 {
            seq![]
        } else {
            self.rows_text((n - 1) as nat) + seq!['\n'] + self.row_text((n - 1) as nat)
        }
    }

    /// The whole drawing: labels, separator, then one line per row.
    pub open spec fn board_text(&self) -> Seq<char> {
        self.header_text() + seq!['\n'] + self.separator_text() + self.rows_text(self.board.height as nat)
    }
}

/// The decimal digit for `d`, as a string.
fn digit_str(d: usize) -> (r: &'static str)
    requires
        d < 10,
    ensures
        r@ == seq![digit_char(d as nat)],
{
    if d == 0 {
        proof {
            reveal_strlit("0");
        }
        "0"
    } else if d == 1 {
        proof {
            reveal_strlit("1");
        }
        "1"
    } else if d == 2 {
        proof {
            reveal_strlit("2");
        }
        "2"
    } else if d == 3 {
        proof {
            reveal_strlit("3");
        }
        "3"
    } else if d == 4 {
        proof {
            reveal_strlit("4");
        }
        "4"
    } else if d == 5 {
        proof {
            reveal_strlit("5");
        }
        "5"
    } else if d == 6 {
        proof {
            reveal_strlit("6");
        }
        "6"
    } else if d == 7 {
        proof {
            reveal_strlit("7");
        }
        "7"
    } else if d == 8 {
        proof {
            reveal_strlit("8");
        }
        "8"
    } else {
        proof {
            reveal_strlit("9");
        }
        "9"
    }
}

/// Appends `n` in decimal.
fn push_decimal(out: &mut String, n: usize)
    ensures
        final(out)@ == old(out)@ + decimal(n as nat),
    decreases n,
{
    if n >= 10 {
        push_decimal(out, n / 10);
        out.append(digit_str(n % 10));
    } else {
        out.append(digit_str(n));
    }
}

/// Appends one space where `c` holds.
fn push_space_if(out: &mut String, c: bool)
    ensures
        final(out)@ == old(out)@ + space_if(c),
{
    if c {
        proof {
            reveal_strlit(" ");
        }
        out.append(" ");
    } else {
        assert(old(out)@ + space_if(c) =~= old(out)@);
    }
}

/// The color of a count from 1 to 8.
fn count_color(c: usize) -> (r: Paint)
    ensures
        r == count_paint(c as nat),
{
    if c == 1 { Paint::Blue }
    else if c == 2 { Paint::Green }
    else if c == 3 { Paint::Red }
    else if c == 4 { Paint::DarkBlue }
    else if c == 5 { Paint::DarkRed }
    else if c == 6 { Paint::LightBlue }
    else if c == 7 { Paint::Black }
    else { Paint::White }
}

/// Relies on colorful's `Colorful::color` and the `Display` of the `CString` it
/// returns: for a foreground color of the 256-color palette it writes
/// `ESC[38;5;<code>m`, the text, and `ESC[0m`.
#[verifier::external_body]
fn paint(text: &str, color: Paint) -> (r: String)
    ensures
        r@ == painted(text@, color),
{
    let c = match color {
        Paint::Blue => colorful::Color::Blue,
        Paint::Green => colorful::Color::Green,
        Paint::Red => colorful::Color::Red,
        Paint::DarkBlue => colorful::Color::DarkBlue,
        Paint::DarkRed => colorful::Color::DarkRed1,
        Paint::LightBlue => colorful::Color::LightBlue,
        Paint::Black => colorful::Color::Black,
        Paint::White => colorful::Color::White,
        Paint::Yellow => colorful::Color::Yellow,
    };
    format!("{}", colorful::Colorful::color(text, c))
}

impl Game {
    /// How the cell at `(x, y)` is drawn.
    fn cell_str(&self, x: usize, y: usize) -> (r: String)
        requires
            self.wf(),
            self.board.in_range(x as int, y as int),
        ensures
            r@ == self.cell_text(x as int, y as int),
    {
        if self.check_uncovered(x, y) {
            let count = self.get_bomb_count(x, y);
            match self.board.get(x, y) {
                Cell::Empty => {
                    if 1 <= count && count <= 8 {
                        paint(digit_str(count), count_color(count))
                    } else {
                        proof {
                            reveal_strlit(".");
                            assert("."@ =~= seq!['.']);
                        }
                        paint(".", Paint::White)
                    }
                },
                Cell::Bomb => {
                    proof {
                        reveal_strlit("@");
                        assert("@"@ =~= seq!['@']);
                    }
                    paint("@", Paint::Red)
                },
            }
        } else if self.check_flagged(x, y) {
            proof {
                reveal_strlit("F");
                assert("F"@ =~= seq!['F']);
            }
            paint("F", Paint::Yellow)
        } else {
            proof {
                reveal_strlit("_");
            }
            String::from_str("_")
        }
    }

    /// The board as text: a line of column labels, a separator, then one line
    /// per row giving its label and how each cell is drawn.
    pub fn get_board(&self) -> (r: String)
        requires
            self.wf(),
        ensures
            r@ == self.board_text(),
    {
        let width = self.board.width;
        let height = self.board.height;
        proof {
            reveal_strlit("  ");
            reveal_strlit(" ");
            reveal_strlit("\n");
            reveal_strlit(" +");
            reveal_strlit("---");
            reveal_strlit("|");
        }
        let mut out = String::new();
        out.append("  ");
        push_space_if(&mut out, height > 10);
        let ghost start = out@;
        for x in 0..width
            invariant
                out@ == start + header_cols(x as nat),
        {
            proof {
                reveal_strlit(" ");
            }
            push_decimal(&mut out, x);
            out.append(" ");
            push_space_if(&mut out, x < 10);
            assert(out@ =~= start + header_cols((x + 1) as nat));
        }
        assert(out@ =~= self.header_text());
        out.append("\n");
        push_space_if(&mut out, height > 10);
        out.append(" +");
        let ghost start = out@;
        for _x in 0..width
            invariant
                out@ == start + dashes(_x as nat),
        {
            proof {
                reveal_strlit("---");
            }
            out.append("---");
            assert(out@ =~= start + dashes((_x + 1) as nat));
        }
        assert(out@ =~= self.header_text() + seq!['\n'] + self.separator_text());
        let ghost top = out@;
        for y in 0..height
            invariant
                self.wf(),
                width == self.board.width,
                height == self.board.height,
                top == self.header_text() + seq!['\n'] + self.separator_text(),
                out@ == top + self.rows_text(y as nat),
        {
            proof {
                reveal_strlit("\n");
                reveal_strlit("|");
            }
            out.append("\n");
            push_decimal(&mut out, y);
            push_space_if(&mut out, y < 10 && height > 10);
            out.append("|");
            let ghost line = out@;
            for x in 0..width
                invariant
                    self.wf(),
                    width == self.board.width,
                    y < height,
                    height == self.board.height,
                    out@ == line + self.row_cells(y as int, x as nat),
            {
                proof {
                    reveal_strlit("  ");
                }
                let cell = self.cell_str(x, y);
                out.append(cell.as_str());
                out.append("  ");
                assert(out@ =~= line + self.row_cells(y as int, (x + 1) as nat));
            }
            assert(out@ =~= top + self.rows_text((y + 1) as nat));
        }
        out
    }
}

/// Once every cell is uncovered (as after a mine is hit), the drawing shows
/// what each cell holds, and no cell as covered (`_`) or flagged (`F`).
pub proof fn lemma_all_uncovered_drawn(g: &Game)
    requires
        forall|x: int, y: int| g.board.in_range(x, y) ==> #[trigger] g.is_uncovered(x, y),
    ensures
        forall|x: int, y: int| g.board.in_range(x, y) ==> #[trigger] g.cell_text(x, y) == g.shown_text(x, y),
        forall|x: int, y: int, i: int| g.board.in_range(x, y) && 0 <= i < g.cell_text(x, y).len() ==>
            #[trigger] g.cell_text(x, y)[i] != '_' && g.cell_text(x, y)[i] != 'F',
{
    assert forall|x: int, y: int, i: int| g.board.in_range(x, y) && 0 <= i < g.cell_text(x, y).len() implies
        #[trigger] g.cell_text(x, y)[i] != '_' && g.cell_text(x, y)[i] != 'F' by {
        assert(g.is_uncovered(x, y));
        let c = g.board.bomb_count(x, y);
        if g.board.cell(x, y) == Cell::Bomb {
            lemma_painted_plain(seq!['@'], Paint::Red, i);
        } else if 1 <= c <= 8 {
            lemma_painted_plain(seq![digit_char(c)], count_paint(c), i);
        } else {
            lemma_painted_plain(seq!['.'], Paint::White, i);
        }
    }
}

/// Painting adds no `_` and no `F` to a text that has none.
pub proof fn lemma_painted_plain(text: Seq<char>, color: Paint, i: int)
    requires
        forall|j: int| 0 <= j < text.len() ==> #[trigger] text[j] != '_' && text[j] != 'F',
        0 <= i < painted(text, color).len(),
    ensures
        painted(text, color)[i] != '_' && painted(text, color)[i] != 'F',
{
    let code = paint_code(color);
    assert(forall|j: int| 0 <= j < code.len() ==> #[trigger] code[j] != '_' && code[j] != 'F');
    let head = seq!['\x1B', '[', '3', '8', ';', '5', ';'] + code + seq!['m'];
    let s = head + text + seq!['\x1B', '[', '0', 'm'];
    assert(painted(text, color) == s);
    if i < 7 {
        assert(s[i] == head[i]);
    } else if i < 7 + code.len() {
        assert(s[i] == head[i]);
        assert(head[i] == code[i - 7]);
    } else if i < head.len() {
        assert(s[i] == 'm');
    } else if i < head.len() + text.len() {
        assert(s[i] == text[i - head.len()]);
    } else {
        assert(s[i] == seq!['\x1B', '[', '0', 'm'][i - head.len() - text.len()]);
    }
}

} // verus!
