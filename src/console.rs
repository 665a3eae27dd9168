//! The early text console: a screen of 25 rows of 80 character cells,
//! written at the bottom row and scrolled up by one row per new line.
use vstd::prelude::*;

verus! {

/// Columns of the screen.
pub const VGA_WIDTH: usize = 80;
/// Rows of the screen.
pub const VGA_HEIGHT: usize = 25;

/// A text-mode colour.
#[derive(Clone, Copy, Debug, PartialEq, Eq, Structural, Hash)]
pub enum Color {
    Black,
    Blue,
    Green,
    Cyan,
    Red,
    Magenta,
    Brown,
    LightGray,
    DarkGray,
    LightBlue,
    LightGreen,
    LightCyan,
    LightRed,
    Pink,
    Yellow,
    White,
}

/// The hardware code of a colour.
pub open spec fn color_code(c: Color) -> u8 {
    match c {
        Color::Black => 0,
        Color::Blue => 1,
        Color::Green => 2,
        Color::Cyan => 3,
        Color::Red => 4,
        Color::Magenta => 5,
        Color::Brown => 6,
        Color::LightGray => 7,
        Color::DarkGray => 8,
        Color::LightBlue => 9,
        Color::LightGreen => 10,
        Color::LightCyan => 11,
        Color::LightRed => 12,
        Color::Pink => 13,
        Color::Yellow => 14,
        Color::White => 15,
    }
}

impl Color {
    /// The hardware code of this colour.
    pub fn code(self) -> (r: u8)
        ensures
            r == color_code(self),
            r < 16,
    {
        match self {
            Color::Black => 0,
            Color::Blue => 1,
            Color::Green => 2,
            Color::Cyan => 3,
            Color::Red => 4,
            Color::Magenta => 5,
            Color::Brown => 6,
            Color::LightGray => 7,
            Color::DarkGray => 8,
            Color::LightBlue => 9,
            Color::LightGreen => 10,
            Color::LightCyan => 11,
            Color::LightRed => 12,
            Color::Pink => 13,
            Color::Yellow => 14,
            Color::White => 15,
        }
    }
}

/// One screen cell: a character and its colour attribute.
#[derive(Clone, Copy, Debug, PartialEq, Eq, Structural, Hash)]
pub struct Character {
    pub character: u8,
    pub color: u8,
}

impl Character {
    pub fn new(character: u8, color: u8) -> (r: Character)
        ensures
            r.character == character,
            r.color == color,
    {
        Character { character, color }
    }
}

/// A row of blank cells in colour `color`.
pub open spec fn blank_row(color: u8) -> Seq<Character> {
    Seq::new(80, |i: int| Character { character: 32, color })
}

/// The screen scrolled up by one row, with a blank bottom row.
pub open spec fn scrolled(rows: Seq<Seq<Character>>, color: u8) -> Seq<Seq<Character>> {
    rows.subrange(1, 25).push(blank_row(color))
}

/// The screen and column after writing byte `ch` in colour `color`.
pub open spec fn write_step(rows: Seq<Seq<Character>>, col: usize, color: u8, ch: u8) -> (Seq<Seq<Character>>, usize) {
    if ch == 10 {
        (scrolled(rows, color), 0)
    } else if ch == 13 {
        (rows, 0)
    } else {
        let r = if col >= 80 { scrolled(rows, color) } else { rows };
        let c: usize = if col >= 80 { 0 } else { col };
        (r.update(24, r[24].update(c as int, Character { character: ch, color })), (c + 1) as usize)
    }
}

/// The screen and column after writing the bytes `s` in colour `color`.
pub open spec fn write_all(rows: Seq<Seq<Character>>, col: usize, color: u8, s: Seq<u8>) -> (Seq<Seq<Character>>, usize)
    decreases s.len(),
{
    if s.len() == 0 {
        (rows, col)
    } else {
        let (r, c) = write_all(rows, col, color, s.drop_last());
        write_step(r, c, color, s.last())
    }
}

/// Writes characters to the bottom row of the screen.
pub struct Writer {
    col: usize,
    color: u8,
    buffer: Vec<Vec<Character>>,
}

impl Writer {
    /// The screen, row by row from the top.
    pub closed spec fn rows(&self) -> Seq<Seq<Character>> {
        self.buffer@.map_values(|r: Vec<Character>| r@)
    }

    /// The column of the next character on the bottom row.
    pub closed spec fn column(&self) -> usize {
        self.col
    }

    /// The colour attribute of the next character.
    pub closed spec fn attribute(&self) -> u8 {
        self.color
    }

    pub closed spec fn wf(&self) -> bool {
        &&& self.buffer@.len() == 25
        &&& forall|r: int| 0 <= r < 25 ==> (#[trigger] self.buffer@[r])@.len() == 80
        &&& self.col <= 80
    }

    /// A blank screen, white on black.
    pub fn new() -> (r: Writer)
        ensures
            r.wf(),
            r.column() == 0,
            r.attribute() == 0x0f,
            forall|i: int| 0 <= i < 25 ==> #[trigger] r.rows()[i] == blank_row(0x0f),
    {
        let mut buffer: Vec<Vec<Character>> = Vec::new();
        let mut i: usize = 0;
        while i < VGA_HEIGHT
            invariant
                i <= 25,
                buffer@.len() == i,
                forall|r: int| 0 <= r < i ==> (#[trigger] buffer@[r])@ == blank_row(0x0f),
            decreases 25 - i,
        {
            buffer.push(Self::blank(0x0f));
            i = i + 1;
        }
        Writer { col: 0, color: 0x0f, buffer }
    }

    fn blank(color: u8) -> (r: Vec<Character>)
        ensures
            r@ == blank_row(color),
    {
        let mut row: Vec<Character> = Vec::new();
        let mut c: usize = 0;
        while c < VGA_WIDTH
            invariant
                c <= 80,
                row@ == Seq::new(c as nat, |i: int| Character { character: 32, color }),
            decreases 80 - c,
        {
            row.push(Character::new(0x20, color));
            c = c + 1;
            proof {
                assert(row@ =~= Seq::new(c as nat, |i: int| Character { character: 32, color }));
            }
        }
        row
    }

    /// The cell at `row`, `col`.
    pub fn cell(&self, row: usize, col: usize) -> (r: Character)
        requires
            self.wf(),
            row < 25,
            col < 80,
        ensures
            r == self.rows()[row as int][col as int],
    {
        self.buffer[row][col]
    }

    /// The column of the next character on the bottom row.
    pub fn col(&self) -> (r: usize)
        ensures
            r == self.column(),
    {
        self.col
    }

    /// The colour attribute of the next character.
    pub fn color(&self) -> (r: u8)
        ensures
            r == self.attribute(),
    {
        self.color
    }

    /// Sets the colours of what is written next.
    pub fn set_color(&mut self, fg: Color, bg: Color)
        ensures
            final(self).attribute() == color_code(bg) * 16 + color_code(fg),
            final(self).column() == old(self).column(),
            final(self).rows() == old(self).rows(),
            old(self).wf() ==> final(self).wf(),
    {
        let f = fg.code();
        let b = bg.code();
        proof {
            assert((b << 4u8) | f == b * 16 + f) by (bit_vector)
                requires b < 16, f < 16;
        }
        self.color = (b << 4u8) | f;
    }

    /// Blanks row `row` in the current colour.
    pub fn clear_row(&mut self, row: usize)
        requires
            old(self).wf(),
            row < 25,
        ensures
            final(self).wf(),
            final(self).rows() == old(self).rows().update(row as int, blank_row(old(self).attribute())),
            final(self).column() == old(self).column(),
            final(self).attribute() == old(self).attribute(),
    {
        let blank = Self::blank(self.color);
        let ghost before = self.rows();
        self.buffer.set(row, blank);
        proof {
            assert(self.rows() =~= before.update(row as int, blank_row(self.color)));
        }
    }

    /// Scrolls the screen up by one row, blanks the bottom row and moves to
    /// its start.
    pub fn new_line(&mut self)
        requires
            old(self).wf(),
        ensures
            final(self).wf(),
            final(self).column() == 0,
            final(self).attribute() == old(self).attribute(),
            final(self).rows() == scrolled(old(self).rows(), old(self).attribute()),
    {
        let ghost before = self.rows();
        self.buffer.remove(0);
        let blank = Self::blank(self.color);
        self.buffer.push(blank);
        self.col = 0;
        proof {
            assert forall|r: int| 0 <= r < 25 implies (#[trigger] self.buffer@[r])@.len() == 80 by {
                if r < 24 {
                    assert(self.buffer@[r] == old(self).buffer@[r + 1]);
                }
            }
            assert forall|r: int| 0 <= r < 24 implies #[trigger] self.rows()[r] == before[r + 1] by {
                assert(self.buffer@[r] == old(self).buffer@[r + 1]);
            }
            assert(self.rows() =~= scrolled(before, self.color));
        }
    }

    /// Writes one byte: a new line for `\n`, back to the row's start for
    /// `\r`, otherwise the character at the current column, after a new
    /// line when the row is full.
    pub fn write(&mut self, ch: u8)
        requires
            old(self).wf(),
        ensures
            final(self).wf(),
            final(self).attribute() == old(self).attribute(),
            (final(self).rows(), final(self).column()) == write_step(
                old(self).rows(),
                old(self).column(),
                old(self).attribute(),
                ch,
            ),
    {
        if ch == 0x0a {
            self.new_line();
        } else if ch == 0x0d {
            self.col = 0;
        } else {
            if self.col >= VGA_WIDTH {
                self.new_line();
            }
            let c = Character::new(ch, self.color);
            let ghost before = self.rows();
            let mut row = self.buffer[VGA_HEIGHT - 1].clone();
            proof {
                assert(row@ =~= self.buffer@[24]@);
            }
            row.set(self.col, c);
            self.buffer.set(VGA_HEIGHT - 1, row);
            self.col = self.col + 1;
            proof {
                assert(self.rows() =~= before.update(24, before[24].update(self.col - 1, c)));
            }
        }
    }

    /// Writes the bytes of `s` one after the other.
    pub fn write_bytes(&mut self, s: &[u8])
        requires
            old(self).wf(),
        ensures
            final(self).wf(),
            final(self).attribute() == old(self).attribute(),
            (final(self).rows(), final(self).column()) == write_all(
                old(self).rows(),
                old(self).column(),
                old(self).attribute(),
                s@,
            ),
    {
        let mut i: usize = 0;
        while i < s.len()
            invariant
                self.wf(),
                self.attribute() == old(self).attribute(),
                i <= s@.len(),
                (self.rows(), self.column()) == write_all(
                    old(self).rows(),
                    old(self).column(),
                    old(self).attribute(),
                    s@.subrange(0, i as int),
                ),
            decreases s@.len() - i,
        {
            proof {
                assert(s@.subrange(0, i as int + 1).drop_last() =~= s@.subrange(0, i as int));
            }
            self.write(s[i]);
            i = i + 1;
        }
        proof {
            assert(s@.subrange(0, i as int) =~= s@);
        }
    }
}

} // verus!
