//! The modal controller: what each key does in NORMAL and INSERT mode, given
//! the cursor on screen and the buffer. The caller performs the outcome on
//! the terminal (cursor moves, cursor shape, redraws).
use vstd::prelude::*;

use crate::lines::{lemma_line_at, line_lens, line_start};
use crate::text::Text;

verus! {

#[derive(Clone, Copy, Debug, PartialEq, Eq, Structural)]
pub enum Mode {
    Normal,
    Insert,
    Quit,
}

/// A key press, as far as the editor tells keys apart.
#[derive(Clone, Copy, Debug, PartialEq, Eq, Structural)]
pub enum Key {
    Char(char),
    Esc,
    Enter,
    Backspace,
    Other,
}

/// The cursor on screen: a column and a row, both from 0.
#[derive(Clone, Copy, Debug, PartialEq, Eq, Structural)]
pub struct Cursor {
    pub col: u16,
    pub row: u16,
}

/// The cursor shape to set: a bar while inserting, a block otherwise.
#[derive(Clone, Copy, Debug, PartialEq, Eq, Structural)]
pub enum CursorStyle {
    Unchanged,
    Bar,
    Block,
}

/// What part of the screen to paint again.
#[derive(Clone, Copy, Debug, PartialEq, Eq, Structural)]
pub enum Redraw {
    Nothing,
    /// The whole text.
    Screen,
    /// One line, written from column 0 of its row, the cursor kept in place.
    Line(u16),
}

/// The result of handling one key.
#[derive(Clone, Copy, Debug, PartialEq, Eq, Structural)]
pub struct Outcome {
    pub mode: Mode,
    pub cursor: Cursor,
    pub style: CursorStyle,
    pub redraw: Redraw,
}

/// The length of line `row`, or 0 past the last line.
pub open spec fn len_of(lens: Seq<int>, row: int) -> int {
    if 0 <= row < lens.len() {
        lens[row]
    } else {
        0
    }
}

/// The number of lines as the buffer reports it, in screen units.
pub open spec fn count_of(lens: Seq<int>) -> int {
    (lens.len() as u16) as int
}

/// One more, unless already at the largest value a screen coordinate holds.
pub open spec fn inc(x: u16) -> u16 {
    if x < u16::MAX {
        (x + 1) as u16
    } else {
        x
    }
}

/// The column after moving onto a line of length `len`: the last character
/// at most, and 0 on an empty line.
pub open spec fn clamp_col(col: u16, len: int) -> u16 {
    if len == 0 {
        0
    } else if col >= len {
        (len - 1) as u16
    } else {
        col
    }
}

pub open spec fn outcome(mode: Mode, col: u16, row: u16, style: CursorStyle, redraw: Redraw) -> Outcome {
    Outcome { mode, cursor: Cursor { col, row }, style, redraw }
}

/// What a key does in NORMAL mode, on a text whose line lengths are `lens`.
pub open spec fn normal_outcome(key: Key, cur: Cursor, lens: Seq<int>) -> Outcome {
    let (col, row) = (cur.col, cur.row);
    let same = outcome(Mode::Normal, col, row, CursorStyle::Unchanged, Redraw::Nothing);
    match key {
        Key::Char(c) => if c == 'q' {
            outcome(Mode::Quit, col, row, CursorStyle::Unchanged, Redraw::Nothing)
        } else if c == 'i' {
            outcome(Mode::Insert, col, row, CursorStyle::Bar, Redraw::Nothing)
        } else if c == 'a' {
            outcome(Mode::Insert, inc(col), row, CursorStyle::Bar, Redraw::Nothing)
        } else if c == 'h' {
            if col >= 1 {
                outcome(Mode::Normal, (col - 1) as u16, row, CursorStyle::Unchanged, Redraw::Nothing)
            } else {
                same
            }
        } else if c == 'l' {
            if col + 1 < len_of(lens, row as int) && col < u16::MAX {
                outcome(Mode::Normal, (col + 1) as u16, row, CursorStyle::Unchanged, Redraw::Nothing)
            } else {
                same
            }
        } else if c == 'j' {
            if row + 1 < count_of(lens) {
                outcome(
                    Mode::Normal,
                    clamp_col(col, len_of(lens, row + 1)),
                    (row + 1) as u16,
                    CursorStyle::Unchanged,
                    Redraw::Nothing,
                )
            } else {
                same
            }
        } else if c == 'k' {
            if row > 0 {
                outcome(
                    Mode::Normal,
                    clamp_col(col, len_of(lens, row - 1)),
                    (row - 1) as u16,
                    CursorStyle::Unchanged,
                    Redraw::Nothing,
                )
            } else {
                same
            }
        } else if c == 'r' {
            outcome(Mode::Normal, col, row, CursorStyle::Unchanged, Redraw::Screen)
        } else {
            same
        },
        _ => same,
    }
}

pub fn handle_normal(key: Key, cur: Cursor, text: &Text) -> (r: Outcome)
    requires
        text.wf(),
    ensures
        r == normal_outcome(key, cur, text.lines()),
{
    let col = cur.col;
    let row = cur.row;
    let same = Outcome { mode: Mode::Normal, cursor: cur, style: CursorStyle::Unchanged, redraw: Redraw::Nothing };
    match key {
        Key::Char(c) => {
            if c == 'q' {
                Outcome { mode: Mode::Quit, cursor: cur, style: CursorStyle::Unchanged, redraw: Redraw::Nothing }
            } else if c == 'i' {
                Outcome { mode: Mode::Insert, cursor: cur, style: CursorStyle::Bar, redraw: Redraw::Nothing }
            } else if c == 'a' {
                let col = if col < u16::MAX {
                    col + 1
                } else {
                    col
                };
                Outcome { mode: Mode::Insert, cursor: Cursor { col, row }, style: CursorStyle::Bar, redraw: Redraw::Nothing }
            } else if c == 'h' {
                if col >= 1 {
                    Outcome { cursor: Cursor { col: col - 1, row }, ..same }
                } else {
                    same
                }
            } else if c == 'l' {
                if (col as usize) + 1 < text.get_line_length(row as usize) && col < u16::MAX {
                    Outcome { cursor: Cursor { col: col + 1, row }, ..same }
                } else {
                    same
                }
            } else if c == 'j' {
                if (row as u32) + 1 < text.line_count() as u32 {
                    let next_len = text.get_line_length(row as usize + 1);
                    Outcome { cursor: Cursor { col: clamp(col, next_len), row: row + 1 }, ..same }
                } else {
                    same
                }
            } else if c == 'k' {
                if row > 0 {
                    let next_len = text.get_line_length(row as usize - 1);
                    Outcome { cursor: Cursor { col: clamp(col, next_len), row: row - 1 }, ..same }
                } else {
                    same
                }
            } else if c == 'r' {
                Outcome { redraw: Redraw::Screen, ..same }
            } else {
                same
            }
        },
        _ => same,
    }
}

fn clamp(col: u16, len: usize) -> (r: u16)
    ensures
        r == clamp_col(col, len as int),
{
    if len == 0 {
        0
    } else if col as usize >= len {
        (len - 1) as u16
    } else {
        col
    }
}

/// The cursor's cell has an offset in the text: the cursor stands on a line
/// and the offset fits in a `usize`.
pub open spec fn has_offset(lens: Seq<int>, cur: Cursor) -> bool {
    (cur.row as int) < count_of(lens) && line_start(lens, cur.row as int) + cur.col <= usize::MAX
}

/// The offset in the text of the cursor's cell.
pub open spec fn offset_of(lens: Seq<int>, cur: Cursor) -> int {
    line_start(lens, cur.row as int) + cur.col
}

/// The text after a key in INSERT mode.
pub open spec fn insert_text(key: Key, cur: Cursor, s: Seq<char>) -> Seq<char> {
    let off = offset_of(line_lens(s), cur);
    if !has_offset(line_lens(s), cur) {
        s
    } else {
        match key {
            Key::Enter => if off <= s.len() {
                s.insert(off, '\n')
            } else {
                s
            },
            Key::Backspace => if s.len() == 0 || off == 0 || off - 1 >= s.len() {
                s
            } else {
                s.remove(off - 1)
            },
            Key::Char(c) => if off <= s.len() {
                s.insert(off, c)
            } else {
                s
            },
            _ => s,
        }
    }
}

/// What a key does to mode, cursor and screen in INSERT mode, on the text `s`
/// as it was before the key.
pub open spec fn insert_outcome(key: Key, cur: Cursor, s: Seq<char>) -> Outcome {
    let lens = line_lens(s);
    let (col, row) = (cur.col, cur.row);
    let off = offset_of(lens, cur);
    let same = outcome(Mode::Insert, col, row, CursorStyle::Unchanged, Redraw::Nothing);
    match key {
        Key::Esc => {
            let len = len_of(lens, row as int);
            let col = if col >= len && len > 0 {
                (len - 1) as u16
            } else {
                col
            };
            outcome(Mode::Normal, col, row, CursorStyle::Block, Redraw::Nothing)
        },
        Key::Enter => if has_offset(lens, cur) && off <= s.len() {
            outcome(Mode::Insert, 0, inc(row), CursorStyle::Unchanged, Redraw::Screen)
        } else {
            same
        },
        Key::Backspace => if !has_offset(lens, cur) || s.len() == 0 || off == 0 {
            same
        } else if col == 0 {
            outcome(
                Mode::Insert,
                len_of(lens, row - 1) as u16,
                (row - 1) as u16,
                CursorStyle::Unchanged,
                Redraw::Screen,
            )
        } else {
            outcome(Mode::Insert, (col - 1) as u16, row, CursorStyle::Unchanged, Redraw::Line(row))
        },
        Key::Char(c) => if has_offset(lens, cur) && off <= s.len() {
            if c == '\n' {
                outcome(Mode::Insert, 0, inc(row), CursorStyle::Unchanged, Redraw::Line(row))
            } else {
                outcome(Mode::Insert, inc(col), row, CursorStyle::Unchanged, Redraw::Line(row))
            }
        } else {
            same
        },
        Key::Other => same,
    }
}

/// Relies on std's `ToString` for `char`, which writes the character through
/// `Display`: a string that holds exactly `c`.
#[verifier::external_body]
fn char_string(c: char) -> (r: String)
    ensures
        r@ == seq![c],
{
    c.to_string()
}

pub fn handle_insert(key: Key, cur: Cursor, text: &mut Text) -> (r: Outcome)
    requires
        old(text).wf(),
    ensures
        final(text).wf(),
        final(text)@ == insert_text(key, cur, old(text)@),
        r == insert_outcome(key, cur, old(text)@),
{
    let ghost s = text@;
    let ghost lens = text.lines();
    let col = cur.col;
    let row = cur.row;
    let same = Outcome { mode: Mode::Insert, cursor: cur, style: CursorStyle::Unchanged, redraw: Redraw::Nothing };
    if let Key::Esc = key {
        let len = text.get_line_length(row as usize);
        let col = if col as usize >= len && len > 0 {
            (len - 1) as u16
        } else {
            col
        };
        return Outcome { mode: Mode::Normal, cursor: Cursor { col, row }, style: CursorStyle::Block, redraw: Redraw::Nothing };
    }
    let count = text.line_count();
    if row >= count {
        return same;
    }
    proof {
        lemma_below_count(lens, row);
        lemma_line_at(s, row as int);
    }
    let size = text.size();
    let start = text.get_string_index(row as usize, 0);
    if col as usize > usize::MAX - start {
        return same;
    }
    let offset = start + col as usize;
    match key {
        Key::Enter => {
            if size < offset {
                return same;
            }
            proof {
                reveal_strlit("\n");
            }
            let _ = text.write_char("\n", offset);
            let row = if row < u16::MAX {
                row + 1
            } else {
                row
            };
            Outcome { mode: Mode::Insert, cursor: Cursor { col: 0, row }, style: CursorStyle::Unchanged, redraw: Redraw::Screen }
        },
        Key::Backspace => {
            if size == 0 || offset == 0 {
                return same;
            }
            if col == 0 {
                assert(row > 0);
                let prev = text.get_line_length(row as usize - 1);
                let _ = text.remove_at(offset - 1);
                Outcome {
                    mode: Mode::Insert,
                    cursor: Cursor { col: prev as u16, row: row - 1 },
                    style: CursorStyle::Unchanged,
                    redraw: Redraw::Screen,
                }
            } else {
                let _ = text.remove_at(offset - 1);
                Outcome {
                    mode: Mode::Insert,
                    cursor: Cursor { col: col - 1, row },
                    style: CursorStyle::Unchanged,
                    redraw: Redraw::Line(row),
                }
            }
        },
        Key::Char(c) => {
            if size < offset {
                return same;
            }
            let c_str = char_string(c);
            let _ = text.write_char(c_str.as_str(), offset);
            let cursor = if c == '\n' {
                Cursor {
                    col: 0,
                    row: if row < u16::MAX {
                        row + 1
                    } else {
                        row
                    },
                }
            } else {
                Cursor {
                    col: if col < u16::MAX {
                        col + 1
                    } else {
                        col
                    },
                    row,
                }
            };
            Outcome { mode: Mode::Insert, cursor, style: CursorStyle::Unchanged, redraw: Redraw::Line(row) }
        },
        _ => same,
    }
}

/// A row below the line count that the buffer reports is a line of the text.
proof fn lemma_below_count(lens: Seq<int>, row: u16)
    requires
        (row as int) < count_of(lens),
    ensures
        (row as int) < lens.len(),
{
}

/// What a key does in `mode`, on the text `s` as it was before the key. QUIT
/// is final: no key leads out of it.
pub open spec fn key_outcome(mode: Mode, key: Key, cur: Cursor, s: Seq<char>) -> Outcome {
    match mode {
        Mode::Normal => normal_outcome(key, cur, line_lens(s)),
        Mode::Insert => insert_outcome(key, cur, s),
        Mode::Quit => outcome(Mode::Quit, cur.col, cur.row, CursorStyle::Unchanged, Redraw::Nothing),
    }
}

/// The text after a key in `mode`: only INSERT mode edits.
pub open spec fn key_text(mode: Mode, key: Key, cur: Cursor, s: Seq<char>) -> Seq<char> {
    match mode {
        Mode::Insert => insert_text(key, cur, s),
        _ => s,
    }
}

/// Handles one key in `mode` with the cursor at `cur`.
pub fn handle_key(mode: Mode, key: Key, cur: Cursor, text: &mut Text) -> (r: Outcome)
    requires
        old(text).wf(),
    ensures
        final(text).wf(),
        final(text)@ == key_text(mode, key, cur, old(text)@),
        r == key_outcome(mode, key, cur, old(text)@),
{
    match mode {
        Mode::Normal => handle_normal(key, cur, text),
        Mode::Insert => handle_insert(key, cur, text),
        Mode::Quit => Outcome { mode: Mode::Quit, cursor: cur, style: CursorStyle::Unchanged, redraw: Redraw::Nothing },
    }
}

/// From NORMAL, `i` and `a` enter INSERT and `q` quits; from INSERT, Esc
/// returns to NORMAL; from QUIT every key stays in QUIT.
pub proof fn lemma_mode_transitions(cur: Cursor, s: Seq<char>, key: Key)
    ensures
        key_outcome(Mode::Normal, Key::Char('i'), cur, s).mode == Mode::Insert,
        key_outcome(Mode::Normal, Key::Char('a'), cur, s).mode == Mode::Insert,
        key_outcome(Mode::Normal, Key::Char('q'), cur, s).mode == Mode::Quit,
        key_outcome(Mode::Insert, Key::Esc, cur, s).mode == Mode::Normal,
        key_outcome(Mode::Quit, key, cur, s).mode == Mode::Quit,
{
}

} // verus!
