use crate::file_buffer::{sized, FileBuffer};
use crate::modes::{min_of, Dir2, V2};
use vstd::prelude::*;

verus! {

/// Where a cursor at `c` is shown on the lines `lines`: its column at most the last column
/// of its row.
pub open spec fn display_pos(c: (usize, usize), lines: Seq<Seq<char>>) -> (usize, usize) {
    (min_of(c.0 as int, lines[c.1 as int].len() - 1) as usize, c.1)
}

/// The cursor `c` is on a row of `lines` that is not empty.
pub open spec fn on_text(c: (usize, usize), lines: Seq<Seq<char>>) -> bool {
    c.1 < lines.len() && lines[c.1 as int].len() > 0
}

/// The moves of the cursor `c` on `lines` that are defined: up where the row above it (or
/// row 0) is in the buffer, down where the buffer has a row, left and right from a row that
/// is in the buffer and not empty.
pub open spec fn move_allowed(c: (usize, usize), lines: Seq<Seq<char>>, dir: Dir2) -> bool {
    match dir {
        Dir2::Up => (if c.1 == 0 { 0 } else { c.1 - 1 }) < lines.len(),
        Dir2::Down => lines.len() > 0 && c.1 < usize::MAX,
        Dir2::Left => on_text(c, lines),
        Dir2::Right => on_text(c, lines),
    }
}

/// Where the cursor `c` goes on `lines`: up and down it keeps its column and stays within the
/// rows; left and right it moves from the column it is shown at and stays within the row.
pub open spec fn moved_pos(c: (usize, usize), lines: Seq<Seq<char>>, dir: Dir2) -> (usize, usize) {
    match dir {
        Dir2::Up => (c.0, if c.1 == 0 { 0 } else { (c.1 - 1) as usize }),
        Dir2::Down => (c.0, min_of(c.1 + 1, lines.len() - 1) as usize),
        Dir2::Left => {
            let d = display_pos(c, lines).0;
            (if d == 0 { 0 } else { (d - 1) as usize }, c.1)
        },
        Dir2::Right => {
            let d = display_pos(c, lines).0;
            (min_of(d + 1, lines[c.1 as int].len() - 1) as usize, c.1)
        },
    }
}

/// The cursor after a move in direction `dir`. It stays on a row of the buffer, and a move
/// left or right leaves it on a character of its row.
pub fn move_cursor(cursor: &V2, buf: &FileBuffer, dir: Dir2) -> (r: V2)
    requires
        move_allowed(cursor@, buf@, dir),
    ensures
        r@ == moved_pos(cursor@, buf@, dir),
        r@.1 < buf@.len(),
        (dir == Dir2::Left || dir == Dir2::Right) ==> r@.0 < buf@[r@.1 as int].len(),
{
    let cur = match dir {
        Dir2::Up => cursor.sat_sub(&V2::new(0, 1)),
        Dir2::Down => cursor.add(&V2::new(0, 1)).clamp_y(buf.len() - 1),
        Dir2::Left => display_cursor(cursor, buf).sat_sub(&V2::new(1, 0)),
        Dir2::Right => {
            let d = display_cursor(cursor, buf);
            let ll = match buf.line_len(cursor.y) {
                Some(n) => n,
                None => 0,
            };
            d.add(&V2::new(1, 0)).clamp_x(ll - 1)
        },
    };
    cur
}

/// True when `move_cursor` is defined for these arguments.
pub fn can_move_cursor(cursor: &V2, buf: &FileBuffer, dir: Dir2) -> (b: bool)
    ensures
        b == move_allowed(cursor@, buf@, dir),
{
    match dir {
        Dir2::Up => {
            let row = if cursor.y == 0 {
                0
            } else {
                cursor.y - 1
            };
            row < buf.len()
        },
        Dir2::Down => buf.len() > 0 && cursor.y < usize::MAX,
        Dir2::Left | Dir2::Right => match buf.line_len(cursor.y) {
            Some(n) => n > 0,
            None => false,
        },
    }
}

/// Where the cursor is shown: its column brought back onto the last character of its row.
pub fn display_cursor(cursor: &V2, buf: &FileBuffer) -> (r: V2)
    requires
        on_text(cursor@, buf@),
    ensures
        r@ == display_pos(cursor@, buf@),
        r@.1 < buf@.len(),
        r@.0 < buf@[r@.1 as int].len(),
{
    let ll = match buf.line_len(cursor.y) {
        Some(n) => n,
        None => 0,
    };
    cursor.clamp(&V2::new(ll - 1, cursor.y))
}


/// A cursor on a row of the buffer can always move up or down, and a cursor on a row that
/// is not empty can move in every direction; every move leaves it on a row of the buffer.
pub proof fn lemma_moves_keep_cursor_in_rows(c: (usize, usize), lines: Seq<Seq<char>>, dir: Dir2)
    requires
        c.1 < lines.len(),
        sized(lines),
    ensures
        dir == Dir2::Up || dir == Dir2::Down || on_text(c, lines) ==> move_allowed(c, lines, dir),
        move_allowed(c, lines, dir) ==> moved_pos(c, lines, dir).1 < lines.len(),
{
}

/// Showing a shown cursor changes nothing, and a cursor moved left or right is already
/// where it is shown.
pub proof fn lemma_display_fixed_point(c: (usize, usize), lines: Seq<Seq<char>>)
    requires
        on_text(c, lines),
    ensures
        on_text(display_pos(c, lines), lines),
        display_pos(display_pos(c, lines), lines) == display_pos(c, lines),
        display_pos(moved_pos(c, lines, Dir2::Left), lines) == moved_pos(c, lines, Dir2::Left),
        display_pos(moved_pos(c, lines, Dir2::Right), lines) == moved_pos(c, lines, Dir2::Right),
{
}

/// A move down undoes a move up from any row but the first, and a move up undoes a move
/// down from any row but the last.
pub proof fn lemma_vertical_moves_undo(c: (usize, usize), lines: Seq<Seq<char>>)
    requires
        c.1 < lines.len(),
        sized(lines),
    ensures
        c.1 > 0 ==> moved_pos(moved_pos(c, lines, Dir2::Up), lines, Dir2::Down) == c,
        c.1 + 1 < lines.len() ==> moved_pos(moved_pos(c, lines, Dir2::Down), lines, Dir2::Up) == c,
{
}

/// A move right undoes a move left from any shown column but the first, and a move left
/// undoes a move right from any shown column but the last; either way the cursor ends
/// where it was shown.
pub proof fn lemma_horizontal_moves_undo(c: (usize, usize), lines: Seq<Seq<char>>)
    requires
        on_text(c, lines),
        sized(lines),
    ensures
        display_pos(c, lines).0 > 0 ==> moved_pos(moved_pos(c, lines, Dir2::Left), lines, Dir2::Right)
            == display_pos(c, lines),
        display_pos(c, lines).0 + 1 < lines[c.1 as int].len() ==> moved_pos(
            moved_pos(c, lines, Dir2::Right),
            lines,
            Dir2::Left,
        ) == display_pos(c, lines),
{
}

} // verus!
