//! Cursor navigation: the per-key decisions of the two selection phases
//! (picking a card, then choosing a destination).

use vstd::prelude::*;
use crate::board::Board;

verus! {

/// A direction or jump key, as the game understands it.
#[derive(Clone, Copy, PartialEq, Eq, Structural, Debug)]
pub enum Key {
    Left,
    Right,
    Up,
    Down,
    Top,
    Bottom,
}

/// Clamp a pick-phase cursor row into its column: rows run from 0 to one
/// below the column's length.
pub fn clamp_row(b: &Board, col: u16, row: u16) -> (r: u16)
    requires
        b.wf(),
        col < 8,
        b.col_len(col as int) <= u16::MAX as int,
    ensures
        r as int == (if row as int <= b.col_len(col as int) - 1 {
            row as int
        } else {
            b.col_len(col as int) - 1
        }),
{
    let last = (b.cascades[col as usize].len() - 1) as u16;
    if row <= last {
        row
    } else {
        last
    }
}

/// One pick-phase cursor step: left and right move between columns, staying
/// on the board; down and up move along the column, saturating at 0; the
/// jumps go to the top slot or just past the column's end.
pub fn pick_cursor_step(b: &Board, col: u16, row: u16, key: Key) -> (r: (u16, u16))
    requires
        b.wf(),
        col < 8,
        b.col_len(col as int) <= u16::MAX as int,
    ensures
        r.0 < 8,
        key == Key::Left ==> r.0 as int == (if col == 0 {
            0int
        } else {
            col as int - 1
        }) && r.1 == row,
        key == Key::Right ==> r.0 as int == (if col >= 7 {
            7int
        } else {
            col as int + 1
        }) && r.1 == row,
        key == Key::Down ==> r.0 == col && r.1 as int == (if row == u16::MAX {
            row as int
        } else {
            row as int + 1
        }),
        key == Key::Up ==> r.0 == col && r.1 as int == (if row == 0 {
            0int
        } else {
            row as int - 1
        }),
        key == Key::Top ==> r.0 == col && r.1 == 0,
        key == Key::Bottom ==> r.0 == col && r.1 as int == b.col_len(col as int),
{
    match key {
        Key::Left => (if col == 0 {
            0
        } else {
            col - 1
        }, row),
        Key::Right => (if col >= 7 {
            7
        } else {
            col + 1
        }, row),
        Key::Down => (col, if row == u16::MAX {
            row
        } else {
            row + 1
        }),
        Key::Up => (col, if row == 0 {
            0
        } else {
            row - 1
        }),
        Key::Top => (col, 0),
        Key::Bottom => (col, b.cascades[col as usize].len() as u16),
    }
}

/// One place-phase cursor step: left and right move between columns; up and
/// down toggle between the top row and the area below the cascades; the
/// jump keys do nothing here.
pub fn place_cursor_step(col: u16, top: bool, key: Key) -> (r: (u16, bool))
    requires
        col < 8,
    ensures
        r.0 < 8,
        key == Key::Left ==> r.0 as int == (if col == 0 {
            0int
        } else {
            col as int - 1
        }) && r.1 == top,
        key == Key::Right ==> r.0 as int == (if col >= 7 {
            7int
        } else {
            col as int + 1
        }) && r.1 == top,
        key == Key::Up || key == Key::Down ==> r.0 == col && r.1 == !top,
        key == Key::Top || key == Key::Bottom ==> r.0 == col && r.1 == top,
{
    match key {
        Key::Left => (if col == 0 {
            0
        } else {
            col - 1
        }, top),
        Key::Right => (if col >= 7 {
            7
        } else {
            col + 1
        }, top),
        Key::Up => (col, !top),
        Key::Down => (col, !top),
        Key::Top => (col, top),
        Key::Bottom => (col, top),
    }
}

} // verus!
