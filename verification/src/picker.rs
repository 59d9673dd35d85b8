//! The color picker's state machine and grid arithmetic.
//!
//! The picker is either inactive, choosing which named color to edit from a
//! menu of names, or editing one color (remembering the original override so
//! a cancel can revert it). The editing grid maps a cell of a fixed-size
//! square to a color; drawing and input decoding live outside this crate.

use vstd::prelude::*;
use crate::ctx::Canvas;

verus! {

/// The picker grid is `WIDTH x HEIGHT` cells of `TILE_DIMS` pixels each.
pub const WIDTH: u32 = 255;

pub const HEIGHT: u32 = 255;

pub const TILE_DIMS: u32 = 2;

/// A color, one byte per channel.
#[derive(Clone, Copy, PartialEq, Eq, Structural, Debug)]
pub struct Color {
    pub red: u8,
    pub green: u8,
    pub blue: u8,
}

/// What the color picker is doing.
pub enum ColorPicker {
    Inactive,
    /// Choosing a color to change, from the named colors offered.
    Choosing(Vec<String>),
    /// Changing one named color; the original override is remembered in
    /// case of a revert.
    ChangingColor(String, Option<Color>),
}

impl ColorPicker {
    /// A fresh picker does nothing until asked.
    pub fn new() -> (r: ColorPicker)
        ensures
            r is Inactive,
    {
        ColorPicker::Inactive
    }
}

/// Where the picker grid starts on screen: centered in the window. The
/// window must fit the grid.
pub fn get_screen_offset(canvas: &Canvas) -> (r: (u32, u32))
    requires
        canvas.window_width >= TILE_DIMS * WIDTH,
        canvas.window_height >= TILE_DIMS * HEIGHT,
    ensures
        r.0 == (canvas.window_width - TILE_DIMS * WIDTH) / 2,
        r.1 == (canvas.window_height - TILE_DIMS * HEIGHT) / 2,
{
    let total_width = TILE_DIMS * WIDTH;
    let total_height = TILE_DIMS * HEIGHT;
    let start_x = (canvas.window_width - total_width) / 2;
    let start_y = (canvas.window_height - total_height) / 2;
    (start_x, start_y)
}

/// The color of one grid cell: red grows along one axis, green along the
/// other, blue is their average (truncated).
pub fn get_color(x: u8, y: u8) -> (r: Color)
    ensures
        r.red == x,
        r.green == y,
        r.blue == (x + y) / 2,
{
    Color { red: x, green: y, blue: ((x as u16 + y as u16) / 2) as u8 }
}

} // verus!
