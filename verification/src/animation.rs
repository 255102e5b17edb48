//! Sprite-sheet animation: which frame of a sheet a sprite shows, from the
//! animation step, whether it moves and which side of it the camera sees.

use vstd::prelude::*;
use crate::texture::{AnimationPlayback, AnimationStyle, FacingMode};

verus! {

/// Column sequence of the walk cycle.
pub const WALK_PING_PONG: [u32; 4] = [0, 1, 2, 1];

/// The side of a sprite that faces the camera.
#[derive(Clone, Copy, Debug, PartialEq, Eq, Structural)]
pub enum VisibleSide {
    Front,
    Back,
    Left,
    Right,
}

/// The layout of an animated sprite sheet: frame size in pixels, frames
/// per row and rows, how the frames play, and whether each row is one
/// facing direction.
#[derive(Clone, Copy, Debug, PartialEq, Eq, Structural)]
pub struct FrameGrid {
    pub frame_width: usize,
    pub frame_height: usize,
    pub columns: usize,
    pub rows: usize,
    pub playback: AnimationPlayback,
    pub directional_rows: bool,
}

/// The sheet layout of each animation style (`None` for a still sprite).
pub open spec fn grid_of(style: AnimationStyle) -> Option<FrameGrid> {
    match style {
        AnimationStyle::Static => None,
        AnimationStyle::WalkPingPong => Some(FrameGrid {
            frame_width: 64,
            frame_height: 64,
            columns: 3,
            rows: 4,
            playback: AnimationPlayback::PingPong,
            directional_rows: true,
        }),
        AnimationStyle::LoopStrip => Some(FrameGrid {
            frame_width: 16,
            frame_height: 16,
            columns: 4,
            rows: 1,
            playback: AnimationPlayback::Loop,
            directional_rows: false,
        }),
    }
}

/// The sheet layout of `style`; a walk cycle is 3 x 4 frames of 64 x 64
/// with one row per facing, a loop strip 4 x 1 frames of 16 x 16.
pub fn animation_grid(style: AnimationStyle) -> (g: Option<FrameGrid>)
    ensures
        g == grid_of(style),
{
    match style {
        AnimationStyle::Static => None,
        AnimationStyle::WalkPingPong => Some(FrameGrid {
            frame_width: 64,
            frame_height: 64,
            columns: 3,
            rows: 4,
            playback: AnimationPlayback::PingPong,
            directional_rows: true,
        }),
        AnimationStyle::LoopStrip => Some(FrameGrid {
            frame_width: 16,
            frame_height: 16,
            columns: 4,
            rows: 1,
            playback: AnimationPlayback::Loop,
            directional_rows: false,
        }),
    }
}

/// The sheet row that shows `side`.
pub open spec fn row_of_side(side: VisibleSide) -> u32 {
    match side {
        VisibleSide::Front => 0,
        VisibleSide::Back => 1,
        VisibleSide::Left => 2,
        VisibleSide::Right => 3,
    }
}

/// The four sides a sprite can be seen from fill the four rows of a
/// directional sheet, one side per row: front on the top row, the back just
/// below it, and the right-side frames on the row just below the left-side
/// ones.
pub proof fn lemma_side_rows_distinct(a: VisibleSide, b: VisibleSide)
    ensures
        row_of_side(a) < 4,
        a != b ==> row_of_side(a) != row_of_side(b),
        row_of_side(VisibleSide::Front) == 0,
        row_of_side(VisibleSide::Back) == row_of_side(VisibleSide::Front) + 1,
        row_of_side(VisibleSide::Right) == row_of_side(VisibleSide::Left) + 1,
{
}

/// The sheet row that shows `side`: front, back, left, right top to bottom.
pub fn side_to_row(side: VisibleSide) -> (r: u32)
    ensures
        r == row_of_side(side),
{
    match side {
        VisibleSide::Front => 0,
        VisibleSide::Back => 1,
        VisibleSide::Left => 2,
        VisibleSide::Right => 3,
    }
}

/// The walk-cycle column at `frame_step`: 0, 1, 2, 1 over and over while
/// moving; the standing frame 1 otherwise.
pub open spec fn walk_col(frame_step: u32, is_moving: bool) -> u32 {
    if !is_moving {
        1
    } else {
        WALK_PING_PONG@[(frame_step % 4) as int]
    }
}

pub fn walk_frame_col(frame_step: u32, is_moving: bool) -> (c: u32)
    ensures
        c == walk_col(frame_step, is_moving),
        c < 3,
{
    if !is_moving {
        1
    } else {
        let table = WALK_PING_PONG;
        assert(table@ =~= seq![0u32, 1, 2, 1]);
        table[(frame_step % 4) as usize]
    }
}

/// `n`, or 1 when `n` is 0.
pub open spec fn at_least_one(n: usize) -> int {
    if n == 0 { 1 } else { n as int }
}

/// The sheet column at `frame_step`: the walk cycle for ping-pong
/// playback, the step modulo the column count for a loop.
pub open spec fn frame_column(grid: FrameGrid, frame_step: u32, is_moving: bool) -> int {
    match grid.playback {
        AnimationPlayback::PingPong => walk_col(frame_step, is_moving) as int,
        AnimationPlayback::Loop => frame_step as int % at_least_one(grid.columns),
    }
}

/// The sheet row at `frame_step` when rows are not facings: 0 for
/// directional sheets and ping-pong playback, the step modulo the row count
/// for a loop.
pub open spec fn frame_row(grid: FrameGrid, frame_step: u32) -> int {
    if grid.directional_rows {
        0
    } else {
        match grid.playback {
            AnimationPlayback::PingPong => 0,
            AnimationPlayback::Loop => frame_step as int % at_least_one(grid.rows),
        }
    }
}

pub fn animation_frame_column(grid: FrameGrid, frame_step: u32, is_moving: bool) -> (c: usize)
    ensures
        c == frame_column(grid, frame_step, is_moving),
{
    match grid.playback {
        AnimationPlayback::PingPong => walk_frame_col(frame_step, is_moving) as usize,
        AnimationPlayback::Loop => {
            let n: usize = if grid.columns == 0 { 1 } else { grid.columns };
            (frame_step as usize) % n
        },
    }
}

pub fn animation_frame_row(grid: FrameGrid, frame_step: u32) -> (r: usize)
    ensures
        r == frame_row(grid, frame_step),
{
    if grid.directional_rows {
        0
    } else {
        match grid.playback {
            AnimationPlayback::PingPong => 0,
            AnimationPlayback::Loop => {
                let n: usize = if grid.rows == 0 { 1 } else { grid.rows };
                (frame_step as usize) % n
            },
        }
    }
}

/// The top-left pixel of the frame a sprite shows in its sheet: column from
/// the playback, row from the visible side when the sheet has a row per
/// facing and the sprite faces its movement, else from the playback.
/// `None` for a still sprite or a sheet smaller than its layout, which is
/// then shown whole.
pub open spec fn frame_origin(
    style: AnimationStyle,
    sheet_width: u32,
    sheet_height: u32,
    frame_step: u32,
    is_moving: bool,
    facing: FacingMode,
    side: VisibleSide,
) -> Option<(int, int)> {
    match grid_of(style) {
        None => None,
        Some(g) => if sheet_width < g.columns * g.frame_width || sheet_height < g.rows * g.frame_height {
            None
        } else {
            let row = if g.directional_rows && facing == FacingMode::Movement {
                row_of_side(side) as int
            } else {
                frame_row(g, frame_step)
            };
            Some((frame_column(g, frame_step, is_moving) * g.frame_width, row * g.frame_height))
        },
    }
}

/// The frame of an animated sprite to show; see `frame_origin`. Returns
/// the frame's top-left pixel and the layout.
pub fn sprite_frame_origin(
    style: AnimationStyle,
    sheet_width: u32,
    sheet_height: u32,
    frame_step: u32,
    is_moving: bool,
    facing: FacingMode,
    side: VisibleSide,
) -> (r: Option<(usize, usize, FrameGrid)>)
    ensures
        match frame_origin(style, sheet_width, sheet_height, frame_step, is_moving, facing, side) {
            None => r is None,
            Some((x, y)) => r matches Some((rx, ry, g)) && rx == x && ry == y && grid_of(style) == Some(g),
        },
        r matches Some((x, y, g)) ==> x + g.frame_width <= sheet_width && y + g.frame_height <= sheet_height,
{
    let grid = match animation_grid(style) {
        None => {
            return None;
        },
        Some(g) => g,
    };
    proof {
        assert(grid.columns <= 4 && grid.rows <= 4 && grid.frame_width <= 64 && grid.frame_height <= 64);
        assert(grid.columns * grid.frame_width <= 256 && grid.rows * grid.frame_height <= 256) by (nonlinear_arith)
            requires grid.columns <= 4, grid.rows <= 4, grid.frame_width <= 64, grid.frame_height <= 64;
    }
    if (sheet_width as usize) < grid.columns * grid.frame_width
        || (sheet_height as usize) < grid.rows * grid.frame_height {
        return None;
    }
    let col: usize = animation_frame_column(grid, frame_step, is_moving);
    let row: usize = if grid.directional_rows && facing == FacingMode::Movement {
        side_to_row(side) as usize
    } else {
        animation_frame_row(grid, frame_step)
    };
    proof {
        assert(col < grid.columns && row < grid.rows);
        assert(col * grid.frame_width + grid.frame_width <= grid.columns * grid.frame_width) by (nonlinear_arith)
            requires col < grid.columns;
        assert(row * grid.frame_height + grid.frame_height <= grid.rows * grid.frame_height) by (nonlinear_arith)
            requires row < grid.rows;
    }
    Some((col * grid.frame_width, row * grid.frame_height, grid))
}

} // verus!
