//! The viewport transform core: nearest-neighbor inverse-mapped
//! rasterization of the source raster into a destination buffer, and the
//! drag-anchor state machine that the per-frame input step follows.
//!
//! The inverse affine map itself (`src = (dst - offset) / scale`) runs on
//! window floating-point state and therefore lives with the window loop;
//! it hands this module one precomputed source column per destination
//! column and one source row per destination row.
use crate::decode::SourceRaster;
use vstd::prelude::*;

verus! {

/// The color a destination pixel takes from source coordinate
/// `(sx, sy)`: the source pixel there, or background `0` when the
/// coordinate falls outside `[0, width) x [0, height)` or its flat index
/// falls past the end of an under-supplied pixel buffer.
pub open spec fn sample(pixels: Seq<u32>, width: int, height: int, sx: int, sy: int) -> u32 {
    if 0 <= sx < width && 0 <= sy < height && sy * width + sx < pixels.len() {
        pixels[sy * width + sx]
    } else {
        0u32
    }
}

/// Fills a destination buffer of `row_map.len()` rows by `col_map.len()`
/// columns: the destination pixel `(x, y)` shows the source coordinate
/// `(col_map[x], row_map[y])`, background where that lands outside the
/// raster or past its pixels.
pub fn scale_buffer(raster: &SourceRaster, col_map: &Vec<i32>, row_map: &Vec<i32>) -> (out: Vec<
    u32,
>)
    requires
        col_map@.len() * row_map@.len() <= usize::MAX,
    ensures
        out@.len() == row_map@.len() * col_map@.len(),
        forall|y: int, x: int|
            0 <= y < row_map@.len() && 0 <= x < col_map@.len() ==> out@[y * col_map@.len() + x]
                == sample(
                raster.pixels@,
                raster.width as int,
                raster.height as int,
                col_map@[x] as int,
                row_map@[y] as int,
            ),
{
    let win_w: usize = col_map.len();
    let win_h: usize = row_map.len();
    let mut out: Vec<u32> = Vec::new();
    let mut y: usize = 0;
    while y < win_h
        invariant
            y <= win_h == row_map@.len(),
            win_w == col_map@.len(),
            win_w * win_h <= usize::MAX,
            out@.len() == y * win_w,
            forall|yy: int, xx: int|
                0 <= yy < y && 0 <= xx < win_w ==> out@[yy * win_w + xx] == sample(
                    raster.pixels@,
                    raster.width as int,
                    raster.height as int,
                    col_map@[xx] as int,
                    row_map@[yy] as int,
                ),
        decreases win_h - y,
    {
        let sy: i32 = row_map[y];
        let mut x: usize = 0;
        while x < win_w
            invariant
                x <= win_w == col_map@.len(),
                y < win_h == row_map@.len(),
                win_w * win_h <= usize::MAX,
                sy == row_map@[y as int],
                out@.len() == y * win_w + x,
                forall|yy: int, xx: int|
                    0 <= yy < y && 0 <= xx < win_w ==> out@[yy * win_w + xx] == sample(
                        raster.pixels@,
                        raster.width as int,
                        raster.height as int,
                        col_map@[xx] as int,
                        row_map@[yy] as int,
                    ),
                forall|xx: int|
                    0 <= xx < x ==> out@[y * win_w + xx] == sample(
                        raster.pixels@,
                        raster.width as int,
                        raster.height as int,
                        col_map@[xx] as int,
                        row_map@[y as int] as int,
                    ),
            decreases win_w - x,
        {
            let sx: i32 = col_map[x];
            let pixel: u32 = if sx >= 0 && sy >= 0 && (sx as u64) < (raster.width as u64) && (
            sy as u64) < (raster.height as u64) {
                proof {
                    assert((sy as int) * (raster.width as int) + (sx as int)
                        < 0x1_0000_0000_0000_0000) by (nonlinear_arith)
                        requires
                            0 <= (sy as int) < 0x8000_0000,
                            0 <= (raster.width as int) < 0x1_0000_0000,
                            0 <= (sx as int) < 0x8000_0000,
                    ;
                }
                let idx: u64 = (sy as u64) * (raster.width as u64) + (sx as u64);
                if idx < raster.pixels.len() as u64 {
                    raster.pixels[idx as usize]
                } else {
                    0
                }
            } else {
                0
            };
            proof {
                assert(pixel == sample(
                    raster.pixels@,
                    raster.width as int,
                    raster.height as int,
                    sx as int,
                    sy as int,
                ));
                assert(y * win_w + x + 1 <= win_h * win_w) by (nonlinear_arith)
                    requires
                        0 <= x < win_w,
                        0 <= y < win_h,
                ;
            }
            out.push(pixel);
            proof {
                assert forall|yy: int, xx: int| 0 <= yy < y && 0 <= xx < win_w implies out@[yy
                    * win_w + xx] == sample(
                    raster.pixels@,
                    raster.width as int,
                    raster.height as int,
                    col_map@[xx] as int,
                    row_map@[yy] as int,
                ) by {
                    assert(yy * win_w + xx < y * win_w) by (nonlinear_arith)
                        requires
                            0 <= yy < y,
                            0 <= xx < win_w,
                    ;
                }
            }
            x = x + 1;
        }
        y = y + 1;
        proof {
            assert(out@.len() == (y - 1) * win_w + win_w);
            assert((y - 1) * win_w + win_w == y * win_w) by (nonlinear_arith);
        }
    }
    proof {
        assert(out@.len() == win_h * win_w);
        assert(win_h * win_w == win_w * win_h) by (nonlinear_arith);
    }
    out
}

/// A destination pixel whose inverse-mapped source coordinate lands
/// outside `[0, width) x [0, height)` is background.
pub proof fn lemma_outside_is_background(
    pixels: Seq<u32>,
    width: int,
    height: int,
    sx: int,
    sy: int,
)
    requires
        !(0 <= sx < width && 0 <= sy < height),
    ensures
        sample(pixels, width, height, sx, sy) == 0,
{
}

/// With a raster whose pixel count falls short of `width * height`, an
/// in-bounds source coordinate whose flat index reaches past the supplied
/// pixels is background, never a fault.
pub proof fn lemma_past_end_is_background(
    pixels: Seq<u32>,
    width: int,
    height: int,
    sx: int,
    sy: int,
)
    requires
        sy * width + sx >= pixels.len(),
    ensures
        sample(pixels, width, height, sx, sy) == 0,
{
}

/// What the drag-handling step does in one frame, given which of the
/// inputs are present.
pub enum DragAction {
    /// Button freshly held with no anchor yet: record the pointer as the
    /// anchor and leave the offset untouched this frame.
    SetAnchor,
    /// Button held with an anchor in place: add `position - anchor` to the
    /// offset, the anchor itself never moving.
    MoveView,
    /// Button not held: forget any anchor.
    ClearAnchor,
    /// Button held but no pointer position available: change nothing.
    NoChange,
}

/// The drag decision: releasing the button always clears the anchor;
/// while it is held, a missing position does nothing, a first position
/// only captures the anchor, and later frames move the view against that
/// original anchor.
pub open spec fn spec_drag_action(button_down: bool, have_position: bool, have_anchor: bool) -> DragAction {
    if !button_down {
        DragAction::ClearAnchor
    } else if !have_position {
        DragAction::NoChange
    } else if have_anchor {
        DragAction::MoveView
    } else {
        DragAction::SetAnchor
    }
}

/// Decides the drag-handling step for one frame.
pub fn drag_action(button_down: bool, have_position: bool, have_anchor: bool) -> (a: DragAction)
    ensures
        a == spec_drag_action(button_down, have_position, have_anchor),
{
    if !button_down {
        DragAction::ClearAnchor
    } else if !have_position {
        DragAction::NoChange
    } else if have_anchor {
        DragAction::MoveView
    } else {
        DragAction::SetAnchor
    }
}

/// The drag anchor's lifecycle: the first frame of a button press with no
/// active anchor only records one — the offset is left unchanged — and
/// releasing the button always clears it, whatever else holds.
pub proof fn lemma_drag_anchor_lifecycle(have_position: bool, have_anchor: bool)
    ensures
        spec_drag_action(true, true, false) == DragAction::SetAnchor,
        spec_drag_action(true, true, true) == DragAction::MoveView,
        spec_drag_action(false, have_position, have_anchor) == DragAction::ClearAnchor,
{
}

/// What the zoom-handling step does in one frame: grow the scale by one
/// step, shrink it by one step, or leave the view alone. Either zoom
/// rescales about the pointer, so both need a position.
pub enum ZoomAction {
    ZoomIn,
    ZoomOut,
    NoZoom,
}

/// The zoom decision: a zoom happens only when the vertical scroll delta
/// is non-zero and a pointer position is available, upward scroll zooming
/// in and any other non-zero scroll zooming out.
pub open spec fn spec_zoom_action(scroll_up: bool, scroll_nonzero: bool, have_position: bool) -> ZoomAction {
    if !scroll_nonzero || !have_position {
        ZoomAction::NoZoom
    } else if scroll_up {
        ZoomAction::ZoomIn
    } else {
        ZoomAction::ZoomOut
    }
}

/// Decides the zoom-handling step for one frame.
pub fn zoom_action(scroll_up: bool, scroll_nonzero: bool, have_position: bool) -> (a: ZoomAction)
    ensures
        a == spec_zoom_action(scroll_up, scroll_nonzero, have_position),
{
    if !scroll_nonzero || !have_position {
        ZoomAction::NoZoom
    } else if scroll_up {
        ZoomAction::ZoomIn
    } else {
        ZoomAction::ZoomOut
    }
}

} // verus!
