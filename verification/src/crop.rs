//! Crop rectangles in a video frame: keeping a requested crop inside the
//! frame, and deciding when the converter made for a crop can be reused.
use vstd::prelude::*;

verus! {

/// A rectangle of pixels: its top-left corner and its size.
#[derive(Debug, Clone, Copy, PartialEq, Eq, Structural)]
pub struct Rect {
    pub x: u32,
    pub y: u32,
    pub width: u32,
    pub height: u32,
}

/// `a - b`, or 0 when `b` is larger.
pub open spec fn sat_sub(a: u32, b: u32) -> u32 {
    if a >= b {
        (a - b) as u32
    } else {
        0
    }
}

pub open spec fn min32(a: u32, b: u32) -> u32 {
    if a <= b {
        a
    } else {
        b
    }
}

pub open spec fn max32(a: u32, b: u32) -> u32 {
    if a >= b {
        a
    } else {
        b
    }
}

/// The crop that a frame of `frame_w` by `frame_h` pixels takes from the
/// requested `rect`: the corner is moved inside the frame, and the size is
/// cut to what remains of the frame past the corner, but never below one
/// pixel.
pub open spec fn spec_clamp_crop(rect: Rect, frame_w: u32, frame_h: u32) -> Rect {
    let x = min32(rect.x, sat_sub(frame_w, 1));
    let y = min32(rect.y, sat_sub(frame_h, 1));
    Rect {
        x,
        y,
        width: max32(min32(rect.width, (frame_w - x) as u32), 1),
        height: max32(min32(rect.height, (frame_h - y) as u32), 1),
    }
}

/// Keeps a requested crop inside a frame of `frame_w` by `frame_h` pixels.
pub fn clamp_crop(rect: Rect, frame_w: u32, frame_h: u32) -> (r: Rect)
    ensures
        r == spec_clamp_crop(rect, frame_w, frame_h),
{
    let x = if rect.x <= frame_w.saturating_sub(1) {
        rect.x
    } else {
        frame_w.saturating_sub(1)
    };
    let y = if rect.y <= frame_h.saturating_sub(1) {
        rect.y
    } else {
        frame_h.saturating_sub(1)
    };
    let w = if rect.width <= frame_w - x {
        rect.width
    } else {
        frame_w - x
    };
    let h = if rect.height <= frame_h - y {
        rect.height
    } else {
        frame_h - y
    };
    Rect { x, y, width: if w >= 1 { w } else { 1 }, height: if h >= 1 { h } else { 1 } }
}

/// The crop of a whole frame of `frame_w` by `frame_h` pixels.
pub fn full_frame(frame_w: u32, frame_h: u32) -> (r: Rect)
    ensures
        r == (Rect { x: 0, y: 0, width: frame_w, height: frame_h }),
{
    Rect { x: 0, y: 0, width: frame_w, height: frame_h }
}

/// Whether a converter must be made for `crop`: none was made yet, or the
/// last one was made for another crop.
pub fn needs_new_converter(cached: Option<Rect>, crop: Rect) -> (r: bool)
    ensures
        r == (cached != Some(crop)),
{
    match cached {
        None => true,
        Some(c) => c.x != crop.x || c.y != crop.y || c.width != crop.width || c.height != crop.height,
    }
}

/// In a frame of at least one pixel each way, the clamped crop lies inside
/// the frame and is at least one pixel wide and high.
pub proof fn lemma_clamped_crop_inside(rect: Rect, frame_w: u32, frame_h: u32)
    requires
        frame_w >= 1,
        frame_h >= 1,
    ensures
        spec_clamp_crop(rect, frame_w, frame_h).x + spec_clamp_crop(rect, frame_w, frame_h).width <= frame_w,
        spec_clamp_crop(rect, frame_w, frame_h).y + spec_clamp_crop(rect, frame_w, frame_h).height <= frame_h,
        spec_clamp_crop(rect, frame_w, frame_h).width >= 1,
        spec_clamp_crop(rect, frame_w, frame_h).height >= 1,
{
}

/// Clamping a crop a second time changes nothing.
pub proof fn lemma_clamp_crop_idempotent(rect: Rect, frame_w: u32, frame_h: u32)
    ensures
        spec_clamp_crop(spec_clamp_crop(rect, frame_w, frame_h), frame_w, frame_h) == spec_clamp_crop(
            rect,
            frame_w,
            frame_h,
        ),
{
}

/// A crop of at least one pixel each way that already lies inside the frame
/// is kept as it is.
pub proof fn lemma_inner_crop_kept(rect: Rect, frame_w: u32, frame_h: u32)
    requires
        rect.width >= 1,
        rect.height >= 1,
        rect.x + rect.width <= frame_w,
        rect.y + rect.height <= frame_h,
    ensures
        spec_clamp_crop(rect, frame_w, frame_h) == rect,
{
}

} // verus!
