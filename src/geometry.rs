use vstd::prelude::*;

use crate::atlas::AtlasRect;

verus! {

/// Capacity of the per-frame vertex buffer.
pub const MAX_VERTICES: usize = 8000;

/// A glyph's integer pixel bounding box relative to the page origin.
#[derive(Clone, Copy, PartialEq, Eq, Structural, Debug)]
pub struct PixelRect {
    pub x0: i32,
    pub y0: i32,
    pub x1: i32,
    pub y1: i32,
}

/// One corner of a textured quad: screen position and atlas texel position,
/// both in whole pixels.
#[derive(Clone, Copy, PartialEq, Eq, Structural, Debug)]
pub struct Vertex {
    pub x: i64,
    pub y: i64,
    pub u: u32,
    pub v: u32,
}

impl Vertex {
    pub fn new(x: i64, y: i64, u: u32, v: u32) -> (r: Vertex)
        ensures
            r == (Vertex { x, y, u, v }),
    {
        Vertex { x, y, u, v }
    }
}

pub open spec fn vtx(x: int, y: int, u: u32, v: u32) -> Vertex {
    Vertex { x: x as i64, y: y as i64, u, v }
}

/// The two counter-clockwise triangles covering `xy` with the texels of `uv`.
/// The y axis is negated: page space grows upwards, pixel space downwards.
pub open spec fn quad(xy: PixelRect, uv: AtlasRect) -> Seq<Vertex> {
    seq![
        vtx(xy.x0 as int, -xy.y0, uv.x0, uv.y0),
        vtx(xy.x1 as int, -xy.y0, uv.x1, uv.y0),
        vtx(xy.x1 as int, -xy.y1, uv.x1, uv.y1),
        vtx(xy.x1 as int, -xy.y1, uv.x1, uv.y1),
        vtx(xy.x0 as int, -xy.y1, uv.x0, uv.y1),
        vtx(xy.x0 as int, -xy.y0, uv.x0, uv.y0),
    ]
}

/// Appends the six vertices of `quad(xy, uv)`.
pub fn push_quad(geometry: &mut Vec<Vertex>, xy: PixelRect, uv: AtlasRect)
    ensures
        final(geometry)@ == old(geometry)@ + quad(xy, uv),
{
    let x0 = xy.x0 as i64;
    let x1 = xy.x1 as i64;
    let y0 = -(xy.y0 as i64);
    let y1 = -(xy.y1 as i64);
    geometry.push(Vertex::new(x0, y0, uv.x0, uv.y0));
    geometry.push(Vertex::new(x1, y0, uv.x1, uv.y0));
    geometry.push(Vertex::new(x1, y1, uv.x1, uv.y1));
    geometry.push(Vertex::new(x1, y1, uv.x1, uv.y1));
    geometry.push(Vertex::new(x0, y1, uv.x0, uv.y1));
    geometry.push(Vertex::new(x0, y0, uv.x0, uv.y0));
    assert(geometry@ =~= old(geometry)@ + quad(xy, uv));
}

} // verus!
