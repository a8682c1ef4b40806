//! Render order of entities, and the tiling of the screen for light culling.
use vstd::prelude::*;

verus! {

/// Relative render order of an entity.
#[derive(Clone, Copy, Debug, PartialEq, Eq, Hash, Structural)]
pub enum RenderOrder {
    /// Render this entity first, in the order they are specified.
    First,
    /// Render this entity last, in the order they are specified.
    Last,
    /// Entity is independent of render order.
    Unordered,
}

/// The most lights a tile of the screen can see.
pub const MAX_LIGHTS: u32 = 1024;

/// The number of work groups along a side of `length` pixels cut into tiles of
/// `tile_size` pixels: `(length + length % tile_size) / tile_size`.
pub open spec fn work_groups(length: u32, tile_size: u32) -> int {
    (length + length % tile_size) / (tile_size as int)
}

/// The number of light indices the visible-light buffer holds for a screen of `width` by
/// `height` pixels: `MAX_LIGHTS` for each work group.
pub open spec fn light_buffer_len(width: u32, height: u32, tile_size: u32) -> int {
    work_groups(width, tile_size) * work_groups(height, tile_size) * MAX_LIGHTS
}

/// Culls lights from the depth map of a screen cut into tiles, one compute work group per
/// tile. The visible lights go to a shader storage buffer of `light_buffer_len` indices.
pub struct CullLightProcessor {
    work_groups_x: u32,
    work_groups_y: u32,
    width: u32,
    height: u32,
}

impl CullLightProcessor {
    /// A processor for a screen of `width` by `height` pixels cut into tiles of
    /// `tile_size` pixels.
    pub fn new(width: u32, height: u32, tile_size: u32) -> (res: CullLightProcessor)
        requires
            tile_size > 0,
            width + width % tile_size <= u32::MAX,
            height + height % tile_size <= u32::MAX,
            light_buffer_len(width, height, tile_size) <= u32::MAX,
        ensures
            res.groups_x_spec() == work_groups(width, tile_size),
            res.groups_y() == work_groups(height, tile_size),
            res.size() == (width, height),
            res.buffer_len() == light_buffer_len(width, height, tile_size),
    {
        let work_groups_x = (width + width % tile_size) / tile_size;
        let work_groups_y = (height + height % tile_size) / tile_size;
        proof {
            let x = work_groups_x as int;
            let y = work_groups_y as int;
            assert(x * y * MAX_LIGHTS == light_buffer_len(width, height, tile_size));
            assert(0 <= x * y) by (nonlinear_arith)
                requires
                    0 <= x,
                    0 <= y,
            ;
            assert(x * y <= x * y * MAX_LIGHTS) by (nonlinear_arith)
                requires
                    0 <= x * y,
            ;
        }
        CullLightProcessor { work_groups_x, work_groups_y, width, height }
    }

    /// The number of work groups across the screen.
    pub fn get_groups_x(&self) -> (res: u32)
        ensures
            res == self.groups_x_spec(),
    {
        self.work_groups_x
    }

    /// The number of work groups across the screen.
    pub closed spec fn groups_x_spec(&self) -> u32 {
        self.work_groups_x
    }

    /// The number of work groups down the screen.
    pub closed spec fn groups_y(&self) -> u32 {
        self.work_groups_y
    }

    /// The width and height of the screen.
    pub closed spec fn size(&self) -> (u32, u32) {
        (self.width, self.height)
    }

    /// The number of light indices of the visible-light buffer.
    pub closed spec fn buffer_len(&self) -> int {
        self.work_groups_x * self.work_groups_y * MAX_LIGHTS
    }

    /// The number of work groups down the screen.
    pub fn get_groups_y(&self) -> (res: u32)
        ensures
            res == self.groups_y(),
    {
        self.work_groups_y
    }

    /// The width and height of the screen.
    pub fn get_size(&self) -> (res: (u32, u32))
        ensures
            res == self.size(),
    {
        (self.width, self.height)
    }

    /// The number of light indices the visible-light buffer must hold.
    pub fn visible_light_buffer_len(&self) -> (res: u32)
        requires
            self.buffer_len() <= u32::MAX,
        ensures
            res == self.buffer_len(),
    {
        proof {
            let x = self.work_groups_x as int;
            let y = self.work_groups_y as int;
            assert(0 <= x * y) by (nonlinear_arith)
                requires
                    0 <= x,
                    0 <= y,
            ;
            assert(x * y <= x * y * MAX_LIGHTS) by (nonlinear_arith)
                requires
                    0 <= x * y,
            ;
        }
        self.work_groups_x * self.work_groups_y * MAX_LIGHTS
    }
}

} // verus!
