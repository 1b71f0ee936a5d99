//! What the renderer decides on integers: the low-resolution target size and the pipeline state
//! each material needs.

use vstd::prelude::*;

verus! {

/// Why the renderer could not start.
#[derive(Debug)]
pub enum RenderError {
    /// No GPU adapter accepted the surface.
    Adapter(String),
    /// The adapter refused the requested device.
    Device(String),
    /// The window or canvas could not become a surface.
    Surface(String),
}

/// One side of the target: `max(1, round(v / scale))`, halves rounding up.
pub open spec fn target_side(v: u32, scale: u32) -> u32 {
    let q = (2 * v + scale) / (2 * scale);
    if q < 1 { 1 } else { q as u32 }
}

/// Size of the low-resolution target for a window of `width` × `height` logical pixels at
/// `pixel_scale` (taken as at least 1): each side divided by the scale, rounded to nearest with
/// halves up, and at least one texel.
pub fn target_size(width: u32, height: u32, pixel_scale: u32) -> (r: (u32, u32))
    ensures
        r == (target_side(width, if pixel_scale < 1 { 1 } else { pixel_scale }), target_side(
            height,
            if pixel_scale < 1 { 1 } else { pixel_scale },
        )),
{
    let scale: u32 = if pixel_scale < 1 { 1 } else { pixel_scale };
    (side(width, scale), side(height, scale))
}

fn side(v: u32, scale: u32) -> (r: u32)
    requires
        scale >= 1,
    ensures
        r == target_side(v, scale),
{
    let q: u64 = (2 * (v as u64) + scale as u64) / (2 * scale as u64);
    assert(q <= v) by (nonlinear_arith)
        requires
            q == (2 * (v as u64) + scale as u64) / (2 * scale as u64),
            scale >= 1,
    ;
    if q < 1 {
        1
    } else {
        q as u32
    }
}

/// Which fragment stage a material runs.
#[derive(Debug, Clone, Copy, PartialEq, Eq, Structural, Hash)]
pub enum Shading {
    /// `diffuse × (ambient + saturate(dot(n, l)) × sun)`.
    Lambert,
    /// The diffuse colour alone.
    Unlit,
}

/// Which faces survive.
#[derive(Debug, Clone, Copy, PartialEq, Eq, Structural, Hash)]
pub enum Cull {
    /// Back faces dropped.
    Back,
    /// Nothing dropped: both sides drawn.
    Nothing,
}

/// How a fragment reaches the target.
#[derive(Debug, Clone, Copy, PartialEq, Eq, Structural, Hash)]
pub enum Blend {
    /// Overwrites the colour, leaving the target's alpha alone.
    Opaque,
    /// Straight alpha blending, for the halo.
    Alpha,
}

/// How a material uses the depth buffer.
#[derive(Debug, Clone, Copy, PartialEq, Eq, Structural, Hash)]
pub enum Depth {
    /// Tests and writes: the planet's solids.
    ReadWrite,
    /// Tests but does not write: layers that must not occlude what follows.
    ReadOnly,
    /// Neither: the space pass, drawn before the depth clear.
    Off,
}

/// Primitive topology. A closed line is a strip that repeats its first vertex.
#[derive(Debug, Clone, Copy, PartialEq, Eq, Structural, Hash)]
pub enum Topology {
    /// Triangles.
    Triangles,
    /// A connected line strip.
    LineStrip,
}

impl Default for Shading {
    fn default() -> (s: Shading)
        ensures
            s == Shading::Lambert,
    {
        Shading::Lambert
    }
}

impl Default for Cull {
    fn default() -> (c: Cull)
        ensures
            c == Cull::Back,
    {
        Cull::Back
    }
}

impl Default for Blend {
    fn default() -> (b: Blend)
        ensures
            b == Blend::Opaque,
    {
        Blend::Opaque
    }
}

impl Default for Depth {
    fn default() -> (d: Depth)
        ensures
            d == Depth::ReadWrite,
    {
        Depth::ReadWrite
    }
}

impl Default for Topology {
    fn default() -> (t: Topology)
        ensures
            t == Topology::Triangles,
    {
        Topology::Triangles
    }
}

/// Everything about a material that has to be baked into a pipeline. The rest (map, colour,
/// alpha test, hole) rides in the per-draw uniform.
#[derive(Debug, Clone, Copy, PartialEq, Eq, Hash)]
pub struct MaterialDesc {
    /// Lit or not.
    pub shading: Shading,
    /// Face culling.
    pub cull: Cull,
    /// Blending.
    pub blend: Blend,
    /// Depth test and write.
    pub depth: Depth,
    /// Polygon offset units and factor, both negative to pull a coplanar layer toward the
    /// camera. `(0, 0)` for everything but the territory outline.
    pub depth_bias: (i32, i32),
    /// Triangles or lines.
    pub topology: Topology,
}

/// The default material: lit, back faces culled, opaque, depth tested and written, no bias,
/// triangles.
pub open spec fn default_material() -> MaterialDesc {
    MaterialDesc {
        shading: Shading::Lambert,
        cull: Cull::Back,
        blend: Blend::Opaque,
        depth: Depth::ReadWrite,
        depth_bias: (0, 0),
        topology: Topology::Triangles,
    }
}

impl Default for MaterialDesc {
    fn default() -> (m: MaterialDesc)
        ensures
            m == default_material(),
    {
        MaterialDesc {
            shading: Shading::default(),
            cull: Cull::default(),
            blend: Blend::default(),
            depth: Depth::default(),
            depth_bias: (0, 0),
            topology: Topology::default(),
        }
    }
}

impl MaterialDesc {
    /// The planet's solids: lit, back-face culled, depth tested and written.
    pub fn lambert() -> (m: MaterialDesc)
        ensures
            m == default_material(),
    {
        Self::default()
    }

    /// A lit material drawn from both sides, like the surf and the cloud decks.
    pub fn lambert_double_sided() -> (m: MaterialDesc)
        ensures
            m == (MaterialDesc { cull: Cull::Nothing, ..default_material() }),
    {
        MaterialDesc { cull: Cull::Nothing, ..Self::default() }
    }

    /// Flat colour from both sides: the debug edges and the atmosphere.
    pub fn unlit() -> (m: MaterialDesc)
        ensures
            m == (MaterialDesc { shading: Shading::Unlit, cull: Cull::Nothing, ..default_material() }),
    {
        MaterialDesc { shading: Shading::Unlit, cull: Cull::Nothing, ..Self::default() }
    }

    /// The territory outline: unlit, pulled `-2 / -2` toward the camera so it never fights the
    /// ground it lies on.
    pub fn border() -> (m: MaterialDesc)
        ensures
            m == (MaterialDesc {
                shading: Shading::Unlit,
                cull: Cull::Nothing,
                depth_bias: (-2i32, -2i32),
                ..default_material()
            }),
    {
        MaterialDesc { depth_bias: (-2, -2), ..Self::unlit() }
    }

    /// The halo: unlit, alpha blended, depth tested but never written.
    pub fn halo() -> (m: MaterialDesc)
        ensures
            m == (MaterialDesc {
                shading: Shading::Unlit,
                cull: Cull::Nothing,
                blend: Blend::Alpha,
                depth: Depth::ReadOnly,
                ..default_material()
            }),
    {
        MaterialDesc { blend: Blend::Alpha, depth: Depth::ReadOnly, ..Self::unlit() }
    }

    /// The space pass: unlit and depth-free, drawn before the depth clear.
    pub fn space() -> (m: MaterialDesc)
        ensures
            m == (MaterialDesc { shading: Shading::Unlit, cull: Cull::Nothing, depth: Depth::Off, ..default_material() }),
    {
        MaterialDesc { depth: Depth::Off, ..Self::unlit() }
    }
}

} // verus!
