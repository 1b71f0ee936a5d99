//! The attribute lengths of a non-indexed triangle list, and the rules that make them agree.

use vstd::prelude::*;

use crate::text::{decimal, push_decimal, push_str, string_of};

verus! {

/// Lengths of the attribute buffers of a non-indexed triangle list: floats for positions,
/// normals, uvs and colours, entries for the owning tile of each triangle.
#[derive(Debug, Clone, Copy, PartialEq, Eq, Structural)]
pub struct MeshCounts {
    /// `xyz` per vertex.
    pub positions: usize,
    /// `xyz` per vertex.
    pub normals: usize,
    /// `uv` per vertex, or 0 for an untextured mesh.
    pub uvs: usize,
    /// `rgb` per vertex, or 0 when the material colour alone applies.
    pub colors: usize,
    /// One tile per triangle, or 0 when picking does not apply.
    pub face_tiles: usize,
}

/// The first disagreement between the lengths, as a message; `None` when they agree: whole
/// triangles of positions, a normal per position, and uvs, colours and owning tiles either absent
/// or one per vertex, vertex and triangle.
pub open spec fn mesh_violation(m: MeshCounts) -> Option<Seq<char>> {
    let v = m.positions as nat;
    if v % 9 != 0 {
        Some("positions length "@ + decimal(v) + " is not a multiple of 9"@)
    } else if m.normals != m.positions {
        Some("normals length "@ + decimal(m.normals as nat) + " != positions length "@ + decimal(v))
    } else if m.uvs != 0 && m.uvs != v / 3 * 2 {
        Some("uvs length "@ + decimal(m.uvs as nat) + " for "@ + decimal(v / 3) + " vertices"@)
    } else if m.colors != 0 && m.colors != m.positions {
        Some("colors length "@ + decimal(m.colors as nat) + " != positions length "@ + decimal(v))
    } else if m.face_tiles != 0 && m.face_tiles != v / 9 {
        Some("face_tile length "@ + decimal(m.face_tiles as nat) + " for "@ + decimal(v / 9) + " triangles"@)
    } else {
        None
    }
}

impl MeshCounts {
    /// Number of vertices.
    pub fn vertex_count(&self) -> (n: usize)
        ensures
            n == self.positions / 3,
    {
        self.positions / 3
    }

    /// Number of triangles.
    pub fn triangle_count(&self) -> (n: usize)
        ensures
            n == self.positions / 9,
    {
        self.positions / 9
    }

    /// `true` when there is nothing to draw.
    pub fn is_empty(&self) -> (b: bool)
        ensures
            b == (self.positions == 0),
    {
        self.positions == 0
    }

    /// The lengths agree with each other; `Err` names the first mismatch (see
    /// [`mesh_violation`]).
    pub fn validate(&self) -> (r: Result<(), String>)
        ensures
            r is Ok <==> mesh_violation(*self) is None,
            r matches Err(m) ==> mesh_violation(*self) == Some(m@),
    {
        let v = self.positions;
        let mut msg: Vec<char> = Vec::new();
        if v % 9 != 0 {
            push_str(&mut msg, "positions length ");
            push_decimal(&mut msg, v as u64);
            push_str(&mut msg, " is not a multiple of 9");
            return Err(string_of(&msg));
        }
        if self.normals != v {
            push_str(&mut msg, "normals length ");
            push_decimal(&mut msg, self.normals as u64);
            push_str(&mut msg, " != positions length ");
            push_decimal(&mut msg, v as u64);
            return Err(string_of(&msg));
        }
        if self.uvs != 0 && self.uvs != v / 3 * 2 {
            push_str(&mut msg, "uvs length ");
            push_decimal(&mut msg, self.uvs as u64);
            push_str(&mut msg, " for ");
            push_decimal(&mut msg, (v / 3) as u64);
            push_str(&mut msg, " vertices");
            return Err(string_of(&msg));
        }
        if self.colors != 0 && self.colors != v {
            push_str(&mut msg, "colors length ");
            push_decimal(&mut msg, self.colors as u64);
            push_str(&mut msg, " != positions length ");
            push_decimal(&mut msg, v as u64);
            return Err(string_of(&msg));
        }
        if self.face_tiles != 0 && self.face_tiles != v / 9 {
            push_str(&mut msg, "face_tile length ");
            push_decimal(&mut msg, self.face_tiles as u64);
            push_str(&mut msg, " for ");
            push_decimal(&mut msg, (v / 9) as u64);
            push_str(&mut msg, " triangles");
            return Err(string_of(&msg));
        }
        Ok(())
    }
}

} // verus!
