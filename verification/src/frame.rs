//! The frame: a colour buffer and a depth buffer of one size, cleared once
//! per frame and drawn into triangle by triangle.

use vstd::prelude::*;
use crate::mesh::corners_in_range;
use crate::raster_z::{color_after, depth_after, tri_fill_z, Vertex, DEPTH_CLEAR};

verus! {

/// A shaded triangle in screen space.
#[derive(Clone, Copy, Debug)]
pub struct Face {
    /// The three vertices: pixel position and depth.
    pub v: [Vertex; 3],
    /// The one colour of the whole face.
    pub color: u32,
    /// The z component of the face normal in view space, in any unit: only
    /// its sign is read. The camera looks down the negative z axis, and a
    /// face whose normal has no negative z component is a back face.
    pub normal_z: i32,
}

impl Face {
    /// The face is turned away from the camera.
    pub open spec fn is_back(self) -> bool {
        self.normal_z >= 0
    }

    /// The face is left out of a frame drawn with the given culling switch.
    pub open spec fn culled(self, cull_backfaces: bool) -> bool {
        cull_backfaces && self.is_back()
    }
}

/// The contents of the two buffers of a frame.
pub struct Buffers {
    /// The packed colour of each pixel.
    pub color: Seq<u32>,
    /// The depth of what each pixel shows.
    pub depth: Seq<u32>,
}

impl Buffers {
    /// The buffers after one face was drawn over them.
    pub open spec fn with_face(self, w: int, f: Face) -> Buffers {
        Buffers {
            color: color_after(self.color, self.depth, w, f.v, f.color),
            depth: depth_after(self.depth, w, f.v),
        }
    }

    /// The buffers after the faces were drawn over them in order, back
    /// faces left out when culling is on.
    pub open spec fn with_faces(self, w: int, faces: Seq<Face>, cull_backfaces: bool) -> Buffers
        decreases faces.len(),
    {
        if faces.len() == 0 {
            self
        } else {
            let before = self.with_faces(w, faces.drop_last(), cull_backfaces);
            if faces.last().culled(cull_backfaces) {
                before
            } else {
                before.with_face(w, faces.last())
            }
        }
    }

    /// Cleared buffers of `n` pixels.
    pub open spec fn cleared(n: nat, background: u32) -> Buffers {
        Buffers { color: Seq::new(n, |i: int| background), depth: Seq::new(n, |i: int| DEPTH_CLEAR) }
    }
}

/// A colour buffer and a depth buffer for a grid of `width` by `height`
/// pixels, both row-major from the top left.
#[derive(Clone, Debug)]
pub struct Frame {
    pub width: usize,
    pub height: usize,
    pub color: Vec<u32>,
    pub depth: Vec<u32>,
}

impl View for Frame {
    type V = Buffers;

    open spec fn view(&self) -> Buffers {
        Buffers { color: self.color@, depth: self.depth@ }
    }
}

impl Frame {
    /// Both buffers hold one value for each pixel of the grid.
    pub open spec fn wf(&self) -> bool {
        &&& self.color@.len() == self.width * self.height
        &&& self.depth@.len() == self.width * self.height
    }

    /// A cleared frame of the given size, or `None` when the number of
    /// pixels does not fit a `usize`.
    pub fn new(width: usize, height: usize, background: u32) -> (r: Option<Frame>)
        ensures
            r is Some <==> width * height <= usize::MAX,
            r matches Some(f) ==> {
                &&& f.wf()
                &&& f.width == width
                &&& f.height == height
                &&& f@ == Buffers::cleared((width * height) as nat, background)
            },
    {
        assert(0 <= width * height) by (nonlinear_arith);
        match width.checked_mul(height) {
            None => None,
            Some(n) => {
                let mut color: Vec<u32> = Vec::new();
                let mut depth: Vec<u32> = Vec::new();
                let mut i: usize = 0;
                while i < n
                    invariant
                        i <= n,
                        color@.len() == i,
                        depth@.len() == i,
                        forall|k: int| 0 <= k < i ==> color@[k] == background,
                        forall|k: int| 0 <= k < i ==> depth@[k] == DEPTH_CLEAR,
                    decreases n - i,
                {
                    color.push(background);
                    depth.push(DEPTH_CLEAR);
                    i = i + 1;
                }
                let f = Frame { width, height, color, depth };
                assert(f@.color =~= Buffers::cleared(n as nat, background).color);
                assert(f@.depth =~= Buffers::cleared(n as nat, background).depth);
                Some(f)
            },
        }
    }

    /// Clears the frame: every pixel takes the background colour and the
    /// depth of a pixel that nothing covers.
    pub fn reset(&mut self, background: u32)
        requires
            old(self).wf(),
        ensures
            final(self).wf(),
            final(self).width == old(self).width,
            final(self).height == old(self).height,
            final(self)@ == Buffers::cleared((old(self).width * old(self).height) as nat, background),
    {
        let n: usize = self.color.len();
        let mut i: usize = 0;
        while i < n
            invariant
                i <= n,
                self.color@.len() == n,
                self.depth@.len() == n,
                self.width == old(self).width,
                self.height == old(self).height,
                n == self.width * self.height,
                forall|k: int| 0 <= k < i ==> self.color@[k] == background,
                forall|k: int| 0 <= k < i ==> self.depth@[k] == DEPTH_CLEAR,
            decreases n - i,
        {
            self.color[i] = background;
            self.depth[i] = DEPTH_CLEAR;
            i = i + 1;
        }
        assert(self@.color =~= Buffers::cleared(n as nat, background).color);
        assert(self@.depth =~= Buffers::cleared(n as nat, background).depth);
    }

    /// Draws the faces in order, each with a depth test. With
    /// `cull_backfaces` on, back faces are left out.
    pub fn draw(&mut self, faces: &[Face], cull_backfaces: bool)
        requires
            old(self).wf(),
        ensures
            final(self).wf(),
            final(self).width == old(self).width,
            final(self).height == old(self).height,
            final(self)@ == old(self)@.with_faces(old(self).width as int, faces@, cull_backfaces),
    {
        let ghost start = self@;
        let n: usize = faces.len();
        let mut k: usize = 0;
        while k < n
            invariant
                k <= n,
                n == faces@.len(),
                self.wf(),
                self.width == old(self).width,
                self.height == old(self).height,
                start == old(self)@,
                self@ == start.with_faces(self.width as int, faces@.take(k as int), cull_backfaces),
            decreases n - k,
        {
            let f: Face = faces[k];
            proof {
                assert(faces@.take(k + 1).drop_last() =~= faces@.take(k as int));
                assert(faces@.take(k + 1).last() == f);
            }
            if !(cull_backfaces && f.normal_z >= 0) {
                tri_fill_z(
                    f.color,
                    self.color.as_mut_slice(),
                    self.depth.as_mut_slice(),
                    self.width,
                    self.height,
                    f.v,
                );
            }
            k = k + 1;
        }
        assert(faces@.take(n as int) =~= faces@);
    }
}

/// The faces of a mesh in screen space: face `t` has the vertices that
/// triangle `t` names, with colour `t` and normal `t`.
pub open spec fn faces_of(
    vertices: Seq<Vertex>,
    triangles: Seq<[u32; 3]>,
    colors: Seq<u32>,
    normals: Seq<i32>,
) -> Seq<Face> {
    Seq::new(
        triangles.len(),
        |t: int|
            Face {
                v: [
                    vertices[triangles[t][0] as int],
                    vertices[triangles[t][1] as int],
                    vertices[triangles[t][2] as int],
                ],
                color: colors[t],
                normal_z: normals[t],
            },
    )
}

/// Puts the faces of a frame together from the per-vertex data, computed
/// once for each vertex, and the per-triangle data. The corners of the
/// triangles must be vertices that exist.
pub fn gather_faces(
    vertices: &[Vertex],
    triangles: &[[u32; 3]],
    colors: &[u32],
    normals: &[i32],
) -> (faces: Vec<Face>)
    requires
        corners_in_range(triangles@, vertices@.len() as int),
        colors@.len() == triangles@.len(),
        normals@.len() == triangles@.len(),
    ensures
        faces@ == faces_of(vertices@, triangles@, colors@, normals@),
{
    let n: usize = triangles.len();
    let mut faces: Vec<Face> = Vec::new();
    let mut t: usize = 0;
    while t < n
        invariant
            t <= n,
            n == triangles@.len(),
            colors@.len() == n,
            normals@.len() == n,
            corners_in_range(triangles@, vertices@.len() as int),
            faces@ == faces_of(vertices@, triangles@, colors@, normals@).take(t as int),
        decreases n - t,
    {
        let tri: [u32; 3] = triangles[t];
        assert(tri[0] < vertices@.len() && tri[1] < vertices@.len() && tri[2] < vertices@.len());
        let f = Face {
            v: [vertices[tri[0] as usize], vertices[tri[1] as usize], vertices[tri[2] as usize]],
            color: colors[t],
            normal_z: normals[t],
        };
        faces.push(f);
        proof {
            let all = faces_of(vertices@, triangles@, colors@, normals@);
            assert(f.v@ =~= all[t as int].v@);
            assert(all.take(t + 1) =~= all.take(t as int).push(all[t as int]));
        }
        t = t + 1;
    }
    assert(faces_of(vertices@, triangles@, colors@, normals@).take(n as int) =~= faces_of(
        vertices@,
        triangles@,
        colors@,
        normals@,
    ));
    faces
}

} // verus!
