//! What a drawn frame shows: at every pixel the nearest face that reaches
//! it, whatever the order in which the faces were drawn.

use vstd::prelude::*;
use crate::frame::{Buffers, Face};
use crate::grid::{col, row};
use crate::raster_z::{covers, depth_at, lemma_depth_between, wins, DEPTH_CLEAR};

verus! {

/// The face is drawn, and covers the centre of the pixel stored at index `i`.
pub open spec fn reaches(f: Face, cull_backfaces: bool, w: int, i: int) -> bool {
    !f.culled(cull_backfaces) && covers(f.v, col(w, i), row(w, i))
}

/// The depth of the face at the pixel stored at index `i`.
pub open spec fn face_depth(f: Face, w: int, i: int) -> int {
    depth_at(f.v, col(w, i), row(w, i))
}

/// Drawing keeps the size of both buffers.
pub proof fn lemma_size_kept(b: Buffers, w: int, faces: Seq<Face>, cull_backfaces: bool)
    ensures
        b.with_faces(w, faces, cull_backfaces).color.len() == b.color.len(),
        b.with_faces(w, faces, cull_backfaces).depth.len() == b.depth.len(),
    decreases faces.len(),
{
    if faces.len() > 0 {
        lemma_size_kept(b, w, faces.drop_last(), cull_backfaces);
    }
}

/// The depth buffer holds the minimum: after any faces were drawn, the depth
/// stored at a pixel is no greater than it was before, and no greater than
/// the depth there of any drawn face that covers the pixel.
pub proof fn lemma_depth_is_least(
    b: Buffers,
    w: int,
    faces: Seq<Face>,
    cull_backfaces: bool,
    i: int,
)
    requires
        0 <= i < b.depth.len(),
    ensures
        b.with_faces(w, faces, cull_backfaces).depth[i] <= b.depth[i],
        forall|k: int|
            0 <= k < faces.len() && reaches(#[trigger] faces[k], cull_backfaces, w, i)
                ==> b.with_faces(w, faces, cull_backfaces).depth[i] <= face_depth(faces[k], w, i),
    decreases faces.len(),
{
    if faces.len() > 0 {
        let init = faces.drop_last();
        let f = faces.last();
        let before = b.with_faces(w, init, cull_backfaces);
        let after = b.with_faces(w, faces, cull_backfaces);
        lemma_depth_is_least(b, w, init, cull_backfaces, i);
        lemma_size_kept(b, w, init, cull_backfaces);
        if covers(f.v, col(w, i), row(w, i)) {
            lemma_depth_between(f.v, col(w, i), row(w, i));
        }
        assert(after.depth[i] <= before.depth[i]);
        assert forall|k: int|
            0 <= k < faces.len() && reaches(
                #[trigger] faces[k],
                cull_backfaces,
                w,
                i,
            ) implies after.depth[i] <= face_depth(faces[k], w, i) by {
            if k < faces.len() - 1 {
                assert(faces[k] == init[k]);
            }
        }
    }
}

/// What a pixel shows was drawn there: after any faces were drawn, either
/// the pixel is as it was before, or it holds the colour and the depth of a
/// drawn face that covers it and is strictly nearer than what was there
/// before.
pub proof fn lemma_pixel_has_source(
    b: Buffers,
    w: int,
    faces: Seq<Face>,
    cull_backfaces: bool,
    i: int,
)
    requires
        0 <= i < b.depth.len(),
        b.color.len() == b.depth.len(),
    ensures
        ({
            let r = b.with_faces(w, faces, cull_backfaces);
            ||| (r.depth[i] == b.depth[i] && r.color[i] == b.color[i])
            ||| exists|k: int|
                0 <= k < faces.len() && reaches(#[trigger] faces[k], cull_backfaces, w, i)
                    && face_depth(faces[k], w, i) == r.depth[i] && faces[k].color == r.color[i]
                    && r.depth[i] < b.depth[i]
        }),
    decreases faces.len(),
{
    if faces.len() > 0 {
        let init = faces.drop_last();
        let f = faces.last();
        let before = b.with_faces(w, init, cull_backfaces);
        let after = b.with_faces(w, faces, cull_backfaces);
        lemma_pixel_has_source(b, w, init, cull_backfaces, i);
        lemma_depth_is_least(b, w, init, cull_backfaces, i);
        lemma_size_kept(b, w, init, cull_backfaces);
        if !f.culled(cull_backfaces) && wins(before.depth, w, f.v, i) {
            lemma_depth_between(f.v, col(w, i), row(w, i));
            let k = faces.len() - 1;
            assert(reaches(faces[k], cull_backfaces, w, i) && face_depth(faces[k], w, i)
                == after.depth[i] && faces[k].color == after.color[i] && after.depth[i]
                < b.depth[i]);
        } else {
            assert(after.depth[i] == before.depth[i]);
            assert(after.color[i] == before.color[i]);
            if !(before.depth[i] == b.depth[i] && before.color[i] == b.color[i]) {
                let k = choose|k: int|
                    0 <= k < init.len() && reaches(#[trigger] init[k], cull_backfaces, w, i)
                        && face_depth(init[k], w, i) == before.depth[i] && init[k].color
                        == before.color[i] && before.depth[i] < b.depth[i];
                assert(faces[k] == init[k]);
            }
        }
    }
}

/// A pixel that no drawn face covers is left as it was.
pub proof fn lemma_uncovered_pixel_is_kept(
    b: Buffers,
    w: int,
    faces: Seq<Face>,
    cull_backfaces: bool,
    i: int,
)
    requires
        0 <= i < b.depth.len(),
        b.color.len() == b.depth.len(),
        forall|k: int| 0 <= k < faces.len() ==> !reaches(#[trigger] faces[k], cull_backfaces, w, i),
    ensures
        b.with_faces(w, faces, cull_backfaces).color[i] == b.color[i],
        b.with_faces(w, faces, cull_backfaces).depth[i] == b.depth[i],
{
    lemma_pixel_has_source(b, w, faces, cull_backfaces, i);
}

/// A pixel that a drawn face covers is not left cleared, as long as the
/// depths of the vertices of that face are below `DEPTH_CLEAR`.
pub proof fn lemma_covered_pixel_is_drawn(
    b: Buffers,
    w: int,
    faces: Seq<Face>,
    cull_backfaces: bool,
    i: int,
    k: int,
)
    requires
        0 <= i < b.depth.len(),
        0 <= k < faces.len(),
        reaches(faces[k], cull_backfaces, w, i),
        faces[k].v[0].2 < DEPTH_CLEAR,
        faces[k].v[1].2 < DEPTH_CLEAR,
        faces[k].v[2].2 < DEPTH_CLEAR,
    ensures
        b.with_faces(w, faces, cull_backfaces).depth[i] < DEPTH_CLEAR,
{
    lemma_depth_is_least(b, w, faces, cull_backfaces, i);
    lemma_depth_between(faces[k].v, col(w, i), row(w, i));
}

/// Two sequences with the same elements, each as often, have the same members.
proof fn lemma_same_members(s1: Seq<Face>, s2: Seq<Face>)
    requires
        s1.to_multiset() == s2.to_multiset(),
    ensures
        forall|f: Face| s1.contains(f) <==> s2.contains(f),
{
    s1.to_multiset_ensures();
    s2.to_multiset_ensures();
    assert forall|f: Face| s1.contains(f) <==> s2.contains(f) by {
        assert(s1.contains(f) <==> s1.to_multiset().count(f) > 0);
        assert(s2.contains(f) <==> s2.to_multiset().count(f) > 0);
    }
}

/// The depth buffer does not depend on the order of the faces.
pub proof fn lemma_depth_order_independent(
    b: Buffers,
    w: int,
    faces: Seq<Face>,
    other: Seq<Face>,
    cull_backfaces: bool,
)
    requires
        b.color.len() == b.depth.len(),
        faces.to_multiset() == other.to_multiset(),
    ensures
        b.with_faces(w, other, cull_backfaces).depth == b.with_faces(
            w,
            faces,
            cull_backfaces,
        ).depth,
{
    let r1 = b.with_faces(w, faces, cull_backfaces);
    let r2 = b.with_faces(w, other, cull_backfaces);
    lemma_size_kept(b, w, faces, cull_backfaces);
    lemma_size_kept(b, w, other, cull_backfaces);
    lemma_same_members(faces, other);
    assert forall|i: int| 0 <= i < b.depth.len() implies r1.depth[i] == r2.depth[i] by {
        lemma_depth_is_least(b, w, faces, cull_backfaces, i);
        lemma_depth_is_least(b, w, other, cull_backfaces, i);
        lemma_pixel_has_source(b, w, faces, cull_backfaces, i);
        lemma_pixel_has_source(b, w, other, cull_backfaces, i);
        if r1.depth[i] < b.depth[i] {
            let k = choose|k: int|
                0 <= k < faces.len() && reaches(#[trigger] faces[k], cull_backfaces, w, i)
                    && face_depth(faces[k], w, i) == r1.depth[i];
            assert(faces.contains(faces[k]));
            let l = choose|l: int| 0 <= l < other.len() && other[l] == faces[k];
            assert(reaches(other[l], cull_backfaces, w, i));
        }
        if r2.depth[i] < b.depth[i] {
            let k = choose|k: int|
                0 <= k < other.len() && reaches(#[trigger] other[k], cull_backfaces, w, i)
                    && face_depth(other[k], w, i) == r2.depth[i];
            assert(other.contains(other[k]));
            let l = choose|l: int| 0 <= l < faces.len() && faces[l] == other[k];
            assert(reaches(faces[l], cull_backfaces, w, i));
        }
    }
    assert(r1.depth =~= r2.depth);
}

/// Wherever two drawn faces both lie at the depth that the finished frame
/// shows at a pixel, nearer than what the pixel held before, they have one
/// colour.
pub open spec fn visible_ties_agree(
    b: Buffers,
    w: int,
    faces: Seq<Face>,
    cull_backfaces: bool,
) -> bool {
    forall|i: int, k: int, l: int|
        #![trigger face_depth(faces[k], w, i), face_depth(faces[l], w, i)]
        {
            let shown = b.with_faces(w, faces, cull_backfaces).depth[i];
            0 <= i < b.depth.len() && 0 <= k < faces.len() && 0 <= l < faces.len() && reaches(
                faces[k],
                cull_backfaces,
                w,
                i,
            ) && reaches(faces[l], cull_backfaces, w, i) && face_depth(faces[k], w, i) == shown
                && face_depth(faces[l], w, i) == shown && shown < b.depth[i] ==> faces[k].color
                == faces[l].color
        }
}

/// The finished frame does not depend on the order in which the faces were
/// drawn, as long as faces that tie for the nearest depth at a pixel agree
/// in colour.
pub proof fn lemma_order_independent(
    b: Buffers,
    w: int,
    faces: Seq<Face>,
    other: Seq<Face>,
    cull_backfaces: bool,
)
    requires
        b.color.len() == b.depth.len(),
        faces.to_multiset() == other.to_multiset(),
        visible_ties_agree(b, w, faces, cull_backfaces),
    ensures
        b.with_faces(w, other, cull_backfaces) == b.with_faces(w, faces, cull_backfaces),
{
    let r1 = b.with_faces(w, faces, cull_backfaces);
    let r2 = b.with_faces(w, other, cull_backfaces);
    lemma_size_kept(b, w, faces, cull_backfaces);
    lemma_size_kept(b, w, other, cull_backfaces);
    lemma_same_members(faces, other);
    lemma_depth_order_independent(b, w, faces, other, cull_backfaces);
    assert forall|i: int| 0 <= i < b.color.len() implies r1.color[i] == r2.color[i] by {
        lemma_pixel_has_source(b, w, faces, cull_backfaces, i);
        lemma_pixel_has_source(b, w, other, cull_backfaces, i);
        if r1.depth[i] < b.depth[i] {
            let k = choose|k: int|
                0 <= k < faces.len() && reaches(#[trigger] faces[k], cull_backfaces, w, i)
                    && face_depth(faces[k], w, i) == r1.depth[i] && faces[k].color == r1.color[i];
            let m = choose|m: int|
                0 <= m < other.len() && reaches(#[trigger] other[m], cull_backfaces, w, i)
                    && face_depth(other[m], w, i) == r2.depth[i] && other[m].color == r2.color[i];
            assert(other.contains(other[m]));
            let l = choose|l: int| 0 <= l < faces.len() && faces[l] == other[m];
            assert(face_depth(faces[k], w, i) == r1.depth[i]);
            assert(face_depth(faces[l], w, i) == r1.depth[i]);
        }
    }
    assert(r1.color =~= r2.color);
}

/// The faces that culling keeps: those whose normal has a negative z component.
pub open spec fn front_faces(faces: Seq<Face>) -> Seq<Face> {
    faces.filter(|f: Face| !f.is_back())
}

/// With culling on, a frame is what drawing only the faces that are not
/// back faces gives with culling off: culling removes the back faces, and
/// nothing else.
pub proof fn lemma_culling_removes_back_faces(b: Buffers, w: int, faces: Seq<Face>)
    ensures
        b.with_faces(w, faces, true) == b.with_faces(w, front_faces(faces), false),
    decreases faces.len(),
{
    reveal(Seq::filter);
    if faces.len() > 0 {
        let init = faces.drop_last();
        let f = faces.last();
        lemma_culling_removes_back_faces(b, w, init);
        if !f.is_back() {
            assert(front_faces(faces) == front_faces(init).push(f));
            assert(front_faces(faces).drop_last() =~= front_faces(init));
        }
    }
}

/// Where no face is a back face, culling changes nothing.
pub proof fn lemma_culling_keeps_front_faces(b: Buffers, w: int, faces: Seq<Face>)
    requires
        forall|k: int| 0 <= k < faces.len() ==> !(#[trigger] faces[k]).is_back(),
    ensures
        b.with_faces(w, faces, true) == b.with_faces(w, faces, false),
    decreases faces.len(),
{
    if faces.len() > 0 {
        let init = faces.drop_last();
        assert forall|k: int| 0 <= k < init.len() implies !(#[trigger] init[k]).is_back() by {
            assert(init[k] == faces[k]);
        }
        lemma_culling_keeps_front_faces(b, w, init);
        assert(!faces[faces.len() - 1].is_back());
    }
}

} // verus!
