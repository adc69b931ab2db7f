//! Normalized depth: the view-space z of the vertices of a frame, mapped
//! linearly onto the fixed-point range from 0 (nearest) to [`DEPTH_ONE`]
//! (farthest).

use vstd::prelude::*;

verus! {

/// The normalized depth of the farthest vertex of a frame: fixed-point 1.
/// It is less than the depth of a cleared pixel.
pub const DEPTH_ONE: u32 = 0x0100_0000;

/// The least element of a sequence that is not empty.
pub open spec fn least_z(zs: Seq<i32>) -> int
    decreases zs.len(),
{
    if zs.len() == 0 {
        0
    } else if zs.len() == 1 {
        zs[0] as int
    } else {
        let rest = least_z(zs.drop_last());
        if zs.last() < rest {
            zs.last() as int
        } else {
            rest
        }
    }
}

/// The greatest element of a sequence that is not empty.
pub open spec fn greatest_z(zs: Seq<i32>) -> int
    decreases zs.len(),
{
    if zs.len() == 0 {
        0
    } else if zs.len() == 1 {
        zs[0] as int
    } else {
        let rest = greatest_z(zs.drop_last());
        if zs.last() > rest {
            zs.last() as int
        } else {
            rest
        }
    }
}

/// The least and the greatest element bound the sequence, and occur in it.
pub proof fn lemma_least_and_greatest(zs: Seq<i32>)
    requires
        zs.len() > 0,
    ensures
        forall|k: int| 0 <= k < zs.len() ==> least_z(zs) <= #[trigger] zs[k] <= greatest_z(zs),
        exists|k: int| 0 <= k < zs.len() && #[trigger] zs[k] == least_z(zs),
        exists|k: int| 0 <= k < zs.len() && #[trigger] zs[k] == greatest_z(zs),
    decreases zs.len(),
{
    if zs.len() == 1 {
        assert(zs[0] == least_z(zs));
        assert(zs[0] == greatest_z(zs));
    } else {
        let init = zs.drop_last();
        lemma_least_and_greatest(init);
        let a = choose|k: int| 0 <= k < init.len() && #[trigger] init[k] == least_z(init);
        let b = choose|k: int| 0 <= k < init.len() && #[trigger] init[k] == greatest_z(init);
        assert(zs[a] == init[a]);
        assert(zs[b] == init[b]);
        assert(zs[zs.len() - 1] == zs.last());
        assert forall|k: int| 0 <= k < zs.len() implies least_z(zs) <= #[trigger] zs[k]
            <= greatest_z(zs) by {
            if k < init.len() {
                assert(zs[k] == init[k]);
            }
        }
    }
}

/// The depth range of a frame: the least view-space z of its vertices, and
/// the distance from it to the greatest. Where all vertices share one z the
/// distance is widened to 1, so that it can be divided by.
#[derive(Clone, Copy, Debug)]
pub struct DepthRange {
    pub z_min: i32,
    pub extent: u32,
}

impl DepthRange {
    /// The range can be divided by.
    pub open spec fn wf(self) -> bool {
        self.extent >= 1
    }

    /// `z` lies in the range.
    pub open spec fn holds(self, z: int) -> bool {
        self.z_min <= z <= self.z_min + self.extent
    }

    /// The range of the vertices `zs`.
    pub open spec fn of(zs: Seq<i32>) -> DepthRange {
        DepthRange {
            z_min: least_z(zs) as i32,
            extent: if greatest_z(zs) == least_z(zs) {
                1u32
            } else {
                (greatest_z(zs) - least_z(zs)) as u32
            },
        }
    }

    /// The normalized depth of `z`: its distance from the near end, as a
    /// fraction of the extent of the range, in units of `DEPTH_ONE`,
    /// rounded down.
    pub open spec fn normalized(self, z: int) -> int {
        (z - self.z_min) * DEPTH_ONE / (self.extent as int)
    }
}

/// The range of a frame's vertices is well formed and holds each of them.
pub proof fn lemma_range_of(zs: Seq<i32>)
    requires
        zs.len() > 0,
    ensures
        DepthRange::of(zs).wf(),
        DepthRange::of(zs).z_min == least_z(zs),
        DepthRange::of(zs).z_min + DepthRange::of(zs).extent == if greatest_z(zs) == least_z(zs) {
            greatest_z(zs) + 1
        } else {
            greatest_z(zs)
        },
        forall|k: int| 0 <= k < zs.len() ==> DepthRange::of(zs).holds(#[trigger] zs[k] as int),
{
    lemma_least_and_greatest(zs);
    let a = choose|k: int| 0 <= k < zs.len() && #[trigger] zs[k] == least_z(zs);
    let b = choose|k: int| 0 <= k < zs.len() && #[trigger] zs[k] == greatest_z(zs);
    assert(zs[a] <= zs[b]);
}

/// Normalized depth lies between 0 and `DEPTH_ONE` for every z of the range.
pub proof fn lemma_normalized_in_range(r: DepthRange, z: int)
    requires
        r.wf(),
        r.holds(z),
    ensures
        0 <= r.normalized(z) <= DEPTH_ONE,
{
    let e = r.extent as int;
    let n = (z - r.z_min) * DEPTH_ONE;
    assert(0 <= n <= e * DEPTH_ONE) by (nonlinear_arith)
        requires
            n == (z - r.z_min) * DEPTH_ONE,
            0 <= z - r.z_min <= e,
    ;
    vstd::arithmetic::div_mod::lemma_div_is_ordered(0, n, e);
    vstd::arithmetic::div_mod::lemma_div_is_ordered(n, e * DEPTH_ONE, e);
    vstd::arithmetic::div_mod::lemma_div_multiples_vanish(DEPTH_ONE as int, e);
    assert(0int / e == 0) by (nonlinear_arith)
        requires
            e >= 1,
    ;
}

/// Normalized depth keeps the order of view-space z.
pub proof fn lemma_normalized_keeps_order(r: DepthRange, z: int, t: int)
    requires
        r.wf(),
        z <= t,
    ensures
        r.normalized(z) <= r.normalized(t),
{
    let e = r.extent as int;
    assert((z - r.z_min) * DEPTH_ONE <= (t - r.z_min) * DEPTH_ONE) by (nonlinear_arith)
        requires
            z <= t,
    ;
    vstd::arithmetic::div_mod::lemma_div_is_ordered(
        (z - r.z_min) * DEPTH_ONE,
        (t - r.z_min) * DEPTH_ONE,
        e,
    );
}

/// The near end of the range has normalized depth 0, the far end `DEPTH_ONE`.
pub proof fn lemma_normalized_ends(r: DepthRange)
    requires
        r.wf(),
    ensures
        r.normalized(r.z_min as int) == 0,
        r.normalized(r.z_min + r.extent) == DEPTH_ONE,
{
    let e = r.extent as int;
    assert(0int * DEPTH_ONE == 0);
    assert(0int / e == 0) by (nonlinear_arith)
        requires
            e >= 1,
    ;
    assert((r.z_min + r.extent - r.z_min) * DEPTH_ONE == e * DEPTH_ONE);
    vstd::arithmetic::div_mod::lemma_div_multiples_vanish(DEPTH_ONE as int, e);
}

/// In every frame the normalized depths lie between 0 and `DEPTH_ONE`, and
/// the nearest vertex has depth 0. Unless all vertices share one z, the
/// farthest has depth `DEPTH_ONE`; if they do, all have depth 0.
pub proof fn lemma_frame_depths(zs: Seq<i32>)
    requires
        zs.len() > 0,
    ensures
        forall|k: int|
            0 <= k < zs.len() ==> 0 <= DepthRange::of(zs).normalized(#[trigger] zs[k] as int)
                <= DEPTH_ONE,
        forall|k: int|
            0 <= k < zs.len() && #[trigger] zs[k] == least_z(zs) ==> DepthRange::of(zs).normalized(
                zs[k] as int,
            ) == 0,
        greatest_z(zs) != least_z(zs) ==> forall|k: int|
            0 <= k < zs.len() && #[trigger] zs[k] == greatest_z(zs) ==> DepthRange::of(
                zs,
            ).normalized(zs[k] as int) == DEPTH_ONE,
        exists|k: int| 0 <= k < zs.len() && #[trigger] zs[k] == least_z(zs),
        exists|k: int| 0 <= k < zs.len() && #[trigger] zs[k] == greatest_z(zs),
{
    let r = DepthRange::of(zs);
    lemma_range_of(zs);
    lemma_least_and_greatest(zs);
    lemma_normalized_ends(r);
    assert forall|k: int| 0 <= k < zs.len() implies 0 <= r.normalized(#[trigger] zs[k] as int)
        <= DEPTH_ONE by {
        lemma_normalized_in_range(r, zs[k] as int);
    }
}

/// Scans the view-space z of all vertices of a frame for their range;
/// `None` where there is no vertex.
pub fn depth_range(zs: &[i32]) -> (r: Option<DepthRange>)
    ensures
        r is Some <==> zs@.len() > 0,
        r matches Some(d) ==> d == DepthRange::of(zs@),
{
    let n: usize = zs.len();
    if n == 0 {
        return None;
    }
    let mut lo: i32 = zs[0];
    let mut hi: i32 = zs[0];
    let mut k: usize = 1;
    assert(zs@.take(1) =~= seq![zs@[0]]);
    while k < n
        invariant
            1 <= k <= n,
            n == zs@.len(),
            lo == least_z(zs@.take(k as int)),
            hi == greatest_z(zs@.take(k as int)),
        decreases n - k,
    {
        let z: i32 = zs[k];
        proof {
            assert(zs@.take(k + 1).drop_last() =~= zs@.take(k as int));
            assert(zs@.take(k + 1).last() == z);
        }
        if z < lo {
            lo = z;
        }
        if z > hi {
            hi = z;
        }
        k = k + 1;
    }
    proof {
        assert(zs@.take(n as int) =~= zs@);
        lemma_least_and_greatest(zs@);
        let a = choose|k: int| 0 <= k < zs@.len() && #[trigger] zs@[k] == least_z(zs@);
        let b = choose|k: int| 0 <= k < zs@.len() && #[trigger] zs@[k] == greatest_z(zs@);
        assert(zs@[a] <= zs@[b]);
    }
    let extent: u32 = if hi == lo { 1 } else { (hi as i64 - lo as i64) as u32 };
    Some(DepthRange { z_min: lo, extent })
}

/// The normalized depth of a vertex of the frame.
pub fn normalize_depth(z: i32, range: &DepthRange) -> (d: u32)
    requires
        range.wf(),
        range.holds(z as int),
    ensures
        d == range.normalized(z as int),
{
    proof {
        lemma_normalized_in_range(*range, z as int);
    }
    let offset: u64 = (z as i64 - range.z_min as i64) as u64;
    assert(offset * DEPTH_ONE <= 0xFFFF_FFFF * 0x0100_0000) by (nonlinear_arith)
        requires
            0 <= offset <= 0xFFFF_FFFF,
            DEPTH_ONE == 0x0100_0000,
    ;
    ((offset * (DEPTH_ONE as u64)) / (range.extent as u64)) as u32
}

/// The normalized depth of every vertex of a frame, from the view-space z
/// of all of them: the least z is mapped to 0 and the greatest to
/// `DEPTH_ONE`, the others linearly between.
pub fn normalize_depths(zs: &[i32]) -> (out: Vec<u32>)
    ensures
        out@.len() == zs@.len(),
        forall|k: int|
            0 <= k < zs@.len() ==> #[trigger] out@[k] == DepthRange::of(zs@).normalized(
                zs@[k] as int,
            ),
        forall|k: int| 0 <= k < zs@.len() ==> #[trigger] out@[k] <= DEPTH_ONE,
{
    let mut out: Vec<u32> = Vec::new();
    match depth_range(zs) {
        None => {},
        Some(range) => {
            proof {
                lemma_range_of(zs@);
                lemma_frame_depths(zs@);
            }
            let n: usize = zs.len();
            let mut k: usize = 0;
            while k < n
                invariant
                    k <= n,
                    n == zs@.len(),
                    out@.len() == k,
                    range == DepthRange::of(zs@),
                    range.wf(),
                    forall|j: int| 0 <= j < zs@.len() ==> range.holds(#[trigger] zs@[j] as int),
                    forall|j: int|
                        0 <= j < k ==> #[trigger] out@[j] == range.normalized(zs@[j] as int),
                decreases n - k,
            {
                let d: u32 = normalize_depth(zs[k], &range);
                out.push(d);
                k = k + 1;
            }
        },
    }
    out
}

} // verus!
