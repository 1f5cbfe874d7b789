//! Which straight pieces carry each dipole's current, with their Kirchhoff
//! reference directions, and the index layouts of the quadratures over them.
use vstd::prelude::*;
use crate::geometry::{dipole_refs_valid, Dipole, Mesh, Segment};

verus! {

/// One straight piece of a dipole's current: a physical segment, or its image
/// mirrored below the ground plane. `positive` is the sign of its Kirchhoff
/// reference direction (`+1` when true, `-1` when false); `junc_is_p2` says
/// that the dipole's junction is the segment's end node, where the
/// piecewise-sinusoidal current peaks.
#[derive(Clone, Copy, Debug, PartialEq, Eq, Structural)]
pub struct SubSegment {
    pub seg_idx: usize,
    pub positive: bool,
    pub junc_is_p2: bool,
    pub is_image: bool,
}

/// The current of the first half flows into the junction, that of the second
/// half out of it: the first segment is positive when the junction is its end
/// node, the second when the junction is not its end node.
pub open spec fn kcl_positive(seg: Segment, junction: usize, is_seg1: bool) -> bool {
    if is_seg1 {
        seg.end_idx == junction
    } else {
        seg.end_idx != junction
    }
}

/// The piece of segment `seg_idx` (or of its image) in dipole `d`.
pub open spec fn piece(segs: Seq<Segment>, d: Dipole, seg_idx: usize, is_seg1: bool, is_image: bool) -> SubSegment {
    SubSegment {
        seg_idx,
        positive: kcl_positive(segs[seg_idx as int], d.junction_idx, is_seg1),
        junc_is_p2: segs[seg_idx as int].end_idx == d.junction_idx,
        is_image,
    }
}

/// The pieces of one segment of `d`: the physical one, then its image when
/// `with_images`.
pub open spec fn segment_pieces(segs: Seq<Segment>, d: Dipole, seg_idx: usize, is_seg1: bool, with_images: bool) -> Seq<SubSegment> {
    if with_images {
        seq![piece(segs, d, seg_idx, is_seg1, false), piece(segs, d, seg_idx, is_seg1, true)]
    } else {
        seq![piece(segs, d, seg_idx, is_seg1, false)]
    }
}

/// All pieces of dipole `d`: those of its first segment, then, unless it is a
/// monopole, those of its second segment.
pub open spec fn spec_dipole_pieces(segs: Seq<Segment>, d: Dipole, with_images: bool) -> Seq<SubSegment> {
    if d.is_monopole {
        segment_pieces(segs, d, d.seg1_idx, true, with_images)
    } else {
        segment_pieces(segs, d, d.seg1_idx, true, with_images) + segment_pieces(
            segs,
            d,
            d.seg2_idx,
            false,
            with_images,
        )
    }
}

fn push_segment_pieces(
    out: &mut Vec<SubSegment>,
    seg: &Segment,
    seg_idx: usize,
    junction: usize,
    is_seg1: bool,
    with_images: bool,
)
    ensures
        final(out)@ == old(out)@ + (if with_images {
            seq![
                SubSegment {
                    seg_idx,
                    positive: kcl_positive(*seg, junction, is_seg1),
                    junc_is_p2: seg.end_idx == junction,
                    is_image: false,
                },
                SubSegment {
                    seg_idx,
                    positive: kcl_positive(*seg, junction, is_seg1),
                    junc_is_p2: seg.end_idx == junction,
                    is_image: true,
                },
            ]
        } else {
            seq![
                SubSegment {
                    seg_idx,
                    positive: kcl_positive(*seg, junction, is_seg1),
                    junc_is_p2: seg.end_idx == junction,
                    is_image: false,
                },
            ]
        }),
        final(out)@[old(out)@.len() as int].positive == if is_seg1 {
            seg.end_idx == junction
        } else {
            seg.end_idx != junction
        },
        final(out)@[old(out)@.len() as int].junc_is_p2 == (seg.end_idx == junction),
{
    let junc_is_end = seg.end_idx == junction;
    let positive = if is_seg1 {
        junc_is_end
    } else {
        !junc_is_end
    };
    out.push(SubSegment { seg_idx, positive, junc_is_p2: junc_is_end, is_image: false });
    if with_images {
        out.push(SubSegment { seg_idx, positive, junc_is_p2: junc_is_end, is_image: true });
    }
    proof {
        if with_images {
            assert(final(out)@ =~= old(out)@ + seq![
                SubSegment { seg_idx, positive, junc_is_p2: junc_is_end, is_image: false },
                SubSegment { seg_idx, positive, junc_is_p2: junc_is_end, is_image: true },
            ]);
        } else {
            assert(final(out)@ =~= old(out)@ + seq![
                SubSegment { seg_idx, positive, junc_is_p2: junc_is_end, is_image: false },
            ]);
        }
    }
}

/// The pieces that carry the current of `dip`: its first segment, its image
/// when `with_images`, then the same for its second segment unless it is a
/// monopole.
pub fn dipole_pieces(dip: &Dipole, mesh: &Mesh, with_images: bool) -> (r: Vec<SubSegment>)
    requires
        dipole_refs_valid(mesh.segments@, *dip),
    ensures
        r@ == spec_dipole_pieces(mesh.segments@, *dip, with_images),
        r@.len() == (if dip.is_monopole { 1int } else { 2int }) * (if with_images { 2int } else { 1int }),
        r@[0].seg_idx == dip.seg1_idx,
        r@[0].positive == (mesh.segments@[dip.seg1_idx as int].end_idx == dip.junction_idx),
        !dip.is_monopole ==> ({
            let second = r@[if with_images { 2int } else { 1int }];
            &&& second.seg_idx == dip.seg2_idx
            &&& second.positive == (mesh.segments@[dip.seg2_idx as int].end_idx != dip.junction_idx)
        }),
        forall|k: int| 0 <= k < r@.len() ==> {
            let p = #[trigger] r@[k];
            let half = if with_images { 2int } else { 1int };
            &&& k < half ==> p.seg_idx == dip.seg1_idx && p.positive == (
                mesh.segments@[dip.seg1_idx as int].end_idx == dip.junction_idx)
            &&& k >= half ==> !dip.is_monopole && p.seg_idx == dip.seg2_idx && p.positive == (
                mesh.segments@[dip.seg2_idx as int].end_idx != dip.junction_idx)
            &&& p.junc_is_p2 == (mesh.segments@[p.seg_idx as int].end_idx == dip.junction_idx)
            &&& p.is_image == (with_images && k % 2 == 1)
        },
{
    let mut out: Vec<SubSegment> = Vec::new();
    push_segment_pieces(&mut out, &mesh.segments[dip.seg1_idx], dip.seg1_idx, dip.junction_idx, true, with_images);
    assert(out@ =~= segment_pieces(mesh.segments@, *dip, dip.seg1_idx, true, with_images));
    if !dip.is_monopole {
        let ghost first = out@;
        push_segment_pieces(&mut out, &mesh.segments[dip.seg2_idx], dip.seg2_idx, dip.junction_idx, false, with_images);
        assert(out@ =~= first + segment_pieces(mesh.segments@, *dip, dip.seg2_idx, false, with_images));
    }
    proof {
        assert forall|k: int| 0 <= k < out@.len() implies {
            let p = #[trigger] out@[k];
            let half = if with_images { 2int } else { 1int };
            &&& k < half ==> p.seg_idx == dip.seg1_idx && p.positive == (
                mesh.segments@[dip.seg1_idx as int].end_idx == dip.junction_idx)
            &&& k >= half ==> !dip.is_monopole && p.seg_idx == dip.seg2_idx && p.positive == (
                mesh.segments@[dip.seg2_idx as int].end_idx != dip.junction_idx)
            &&& p.junc_is_p2 == (mesh.segments@[p.seg_idx as int].end_idx == dip.junction_idx)
            &&& p.is_image == (with_images && k % 2 == 1)
        } by {
            lemma_pieces_directions(mesh.segments@, *dip, with_images, k);
        }
    }
    out
}

/// The weight of an image source in the impedance matrix: `-1` over any
/// ground plane (the dielectric ground is treated as a perfect conductor
/// there), `0` in free space.
pub open spec fn spec_z_image_gamma(mesh: &Mesh) -> i8 {
    if mesh.ground_plane is Some {
        -1i8
    } else {
        0i8
    }
}

/// The image weight used when filling the impedance matrix.
pub fn z_image_gamma(mesh: &Mesh) -> (r: i8)
    ensures
        r == spec_z_image_gamma(mesh),
        mesh.ground_plane is Some ==> r == -1,
        mesh.ground_plane is None ==> r == 0,
{
    if mesh.ground_plane.is_some() {
        -1
    } else {
        0
    }
}

/// The pieces of dipole `dip` in the impedance matrix: a testing dipole
/// (`is_source` false) is its physical wire only; a source dipole adds the
/// image pieces, weighted by `gamma`, when `gamma` is not zero.
pub fn get_subsegments(dip: &Dipole, mesh: &Mesh, is_source: bool, gamma: i8) -> (r: Vec<SubSegment>)
    requires
        dipole_refs_valid(mesh.segments@, *dip),
    ensures
        r@ == spec_dipole_pieces(mesh.segments@, *dip, is_source && gamma != 0),
        r@.len() == (if dip.is_monopole { 1int } else { 2int }) * (if is_source && gamma != 0 {
            2int
        } else {
            1int
        }),
        forall|k: int| 0 <= k < r@.len() ==> (#[trigger] r@[k]).is_image == (is_source && gamma != 0 && k % 2 == 1),
        !is_source || gamma == 0 ==> forall|k: int| 0 <= k < r@.len() ==> !(#[trigger] r@[k]).is_image,
{
    dipole_pieces(dip, mesh, is_source && gamma != 0)
}

/// The number of quadrature steps along each of two segments: the raw count
/// from their aspect ratio, held between 10 and 2000.
pub fn mutual_quadrature_steps(raw: usize) -> (r: usize)
    ensures
        r == if raw < 10 {
            10
        } else if raw > 2000 {
            2000
        } else {
            raw
        },
{
    if raw < 10 {
        10
    } else if raw > 2000 {
        2000
    } else {
        raw
    }
}

/// The number of incident-field sample points: `points_per_seg` on each
/// segment, or `None` when that count does not fit in a `usize`.
pub fn incident_point_count(mesh: &Mesh, points_per_seg: usize) -> (r: Option<usize>)
    ensures
        r matches Some(c) ==> c == mesh.segments.len() * points_per_seg,
        r is None <==> mesh.segments.len() * points_per_seg > usize::MAX,
{
    mesh.segments.len().checked_mul(points_per_seg)
}

/// Where sample `step` of segment `seg_idx` stands in the flat arrays of
/// incident-field samples: the samples of each segment are contiguous, and
/// the segments come in order.
pub fn incident_sample_index(seg_idx: usize, points_per_seg: usize, step: usize) -> (r: usize)
    requires
        step < points_per_seg,
        seg_idx * points_per_seg + points_per_seg <= usize::MAX,
    ensures
        r == seg_idx * points_per_seg + step,
        seg_idx * points_per_seg <= r < (seg_idx + 1) * points_per_seg,
{
    assert((seg_idx + 1) * points_per_seg == seg_idx * points_per_seg + points_per_seg) by (nonlinear_arith);
    seg_idx * points_per_seg + step
}

/// Kirchhoff reference directions: the current of a dipole's first segment
/// flows into the junction and that of its second segment flows out of it,
/// so a first segment is positive exactly when it ends at the junction and a
/// second segment exactly when it does not.
pub proof fn lemma_kcl_directions(seg: Segment, junction: usize)
    ensures
        kcl_positive(seg, junction, true) <==> seg.end_idx == junction,
        kcl_positive(seg, junction, false) <==> seg.end_idx != junction,
        kcl_positive(seg, junction, true) != kcl_positive(seg, junction, false),
{
}

/// Along every piece of a dipole, the reference direction points into the
/// junction on the first half and away from it on the second: a first-half
/// piece is positive exactly when the junction is its end node, a second-half
/// piece exactly when it is not. Images keep the direction of their segment.
pub proof fn lemma_pieces_directions(segs: Seq<Segment>, d: Dipole, with_images: bool, k: int)
    requires
        0 <= k < spec_dipole_pieces(segs, d, with_images).len(),
    ensures
        ({
            let p = spec_dipole_pieces(segs, d, with_images)[k];
            let half = if with_images { 2int } else { 1int };
            &&& k < half ==> p.seg_idx == d.seg1_idx && p.positive == (segs[d.seg1_idx as int].end_idx == d.junction_idx)
            &&& k >= half ==> !d.is_monopole && p.seg_idx == d.seg2_idx && p.positive == (segs[d.seg2_idx as int].end_idx != d.junction_idx)
            &&& p.junc_is_p2 == (segs[p.seg_idx as int].end_idx == d.junction_idx)
            &&& p.is_image == (with_images && k % 2 == 1)
        }),
{
    let a = segment_pieces(segs, d, d.seg1_idx, true, with_images);
    if !d.is_monopole {
        let b = segment_pieces(segs, d, d.seg2_idx, false, with_images);
        if k < a.len() {
            assert((a + b)[k] == a[k]);
        } else {
            assert((a + b)[k] == b[k - a.len()]);
        }
    }
}

/// In the impedance matrix, image sources enter with weight `-1` over any
/// ground plane, perfectly conducting or dielectric, and not at all in free
/// space.
pub proof fn lemma_z_image_gamma(mesh: &Mesh)
    ensures
        mesh.ground_plane is Some ==> spec_z_image_gamma(mesh) == -1,
        mesh.ground_plane is None ==> spec_z_image_gamma(mesh) == 0,
        (mesh.ground_plane matches Some(g) && g.is_pec) ==> spec_z_image_gamma(mesh) == -1,
{
}

} // verus!
