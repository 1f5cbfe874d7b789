//! Nodes, segments, dipoles and the mesh that holds them.
use vstd::prelude::*;
use crate::binary64::{abs_below, abs_lt, max_bits, spec_max};

verus! {

/// The binary64 pattern of `1e-12`: a node whose `|z|` is below it lies on
/// the ground plane.
pub const GROUND_TOLERANCE_BITS: u64 = 0x3D71_9799_812D_EA11;

/// The binary64 pattern of `1.0`.
pub const ONE_BITS: u64 = 0x3FF0_0000_0000_0000;

/// The binary64 pattern of `0.0`.
pub const ZERO_BITS: u64 = 0;

/// A point in space; each coordinate is the bit pattern of a binary64 value.
#[derive(Clone, Copy, Debug, PartialEq, Eq, Structural)]
pub struct Node {
    pub x: u64,
    pub y: u64,
    pub z: u64,
}

impl Node {
    /// The node at the given coordinates.
    pub fn new(x: u64, y: u64, z: u64) -> (r: Self)
        ensures
            r == (Node { x, y, z }),
    {
        Node { x, y, z }
    }
}

/// A straight wire segment between two nodes (by index), with the bit pattern
/// of its radius.
#[derive(Clone, Copy, Debug, PartialEq, Eq, Structural)]
pub struct Segment {
    pub start_idx: usize,
    pub end_idx: usize,
    pub radius: u64,
}

impl Segment {
    /// The segment from `start_idx` to `end_idx`.
    pub fn new(start_idx: usize, end_idx: usize, radius: u64) -> (r: Self)
        ensures
            r == (Segment { start_idx, end_idx, radius }),
    {
        Segment { start_idx, end_idx, radius }
    }
}

/// A piecewise-sinusoidal basis function spanning two segments that meet at
/// `junction_idx`, or, for a monopole, one segment that meets the ground plane
/// there (its image stands for the second half, and `seg2_idx == seg1_idx`).
/// `mbc_offset` is the bit pattern of the bridge-current radius offset.
#[derive(Clone, Copy, Debug, PartialEq, Eq, Structural)]
pub struct Dipole {
    pub seg1_idx: usize,
    pub seg2_idx: usize,
    pub junction_idx: usize,
    pub mbc_offset: u64,
    pub is_monopole: bool,
}

impl Dipole {
    /// The dipole with the given fields.
    pub fn new(
        seg1_idx: usize,
        seg2_idx: usize,
        junction_idx: usize,
        mbc_offset: u64,
        is_monopole: bool,
    ) -> (r: Self)
        ensures
            r == (Dipole { seg1_idx, seg2_idx, junction_idx, mbc_offset, is_monopole }),
    {
        Dipole { seg1_idx, seg2_idx, junction_idx, mbc_offset, is_monopole }
    }
}

/// The half-space below `z = 0`: a perfect conductor, or a dielectric with
/// conductivity `sigma` and relative permittivity `eps_r` (bit patterns).
#[derive(Clone, Copy, Debug, PartialEq, Eq, Structural)]
pub struct GroundPlane {
    pub is_pec: bool,
    pub sigma: u64,
    pub eps_r: u64,
    pub use_sommerfeld: bool,
}

/// The whole wire model.
pub struct Mesh {
    pub nodes: Vec<Node>,
    pub segments: Vec<Segment>,
    pub dipoles: Vec<Dipole>,
    pub ground_plane: Option<GroundPlane>,
}

/// The segment has `v` as one of its end nodes.
pub open spec fn touches(s: Segment, v: usize) -> bool {
    s.start_idx == v || s.end_idx == v
}

/// Segment `i` touches node `v` and no segment before it does.
pub open spec fn first_toucher(segs: Seq<Segment>, i: int, v: usize) -> bool {
    &&& 0 <= i < segs.len()
    &&& touches(segs[i], v)
    &&& forall|k: int| 0 <= k < i ==> !touches(#[trigger] segs[k], v)
}

/// The two-segment dipole of segments `i` and `j` at node `v`.
pub open spec fn junction_dipole(segs: Seq<Segment>, i: int, j: int, v: usize) -> Dipole {
    Dipole {
        seg1_idx: i as usize,
        seg2_idx: j as usize,
        junction_idx: v,
        mbc_offset: spec_max(segs[i].radius, segs[j].radius),
        is_monopole: false,
    }
}

/// The dipoles that the pair `i < j` contributes: one at each distinct end
/// node of segment `i` that segment `j` touches and at which `i` is the first
/// toucher. Every junction of `N` segments thus gets the `N - 1` dipoles that
/// join its first segment to each of the others.
pub open spec fn pair_dipoles(segs: Seq<Segment>, i: int, j: int) -> Seq<Dipole> {
    let s1 = segs[i];
    let s2 = segs[j];
    let at_start = if touches(s2, s1.start_idx) && first_toucher(segs, i, s1.start_idx) {
        seq![junction_dipole(segs, i, j, s1.start_idx)]
    } else {
        Seq::<Dipole>::empty()
    };
    let at_end = if s1.end_idx != s1.start_idx && touches(s2, s1.end_idx) && first_toucher(
        segs,
        i,
        s1.end_idx,
    ) {
        seq![junction_dipole(segs, i, j, s1.end_idx)]
    } else {
        Seq::<Dipole>::empty()
    };
    at_start + at_end
}

/// The dipoles of the pairs `(i, i+1), ..., (i, j-1)`, in that order.
pub open spec fn row_dipoles(segs: Seq<Segment>, i: int, j: int) -> Seq<Dipole>
    decreases j - i,
{
    if j <= i + 1 {
        Seq::<Dipole>::empty()
    } else {
        row_dipoles(segs, i, j - 1) + pair_dipoles(segs, i, j - 1)
    }
}

/// The two-segment dipoles whose first segment is below `i`, in scan order.
pub open spec fn junction_dipoles(segs: Seq<Segment>, i: int) -> Seq<Dipole>
    decreases i,
{
    if i <= 0 {
        Seq::<Dipole>::empty()
    } else {
        junction_dipoles(segs, i - 1) + row_dipoles(segs, i - 1, segs.len() as int)
    }
}

/// Node `v` lies on the ground plane: `|z| < 1e-12`.
pub open spec fn grounded(nodes: Seq<Node>, v: usize) -> bool {
    abs_lt(nodes[v as int].z, GROUND_TOLERANCE_BITS)
}

/// The monopole of segment `i`, at its start node if that is grounded, else at
/// its end node if that is grounded, else none.
pub open spec fn monopole_at(segs: Seq<Segment>, nodes: Seq<Node>, i: int) -> Seq<Dipole> {
    let s = segs[i];
    if grounded(nodes, s.start_idx) {
        seq![
            Dipole {
                seg1_idx: i as usize,
                seg2_idx: i as usize,
                junction_idx: s.start_idx,
                mbc_offset: s.radius,
                is_monopole: true,
            },
        ]
    } else if grounded(nodes, s.end_idx) {
        seq![
            Dipole {
                seg1_idx: i as usize,
                seg2_idx: i as usize,
                junction_idx: s.end_idx,
                mbc_offset: s.radius,
                is_monopole: true,
            },
        ]
    } else {
        Seq::<Dipole>::empty()
    }
}

/// The monopoles of segments below `i`, in order.
pub open spec fn monopole_dipoles(segs: Seq<Segment>, nodes: Seq<Node>, i: int) -> Seq<Dipole>
    decreases i,
{
    if i <= 0 {
        Seq::<Dipole>::empty()
    } else {
        monopole_dipoles(segs, nodes, i - 1) + monopole_at(segs, nodes, i - 1)
    }
}

/// All dipoles of a mesh: the two-segment ones, then, over a ground plane,
/// the monopoles.
pub open spec fn mesh_dipoles(segs: Seq<Segment>, nodes: Seq<Node>, has_ground: bool) -> Seq<
    Dipole,
> {
    junction_dipoles(segs, segs.len() as int) + if has_ground {
        monopole_dipoles(segs, nodes, segs.len() as int)
    } else {
        Seq::<Dipole>::empty()
    }
}

/// Every segment's end nodes are nodes of the mesh.
pub open spec fn segment_nodes_valid(segs: Seq<Segment>, nodes: Seq<Node>) -> bool {
    forall|k: int|
        0 <= k < segs.len() ==> (#[trigger] segs[k]).start_idx < nodes.len() && segs[k].end_idx
            < nodes.len()
}

/// The dipole's segments are segments of the mesh.
pub open spec fn dipole_refs_valid(segs: Seq<Segment>, d: Dipole) -> bool {
    &&& d.seg1_idx < segs.len()
    &&& !d.is_monopole ==> d.seg2_idx < segs.len()
}

/// Every dipole's segments are segments of the mesh.
pub open spec fn dipoles_refs_valid(segs: Seq<Segment>, ds: Seq<Dipole>) -> bool {
    forall|k: int| 0 <= k < ds.len() ==> dipole_refs_valid(segs, #[trigger] ds[k])
}

/// Whether segment `i` is the first to touch `v`.
fn is_first_toucher(segs: &Vec<Segment>, i: usize, v: usize) -> (r: bool)
    requires
        i < segs.len(),
        touches(segs@[i as int], v),
    ensures
        r == first_toucher(segs@, i as int, v),
{
    let mut k: usize = 0;
    while k < i
        invariant
            k <= i,
            i < segs.len(),
            forall|m: int| 0 <= m < k ==> !touches(#[trigger] segs@[m], v),
        decreases i - k,
    {
        if segs[k].start_idx == v || segs[k].end_idx == v {
            assert(touches(segs@[k as int], v));
            return false;
        }
        k = k + 1;
    }
    true
}

impl Mesh {
    /// An empty mesh in free space.
    pub fn new() -> (r: Self)
        ensures
            r.nodes@ == Seq::<Node>::empty(),
            r.segments@ == Seq::<Segment>::empty(),
            r.dipoles@ == Seq::<Dipole>::empty(),
            r.ground_plane is None,
    {
        Mesh { nodes: Vec::new(), segments: Vec::new(), dipoles: Vec::new(), ground_plane: None }
    }

    /// Appends a node and returns its index.
    pub fn add_node(&mut self, node: Node) -> (idx: usize)
        ensures
            final(self).nodes@ == old(self).nodes@.push(node),
            idx == old(self).nodes@.len(),
            final(self).segments@ == old(self).segments@,
            final(self).dipoles@ == old(self).dipoles@,
            final(self).ground_plane == old(self).ground_plane,
    {
        self.nodes.push(node);
        self.nodes.len() - 1
    }

    /// Appends a segment and returns its index.
    pub fn add_segment(&mut self, segment: Segment) -> (idx: usize)
        ensures
            final(self).segments@ == old(self).segments@.push(segment),
            idx == old(self).segments@.len(),
            final(self).nodes@ == old(self).nodes@,
            final(self).dipoles@ == old(self).dipoles@,
            final(self).ground_plane == old(self).ground_plane,
    {
        self.segments.push(segment);
        self.segments.len() - 1
    }

    /// Whether every segment's end nodes are nodes of the mesh.
    pub fn segments_reference_nodes(&self) -> (r: bool)
        ensures
            r == segment_nodes_valid(self.segments@, self.nodes@),
            r <==> forall|k: int|
                0 <= k < self.segments@.len() ==> (#[trigger] self.segments@[k]).start_idx
                    < self.nodes@.len() && self.segments@[k].end_idx < self.nodes@.len(),
    {
        let n = self.segments.len();
        let mut k: usize = 0;
        while k < n
            invariant
                n == self.segments.len(),
                k <= n,
                forall|m: int|
                    0 <= m < k ==> (#[trigger] self.segments@[m]).start_idx < self.nodes.len()
                        && self.segments@[m].end_idx < self.nodes.len(),
            decreases n - k,
        {
            let s = &self.segments[k];
            if s.start_idx >= self.nodes.len() || s.end_idx >= self.nodes.len() {
                assert(!((self.segments@[k as int]).start_idx < self.nodes.len()
                    && self.segments@[k as int].end_idx < self.nodes.len()));
                return false;
            }
            k = k + 1;
        }
        true
    }

    /// Whether every dipole's segments are segments of the mesh.
    pub fn dipoles_reference_segments(&self) -> (r: bool)
        ensures
            r == dipoles_refs_valid(self.segments@, self.dipoles@),
            r <==> forall|k: int|
                0 <= k < self.dipoles@.len() ==> (#[trigger] self.dipoles@[k]).seg1_idx
                    < self.segments@.len() && (!self.dipoles@[k].is_monopole
                    ==> self.dipoles@[k].seg2_idx < self.segments@.len()),
    {
        let n = self.dipoles.len();
        let mut k: usize = 0;
        while k < n
            invariant
                n == self.dipoles.len(),
                k <= n,
                forall|m: int|
                    0 <= m < k ==> dipole_refs_valid(self.segments@, #[trigger] self.dipoles@[m]),
            decreases n - k,
        {
            let d = &self.dipoles[k];
            if d.seg1_idx >= self.segments.len() || (!d.is_monopole && d.seg2_idx
                >= self.segments.len()) {
                assert(!dipole_refs_valid(self.segments@, self.dipoles@[k as int]));
                return false;
            }
            k = k + 1;
        }
        true
    }

    /// Puts a perfectly conducting half-space below `z = 0`.
    pub fn set_pec_ground(&mut self)
        ensures
            final(self).ground_plane == Some(
                GroundPlane { is_pec: true, sigma: ZERO_BITS, eps_r: ONE_BITS, use_sommerfeld: false },
            ),
            final(self).nodes@ == old(self).nodes@,
            final(self).segments@ == old(self).segments@,
            final(self).dipoles@ == old(self).dipoles@,
    {
        self.ground_plane = Some(
            GroundPlane { is_pec: true, sigma: ZERO_BITS, eps_r: ONE_BITS, use_sommerfeld: false },
        );
    }

    /// Puts a homogeneous dielectric half-space below `z = 0`.
    pub fn set_real_ground(&mut self, sigma: u64, eps_r: u64, use_sommerfeld: bool)
        ensures
            final(self).ground_plane == Some(
                GroundPlane { is_pec: false, sigma, eps_r, use_sommerfeld },
            ),
            final(self).nodes@ == old(self).nodes@,
            final(self).segments@ == old(self).segments@,
            final(self).dipoles@ == old(self).dipoles@,
    {
        self.ground_plane = Some(GroundPlane { is_pec: false, sigma, eps_r, use_sommerfeld });
    }

    /// Rebuilds the dipole list from the topology: for every junction of `N`
    /// segments, the `N - 1` dipoles joining its first segment to each of the
    /// others; then, over a ground plane, one monopole for every segment with
    /// a grounded end node.
    pub fn build_dipoles(&mut self)
        requires
            old(self).ground_plane is Some ==> segment_nodes_valid(
                old(self).segments@,
                old(self).nodes@,
            ),
        ensures
            final(self).dipoles@ == mesh_dipoles(
                old(self).segments@,
                old(self).nodes@,
                old(self).ground_plane is Some,
            ),
            all_well_formed(final(self).segments@, final(self).nodes@, final(self).dipoles@),
            final(self).nodes@ == old(self).nodes@,
            final(self).segments@ == old(self).segments@,
            final(self).ground_plane == old(self).ground_plane,
    {
        let has_ground = self.ground_plane.is_some();
        let n = self.segments.len();
        proof {
            lemma_mesh_dipoles_well_formed(
                self.segments@,
                self.nodes@,
                self.ground_plane is Some,
            );
        }
        let ghost segs = self.segments@;
        let ghost nodes = self.nodes@;
        let mut dipoles: Vec<Dipole> = Vec::new();

        // Two-segment dipoles.
        let mut i: usize = 0;
        while i < n
            invariant
                n == self.segments.len(),
                segs == self.segments@,
                i <= n,
                dipoles@ == junction_dipoles(segs, i as int),
            decreases n - i,
        {
            let s1 = self.segments[i];
            let first_at_start = is_first_toucher(&self.segments, i, s1.start_idx);
            let first_at_end = is_first_toucher(&self.segments, i, s1.end_idx);
            let mut j: usize = i + 1;
            while j < n
                invariant
                    n == self.segments.len(),
                    segs == self.segments@,
                    i < j <= n,
                    s1 == segs[i as int],
                    first_at_start == first_toucher(segs, i as int, s1.start_idx),
                    first_at_end == first_toucher(segs, i as int, s1.end_idx),
                    dipoles@ == junction_dipoles(segs, i as int) + row_dipoles(
                        segs,
                        i as int,
                        j as int,
                    ),
                decreases n - j,
            {
                let s2 = self.segments[j];
                let offset = max_bits(s1.radius, s2.radius);
                let ghost before = dipoles@;
                if first_at_start && (s2.start_idx == s1.start_idx || s2.end_idx == s1.start_idx) {
                    dipoles.push(
                        Dipole {
                            seg1_idx: i,
                            seg2_idx: j,
                            junction_idx: s1.start_idx,
                            mbc_offset: offset,
                            is_monopole: false,
                        },
                    );
                }
                if s1.end_idx != s1.start_idx && first_at_end && (s2.start_idx == s1.end_idx
                    || s2.end_idx == s1.end_idx) {
                    dipoles.push(
                        Dipole {
                            seg1_idx: i,
                            seg2_idx: j,
                            junction_idx: s1.end_idx,
                            mbc_offset: offset,
                            is_monopole: false,
                        },
                    );
                }
                assert(dipoles@ =~= before + pair_dipoles(segs, i as int, j as int));
                assert(row_dipoles(segs, i as int, j + 1) == row_dipoles(segs, i as int, j as int)
                    + pair_dipoles(segs, i as int, j as int));
                assert(dipoles@ =~= junction_dipoles(segs, i as int) + row_dipoles(
                    segs,
                    i as int,
                    j + 1,
                ));
                j = j + 1;
            }
            assert(junction_dipoles(segs, i + 1) == junction_dipoles(segs, i as int) + row_dipoles(
                segs,
                i as int,
                n as int,
            ));
            i = i + 1;
        }

        // Monopoles at grounded end nodes.
        if has_ground {
            let ghost pairs = dipoles@;
            let mut k: usize = 0;
            while k < n
                invariant
                    n == self.segments.len(),
                    segs == self.segments@,
                    nodes == self.nodes@,
                    segment_nodes_valid(segs, nodes),
                    k <= n,
                    dipoles@ == pairs + monopole_dipoles(segs, nodes, k as int),
                decreases n - k,
            {
                let s = self.segments[k];
                assert(segs[k as int] == s);
                let ghost before = dipoles@;
                if abs_below(self.nodes[s.start_idx].z, GROUND_TOLERANCE_BITS) {
                    dipoles.push(
                        Dipole {
                            seg1_idx: k,
                            seg2_idx: k,
                            junction_idx: s.start_idx,
                            mbc_offset: s.radius,
                            is_monopole: true,
                        },
                    );
                } else if abs_below(self.nodes[s.end_idx].z, GROUND_TOLERANCE_BITS) {
                    dipoles.push(
                        Dipole {
                            seg1_idx: k,
                            seg2_idx: k,
                            junction_idx: s.end_idx,
                            mbc_offset: s.radius,
                            is_monopole: true,
                        },
                    );
                }
                assert(dipoles@ =~= before + monopole_at(segs, nodes, k as int));
                assert(monopole_dipoles(segs, nodes, k + 1) == monopole_dipoles(
                    segs,
                    nodes,
                    k as int,
                ) + monopole_at(segs, nodes, k as int));
                assert(dipoles@ =~= pairs + monopole_dipoles(segs, nodes, k + 1));
                k = k + 1;
            }
        } else {
            assert(dipoles@ =~= dipoles@ + Seq::<Dipole>::empty());
        }
        self.dipoles = dipoles;
    }
}


/// How many two-segment dipoles of `ds` have their junction at node `v`.
pub open spec fn junction_count(ds: Seq<Dipole>, v: usize) -> nat
    decreases ds.len(),
{
    if ds.len() == 0 {
        0
    } else {
        junction_count(ds.drop_last(), v) + if !ds.last().is_monopole && ds.last().junction_idx
            == v {
            1nat
        } else {
            0nat
        }
    }
}

/// How many of the segments `lo .. hi` touch node `v`.
pub open spec fn incidence(segs: Seq<Segment>, lo: int, hi: int, v: usize) -> nat
    decreases hi - lo,
{
    if hi <= lo {
        0
    } else {
        incidence(segs, lo, hi - 1, v) + if touches(segs[hi - 1], v) {
            1nat
        } else {
            0nat
        }
    }
}

/// The dipole is what the topology rules make of the mesh: a two-segment
/// dipole joins the first segment at its junction to a later one; a monopole
/// sits on a grounded end node of its single segment. The offset is the larger
/// radius, or the segment's own radius for a monopole.
pub open spec fn dipole_well_formed(segs: Seq<Segment>, nodes: Seq<Node>, d: Dipole) -> bool {
    if d.is_monopole {
        &&& d.seg1_idx == d.seg2_idx
        &&& d.seg1_idx < segs.len()
        &&& touches(segs[d.seg1_idx as int], d.junction_idx)
        &&& grounded(nodes, d.junction_idx)
        &&& d.mbc_offset == segs[d.seg1_idx as int].radius
    } else {
        &&& d.seg1_idx < d.seg2_idx < segs.len()
        &&& first_toucher(segs, d.seg1_idx as int, d.junction_idx)
        &&& touches(segs[d.seg2_idx as int], d.junction_idx)
        &&& d.mbc_offset == spec_max(
            segs[d.seg1_idx as int].radius,
            segs[d.seg2_idx as int].radius,
        )
    }
}

/// Every dipole of `ds` is well formed.
pub open spec fn all_well_formed(segs: Seq<Segment>, nodes: Seq<Node>, ds: Seq<Dipole>) -> bool {
    forall|k: int| 0 <= k < ds.len() ==> dipole_well_formed(segs, nodes, #[trigger] ds[k])
}

proof fn lemma_junction_count_add(a: Seq<Dipole>, b: Seq<Dipole>, v: usize)
    ensures
        junction_count(a + b, v) == junction_count(a, v) + junction_count(b, v),
    decreases b.len(),
{
    if b.len() == 0 {
        assert(a + b =~= a);
    } else {
        lemma_junction_count_add(a, b.drop_last(), v);
        assert((a + b).drop_last() =~= a + b.drop_last());
        assert((a + b).last() == b.last());
    }
}

proof fn lemma_junction_count_single(d: Dipole, v: usize)
    ensures
        junction_count(seq![d], v) == if !d.is_monopole && d.junction_idx == v {
            1nat
        } else {
            0nat
        },
{
    assert(seq![d].drop_last() =~= Seq::<Dipole>::empty());
    assert(junction_count(Seq::<Dipole>::empty(), v) == 0);
}

proof fn lemma_incidence_split(segs: Seq<Segment>, lo: int, mid: int, hi: int, v: usize)
    requires
        lo <= mid <= hi,
    ensures
        incidence(segs, lo, hi, v) == incidence(segs, lo, mid, v) + incidence(segs, mid, hi, v),
    decreases hi - mid,
{
    if hi > mid {
        lemma_incidence_split(segs, lo, mid, hi - 1, v);
    }
}

proof fn lemma_incidence_zero(segs: Seq<Segment>, lo: int, hi: int, v: usize)
    requires
        incidence(segs, lo, hi, v) == 0,
    ensures
        forall|k: int| lo <= k < hi ==> !touches(#[trigger] segs[k], v),
    decreases hi - lo,
{
    if hi > lo {
        lemma_incidence_zero(segs, lo, hi - 1, v);
    }
}

proof fn lemma_pair_count(segs: Seq<Segment>, i: int, j: int, v: usize)
    requires
        0 <= i < j < segs.len(),
    ensures
        junction_count(pair_dipoles(segs, i, j), v) == if first_toucher(segs, i, v) && touches(
            segs[j],
            v,
        ) {
            1nat
        } else {
            0nat
        },
{
    let s1 = segs[i];
    let s2 = segs[j];
    let at_start = if touches(s2, s1.start_idx) && first_toucher(segs, i, s1.start_idx) {
        seq![junction_dipole(segs, i, j, s1.start_idx)]
    } else {
        Seq::<Dipole>::empty()
    };
    let at_end = if s1.end_idx != s1.start_idx && touches(s2, s1.end_idx) && first_toucher(
        segs,
        i,
        s1.end_idx,
    ) {
        seq![junction_dipole(segs, i, j, s1.end_idx)]
    } else {
        Seq::<Dipole>::empty()
    };
    lemma_junction_count_add(at_start, at_end, v);
    assert(junction_count(Seq::<Dipole>::empty(), v) == 0);
    if at_start.len() == 1 {
        lemma_junction_count_single(junction_dipole(segs, i, j, s1.start_idx), v);
    }
    if at_end.len() == 1 {
        lemma_junction_count_single(junction_dipole(segs, i, j, s1.end_idx), v);
    }
}

proof fn lemma_row_count(segs: Seq<Segment>, i: int, j: int, v: usize)
    requires
        0 <= i < segs.len(),
        i < j <= segs.len(),
    ensures
        junction_count(row_dipoles(segs, i, j), v) == if first_toucher(segs, i, v) {
            incidence(segs, i + 1, j, v)
        } else {
            0nat
        },
    decreases j - i,
{
    if j > i + 1 {
        lemma_row_count(segs, i, j - 1, v);
        lemma_junction_count_add(row_dipoles(segs, i, j - 1), pair_dipoles(segs, i, j - 1), v);
        lemma_pair_count(segs, i, j - 1, v);
    }
}

proof fn lemma_monopoles_no_junction(segs: Seq<Segment>, nodes: Seq<Node>, i: int, v: usize)
    ensures
        junction_count(monopole_dipoles(segs, nodes, i), v) == 0,
    decreases i,
{
    if i > 0 {
        lemma_monopoles_no_junction(segs, nodes, i - 1, v);
        let m = monopole_at(segs, nodes, i - 1);
        lemma_junction_count_add(monopole_dipoles(segs, nodes, i - 1), m, v);
        assert(junction_count(Seq::<Dipole>::empty(), v) == 0);
        if m.len() == 1 {
            lemma_junction_count_single(m[0], v);
            assert(m =~= seq![m[0]]);
        }
    }
}

proof fn lemma_junction_dipoles_count(segs: Seq<Segment>, i: int, v: usize)
    requires
        0 <= i <= segs.len(),
    ensures
        junction_count(junction_dipoles(segs, i), v) == if incidence(segs, 0, i, v) > 0 {
            (incidence(segs, 0, segs.len() as int, v) - 1) as nat
        } else {
            0nat
        },
    decreases i,
{
    let n = segs.len() as int;
    if i > 0 {
        lemma_junction_dipoles_count(segs, i - 1, v);
        lemma_junction_count_add(junction_dipoles(segs, i - 1), row_dipoles(segs, i - 1, n), v);
        lemma_row_count(segs, i - 1, n, v);
        lemma_incidence_split(segs, 0, i - 1, n, v);
        lemma_incidence_split(segs, i - 1, i, n, v);
        assert(incidence(segs, i - 1, i, v) == if touches(segs[i - 1], v) {
            1nat
        } else {
            0nat
        }) by {
            assert(incidence(segs, i - 1, i - 1, v) == 0);
        }
        if incidence(segs, 0, i - 1, v) > 0 {
            if first_toucher(segs, i - 1, v) {
                assert(incidence(segs, 0, i - 1, v) == 0) by {
                    lemma_incidence_zero_converse(segs, 0, i - 1, v);
                }
            }
        } else {
            lemma_incidence_zero(segs, 0, i - 1, v);
        }
    }
}

proof fn lemma_incidence_zero_converse(segs: Seq<Segment>, lo: int, hi: int, v: usize)
    requires
        forall|k: int| lo <= k < hi ==> !touches(#[trigger] segs[k], v),
    ensures
        incidence(segs, lo, hi, v) == 0,
    decreases hi - lo,
{
    if hi > lo {
        lemma_incidence_zero_converse(segs, lo, hi - 1, v);
    }
}

/// A junction of `N >= 1` segments gets exactly `N - 1` two-segment dipoles,
/// and a node that no segment touches gets none.
pub proof fn lemma_dipoles_per_junction(
    segs: Seq<Segment>,
    nodes: Seq<Node>,
    has_ground: bool,
    v: usize,
)
    ensures
        junction_count(mesh_dipoles(segs, nodes, has_ground), v) == if incidence(
            segs,
            0,
            segs.len() as int,
            v,
        ) > 0 {
            (incidence(segs, 0, segs.len() as int, v) - 1) as nat
        } else {
            0nat
        },
{
    let n = segs.len() as int;
    let mono = if has_ground {
        monopole_dipoles(segs, nodes, n)
    } else {
        Seq::<Dipole>::empty()
    };
    lemma_junction_dipoles_count(segs, n, v);
    lemma_junction_count_add(junction_dipoles(segs, n), mono, v);
    lemma_monopoles_no_junction(segs, nodes, n, v);
}

proof fn lemma_all_well_formed_add(
    segs: Seq<Segment>,
    nodes: Seq<Node>,
    a: Seq<Dipole>,
    b: Seq<Dipole>,
)
    requires
        all_well_formed(segs, nodes, a),
        all_well_formed(segs, nodes, b),
    ensures
        all_well_formed(segs, nodes, a + b),
{
    assert forall|k: int| 0 <= k < (a + b).len() implies dipole_well_formed(
        segs,
        nodes,
        #[trigger] (a + b)[k],
    ) by {
        if k < a.len() {
            assert((a + b)[k] == a[k]);
        } else {
            assert((a + b)[k] == b[k - a.len()]);
        }
    }
}

proof fn lemma_junction_dipoles_well_formed(segs: Seq<Segment>, nodes: Seq<Node>, i: int)
    requires
        segs.len() <= usize::MAX,
        0 <= i <= segs.len(),
    ensures
        all_well_formed(segs, nodes, junction_dipoles(segs, i)),
    decreases i,
{
    if i > 0 {
        lemma_junction_dipoles_well_formed(segs, nodes, i - 1);
        lemma_row_well_formed(segs, nodes, i - 1, segs.len() as int);
        lemma_all_well_formed_add(
            segs,
            nodes,
            junction_dipoles(segs, i - 1),
            row_dipoles(segs, i - 1, segs.len() as int),
        );
    }
}

proof fn lemma_pair_well_formed(segs: Seq<Segment>, nodes: Seq<Node>, i: int, j: int)
    requires
        0 <= i < j < segs.len(),
        segs.len() <= usize::MAX,
    ensures
        all_well_formed(segs, nodes, pair_dipoles(segs, i, j)),
{
    let s1 = segs[i];
    let s2 = segs[j];
    let a = junction_dipole(segs, i, j, s1.start_idx);
    let b = junction_dipole(segs, i, j, s1.end_idx);
    assert(a.seg1_idx as int == i && a.seg2_idx as int == j);
    assert(b.seg1_idx as int == i && b.seg2_idx as int == j);
    let at_start = if touches(s2, s1.start_idx) && first_toucher(segs, i, s1.start_idx) {
        seq![a]
    } else {
        Seq::<Dipole>::empty()
    };
    let at_end = if s1.end_idx != s1.start_idx && touches(s2, s1.end_idx) && first_toucher(
        segs,
        i,
        s1.end_idx,
    ) {
        seq![b]
    } else {
        Seq::<Dipole>::empty()
    };
    assert(all_well_formed(segs, nodes, at_start));
    assert(all_well_formed(segs, nodes, at_end));
    lemma_all_well_formed_add(segs, nodes, at_start, at_end);
}

proof fn lemma_row_well_formed(segs: Seq<Segment>, nodes: Seq<Node>, i: int, j: int)
    requires
        segs.len() <= usize::MAX,
        0 <= i < segs.len(),
        i < j <= segs.len(),
    ensures
        all_well_formed(segs, nodes, row_dipoles(segs, i, j)),
    decreases j - i,
{
    if j > i + 1 {
        lemma_row_well_formed(segs, nodes, i, j - 1);
        let p = pair_dipoles(segs, i, j - 1);
        lemma_pair_well_formed(segs, nodes, i, j - 1);
        lemma_all_well_formed_add(segs, nodes, row_dipoles(segs, i, j - 1), p);
    }
}

proof fn lemma_monopoles_well_formed(segs: Seq<Segment>, nodes: Seq<Node>, i: int)
    requires
        segs.len() <= usize::MAX,
        0 <= i <= segs.len(),
    ensures
        all_well_formed(segs, nodes, monopole_dipoles(segs, nodes, i)),
    decreases i,
{
    if i > 0 {
        lemma_monopoles_well_formed(segs, nodes, i - 1);
        let m = monopole_at(segs, nodes, i - 1);
        assert forall|k: int| 0 <= k < m.len() implies dipole_well_formed(
            segs,
            nodes,
            #[trigger] m[k],
        ) by {
            assert(m[k].seg1_idx as int == i - 1);
        }
        lemma_all_well_formed_add(segs, nodes, monopole_dipoles(segs, nodes, i - 1), m);
    }
}

/// A well-formed dipole refers only to segments of the mesh.
pub proof fn lemma_well_formed_refs_valid(segs: Seq<Segment>, nodes: Seq<Node>, ds: Seq<Dipole>)
    requires
        all_well_formed(segs, nodes, ds),
    ensures
        dipoles_refs_valid(segs, ds),
{
    assert forall|k: int| 0 <= k < ds.len() implies dipole_refs_valid(segs, #[trigger] ds[k]) by {
        assert(dipole_well_formed(segs, nodes, ds[k]));
    }
}

/// Every dipole that the topology rules produce is well formed: it refers to
/// segments of the mesh that really meet at its junction (or, for a monopole,
/// whose junction is on the ground plane), and carries the larger radius as
/// its offset.
pub proof fn lemma_mesh_dipoles_well_formed(segs: Seq<Segment>, nodes: Seq<Node>, has_ground: bool)
    requires
        segs.len() <= usize::MAX,
    ensures
        all_well_formed(segs, nodes, mesh_dipoles(segs, nodes, has_ground)),
{
    let n = segs.len() as int;
    lemma_junction_dipoles_well_formed(segs, nodes, n);
    lemma_monopoles_well_formed(segs, nodes, n);
    assert(all_well_formed(segs, nodes, Seq::<Dipole>::empty()));
    let mono = if has_ground {
        monopole_dipoles(segs, nodes, n)
    } else {
        Seq::<Dipole>::empty()
    };
    lemma_all_well_formed_add(segs, nodes, junction_dipoles(segs, n), mono);
}

proof fn lemma_contains_left(a: Seq<Dipole>, b: Seq<Dipole>, d: Dipole)
    requires
        a.contains(d),
    ensures
        (a + b).contains(d),
{
    let k = choose|k: int| 0 <= k < a.len() && a[k] == d;
    assert((a + b)[k] == d);
}

proof fn lemma_contains_right(a: Seq<Dipole>, b: Seq<Dipole>, d: Dipole)
    requires
        b.contains(d),
    ensures
        (a + b).contains(d),
{
    let k = choose|k: int| 0 <= k < b.len() && b[k] == d;
    assert((a + b)[a.len() + k] == d);
}

proof fn lemma_row_contains(segs: Seq<Segment>, f: int, j: int, jj: int, v: usize)
    requires
        first_toucher(segs, f, v),
        f < j < jj <= segs.len(),
        touches(segs[j], v),
    ensures
        row_dipoles(segs, f, jj).contains(junction_dipole(segs, f, j, v)),
    decreases jj - j,
{
    let d = junction_dipole(segs, f, j, v);
    if jj == j + 1 {
        let s1 = segs[f];
        let at_start = if touches(segs[j], s1.start_idx) && first_toucher(segs, f, s1.start_idx) {
            seq![junction_dipole(segs, f, j, s1.start_idx)]
        } else {
            Seq::<Dipole>::empty()
        };
        let at_end = if s1.end_idx != s1.start_idx && touches(segs[j], s1.end_idx)
            && first_toucher(segs, f, s1.end_idx) {
            seq![junction_dipole(segs, f, j, s1.end_idx)]
        } else {
            Seq::<Dipole>::empty()
        };
        if s1.start_idx == v {
            assert(at_start[0] == d);
            lemma_contains_left(at_start, at_end, d);
        } else {
            assert(at_end[0] == d);
            lemma_contains_right(at_start, at_end, d);
        }
        lemma_contains_right(row_dipoles(segs, f, j), pair_dipoles(segs, f, j), d);
    } else {
        lemma_row_contains(segs, f, j, jj - 1, v);
        lemma_contains_left(row_dipoles(segs, f, jj - 1), pair_dipoles(segs, f, jj - 1), d);
    }
}

proof fn lemma_junction_dipoles_contains(segs: Seq<Segment>, f: int, j: int, i: int, v: usize)
    requires
        first_toucher(segs, f, v),
        f < j < segs.len(),
        f < i <= segs.len(),
        touches(segs[j], v),
    ensures
        junction_dipoles(segs, i).contains(junction_dipole(segs, f, j, v)),
    decreases i,
{
    let d = junction_dipole(segs, f, j, v);
    let n = segs.len() as int;
    if i == f + 1 {
        lemma_row_contains(segs, f, j, n, v);
        lemma_contains_right(junction_dipoles(segs, f), row_dipoles(segs, f, n), d);
    } else {
        lemma_junction_dipoles_contains(segs, f, j, i - 1, v);
        lemma_contains_left(junction_dipoles(segs, i - 1), row_dipoles(segs, i - 1, n), d);
    }
}

/// Each segment that meets a junction after its first segment is joined to
/// that first segment by a dipole at the junction.
pub proof fn lemma_junction_segments_joined(
    segs: Seq<Segment>,
    nodes: Seq<Node>,
    has_ground: bool,
    f: int,
    j: int,
    v: usize,
)
    requires
        first_toucher(segs, f, v),
        f < j < segs.len(),
        touches(segs[j], v),
    ensures
        mesh_dipoles(segs, nodes, has_ground).contains(junction_dipole(segs, f, j, v)),
{
    let n = segs.len() as int;
    lemma_junction_dipoles_contains(segs, f, j, n, v);
    let mono = if has_ground {
        monopole_dipoles(segs, nodes, n)
    } else {
        Seq::<Dipole>::empty()
    };
    lemma_contains_left(junction_dipoles(segs, n), mono, junction_dipole(segs, f, j, v));
}

proof fn lemma_monopoles_contain(segs: Seq<Segment>, nodes: Seq<Node>, k: int, i: int)
    requires
        0 <= k < i <= segs.len(),
        monopole_at(segs, nodes, k).len() == 1,
    ensures
        monopole_dipoles(segs, nodes, i).contains(monopole_at(segs, nodes, k)[0]),
    decreases i,
{
    let d = monopole_at(segs, nodes, k)[0];
    if i == k + 1 {
        lemma_contains_right(monopole_dipoles(segs, nodes, k), monopole_at(segs, nodes, k), d);
    } else {
        lemma_monopoles_contain(segs, nodes, k, i - 1);
        lemma_contains_left(monopole_dipoles(segs, nodes, i - 1), monopole_at(segs, nodes, i - 1), d);
    }
}

/// Over a ground plane, every segment with an end node on the ground gets a
/// monopole there (at its start node when both ends are grounded).
pub proof fn lemma_grounded_segments_get_monopoles(segs: Seq<Segment>, nodes: Seq<Node>, k: int)
    requires
        0 <= k < segs.len(),
        segs.len() <= usize::MAX,
        grounded(nodes, segs[k].start_idx) || grounded(nodes, segs[k].end_idx),
    ensures
        mesh_dipoles(segs, nodes, true).contains(
            Dipole {
                seg1_idx: k as usize,
                seg2_idx: k as usize,
                junction_idx: if grounded(nodes, segs[k].start_idx) {
                    segs[k].start_idx
                } else {
                    segs[k].end_idx
                },
                mbc_offset: segs[k].radius,
                is_monopole: true,
            },
        ),
{
    let n = segs.len() as int;
    lemma_monopoles_contain(segs, nodes, k, n);
    lemma_contains_right(
        junction_dipoles(segs, n),
        monopole_dipoles(segs, nodes, n),
        monopole_at(segs, nodes, k)[0],
    );
}

/// A mesh's segments are valid exactly when both end nodes of each segment are
/// nodes of the mesh, whichever way the segment runs: reversing a segment
/// never changes validity.
pub proof fn lemma_segment_nodes_valid(segs: Seq<Segment>, nodes: Seq<Node>, k: int)
    requires
        0 <= k < segs.len(),
    ensures
        segment_nodes_valid(segs, nodes) <==> forall|m: int|
            0 <= m < segs.len() ==> (#[trigger] segs[m]).start_idx < nodes.len()
                && segs[m].end_idx < nodes.len(),
        segment_nodes_valid(segs, nodes) <==> segment_nodes_valid(
            segs.update(
                k,
                Segment { start_idx: segs[k].end_idx, end_idx: segs[k].start_idx, radius: segs[k].radius },
            ),
            nodes,
        ),
{
    let rev = segs.update(
        k,
        Segment { start_idx: segs[k].end_idx, end_idx: segs[k].start_idx, radius: segs[k].radius },
    );
    if segment_nodes_valid(segs, nodes) {
        assert forall|m: int| 0 <= m < rev.len() implies (#[trigger] rev[m]).start_idx < nodes.len()
            && rev[m].end_idx < nodes.len() by {
            assert(segs[m].start_idx < nodes.len());
        }
    }
    if segment_nodes_valid(rev, nodes) {
        assert forall|m: int| 0 <= m < segs.len() implies (#[trigger] segs[m]).start_idx < nodes.len()
            && segs[m].end_idx < nodes.len() by {
            assert(rev[m].start_idx < nodes.len());
        }
    }
}

/// How many monopoles of `ds` stand on segment `k`.
pub open spec fn monopole_count(ds: Seq<Dipole>, k: usize) -> nat
    decreases ds.len(),
{
    if ds.len() == 0 {
        0
    } else {
        monopole_count(ds.drop_last(), k) + if ds.last().is_monopole && ds.last().seg1_idx == k {
            1nat
        } else {
            0nat
        }
    }
}

proof fn lemma_monopole_count_add(a: Seq<Dipole>, b: Seq<Dipole>, k: usize)
    ensures
        monopole_count(a + b, k) == monopole_count(a, k) + monopole_count(b, k),
    decreases b.len(),
{
    if b.len() == 0 {
        assert(a + b =~= a);
    } else {
        lemma_monopole_count_add(a, b.drop_last(), k);
        assert((a + b).drop_last() =~= a + b.drop_last());
        assert((a + b).last() == b.last());
    }
}

proof fn lemma_monopole_count_single(d: Dipole, k: usize)
    ensures
        monopole_count(seq![d], k) == if d.is_monopole && d.seg1_idx == k {
            1nat
        } else {
            0nat
        },
{
    assert(seq![d].drop_last() =~= Seq::<Dipole>::empty());
    assert(monopole_count(Seq::<Dipole>::empty(), k) == 0);
}

proof fn lemma_pair_no_monopole(segs: Seq<Segment>, i: int, j: int, k: usize)
    ensures
        monopole_count(pair_dipoles(segs, i, j), k) == 0,
{
    let s1 = segs[i];
    let s2 = segs[j];
    let at_start = if touches(s2, s1.start_idx) && first_toucher(segs, i, s1.start_idx) {
        seq![junction_dipole(segs, i, j, s1.start_idx)]
    } else {
        Seq::<Dipole>::empty()
    };
    let at_end = if s1.end_idx != s1.start_idx && touches(s2, s1.end_idx) && first_toucher(
        segs,
        i,
        s1.end_idx,
    ) {
        seq![junction_dipole(segs, i, j, s1.end_idx)]
    } else {
        Seq::<Dipole>::empty()
    };
    lemma_monopole_count_add(at_start, at_end, k);
    assert(monopole_count(Seq::<Dipole>::empty(), k) == 0);
    lemma_monopole_count_single(junction_dipole(segs, i, j, s1.start_idx), k);
    lemma_monopole_count_single(junction_dipole(segs, i, j, s1.end_idx), k);
}

proof fn lemma_row_no_monopole(segs: Seq<Segment>, i: int, j: int, k: usize)
    ensures
        monopole_count(row_dipoles(segs, i, j), k) == 0,
    decreases j - i,
{
    if j > i + 1 {
        lemma_row_no_monopole(segs, i, j - 1, k);
        lemma_pair_no_monopole(segs, i, j - 1, k);
        lemma_monopole_count_add(row_dipoles(segs, i, j - 1), pair_dipoles(segs, i, j - 1), k);
    }
}

proof fn lemma_junctions_no_monopole(segs: Seq<Segment>, i: int, k: usize)
    ensures
        monopole_count(junction_dipoles(segs, i), k) == 0,
    decreases i,
{
    if i > 0 {
        lemma_junctions_no_monopole(segs, i - 1, k);
        lemma_row_no_monopole(segs, i - 1, segs.len() as int, k);
        lemma_monopole_count_add(
            junction_dipoles(segs, i - 1),
            row_dipoles(segs, i - 1, segs.len() as int),
            k,
        );
    }
}

proof fn lemma_monopoles_count(segs: Seq<Segment>, nodes: Seq<Node>, i: int, k: usize)
    requires
        0 <= i <= segs.len(),
        segs.len() <= usize::MAX,
    ensures
        monopole_count(monopole_dipoles(segs, nodes, i), k) == if k < i && (grounded(
            nodes,
            segs[k as int].start_idx,
        ) || grounded(nodes, segs[k as int].end_idx)) {
            1nat
        } else {
            0nat
        },
    decreases i,
{
    if i > 0 {
        lemma_monopoles_count(segs, nodes, i - 1, k);
        let m = monopole_at(segs, nodes, i - 1);
        lemma_monopole_count_add(monopole_dipoles(segs, nodes, i - 1), m, k);
        assert(monopole_count(Seq::<Dipole>::empty(), k) == 0);
        if m.len() == 1 {
            lemma_monopole_count_single(m[0], k);
            assert(m =~= seq![m[0]]);
            assert(m[0].seg1_idx as int == i - 1);
        }
    }
}

/// Over a ground plane each segment carries exactly one monopole when one of
/// its end nodes is grounded and none otherwise; in free space there are no
/// monopoles at all.
pub proof fn lemma_monopoles_per_segment(
    segs: Seq<Segment>,
    nodes: Seq<Node>,
    has_ground: bool,
    k: usize,
)
    requires
        segs.len() <= usize::MAX,
    ensures
        monopole_count(mesh_dipoles(segs, nodes, has_ground), k) == if has_ground && k < segs.len()
            && (grounded(nodes, segs[k as int].start_idx) || grounded(
            nodes,
            segs[k as int].end_idx,
        )) {
            1nat
        } else {
            0nat
        },
{
    let n = segs.len() as int;
    lemma_junctions_no_monopole(segs, n, k);
    lemma_monopoles_count(segs, nodes, n, k);
    assert(monopole_count(Seq::<Dipole>::empty(), k) == 0);
    let mono = if has_ground {
        monopole_dipoles(segs, nodes, n)
    } else {
        Seq::<Dipole>::empty()
    };
    lemma_monopole_count_add(junction_dipoles(segs, n), mono, k);
}

} // verus!
