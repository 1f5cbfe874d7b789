use mbc_mom::geometry::{Dipole, GroundPlane, Mesh, Node, Segment, ONE_BITS, ZERO_BITS};

fn node(x: f64, y: f64, z: f64) -> Node {
    Node::new(x.to_bits(), y.to_bits(), z.to_bits())
}

fn seg(a: usize, b: usize, radius: f64) -> Segment {
    Segment::new(a, b, radius.to_bits())
}

/// A straight wire along z from `z0` in `n` segments.
fn straight_wire(mesh: &mut Mesh, z0: f64, n: usize, len: f64, radius: f64) {
    let first = mesh.add_node(node(0.0, 0.0, z0));
    for k in 1..=n {
        let idx = mesh.add_node(node(0.0, 0.0, z0 + len * k as f64));
        mesh.add_segment(seg(first + k - 1, idx, radius));
    }
}

#[test]
fn add_node_and_segment_return_indices() {
    let mut mesh = Mesh::new();
    assert_eq!(mesh.add_node(node(0.0, 0.0, 0.0)), 0);
    assert_eq!(mesh.add_node(node(0.0, 0.0, 1.0)), 1);
    assert_eq!(mesh.add_node(node(0.0, 0.0, 2.0)), 2);
    assert_eq!(mesh.add_segment(seg(0, 1, 0.001)), 0);
    assert_eq!(mesh.add_segment(seg(1, 2, 0.001)), 1);
    assert_eq!(mesh.nodes.len(), 3);
    assert_eq!(mesh.segments.len(), 2);
    assert!(mesh.ground_plane.is_none());
}

#[test]
fn straight_wire_has_one_dipole_per_inner_node() {
    let mut mesh = Mesh::new();
    straight_wire(&mut mesh, 1.0, 4, 0.1, 0.001);
    mesh.build_dipoles();
    assert_eq!(mesh.dipoles.len(), 3);
    for k in 0..3 {
        assert_eq!(
            mesh.dipoles[k],
            Dipole::new(k, k + 1, k + 1, 0.001f64.to_bits(), false)
        );
    }
}

#[test]
fn dipole_offset_is_larger_radius() {
    let mut mesh = Mesh::new();
    mesh.add_node(node(0.0, 0.0, 1.0));
    mesh.add_node(node(0.0, 0.0, 1.1));
    mesh.add_node(node(0.0, 0.0, 1.2));
    mesh.add_segment(seg(0, 1, 0.002));
    mesh.add_segment(seg(1, 2, 0.0005));
    mesh.build_dipoles();
    assert_eq!(mesh.dipoles.len(), 1);
    assert_eq!(f64::from_bits(mesh.dipoles[0].mbc_offset), 0.002);
}

#[test]
fn three_way_junction_has_two_dipoles() {
    // A "T": segments 0, 1, 2 all meet at node 0.
    let mut mesh = Mesh::new();
    mesh.add_node(node(0.0, 0.0, 1.0));
    mesh.add_node(node(0.1, 0.0, 1.0));
    mesh.add_node(node(-0.1, 0.0, 1.0));
    mesh.add_node(node(0.0, 0.0, 1.1));
    mesh.add_segment(seg(1, 0, 0.001));
    mesh.add_segment(seg(0, 2, 0.001));
    mesh.add_segment(seg(0, 3, 0.003));
    mesh.build_dipoles();
    assert_eq!(mesh.dipoles.len(), 2);
    assert_eq!(mesh.dipoles[0], Dipole::new(0, 1, 0, 0.001f64.to_bits(), false));
    assert_eq!(mesh.dipoles[1], Dipole::new(0, 2, 0, 0.003f64.to_bits(), false));
}

#[test]
fn four_way_junction_has_three_dipoles() {
    let mut mesh = Mesh::new();
    for k in 0..5 {
        mesh.add_node(node(k as f64, 0.0, 1.0));
    }
    for k in 1..5 {
        mesh.add_segment(seg(0, k, 0.001));
    }
    mesh.build_dipoles();
    assert_eq!(mesh.dipoles.len(), 3);
    for k in 0..3 {
        assert_eq!(mesh.dipoles[k].seg1_idx, 0);
        assert_eq!(mesh.dipoles[k].seg2_idx, k + 1);
        assert_eq!(mesh.dipoles[k].junction_idx, 0);
    }
}

#[test]
fn closed_loop_has_dipole_at_every_node() {
    // Two segments between the same two nodes meet at both of them.
    let mut mesh = Mesh::new();
    mesh.add_node(node(0.0, 0.0, 1.0));
    mesh.add_node(node(0.1, 0.0, 1.0));
    mesh.add_segment(seg(0, 1, 0.001));
    mesh.add_segment(seg(1, 0, 0.001));
    mesh.build_dipoles();
    assert_eq!(mesh.dipoles.len(), 2);
    assert_eq!(mesh.dipoles[0].junction_idx, 0);
    assert_eq!(mesh.dipoles[1].junction_idx, 1);
}

#[test]
fn disjoint_segments_have_no_dipole() {
    let mut mesh = Mesh::new();
    for k in 0..4 {
        mesh.add_node(node(k as f64, 0.0, 1.0));
    }
    mesh.add_segment(seg(0, 1, 0.001));
    mesh.add_segment(seg(2, 3, 0.001));
    mesh.build_dipoles();
    assert!(mesh.dipoles.is_empty());
}

#[test]
fn grounded_segment_gets_monopole() {
    let mut mesh = Mesh::new();
    straight_wire(&mut mesh, 0.0, 2, 0.1, 0.002);
    mesh.set_pec_ground();
    mesh.build_dipoles();
    assert_eq!(mesh.dipoles.len(), 2);
    assert_eq!(mesh.dipoles[0], Dipole::new(0, 1, 1, 0.002f64.to_bits(), false));
    assert_eq!(mesh.dipoles[1], Dipole::new(0, 0, 0, 0.002f64.to_bits(), true));
}

#[test]
fn monopole_at_end_node_and_tolerance() {
    let mut mesh = Mesh::new();
    mesh.add_node(node(0.0, 0.0, 0.5));
    mesh.add_node(node(0.0, 0.0, -1e-13));
    mesh.add_node(node(1.0, 0.0, 0.5));
    mesh.add_node(node(1.0, 0.0, 2e-12));
    mesh.add_segment(seg(0, 1, 0.001));
    mesh.add_segment(seg(2, 3, 0.001));
    mesh.set_real_ground(0.005f64.to_bits(), 13.0f64.to_bits(), false);
    mesh.build_dipoles();
    // Only the first segment touches the ground, at its end node.
    assert_eq!(mesh.dipoles.len(), 1);
    assert_eq!(mesh.dipoles[0], Dipole::new(0, 0, 1, 0.001f64.to_bits(), true));
}

#[test]
fn free_space_has_no_monopole() {
    let mut mesh = Mesh::new();
    straight_wire(&mut mesh, 0.0, 2, 0.1, 0.002);
    mesh.build_dipoles();
    assert_eq!(mesh.dipoles.len(), 1);
    assert!(!mesh.dipoles[0].is_monopole);
}

#[test]
fn build_dipoles_replaces_old_list() {
    let mut mesh = Mesh::new();
    straight_wire(&mut mesh, 1.0, 3, 0.1, 0.001);
    mesh.dipoles.push(Dipole::new(7, 8, 9, 0, false));
    mesh.build_dipoles();
    assert_eq!(mesh.dipoles.len(), 2);
    mesh.build_dipoles();
    assert_eq!(mesh.dipoles.len(), 2);
}

#[test]
fn ground_setters() {
    let mut mesh = Mesh::new();
    mesh.set_pec_ground();
    assert_eq!(
        mesh.ground_plane,
        Some(GroundPlane { is_pec: true, sigma: ZERO_BITS, eps_r: ONE_BITS, use_sommerfeld: false })
    );
    assert_eq!(f64::from_bits(ONE_BITS), 1.0);
    assert_eq!(f64::from_bits(ZERO_BITS), 0.0);
    mesh.set_real_ground(0.01f64.to_bits(), 15.0f64.to_bits(), true);
    let g = mesh.ground_plane.unwrap();
    assert!(!g.is_pec);
    assert!(g.use_sommerfeld);
    assert_eq!(f64::from_bits(g.sigma), 0.01);
    assert_eq!(f64::from_bits(g.eps_r), 15.0);
}

#[test]
fn reference_checks() {
    let mut mesh = Mesh::new();
    straight_wire(&mut mesh, 1.0, 2, 0.1, 0.001);
    assert!(mesh.segments_reference_nodes());
    mesh.build_dipoles();
    assert!(mesh.dipoles_reference_segments());
    mesh.add_segment(seg(0, 9, 0.001));
    assert!(!mesh.segments_reference_nodes());
    mesh.dipoles.push(Dipole::new(0, 5, 1, 0, false));
    assert!(!mesh.dipoles_reference_segments());
    mesh.dipoles.pop();
    mesh.dipoles.push(Dipole::new(1, 5, 1, 0, true));
    assert!(mesh.dipoles_reference_segments());
}
