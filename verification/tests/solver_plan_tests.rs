use mbc_mom::geometry::{Dipole, Mesh, Node, Segment};
use mbc_mom::ground::{far_field_ground_model, near_field_ground_model, GroundModel};
use mbc_mom::lookup::interpolation_cell;
use mbc_mom::matrix::{mirror_upper_to_lower, row_major_position, upper_entry};
use mbc_mom::radiators::{
    dipole_pieces, get_subsegments, incident_point_count, incident_sample_index,
    mutual_quadrature_steps, z_image_gamma, SubSegment,
};

fn two_segment_mesh() -> Mesh {
    let mut mesh = Mesh::new();
    mesh.add_node(Node::new(0, 0, 1.0f64.to_bits()));
    mesh.add_node(Node::new(0, 0, 1.1f64.to_bits()));
    mesh.add_node(Node::new(0, 0, 1.2f64.to_bits()));
    // The second segment runs towards the junction.
    mesh.add_segment(Segment::new(0, 1, 1));
    mesh.add_segment(Segment::new(2, 1, 1));
    mesh
}

#[test]
fn pieces_of_two_segment_dipole() {
    let mesh = two_segment_mesh();
    let d = Dipole::new(0, 1, 1, 1, false);
    let p = dipole_pieces(&d, &mesh, false);
    assert_eq!(
        p,
        vec![
            SubSegment { seg_idx: 0, positive: true, junc_is_p2: true, is_image: false },
            SubSegment { seg_idx: 1, positive: false, junc_is_p2: true, is_image: false },
        ]
    );
    let q = dipole_pieces(&d, &mesh, true);
    assert_eq!(q.len(), 4);
    assert_eq!(q[0], p[0]);
    assert_eq!(q[1], SubSegment { is_image: true, ..p[0] });
    assert_eq!(q[2], p[1]);
    assert_eq!(q[3], SubSegment { is_image: true, ..p[1] });
}

#[test]
fn pieces_of_monopole() {
    let mesh = two_segment_mesh();
    let d = Dipole::new(0, 0, 0, 1, true);
    let p = dipole_pieces(&d, &mesh, true);
    assert_eq!(
        p,
        vec![
            SubSegment { seg_idx: 0, positive: false, junc_is_p2: false, is_image: false },
            SubSegment { seg_idx: 0, positive: false, junc_is_p2: false, is_image: true },
        ]
    );
}

#[test]
fn impedance_images_only_for_sources_over_ground() {
    let mut mesh = two_segment_mesh();
    let d = Dipole::new(0, 1, 1, 1, false);
    assert_eq!(z_image_gamma(&mesh), 0);
    assert_eq!(get_subsegments(&d, &mesh, true, z_image_gamma(&mesh)).len(), 2);
    mesh.set_real_ground(0, 0, false);
    assert_eq!(z_image_gamma(&mesh), -1);
    assert_eq!(get_subsegments(&d, &mesh, true, -1).len(), 4);
    assert_eq!(get_subsegments(&d, &mesh, false, -1).len(), 2);
}

#[test]
fn ground_models() {
    let mut mesh = Mesh::new();
    assert_eq!(near_field_ground_model(&mesh), GroundModel::FreeSpace);
    assert_eq!(far_field_ground_model(&mesh), GroundModel::FreeSpace);
    mesh.set_pec_ground();
    assert_eq!(near_field_ground_model(&mesh), GroundModel::Pec);
    assert_eq!(far_field_ground_model(&mesh), GroundModel::Pec);
    mesh.set_real_ground(0, 0, false);
    assert_eq!(near_field_ground_model(&mesh), GroundModel::Fresnel);
    assert_eq!(far_field_ground_model(&mesh), GroundModel::Fresnel);
    mesh.set_real_ground(0, 0, true);
    assert_eq!(near_field_ground_model(&mesh), GroundModel::Sommerfeld);
    assert_eq!(far_field_ground_model(&mesh), GroundModel::Fresnel);
}

#[test]
fn quadrature_steps_are_clamped() {
    assert_eq!(mutual_quadrature_steps(0), 10);
    assert_eq!(mutual_quadrature_steps(9), 10);
    assert_eq!(mutual_quadrature_steps(10), 10);
    assert_eq!(mutual_quadrature_steps(640), 640);
    assert_eq!(mutual_quadrature_steps(2000), 2000);
    assert_eq!(mutual_quadrature_steps(2001), 2000);
}

#[test]
fn incident_layout() {
    let mesh = two_segment_mesh();
    assert_eq!(incident_point_count(&mesh, 7), Some(14));
    assert_eq!(incident_point_count(&mesh, usize::MAX), None);
    assert_eq!(incident_sample_index(0, 7, 0), 0);
    assert_eq!(incident_sample_index(1, 7, 3), 10);
}

#[test]
fn positions_and_upper_entries() {
    assert_eq!(row_major_position(0, 3), (0, 0));
    assert_eq!(row_major_position(5, 3), (1, 2));
    assert_eq!(row_major_position(7, 3), (2, 1));
    assert_eq!(upper_entry(5, 3), Some((1, 2)));
    assert_eq!(upper_entry(4, 3), Some((1, 1)));
    assert_eq!(upper_entry(7, 3), None);
}

#[test]
fn mirror_makes_symmetric() {
    let mut z: Vec<i32> = (0..16).collect();
    mirror_upper_to_lower(&mut z, 4);
    for r in 0..4 {
        for c in 0..4 {
            assert_eq!(z[r * 4 + c], z[c * 4 + r]);
            if c >= r {
                assert_eq!(z[r * 4 + c], (r * 4 + c) as i32);
            }
        }
    }
    assert_eq!(z, vec![0, 1, 2, 3, 1, 5, 6, 7, 2, 6, 10, 11, 3, 7, 11, 15]);
}

#[test]
fn mirror_of_empty_matrix() {
    let mut z: Vec<u8> = Vec::new();
    mirror_upper_to_lower(&mut z, 0);
    assert!(z.is_empty());
}

#[test]
fn interpolation_cell_stays_on_grid() {
    let c = interpolation_cell(3, 4, 100, 100);
    assert_eq!((c.r0, c.z0), (3, 4));
    assert_eq!((c.v00, c.v10, c.v01, c.v11), (304, 404, 305, 405));
    let e = interpolation_cell(99, 500, 100, 100);
    assert_eq!((e.r0, e.z0), (98, 98));
    assert_eq!(e.v11, 9999);
    let s = interpolation_cell(7, 7, 2, 3);
    assert_eq!((s.r0, s.z0), (0, 1));
    assert_eq!((s.v00, s.v10, s.v01, s.v11), (1, 4, 2, 5));
}
