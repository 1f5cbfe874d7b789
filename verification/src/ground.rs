//! Which ground model each field computation applies to image sources.
use vstd::prelude::*;
use crate::geometry::{GroundPlane, Mesh};

verus! {

/// How image sources below `z = 0` are weighted.
#[derive(Clone, Copy, Debug, PartialEq, Eq, Structural)]
pub enum GroundModel {
    /// No ground plane: there are no images.
    FreeSpace,
    /// Perfectly conducting ground: images with fixed weights.
    Pec,
    /// Dielectric ground by the reflection coefficient approximation.
    Fresnel,
    /// Dielectric ground by the tabulated Sommerfeld integrals.
    Sommerfeld,
}

/// The ground model of the near-field computation: the Sommerfeld table is
/// used only for a dielectric ground that asks for it.
pub open spec fn spec_near_field_model(g: Option<GroundPlane>) -> GroundModel {
    match g {
        None => GroundModel::FreeSpace,
        Some(p) => if p.is_pec {
            GroundModel::Pec
        } else if p.use_sommerfeld {
            GroundModel::Sommerfeld
        } else {
            GroundModel::Fresnel
        },
    }
}

/// The ground model of the far-field pattern: a dielectric ground always by
/// the Fresnel coefficients.
pub open spec fn spec_far_field_model(g: Option<GroundPlane>) -> GroundModel {
    match g {
        None => GroundModel::FreeSpace,
        Some(p) => if p.is_pec {
            GroundModel::Pec
        } else {
            GroundModel::Fresnel
        },
    }
}

/// The ground model that the near-field computation uses for this mesh.
pub fn near_field_ground_model(mesh: &Mesh) -> (r: GroundModel)
    ensures
        r == spec_near_field_model(mesh.ground_plane),
        mesh.ground_plane is None <==> r == GroundModel::FreeSpace,
        (mesh.ground_plane matches Some(g) && g.is_pec) <==> r == GroundModel::Pec,
        (mesh.ground_plane matches Some(g) && !g.is_pec && g.use_sommerfeld) <==> r
            == GroundModel::Sommerfeld,
        (mesh.ground_plane matches Some(g) && !g.is_pec && !g.use_sommerfeld) <==> r
            == GroundModel::Fresnel,
{
    match &mesh.ground_plane {
        None => GroundModel::FreeSpace,
        Some(p) => if p.is_pec {
            GroundModel::Pec
        } else if p.use_sommerfeld {
            GroundModel::Sommerfeld
        } else {
            GroundModel::Fresnel
        },
    }
}

/// The ground model that the far-field pattern uses for this mesh.
pub fn far_field_ground_model(mesh: &Mesh) -> (r: GroundModel)
    ensures
        r == spec_far_field_model(mesh.ground_plane),
        mesh.ground_plane is None <==> r == GroundModel::FreeSpace,
        (mesh.ground_plane matches Some(g) && g.is_pec) <==> r == GroundModel::Pec,
        (mesh.ground_plane matches Some(g) && !g.is_pec) <==> r == GroundModel::Fresnel,
        r != GroundModel::Sommerfeld,
{
    match &mesh.ground_plane {
        None => GroundModel::FreeSpace,
        Some(p) => if p.is_pec {
            GroundModel::Pec
        } else {
            GroundModel::Fresnel
        },
    }
}

/// The far-field pattern uses the same ground model as the near field, except
/// that it never uses the Sommerfeld table: a dielectric ground is always
/// handled by the Fresnel coefficients there. Images exist in both exactly
/// when there is a ground plane.
pub proof fn lemma_far_field_model_from_near(g: Option<GroundPlane>)
    ensures
        spec_far_field_model(g) == if spec_near_field_model(g) == GroundModel::Sommerfeld {
            GroundModel::Fresnel
        } else {
            spec_near_field_model(g)
        },
        (spec_near_field_model(g) == GroundModel::FreeSpace) <==> g is None,
        (spec_far_field_model(g) == GroundModel::FreeSpace) <==> g is None,
        (g matches Some(p) && p.is_pec) ==> spec_near_field_model(g) == GroundModel::Pec
            && spec_far_field_model(g) == GroundModel::Pec,
{
}

} // verus!
