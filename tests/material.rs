use celestial_render::material::{scale_octaves, CelestialBody};

#[test]
fn octaves_full_detail_keeps_base() {
    assert_eq!(scale_octaves(6, 1000), 6);
}

#[test]
fn octaves_floor_of_scaled_base() {
    assert_eq!(scale_octaves(6, 400), 2);
    assert_eq!(scale_octaves(6, 650), 3);
    assert_eq!(scale_octaves(4, 450), 1);
}

#[test]
fn octaves_detail_clamped_below() {
    assert_eq!(scale_octaves(6, 0), 2);
    assert_eq!(scale_octaves(6, 150), 2);
    assert_eq!(scale_octaves(2, 0), 1);
}

#[test]
fn octaves_detail_clamped_above() {
    assert_eq!(scale_octaves(5, 5000), 5);
}

#[test]
fn octaves_never_zero() {
    assert_eq!(scale_octaves(1, 400), 1);
    assert_eq!(scale_octaves(0, 1000), 0);
}

#[test]
fn bodies_compare_by_kind() {
    let a = CelestialBody::Saturn;
    let b = a;
    assert_eq!(a, b);
    assert_ne!(a, CelestialBody::Ring);
}
