use pilar_core::geometry::{classify_signature, resolve_class, GeometryClass};

#[test]
fn dominant_pair_means_spherical() {
    assert_eq!(classify_signature(true, 6, 6, true), GeometryClass::Spherical);
}

#[test]
fn many_negative_eigenvalues_mean_hyperbolic() {
    assert_eq!(classify_signature(false, 3, 6, true), GeometryClass::Hyperbolic);
    // exactly a third is not "more than a third"
    assert_eq!(classify_signature(false, 2, 6, true), GeometryClass::Flat);
}

#[test]
fn dominant_first_means_flat_otherwise_hyperbolic() {
    assert_eq!(classify_signature(false, 0, 6, true), GeometryClass::Flat);
    assert_eq!(classify_signature(false, 0, 6, false), GeometryClass::Hyperbolic);
}

#[test]
fn tree_like_neighbourhoods_are_hyperbolic() {
    assert_eq!(resolve_class(GeometryClass::Spherical, true), GeometryClass::Hyperbolic);
    assert_eq!(resolve_class(GeometryClass::Flat, true), GeometryClass::Hyperbolic);
    assert_eq!(resolve_class(GeometryClass::Flat, false), GeometryClass::Flat);
    assert_eq!(resolve_class(GeometryClass::Hyperbolic, false), GeometryClass::Hyperbolic);
}
