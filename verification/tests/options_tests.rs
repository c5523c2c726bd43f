use texture_to_vert_colors::clustering::{Eigenvalue, OrderingKind, ShapeMetric};
use texture_to_vert_colors::options::{DirKind, ErrorDiffusionKind, OrderKind, ReturnKind, SampleKind};

#[test]
fn option_names() {
    assert_eq!(SampleKind::Approx.to_string(), "approx");
    assert_eq!(SampleKind::Direct.to_string(), "direct");
    assert_eq!(ReturnKind::Nothing.to_string(), "none");
    assert_eq!(ReturnKind::Grad.to_string(), "grad");
    assert_eq!(DirKind::MaxCurvature.to_string(), "max-curvature");
    assert_eq!(OrderKind::Farthest.to_string(), "farthest");
    assert_eq!(ErrorDiffusionKind::LUT.to_string(), "lut");
}

#[test]
fn clustering_option_names() {
    assert_eq!(Eigenvalue::Two.to_string(), "two");
    assert_eq!(OrderingKind::ColorGeomShape.to_string(), "color-geom-shape");
    assert_eq!(ShapeMetric::NoMetric.to_string(), "none");
    assert_eq!(ShapeMetric::MaxManhattanDist.to_string(), "max-manhattan-dist");
}
