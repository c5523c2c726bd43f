use texture_to_vert_colors::weighting::{
    edge_face_slots, Error, PosColorNorm, WeightingKind, NO_FACE,
};

fn two_tris() -> Vec<Vec<[usize; 2]>> {
    vec![
        vec![[0, 1], [1, 2], [0, 2]],
        vec![[1, 3], [2, 3], [1, 2]],
    ]
}

#[test]
fn shared_edge_has_both_faces() {
    let slots = edge_face_slots(&two_tris()).unwrap();
    assert_eq!(slots.lookup(1, 2), [0, 1]);
    assert_eq!(slots.lookup(0, 1), [0, NO_FACE]);
    assert_eq!(slots.lookup(2, 3), [1, NO_FACE]);
    assert_eq!(slots.lookup(0, 3), [NO_FACE, NO_FACE]);
    assert_eq!(slots.lookup(9, 0), [NO_FACE, NO_FACE]);
}

#[test]
fn third_face_on_an_edge_is_refused() {
    let mut faces = two_tris();
    faces.push(vec![[1, 2], [2, 4], [1, 4]]);
    match edge_face_slots(&faces) {
        Err(Error::NonManifoldEdge(e, prev, fi)) => {
            assert_eq!(e, [1, 2]);
            assert_eq!(prev, [0, 1]);
            assert_eq!(fi, 2);
        }
        Ok(_) => panic!("expected an error"),
    }
}

#[test]
fn repeated_edge_of_one_face_takes_one_slot() {
    let faces = vec![vec![[0, 1], [0, 1]]];
    let slots = edge_face_slots(&faces).unwrap();
    assert_eq!(slots.lookup(0, 1), [0, NO_FACE]);
}

#[test]
fn no_faces_no_slots() {
    let slots = edge_face_slots(&vec![]).unwrap();
    assert_eq!(slots.lookup(0, 1), [NO_FACE, NO_FACE]);
}

#[test]
fn weighting_names() {
    assert_eq!(WeightingKind::MeanValue.to_string(), "mean-value");
    assert_eq!(WeightingKind::Uniform.to_string(), "uniform");
    assert_eq!(PosColorNorm::GeometricMean.to_string(), "geometric-mean");
    assert_eq!(PosColorNorm::ColorOnly.to_string(), "color-only");
}
