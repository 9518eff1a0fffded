use stl_indexer::mesh::IndexedMesh;
use stl_indexer::order::{NEG_INFINITY, POS_INFINITY};

fn bits(values: &[f32]) -> Vec<u32> {
    values.iter().map(|x| x.to_bits()).collect()
}

#[test]
fn new_keeps_the_arrays() {
    let vertices = bits(&[0.0, 1.0, 2.0, 3.0, 4.0, 5.0]);
    let triangles = vec![0, 1, 1, 0, 0, 1];
    let mesh = IndexedMesh::new(vertices.clone(), triangles.clone());
    assert_eq!(mesh.vertices, vertices);
    assert_eq!(mesh.triangles, triangles);
}

#[test]
fn new_bounds_each_axis() {
    let mesh = IndexedMesh::new(
        bits(&[1.0, -5.0, 0.0, 2.0, 7.5, -0.25, -3.0, 0.0, 0.125, 0.5, 100.0, 0.0]),
        vec![],
    );
    assert_eq!(mesh.lower.map(f32::from_bits), [-3.0, -5.0, -0.25]);
    assert_eq!(mesh.upper.map(f32::from_bits), [2.0, 100.0, 0.125]);
}

#[test]
fn new_of_one_vertex() {
    let mesh = IndexedMesh::new(bits(&[1.5, -2.0, 3.25]), vec![0, 0, 0]);
    assert_eq!(mesh.lower, [1.5f32.to_bits(), (-2.0f32).to_bits(), 3.25f32.to_bits()]);
    assert_eq!(mesh.upper, mesh.lower);
}

#[test]
fn new_of_nothing_leaves_the_infinities() {
    let mesh = IndexedMesh::new(vec![], vec![]);
    assert_eq!(mesh.lower, [POS_INFINITY; 3]);
    assert_eq!(mesh.upper, [NEG_INFINITY; 3]);
    assert_eq!(mesh.lower.map(f32::from_bits), [f32::INFINITY; 3]);
    assert_eq!(mesh.upper.map(f32::from_bits), [f32::NEG_INFINITY; 3]);
}

#[test]
fn the_box_holds_every_vertex() {
    let mut values = Vec::new();
    let mut state: u32 = 99;
    for _ in 0..300 {
        state = state.wrapping_mul(1_664_525).wrapping_add(1_013_904_223);
        let x = f32::from_bits(state);
        values.push(if x.is_nan() { 0.0 } else { x });
    }
    let mesh = IndexedMesh::new(bits(&values), vec![]);
    for t in 0..100 {
        for k in 0..3 {
            let x = f32::from_bits(mesh.vertices[3 * t + k]);
            assert!(f32::from_bits(mesh.lower[k]) <= x);
            assert!(x <= f32::from_bits(mesh.upper[k]));
        }
    }
    for k in 0..3 {
        let axis: Vec<f32> = (0..100).map(|t| values[3 * t + k]).collect();
        let low = axis.iter().cloned().fold(f32::INFINITY, f32::min);
        let high = axis.iter().cloned().fold(f32::NEG_INFINITY, f32::max);
        assert_eq!(f32::from_bits(mesh.lower[k]), low);
        assert_eq!(f32::from_bits(mesh.upper[k]), high);
    }
}

#[test]
fn the_first_of_two_zeros_stays() {
    let mesh = IndexedMesh::new(bits(&[0.0, -0.0, 0.0, -0.0, 0.0, 0.0]), vec![]);
    assert_eq!(mesh.lower, [0.0f32.to_bits(), (-0.0f32).to_bits(), 0.0f32.to_bits()]);
    assert_eq!(mesh.upper, [0.0f32.to_bits(), (-0.0f32).to_bits(), 0.0f32.to_bits()]);
}

#[test]
fn what_is_no_number_takes_the_place_of_the_bound_until_the_next_vertex() {
    let nan = f32::NAN.to_bits();
    let one = 1.0f32.to_bits();
    let two = 2.0f32.to_bits();
    // The fold compares with `<=`, which fails against what is no number:
    // the newcomer then comes out, whatever it is.
    let last = IndexedMesh::new(vec![one, one, one, nan, nan, nan], vec![]);
    assert_eq!(last.lower, [nan; 3]);
    assert_eq!(last.upper, [nan; 3]);
    let middle = IndexedMesh::new(vec![one, one, one, nan, nan, nan, two, two, two], vec![]);
    assert_eq!(middle.lower, [two; 3]);
    assert_eq!(middle.upper, [two; 3]);
}
