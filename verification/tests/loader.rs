use stl_indexer::key::{Keyed, LoadError};
use stl_indexer::loader::{chunk_size, load_from_file, load_in_chunks, partition, Chunk};
use stl_indexer::mesh::IndexedMesh;
use stl_indexer::stl::StlView;

/// The bytes of an STL file with the given corners, three per triangle.
fn file_of(corners: &[[u32; 3]]) -> Vec<u8> {
    assert_eq!(corners.len() % 3, 0);
    let mut bytes = vec![0x11u8; 80];
    bytes.extend_from_slice(&((corners.len() / 3) as u32).to_le_bytes());
    for triangle in corners.chunks(3) {
        bytes.extend_from_slice(&[0x22u8; 12]);
        for corner in triangle {
            for word in corner {
                bytes.extend_from_slice(&word.to_le_bytes());
            }
        }
        bytes.extend_from_slice(&[0x33u8; 2]);
    }
    bytes
}

fn numbers(corners: &[[f32; 3]]) -> Vec<[u32; 3]> {
    corners.iter().map(|c| c.map(f32::to_bits)).collect()
}

/// Corners drawn from a few points, so that many of them coincide.
fn crowd(triangles: usize, points: u32, seed: u32) -> Vec<[u32; 3]> {
    let mut state = seed;
    (0..3 * triangles)
        .map(|_| {
            state = state.wrapping_mul(1_664_525).wrapping_add(1_013_904_223);
            let p = (state >> 16) % points;
            [(p as f32).to_bits(), (-(p as f32) * 0.5).to_bits(), ((p * p) as f32).to_bits()]
        })
        .collect()
}

/// For each corner the first corner with the same words.
fn firsts(corners: &[[u32; 3]], from: usize, to: usize) -> Vec<u32> {
    (from..to)
        .map(|i| (from..=i).find(|&j| corners[j] == corners[i]).unwrap() as u32)
        .collect()
}

/// Everything that an indexed mesh owes its source, but for the box.
fn assert_indexes(mesh: &IndexedMesh, corners: &[[u32; 3]]) {
    let n = corners.len();
    assert_eq!(mesh.triangles.len(), n);
    assert_eq!(mesh.vertices.len() % 3, 0);
    let count = mesh.vertices.len() / 3;
    let mut distinct: Vec<[u32; 3]> = corners.to_vec();
    distinct.sort();
    distinct.dedup();
    assert_eq!(count, distinct.len());
    let mut used = vec![false; count];
    for i in 0..n {
        let t = mesh.triangles[i] as usize;
        assert!(t < count);
        assert_eq!(&mesh.vertices[3 * t..3 * t + 3], &corners[i]);
        used[t] = true;
    }
    assert!(used.iter().all(|&u| u));
    for s in 0..count {
        for t in (s + 1)..count {
            assert_ne!(&mesh.vertices[3 * s..3 * s + 3], &mesh.vertices[3 * t..3 * t + 3]);
        }
    }
    for i in 0..n {
        for j in 0..n {
            assert_eq!(mesh.triangles[i] == mesh.triangles[j], corners[i] == corners[j]);
        }
    }
}

#[test]
fn chunk_size_rounds_up() {
    assert_eq!(chunk_size(10, 3), 4);
    assert_eq!(chunk_size(10, 4), 3);
    assert_eq!(chunk_size(10, 5), 2);
    assert_eq!(chunk_size(7, 2), 4);
    assert_eq!(chunk_size(10, 1), 10);
    assert_eq!(chunk_size(10, 10), 1);
    assert_eq!(chunk_size(10, 100), 1);
    assert_eq!(chunk_size(0, 5), 0);
    assert_eq!(chunk_size(10, 0), 10);
    assert_eq!(chunk_size(0, 0), 0);
    assert_eq!(chunk_size(u32::MAX, 2), 1 << 31);
    assert_eq!(chunk_size(u32::MAX, usize::MAX), 1);
    assert_eq!(chunk_size(u32::MAX, 1), u32::MAX);
}

#[test]
fn partition_deals_out_contiguous_ranges() {
    assert_eq!(partition(10, 3), vec![(0, 4), (4, 8), (8, 10)]);
    assert_eq!(partition(10, 4), vec![(0, 3), (3, 6), (6, 9), (9, 10)]);
    assert_eq!(partition(9, 4), vec![(0, 3), (3, 6), (6, 9)]);
    assert_eq!(partition(10, 1), vec![(0, 10)]);
    assert_eq!(partition(10, 0), vec![(0, 10)]);
    assert_eq!(partition(3, 8), vec![(0, 1), (1, 2), (2, 3)]);
    assert_eq!(partition(0, 8), vec![]);
    assert_eq!(partition(0, 0), vec![]);
    assert_eq!(partition(u32::MAX, 2), vec![(0, 1 << 31), (1 << 31, u32::MAX)]);
}

#[test]
fn an_empty_chunk() {
    let chunk = Chunk::empty();
    assert!(chunk.is_empty());
    assert_eq!(chunk.unique(), 0);
    assert_eq!(chunk.start(), 0);
    assert_eq!(chunk.end(), 0);
    assert_eq!(chunk.representatives(), Vec::<u32>::new());
}

#[test]
fn build_names_the_earliest_slot_of_the_range() {
    let a = [1, 1, 1];
    let b = [2, 2, 2];
    let c = [3, 3, 3];
    let corners = [a, b, a, c, b, a, c, c, a];
    let bytes = file_of(&corners);
    let view = StlView(&bytes);
    let whole = Chunk::build(0, 9, &view);
    assert_eq!(whole.representatives(), vec![0, 1, 0, 3, 1, 0, 3, 3, 0]);
    assert_eq!(whole.unique(), 3);
    assert_eq!((whole.start(), whole.end()), (0, 9));
    assert!(!whole.is_empty());
    let part = Chunk::build(4, 9, &view);
    assert_eq!(part.representatives(), vec![4, 5, 6, 6, 5]);
    assert_eq!(part.unique(), 3);
    assert_eq!((part.start(), part.end()), (4, 9));
    let none = Chunk::build(4, 4, &view);
    assert!(none.is_empty());
    assert_eq!(none.representatives(), Vec::<u32>::new());
    assert_eq!((none.start(), none.end()), (4, 4));
}

#[test]
fn merge_lets_the_earlier_chunk_win() {
    let a = [1, 1, 1];
    let b = [2, 2, 2];
    let c = [3, 3, 3];
    let d = [4, 4, 4];
    let corners = [a, b, a, c, b, d, c, d, a];
    let bytes = file_of(&corners);
    let view = StlView(&bytes);
    let left = Chunk::build(0, 3, &view);
    let right = Chunk::build(3, 9, &view);
    assert_eq!(right.representatives(), vec![3, 4, 5, 3, 5, 8]);
    let both = left.merge(right, &view);
    assert_eq!(both.representatives(), vec![0, 1, 0, 3, 1, 5, 3, 5, 0]);
    assert_eq!(both.unique(), 4);
    assert_eq!((both.start(), both.end()), (0, 9));
}

#[test]
fn merge_with_an_empty_chunk_changes_nothing() {
    let corners = crowd(4, 5, 1);
    let bytes = file_of(&corners);
    let view = StlView(&bytes);
    let right = Chunk::empty().merge(Chunk::build(3, 9, &view), &view);
    assert_eq!(right.representatives(), firsts(&corners, 3, 9));
    assert_eq!((right.start(), right.end()), (3, 9));
    let left = Chunk::build(3, 9, &view).merge(Chunk::empty(), &view);
    assert_eq!(left.representatives(), firsts(&corners, 3, 9));
    assert_eq!((left.start(), left.end()), (3, 9));
    let void = Chunk::build(3, 9, &view).merge(Chunk::build(12, 12, &view), &view);
    assert_eq!((void.start(), void.end()), (3, 9));
    let nothing = Chunk::empty().merge(Chunk::empty(), &view);
    assert!(nothing.is_empty());
}

#[test]
fn merge_gives_what_one_build_gives_however_the_range_is_cut() {
    let corners = crowd(20, 7, 42);
    let bytes = file_of(&corners);
    let view = StlView(&bytes);
    let whole = firsts(&corners, 0, 60);
    assert_eq!(Chunk::build(0, 60, &view).representatives(), whole);
    for cut in 0..=60 {
        let merged = Chunk::build(0, cut, &view).merge(Chunk::build(cut, 60, &view), &view);
        assert_eq!(merged.representatives(), whole, "cut at {}", cut);
    }
    // Left to right, and as a tree.
    let parts = [(0, 13), (13, 14), (14, 40), (40, 60)];
    let mut line = Chunk::empty();
    for (start, end) in parts {
        line = line.merge(Chunk::build(start, end, &view), &view);
    }
    assert_eq!(line.representatives(), whole);
    let front = Chunk::build(0, 13, &view).merge(Chunk::build(13, 14, &view), &view);
    let back = Chunk::build(14, 40, &view).merge(Chunk::build(40, 60, &view), &view);
    let tree = front.merge(back, &view);
    assert_eq!(tree.representatives(), whole);
    let mut distinct = corners.clone();
    distinct.sort();
    distinct.dedup();
    assert_eq!(tree.unique(), distinct.len());
}

#[test]
fn compact_numbers_the_vertices() {
    let a = [10, 11, 12];
    let b = [20, 21, 22];
    let corners = [a, b, b, a, a, b];
    let bytes = file_of(&corners);
    let view = StlView(&bytes);
    let mesh = Chunk::build(0, 6, &view).compact(&view);
    assert_indexes(&mesh, &corners);
    assert_eq!(mesh.vertices.len(), 6);
    let id_a = mesh.triangles[0];
    let id_b = mesh.triangles[1];
    assert_ne!(id_a, id_b);
    assert_eq!(mesh.triangles, vec![id_a, id_b, id_b, id_a, id_a, id_b]);
}

#[test]
fn two_triangles_sharing_an_edge() {
    let a = [0.0, 0.0, 0.0];
    let b = [1.0, 0.0, 0.0];
    let c = [0.0, 1.0, 0.0];
    let d = [1.0, 1.0, 0.0];
    let corners = numbers(&[a, b, c, b, d, c]);
    let bytes = file_of(&corners);
    let mesh = load_from_file(StlView(&bytes)).unwrap();
    assert_eq!(mesh.vertices.len(), 3 * 4);
    assert_eq!(mesh.triangles.len(), 6);
    let t = &mesh.triangles;
    let mut pairs = 0;
    for i in 0..6 {
        for j in (i + 1)..6 {
            if t[i] == t[j] {
                pairs += 1;
            }
        }
    }
    assert_eq!(pairs, 2);
    assert_eq!(t[1], t[3]);
    assert_eq!(t[2], t[5]);
    assert_indexes(&mesh, &corners);
    assert_eq!(mesh.lower.map(f32::from_bits), [0.0, 0.0, 0.0]);
    assert_eq!(mesh.upper.map(f32::from_bits), [1.0, 1.0, 0.0]);
}

#[test]
fn one_point_repeated() {
    let p = [1.5f32, -2.0, 3.25].map(f32::to_bits);
    for n in [3, 12, 300] {
        let corners = vec![p; n];
        let bytes = file_of(&corners);
        for chunks in [1, 2, 7, 64] {
            let mesh = load_in_chunks(&StlView(&bytes), chunks).unwrap();
            assert_eq!(mesh.vertices, p.to_vec());
            assert_eq!(mesh.triangles, vec![0u32; n]);
            assert_eq!(mesh.lower, p);
            assert_eq!(mesh.upper, p);
        }
        let mesh = load_from_file(StlView(&bytes)).unwrap();
        assert_eq!(mesh.vertices.len(), 3);
        assert_eq!(mesh.triangles, vec![0u32; n]);
    }
}

#[test]
fn truncated_file_is_an_error() {
    let corners = crowd(2, 3, 5);
    let mut bytes = file_of(&corners);
    bytes.pop();
    assert!(matches!(load_from_file(StlView(&bytes)), Err(LoadError::TruncatedInput)));
    assert_eq!(StlView(&bytes).check(), Err(LoadError::TruncatedInput));
    for chunks in [0, 1, 3, 8] {
        assert!(matches!(
            load_in_chunks(&StlView(&bytes), chunks),
            Err(LoadError::TruncatedInput)
        ));
    }
    assert!(matches!(load_from_file(StlView(&[])), Err(LoadError::TruncatedInput)));
    assert!(matches!(load_from_file(StlView(&bytes[..83])), Err(LoadError::TruncatedInput)));
    let mut lying = file_of(&corners);
    lying[80..84].copy_from_slice(&u32::MAX.to_le_bytes());
    assert!(matches!(load_from_file(StlView(&lying)), Err(LoadError::TruncatedInput)));
}

#[test]
fn zero_triangles() {
    let bytes = file_of(&[]);
    for chunks in [0, 1, 8] {
        let mesh = load_in_chunks(&StlView(&bytes), chunks).unwrap();
        assert_eq!(mesh.vertices.len(), 0);
        assert_eq!(mesh.triangles.len(), 0);
    }
    let mesh = load_from_file(StlView(&bytes)).unwrap();
    assert_eq!(mesh.vertices.len(), 0);
    assert_eq!(mesh.triangles.len(), 0);
    for k in 0..3 {
        assert_eq!(f32::from_bits(mesh.lower[k]), f32::INFINITY);
        assert_eq!(f32::from_bits(mesh.upper[k]), f32::NEG_INFINITY);
    }
}

#[test]
fn every_corner_gets_the_vertex_with_its_bytes() {
    for (triangles, points, seed) in [(1, 1, 1), (5, 2, 2), (40, 9, 3), (100, 1000, 4), (64, 64, 5)] {
        let corners = crowd(triangles, points, seed);
        let bytes = file_of(&corners);
        let mesh = load_from_file(StlView(&bytes)).unwrap();
        assert_indexes(&mesh, &corners);
    }
}

#[test]
fn the_number_of_chunks_does_not_change_the_grouping() {
    let corners = crowd(50, 23, 77);
    let bytes = file_of(&corners);
    let view = StlView(&bytes);
    let one = load_in_chunks(&view, 1).unwrap();
    assert_indexes(&one, &corners);
    for chunks in [0, 2, 3, 8, 37, 149, 150, 151, 10_000] {
        let other = load_in_chunks(&view, chunks).unwrap();
        assert_indexes(&other, &corners);
        assert_eq!(other.vertices.len(), one.vertices.len());
        for i in 0..corners.len() {
            for j in 0..corners.len() {
                assert_eq!(
                    one.triangles[i] == one.triangles[j],
                    other.triangles[i] == other.triangles[j]
                );
            }
        }
        assert_eq!(other.lower.map(f32::from_bits), one.lower.map(f32::from_bits));
        assert_eq!(other.upper.map(f32::from_bits), one.upper.map(f32::from_bits));
    }
}

#[test]
fn equal_numbers_with_different_bits_stay_apart() {
    let plus = [0.0f32.to_bits(), 0, 0];
    let minus = [(-0.0f32).to_bits(), 0, 0];
    let quiet = [0x7FC0_0000, 0, 0];
    let other = [0x7FC0_0001, 0, 0];
    let corners = [plus, minus, quiet, other, quiet, plus];
    let bytes = file_of(&corners);
    let mesh = load_in_chunks(&StlView(&bytes), 2).unwrap();
    assert_eq!(mesh.vertices.len(), 3 * 4);
    assert_indexes(&mesh, &corners);
    assert_ne!(mesh.triangles[0], mesh.triangles[1]);
    assert_ne!(mesh.triangles[2], mesh.triangles[3]);
    assert_eq!(mesh.triangles[2], mesh.triangles[4]);
    assert_eq!(mesh.triangles[0], mesh.triangles[5]);
}

#[test]
fn the_box_holds_every_vertex_of_the_mesh() {
    let corners = numbers(&[
        [1.0, -5.0, 0.0],
        [2.0, 7.5, -0.25],
        [-3.0, 0.0, 0.125],
        [1.0, -5.0, 0.0],
        [0.5, 100.0, 0.0],
        [2.0, 7.5, -0.25],
    ]);
    let bytes = file_of(&corners);
    let view = StlView(&bytes);
    let mesh = load_in_chunks(&view, 3).unwrap();
    assert_eq!(mesh.lower.map(f32::from_bits), [-3.0, -5.0, -0.25]);
    assert_eq!(mesh.upper.map(f32::from_bits), [2.0, 100.0, 0.125]);
    for t in 0..mesh.vertices.len() / 3 {
        for k in 0..3 {
            let x = f32::from_bits(mesh.vertices[3 * t + k]);
            assert!(f32::from_bits(mesh.lower[k]) <= x && x <= f32::from_bits(mesh.upper[k]));
        }
    }
    let (lower, upper) = view.bounds();
    assert_eq!(lower.map(f32::from_bits), [-3.0, -5.0, -0.25]);
    assert_eq!(upper.map(f32::from_bits), [2.0, 100.0, 0.125]);
}

#[test]
fn keys_lead_back_to_their_slots() {
    let corners = crowd(9, 4, 11);
    let bytes = file_of(&corners);
    let view = StlView(&bytes);
    for i in 0..view.len() {
        assert_eq!(view.index(&view.key(i)), i);
    }
}
