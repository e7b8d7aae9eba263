use water_app::grid::{build_grid, GridVertex};

/// The mesh as single precision numbers, built without a lattice.
fn expected(resolution: u32) -> (Vec<[f32; 3]>, Vec<u32>) {
    let segments = resolution.max(2);
    let count = segments + 1;
    let at = |i: u32| i as f32 / segments as f32 * 2.0 - 1.0;
    let mut vertices: Vec<[f32; 3]> = Vec::new();
    for z in 0..count {
        for x in 0..count {
            vertices.push([at(x), at(z), 0.0]);
        }
    }
    let mut indices = Vec::new();
    for z in 0..segments {
        for x in 0..segments {
            let near = z * count + x;
            indices.extend_from_slice(&[near, near + count, near + 1, near + 1, near + count, near + count + 1]);
        }
    }
    for i in 0..segments {
        let (t0, t1) = (at(i), at(i + 1));
        for (ax, az, bx, bz) in
            [(t0, 1.0, t1, 1.0), (t1, -1.0, t0, -1.0), (1.0, t1, 1.0, t0), (-1.0, t0, -1.0, t1)]
        {
            let base = vertices.len() as u32;
            vertices.push([ax, az, 0.0]);
            vertices.push([bx, bz, 0.0]);
            vertices.push([bx, bz, 1.0]);
            vertices.push([ax, az, 1.0]);
            indices.extend_from_slice(&[base, base + 1, base + 2, base, base + 2, base + 3]);
        }
    }
    (vertices, indices)
}

fn compare(resolution: u32) {
    let grid = build_grid(resolution);
    let (vertices, indices) = expected(resolution);
    let words: Vec<u32> = vertices.iter().flatten().map(|x| x.to_bits()).collect();
    assert_eq!(grid.vertex_words(), words);
    assert_eq!(grid.indices, indices);
    assert_eq!(grid.vertices.len(), vertices.len());
}

#[test]
fn meshes_of_several_resolutions() {
    for resolution in [0, 1, 2, 3, 5, 7, 16, 31, 60] {
        compare(resolution);
    }
}

#[test]
fn the_mesh_of_the_pool() {
    compare(200);
    let grid = build_grid(200);
    assert_eq!(grid.vertices.len(), 43601);
    assert_eq!(grid.indices.len(), 244800);
}

#[test]
fn a_resolution_below_two_has_two_segments() {
    for resolution in [0, 1, 2] {
        let grid = build_grid(resolution);
        assert_eq!(grid.segments, 2);
        assert_eq!(grid.vertices.len(), 41);
        assert_eq!(grid.indices.len(), 72);
    }
}

#[test]
fn the_smallest_mesh_in_detail() {
    let grid = build_grid(2);
    assert_eq!(&grid.indices[..6], &[0, 3, 1, 1, 3, 4]);
    assert_eq!(&grid.indices[18..24], &[4, 7, 5, 5, 7, 8]);
    assert_eq!(&grid.indices[24..30], &[9, 10, 11, 9, 11, 12]);
    assert_eq!(grid.vertices[5], GridVertex { x: 2, z: 1, lowered: false });
    assert_eq!(grid.vertices[9], GridVertex { x: 0, z: 2, lowered: false });
    assert_eq!(grid.vertices[10], GridVertex { x: 1, z: 2, lowered: false });
    assert_eq!(grid.vertices[11], GridVertex { x: 1, z: 2, lowered: true });
    assert_eq!(grid.vertices[12], GridVertex { x: 0, z: 2, lowered: true });
    let words = grid.vertex_words();
    assert_eq!(words[0], (-1.0f32).to_bits());
    assert_eq!(words[3], 0.0f32.to_bits());
    assert_eq!(words[6], 1.0f32.to_bits());
    assert_eq!(words[9 * 3 + 8], 1.0f32.to_bits());
}

#[test]
fn every_index_names_a_vertex() {
    let grid = build_grid(9);
    for index in &grid.indices {
        assert!((*index as usize) < grid.vertices.len());
    }
}

#[test]
fn surface_triangles_are_wound_alike() {
    let grid = build_grid(6);
    for triangle in grid.indices[..6 * 36].chunks(3) {
        let at = |k: usize| {
            let v = grid.vertices[triangle[k] as usize];
            (v.x as i64, v.z as i64)
        };
        let (a, b, c) = (at(0), at(1), at(2));
        assert_eq!((b.0 - a.0) * (c.1 - a.1) - (b.1 - a.1) * (c.0 - a.0), -1);
    }
}

#[test]
fn the_skirt_goes_round_the_rim() {
    let grid = build_grid(4);
    let rim = &grid.vertices[25..];
    assert_eq!(rim.len(), 64);
    for quad in rim.chunks(4) {
        assert_eq!((quad[0].x, quad[0].z), (quad[3].x, quad[3].z));
        assert_eq!((quad[1].x, quad[1].z), (quad[2].x, quad[2].z));
        assert!(!quad[0].lowered && !quad[1].lowered && quad[2].lowered && quad[3].lowered);
        // The middle of the grid lies on the same side of every edge.
        let (ax, az, bx, bz) = (quad[0].x as i64, quad[0].z as i64, quad[1].x as i64, quad[1].z as i64);
        assert!((bx - ax) * (2 - az) - (bz - az) * (2 - ax) < 0);
    }
}

#[test]
fn coordinates_grow_from_end_to_end() {
    for n in [2u32, 3, 10, 47] {
        let words = build_grid(n).vertex_words();
        let row: Vec<f32> = (0..=n as usize).map(|i| f32::from_bits(words[3 * i])).collect();
        assert_eq!(row[0], -1.0);
        assert_eq!(row[n as usize], 1.0);
        for pair in row.windows(2) {
            assert!(pair[0] <= pair[1]);
        }
    }
}
