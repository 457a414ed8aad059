use voxel_engine::chunk::{greedy_mesh, Quad};

#[test]
fn test_greedy_mesh_empty_layer() {
    let layer = [0u32; 32];
    let quads = greedy_mesh(&layer);
    assert!(quads.is_empty());
}

#[test]
fn test_greedy_mesh_single_voxel() {
    let mut layer = [0u32; 32];
    layer[0] = 1;
    let quads = greedy_mesh(&layer);
    assert_eq!(quads.len(), 1);
    assert!(quads.contains(&Quad {
        x: 0,
        y: 0,
        w: 1,
        h: 1
    }));
}

#[test]
fn test_greedy_mesh_horizontal_line() {
    let mut layer = [0u32; 32];
    layer[0] = 0b111;
    let quads = greedy_mesh(&layer);
    assert_eq!(quads.len(), 1);
    assert!(quads.contains(&Quad {
        x: 0,
        y: 0,
        w: 1,
        h: 3
    }));
}

#[test]
fn test_greedy_mesh_vertical_line() {
    let mut layer = [0u32; 32];
    layer[0] = 0b1;
    layer[1] = 0b1;
    layer[2] = 0b1;
    let quads = greedy_mesh(&layer);
    assert_eq!(quads.len(), 1);
    assert!(quads.contains(&Quad {
        x: 0,
        y: 0,
        w: 3,
        h: 1
    }));
}

#[test]
fn test_greedy_mesh_square() {
    let mut layer = [0u32; 32];
    layer[0] = 0b11;
    layer[1] = 0b11;
    let quads = greedy_mesh(&layer);
    assert_eq!(quads.len(), 1);
    assert!(quads.contains(&Quad {
        x: 0,
        y: 0,
        w: 2,
        h: 2
    }));
}

#[test]
fn test_greedy_mesh_disconnected_regions() {
    let mut layer = [0u32; 32];
    layer[0] = 0b1;
    layer[5] = 0b1;
    let quads = greedy_mesh(&layer);
    assert_eq!(quads.len(), 2);
    assert!(quads.contains(&Quad {
        x: 0,
        y: 0,
        w: 1,
        h: 1
    }));
    assert!(quads.contains(&Quad {
        x: 5,
        y: 0,
        w: 1,
        h: 1
    }));
}

#[test]
fn test_greedy_mesh_full_layer() {
    let mut layer = [0u32; 32];
    for row in &mut layer {
        *row = u32::MAX;
    }
    let quads = greedy_mesh(&layer);
    assert_eq!(quads.len(), 1);
    assert!(quads.contains(&Quad {
        x: 0,
        y: 0,
        w: 32,
        h: 32
    }));
}

#[test]
fn test_greedy_mesh_l_shape() {
    let mut layer = [0u32; 32];
    layer[0] = 0b111; // bits at y=0,1,2 at x=0
    layer[1] = 0b1; // bit at y=0 at x=1
    let quads = greedy_mesh(&layer);
    // L-shape produces quads from greedy meshing
    // The exact count depends on the algorithm's optimization
    assert_eq!(quads.len(), 2);
    assert!(quads.contains(&Quad {
        x: 0,
        y: 0,
        w: 1,
        h: 3
    }));
    assert!(quads.contains(&Quad {
        x: 1,
        y: 0,
        w: 1,
        h: 1
    }));
}

#[test]
fn test_greedy_mesh_vertical_column() {
    let mut layer = [0u32; 32];
    layer[0] = 0b111111; // bits at y=0-5 at x=0
    layer[1] = 0b111111; // bits at y=0-5 at x=1
    layer[2] = 0b111111; // bits at y=0-5 at x=2

    let quads = greedy_mesh(&layer);

    assert_eq!(quads.len(), 1);
    assert!(quads.contains(&Quad {
        x: 0,
        y: 0,
        w: 3,
        h: 6
    }));
}

#[test]
fn test_greedy_mesh_staircase() {
    let mut layer = [0u32; 32];
    layer[0] = 0b1;
    layer[1] = 0b11;
    layer[2] = 0b111;
    layer[3] = 0b1111;

    let quads = greedy_mesh(&layer);
    assert_eq!(quads.len(), 4);
    assert!(quads.contains(&Quad {
        x: 0,
        y: 0,
        w: 4,
        h: 1
    }));
    assert!(quads.contains(&Quad {
        x: 1,
        y: 1,
        w: 3,
        h: 1
    }));
    assert!(quads.contains(&Quad {
        x: 2,
        y: 2,
        w: 2,
        h: 1
    }));
    assert!(quads.contains(&Quad {
        x: 3,
        y: 3,
        w: 1,
        h: 1
    }));
}

#[test]
fn test_greedy_mesh_wide_short() {
    let mut layer = [0u32; 32];
    for i in 0..10 {
        layer[i] = 0b1;
    }

    let quads = greedy_mesh(&layer);
    assert_eq!(quads.len(), 1);
    assert!(quads.contains(&Quad {
        x: 0,
        y: 0,
        w: 10,
        h: 1
    }));
}

#[test]
fn test_greedy_mesh_tall_narrow() {
    let mut layer = [0u32; 32];
    layer[0] = 0b1111111111;

    let quads = greedy_mesh(&layer);
    assert_eq!(quads.len(), 1);
    assert!(quads.contains(&Quad {
        x: 0,
        y: 0,
        w: 1,
        h: 10
    }));
}

#[test]
fn test_greedy_mesh_single_row() {
    let mut layer = [0u32; 32];
    layer[0] = 0b1001;

    let quads = greedy_mesh(&layer);
    assert_eq!(quads.len(), 2);
    assert!(quads.contains(&Quad {
        x: 0,
        y: 0,
        w: 1,
        h: 1
    }));
    assert!(quads.contains(&Quad {
        x: 0,
        y: 3,
        w: 1,
        h: 1
    }));
}

/// Every set bit of `layer` is covered by exactly one quad, and no quad
/// covers a clear bit.
fn assert_tiles(layer: &[u32; 32], quads: &[Quad]) {
    for x in 0..32u32 {
        for y in 0..32u32 {
            let set = layer[x as usize] >> y & 1 == 1;
            let covering = quads
                .iter()
                .filter(|q| q.x <= x && x < q.x + q.w && q.y <= y && y < q.y + q.h)
                .count();
            assert_eq!(covering, if set { 1 } else { 0 }, "cell ({x}, {y})");
        }
    }
    for q in quads {
        assert!(q.w >= 1 && q.h >= 1 && q.x + q.w <= 32 && q.y + q.h <= 32);
    }
}

#[test]
fn test_greedy_mesh_tiles_mixed_layer() {
    let mut layer = [0u32; 32];
    let mut seed: u32 = 0x9e37_79b9;
    for row in layer.iter_mut() {
        seed ^= seed << 13;
        seed ^= seed >> 17;
        seed ^= seed << 5;
        *row = seed & 0x0f0f_f0ff;
    }
    let quads = greedy_mesh(&layer);
    assert_tiles(&layer, &quads);
}

#[test]
fn test_greedy_mesh_order_and_merging() {
    // A 2x2 block at (0, 0) and a 1x3 strip at (1, 4): columns are
    // scanned from x = 0 and each column from y = 0, and a run is widened
    // over every following column that holds it.
    let mut layer = [0u32; 32];
    layer[0] = 0b11;
    layer[1] = 0b111_0011;
    let quads = greedy_mesh(&layer);
    assert_eq!(
        quads,
        vec![
            Quad { x: 0, y: 0, w: 2, h: 2 },
            Quad { x: 1, y: 4, w: 1, h: 3 },
        ]
    );
    assert_tiles(&layer, &quads);
}

#[test]
fn test_greedy_mesh_top_bit() {
    let mut layer = [0u32; 32];
    layer[31] = 1 << 31;
    let quads = greedy_mesh(&layer);
    assert_eq!(quads, vec![Quad { x: 31, y: 31, w: 1, h: 1 }]);
}
