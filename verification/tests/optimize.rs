use meshopt::{
    analyze_vertex_cache, analyze_vertex_fetch, is_valid_index_stream, optimize_vertex_cache,
    optimize_vertex_cache_fifo, optimize_vertex_cache_fifo_in_place,
    optimize_vertex_cache_in_place, optimize_vertex_fetch, optimize_vertex_fetch_in_place,
    optimize_vertex_fetch_remap, remap_index_buffer, remap_vertex_buffer, remap_vertex_count,
};

/// A grid of `side` by `side` cells, tessellated naively: first the upper
/// triangle of every cell, row by row, then the lower triangle of every cell.
fn naive_grid(side: usize) -> (Vec<u32>, usize) {
    let mut upper = Vec::with_capacity(side * side * 6);
    let mut lower = Vec::with_capacity(side * side * 3);
    let w = (side + 1) as u32;
    for y in 0..side as u32 {
        for x in 0..side as u32 {
            let a = y * w + x;
            let b = a + 1;
            let c = a + w;
            let d = c + 1;
            upper.extend_from_slice(&[a, b, c]);
            lower.extend_from_slice(&[c, b, d]);
        }
    }
    upper.extend_from_slice(&lower);
    (upper, (side + 1) * (side + 1))
}

/// A grid of `side` by `side` cells, two triangles a cell, row by row.
fn grid(side: usize) -> (Vec<u32>, usize) {
    let mut indices = Vec::with_capacity(side * side * 6);
    let w = (side + 1) as u32;
    for y in 0..side as u32 {
        for x in 0..side as u32 {
            let a = y * w + x;
            let b = a + 1;
            let c = a + w;
            let d = c + 1;
            indices.extend_from_slice(&[a, b, c, c, b, d]);
        }
    }
    (indices, (side + 1) * (side + 1))
}

fn lcg(state: &mut u64) -> u32 {
    *state = state.wrapping_mul(6364136223846793005).wrapping_add(1442695040888963407);
    (*state >> 33) as u32
}

/// The triangles of a stream, shuffled.
fn shuffled(indices: &[u32], seed: u64) -> Vec<u32> {
    let n = indices.len() / 3;
    let mut order: Vec<usize> = (0..n).collect();
    let mut state = seed;
    for i in (1..n).rev() {
        let j = (lcg(&mut state) as usize) % (i + 1);
        order.swap(i, j);
    }
    let mut out = Vec::with_capacity(indices.len());
    for t in order {
        out.extend_from_slice(&indices[3 * t..3 * t + 3]);
    }
    out
}

fn sorted_triangles(indices: &[u32]) -> Vec<(u32, u32, u32)> {
    let mut tris: Vec<(u32, u32, u32)> =
        indices.chunks(3).map(|t| (t[0], t[1], t[2])).collect();
    tris.sort();
    tris
}

fn acmr(indices: &[u32], vertex_count: usize, cache_size: usize) -> f64 {
    let s = analyze_vertex_cache(indices, vertex_count, cache_size, 0, 0);
    s.vertices_transformed as f64 / s.triangle_count as f64
}

#[test]
fn analyze_counts_a_small_stream() {
    // two triangles that share an edge, then one apart
    let indices = [0u32, 1, 2, 2, 1, 3, 4, 5, 6];
    let s = analyze_vertex_cache(&indices, 7, 16, 0, 0);
    assert_eq!(s.vertices_transformed, 7);
    assert_eq!(s.triangle_count, 3);
    assert_eq!(s.unique_vertices, 7);
    assert_eq!(s.warps_executed, 1);
    // a cache of three vertices: 0 1 2 | 3 pushes 0 out | 0 pushes 1 out, 1 misses
    let s = analyze_vertex_cache(&[0, 1, 2, 2, 1, 3, 0, 1, 3], 4, 3, 0, 0);
    assert_eq!(s.vertices_transformed, 6);
    assert_eq!(s.unique_vertices, 4);
    // no cache at all: every corner is transformed
    let s = analyze_vertex_cache(&indices, 7, 0, 0, 0);
    assert_eq!(s.vertices_transformed, 9);
}

#[test]
fn analyze_a_hit_does_not_renew_a_vertex() {
    // cache of 3: after 0 1 2 the corner 0 is hit, then 3 still pushes 0 out
    let s = analyze_vertex_cache(&[0, 1, 2, 0, 3, 0], 4, 3, 0, 0);
    // 0 1 2 miss; 0 hits; 3 misses and pushes 0 out; 0 misses
    assert_eq!(s.vertices_transformed, 5);
}

#[test]
fn analyze_warps_and_groups() {
    let indices = [0u32, 1, 2, 3, 4, 5, 6, 7, 8, 0, 1, 2];
    // groups of two triangles: the cache is emptied before the third
    let s = analyze_vertex_cache(&indices, 9, 16, 0, 2);
    assert_eq!(s.vertices_transformed, 12);
    assert_eq!(s.warps_executed, 2);
    // warps of four vertices: every triangle but the first empties the cache
    let s = analyze_vertex_cache(&indices, 9, 16, 4, 0);
    assert_eq!(s.vertices_transformed, 12);
    assert_eq!(s.warps_executed, 4);
    // without limits the last triangle is served by the cache
    let s = analyze_vertex_cache(&indices, 9, 16, 0, 0);
    assert_eq!(s.vertices_transformed, 9);
    assert_eq!(s.warps_executed, 1);
    let s = analyze_vertex_cache(&[], 0, 16, 32, 32);
    assert_eq!(s.vertices_transformed, 0);
    assert_eq!(s.warps_executed, 0);
    assert_eq!(s.triangle_count, 0);
}

#[test]
fn cache_optimizer_keeps_the_triangles() {
    let (indices, vertex_count) = grid(20);
    let input = shuffled(&indices, 5);
    let out = optimize_vertex_cache(&input, vertex_count);
    assert_eq!(out.len(), input.len());
    assert_eq!(sorted_triangles(&out), sorted_triangles(&input));
    assert!(is_valid_index_stream(&out, vertex_count));
    let fifo = optimize_vertex_cache_fifo(&input, vertex_count, 16);
    assert_eq!(sorted_triangles(&fifo), sorted_triangles(&input));

    let mut in_place = input.clone();
    optimize_vertex_cache_in_place(&mut in_place, vertex_count);
    assert_eq!(in_place, out);
    let mut in_place = input.clone();
    optimize_vertex_cache_fifo_in_place(&mut in_place, vertex_count, 16);
    assert_eq!(in_place, fifo);
}

#[test]
fn cache_optimizer_never_makes_it_worse() {
    let mut seed = 31u64;
    for round in 0..40 {
        let vertex_count = 3 + (lcg(&mut seed) % 50) as usize;
        let n = (lcg(&mut seed) % 80) as usize;
        let mut indices = Vec::new();
        for _ in 0..3 * n {
            indices.push(lcg(&mut seed) % vertex_count as u32);
        }
        let size = [16u32, 3, 8, 32, 1, 0][round % 6];
        let out = optimize_vertex_cache(&indices, vertex_count);
        assert_eq!(sorted_triangles(&out), sorted_triangles(&indices));
        let before = analyze_vertex_cache(&indices, vertex_count, 16, 0, 0);
        let after = analyze_vertex_cache(&out, vertex_count, 16, 0, 0);
        assert!(after.vertices_transformed <= before.vertices_transformed);
        let out = optimize_vertex_cache_fifo(&indices, vertex_count, size);
        assert_eq!(sorted_triangles(&out), sorted_triangles(&indices));
        let before = analyze_vertex_cache(&indices, vertex_count, size as usize, 0, 0);
        let after = analyze_vertex_cache(&out, vertex_count, size as usize, 0, 0);
        assert!(after.vertices_transformed <= before.vertices_transformed);
    }
}

#[test]
fn cache_optimizer_handles_degenerate_and_empty() {
    assert_eq!(optimize_vertex_cache(&[], 0), Vec::<u32>::new());
    assert_eq!(optimize_vertex_cache_fifo(&[], 5, 16), Vec::<u32>::new());
    let indices = [0u32, 0, 1, 2, 2, 2, 0, 1, 2, 3, 1, 3, 1, 2, 3];
    let out = optimize_vertex_cache(&indices, 4);
    assert_eq!(sorted_triangles(&out), sorted_triangles(&indices));
    let out = optimize_vertex_cache_fifo(&indices, 4, 4);
    assert_eq!(sorted_triangles(&out), sorted_triangles(&indices));
}

#[test]
fn pipeline_on_a_grid() {
    let (input, vertex_count) = naive_grid(200);
    let naive = acmr(&input, vertex_count, 16);
    assert!(naive > 1.9 && naive < 2.05, "naive {naive}");

    let optimized = optimize_vertex_cache(&input, vertex_count);
    let mut fetched = optimized.clone();
    let positions: Vec<u32> = (0..vertex_count as u32).collect();
    let new_positions = optimize_vertex_fetch(&mut fetched, &positions);
    let best = acmr(&fetched, new_positions.len(), 16);
    assert!(best >= 0.5 && best <= 0.7, "optimized {best}");

    assert_eq!(sorted_triangles(&optimized), sorted_triangles(&input));
    assert_eq!(new_positions.len(), vertex_count);
    for i in 0..fetched.len() {
        assert_eq!(new_positions[fetched[i] as usize], optimized[i]);
    }
}

#[test]
fn thorough_order_is_no_worse_than_the_fast_one() {
    let (indices, vertex_count) = grid(64);
    for seed in 0..3 {
        let input = shuffled(&indices, seed);
        let shuffled_acmr = acmr(&input, vertex_count, 16);
        let thorough = acmr(&optimize_vertex_cache(&input, vertex_count), vertex_count, 16);
        let fast = acmr(&optimize_vertex_cache_fifo(&input, vertex_count, 16), vertex_count, 16);
        assert!(shuffled_acmr > 2.5, "shuffled {shuffled_acmr}");
        assert!(thorough <= fast, "thorough {thorough} fast {fast}");
        assert!(fast < 0.75, "fast {fast}");
    }
}

#[test]
fn fetch_remap_is_first_touch() {
    let indices = [5u32, 3, 5, 0, 3, 7];
    let remap = optimize_vertex_fetch_remap(&indices, 9);
    let u = 0xffff_ffffu32;
    assert_eq!(remap, vec![2, u, u, 1, u, 0, u, 3, u]);
    assert_eq!(remap_vertex_count(&remap), 4);
    assert_eq!(remap_index_buffer(&indices, &remap), vec![0, 1, 0, 2, 1, 3]);
    let vertices: Vec<u16> = vec![100, 101, 102, 103, 104, 105, 106, 107, 108];
    assert_eq!(remap_vertex_buffer(&vertices, 4, &remap), vec![105, 103, 100, 107]);
    assert_eq!(remap_vertex_count(&[]), 0);
    assert_eq!(remap_vertex_count(&[u, u]), 0);
    assert_eq!(optimize_vertex_fetch_remap(&[], 2), vec![u, u]);
}

#[test]
fn fetch_keeps_every_corner() {
    let mut seed = 8u64;
    for _ in 0..50 {
        let vertex_count = 1 + (lcg(&mut seed) % 30) as usize;
        let n = (lcg(&mut seed) % 40) as usize;
        let mut indices = Vec::new();
        for _ in 0..3 * n {
            indices.push(lcg(&mut seed) % vertex_count as u32);
        }
        let vertices: Vec<(u32, u8)> =
            (0..vertex_count).map(|v| (1000 + v as u32, v as u8)).collect();

        let mut new_indices = indices.clone();
        let new_vertices = optimize_vertex_fetch(&mut new_indices, &vertices);
        assert!(new_vertices.len() <= vertices.len());
        for i in 0..indices.len() {
            assert_eq!(new_vertices[new_indices[i] as usize], vertices[indices[i] as usize]);
        }
        // the new indices count up in the order of their first use
        let mut next = 0;
        for &i in &new_indices {
            assert!(i <= next);
            if i == next {
                next += 1;
            }
        }
        assert_eq!(next as usize, new_vertices.len());

        // the same result in two steps
        let remap = optimize_vertex_fetch_remap(&indices, vertex_count);
        let count = remap_vertex_count(&remap);
        assert_eq!(count, new_vertices.len());
        assert_eq!(remap_index_buffer(&indices, &remap), new_indices);
        assert_eq!(remap_vertex_buffer(&vertices, count, &remap), new_vertices);

        // and in place
        let mut in_place_indices = indices.clone();
        let mut in_place = vertices.clone();
        let used = optimize_vertex_fetch_in_place(&mut in_place_indices, &mut in_place);
        assert_eq!(used, count);
        assert_eq!(in_place_indices, new_indices);
        assert_eq!(&in_place[..used], &new_vertices[..]);
        assert_eq!(&in_place[used..], &vertices[used..]);
    }
}

#[test]
fn remap_takes_the_last_source() {
    let u = 0xffff_ffffu32;
    let remap = [1u32, 0, 1, u, 0];
    let vertices = [10u8, 11, 12, 13, 14];
    assert_eq!(remap_vertex_buffer(&vertices, 2, &remap), vec![14, 12]);
}

#[test]
fn analyze_fetch_counts_lines() {
    // three vertices of sixteen bytes lie in one line of sixty-four
    let s = analyze_vertex_fetch(&[0, 1, 2], 3, 16);
    assert_eq!(s.bytes_fetched, 64);
    assert_eq!(s.unique_vertices, 3);
    assert_eq!(s.vertex_size, 16);
    // vertices of a whole line each: the third index finds its line
    let s = analyze_vertex_fetch(&[0, 1, 0], 2, 64);
    assert_eq!(s.bytes_fetched, 128);
    assert_eq!(s.unique_vertices, 2);
    // the line of the vertex 2048 takes the place of the line of the vertex 0
    let s = analyze_vertex_fetch(&[0, 2048, 0], 2049, 64);
    assert_eq!(s.bytes_fetched, 192);
    // a vertex of twelve bytes across two lines
    let s = analyze_vertex_fetch(&[5, 5, 5], 6, 12);
    assert_eq!(s.bytes_fetched, 128);
    assert_eq!(s.unique_vertices, 1);
    let s = analyze_vertex_fetch(&[], 0, 32);
    assert_eq!(s.bytes_fetched, 0);
    assert_eq!(s.unique_vertices, 0);
}

#[test]
fn fetch_order_reads_less() {
    // 961 vertices of 256 bytes are more than the cache of 2048 lines holds
    let (indices, vertex_count) = grid(30);
    // the vertices lie in memory in a shuffled order
    let mut state = 77u64;
    let mut place: Vec<u32> = (0..vertex_count as u32).collect();
    for i in (1..vertex_count).rev() {
        let j = (lcg(&mut state) as usize) % (i + 1);
        place.swap(i, j);
    }
    let scattered: Vec<u32> = indices.iter().map(|&i| place[i as usize]).collect();
    let before = analyze_vertex_fetch(&scattered, vertex_count, 256);
    let mut packed = scattered.clone();
    let vertices: Vec<u32> = (0..vertex_count as u32).collect();
    let kept = optimize_vertex_fetch(&mut packed, &vertices);
    let after = analyze_vertex_fetch(&packed, kept.len(), 256);
    assert_eq!(after.unique_vertices, before.unique_vertices);
    assert!(after.bytes_fetched < before.bytes_fetched);
    // in the order of their first use every vertex is read once
    assert_eq!(after.bytes_fetched, vertex_count * 256);
}

#[test]
fn fanned_order_of_a_small_mesh() {
    // around vertex 0: the first triangle; then around vertex 1, which still
    // has two triangles and entered the cache before vertex 2; then, with
    // nothing left near by, around vertex 4
    let indices = [0u32, 1, 2, 2, 1, 3, 4, 5, 6, 3, 1, 7];
    let out = optimize_vertex_cache_fifo(&indices, 8, 16);
    assert_eq!(out, vec![0, 1, 2, 2, 1, 3, 3, 1, 7, 4, 5, 6]);
    // a triangle with a corner named twice comes last
    let indices = [5u32, 5, 1, 0, 1, 2, 2, 1, 3];
    let out = optimize_vertex_cache_fifo(&indices, 6, 16);
    assert_eq!(out, vec![0, 1, 2, 2, 1, 3, 5, 5, 1]);
}

#[test]
fn scored_order_of_small_meshes() {
    // every order misses the cache alike here, so the scored order is kept:
    // after 0 1 2 the triangle 0 2 9 rates highest, its corner 9 being
    // needed by nothing else, then 2 1 3 and 3 1 7 along the cache, and the
    // two triangles apart from them as they come
    let indices = [0u32, 1, 2, 4, 5, 6, 2, 1, 3, 3, 1, 7, 6, 5, 8, 0, 2, 9];
    let out = optimize_vertex_cache(&indices, 10);
    assert_eq!(out, vec![0, 1, 2, 0, 2, 9, 2, 1, 3, 3, 1, 7, 4, 5, 6, 6, 5, 8]);

    // a grid of three by three cells, its triangles shuffled
    let indices = [
        2u32, 3, 6, 9, 6, 10, 4, 5, 8, 6, 3, 7, 9, 10, 13, 10, 11, 14, 14, 11, 15, 4, 1, 5, 1, 2,
        5, 13, 10, 14, 6, 7, 10, 5, 2, 6, 8, 9, 12, 8, 5, 9, 12, 9, 13, 0, 1, 4, 10, 7, 11, 5, 6,
        9,
    ];
    let out = optimize_vertex_cache(&indices, 16);
    assert_eq!(
        out,
        vec![
            2, 3, 6, 6, 3, 7, 5, 2, 6, 1, 2, 5, 6, 7, 10, 0, 1, 4, 4, 1, 5, 10, 7, 11, 4, 5, 8,
            10, 11, 14, 14, 11, 15, 13, 10, 14, 8, 5, 9, 9, 10, 13, 5, 6, 9, 9, 6, 10, 12, 9, 13,
            8, 9, 12,
        ]
    );
}

#[test]
fn pipeline_in_place_on_a_grid_in_scan_order() {
    // 201 by 201 vertices, 200 by 200 cells, two triangles a cell, row by row
    let (mut indices, vertex_count) = grid(200);
    assert_eq!(vertex_count, 40401);
    let input = indices.clone();
    let baseline = acmr(&indices, vertex_count, 16);
    optimize_vertex_cache_in_place(&mut indices, vertex_count);
    assert_eq!(indices.len(), input.len());
    assert_eq!(sorted_triangles(&indices), sorted_triangles(&input));
    let ordered = indices.clone();

    let mut vertices: Vec<u32> = (0..vertex_count as u32).collect();
    let used = optimize_vertex_fetch_in_place(&mut indices, &mut vertices);
    assert_eq!(used, 40401);
    let best = acmr(&indices, used, 16);
    assert!(best >= 0.5 && best <= 0.7 && best < baseline, "optimized {best} from {baseline}");
    // no order does better than one transformation for each vertex
    let stats = analyze_vertex_cache(&indices, used, 16, 0, 0);
    assert_eq!(stats.unique_vertices, 40401);
    assert!(stats.vertices_transformed >= stats.unique_vertices);
    assert!(stats.vertices_transformed <= indices.len());
    // the mesh is the same: every corner still has its vertex
    for i in 0..indices.len() {
        assert_eq!(vertices[indices[i] as usize], ordered[i]);
    }
}

#[test]
fn analyze_fetch_takes_any_vertex_size() {
    // a vertex of 300 bytes at the start of memory touches five lines
    let s = analyze_vertex_fetch(&[0, 0, 0], 1, 300);
    assert_eq!(s.bytes_fetched, 320);
    // vertices of no size touch nothing
    let s = analyze_vertex_fetch(&[0, 1, 2], 3, 0);
    assert_eq!(s.bytes_fetched, 0);
    assert_eq!(s.unique_vertices, 3);
    // a vertex of 200000 bytes has 3125 lines for 2048 places: the last 1077
    // lines take the places of the first 1077, so each later reading finds
    // only the 971 lines between them
    let s = analyze_vertex_fetch(&[0, 0, 0], 1, 200_000);
    assert_eq!(s.bytes_fetched, (3125 + 2 * (1077 + 1077)) * 64);
}
