use meshopt::{
    meshlet_extent, convert_indices_16_to_32, convert_indices_32_to_16, dequantize_half_bits,
    is_valid_index_stream, overdraw_clusters, quantize_float_bits, quantize_half_bits,
    reorder_clusters, Error, Meshlet, MeshletRange, Meshlets, VertexDataAdapter, VertexStream,
};

fn quantize_half(v: f32) -> u16 {
    quantize_half_bits(v.to_bits())
}

fn dequantize_half(h: u16) -> f32 {
    f32::from_bits(dequantize_half_bits(h))
}

fn vertex_bytes(vertices: &[([f32; 3], [f32; 3], [f32; 2])]) -> Vec<u8> {
    let mut bytes = Vec::new();
    for (p, n, t) in vertices {
        for x in p.iter().chain(n.iter()).chain(t.iter()) {
            bytes.extend_from_slice(&x.to_le_bytes());
        }
    }
    bytes
}

#[test]
fn test_xyz_f32_at() {
    let vertices =
        vec![([1.0, 2.0, 3.0], [0.0; 3], [0.0; 2]), ([4.0, 5.0, 6.0], [0.0; 3], [0.0; 2])];
    let bytes = vertex_bytes(&vertices);

    let adapter = VertexDataAdapter::new(&bytes, 32, 0).unwrap();

    let p = adapter.xyz_bits_at(0).unwrap().map(f32::from_bits);
    assert_eq!(p, [1.0, 2.0, 3.0]);
    let p = adapter.xyz_bits_at(1).unwrap().map(f32::from_bits);
    assert_eq!(p, [4.0, 5.0, 6.0]);

    assert!(adapter.xyz_bits_at(2).is_err());
}

#[test]
fn quantize_roundtrip() {
    for i in u16::MIN..u16::MAX {
        let f = dequantize_half(i);
        let q = quantize_half(f);
        // dont care about denormals
        if !f.is_normal() {
            continue;
        }
        assert_eq!(i, q, "quantization error for {i}: {f} -> {q}");
    }
}

#[test]
fn quantize_half_values() {
    assert_eq!(quantize_half(0.0), 0);
    assert_eq!(quantize_half(-0.0), 0x8000);
    assert_eq!(quantize_half(1.0), 0x3c00);
    assert_eq!(quantize_half(-2.0), 0xc000);
    assert_eq!(quantize_half(0.5), 0x3800);
    assert_eq!(quantize_half(65504.0), 0x7bff);
    assert_eq!(quantize_half(65536.0), 0x7c00);
    assert_eq!(quantize_half(f32::INFINITY), 0x7c00);
    assert_eq!(quantize_half(f32::NEG_INFINITY), 0xfc00);
    assert_eq!(quantize_half(f32::NAN) & 0x7fff, 0x7e00);
    assert_eq!(quantize_half(1.0e-10), 0);
    // the smallest normal half float, and a little less
    assert_eq!(quantize_half(6.103515625e-5), 0x0400);
    assert_eq!(quantize_half(6.0e-5), 0);
    // rounding to the nearest: 1 + 2^-11 is halfway and goes up
    assert_eq!(quantize_half(1.0 + 0.00048828125), 0x3c01);
    assert_eq!(quantize_half(1.0 + 0.0004), 0x3c00);

    assert_eq!(dequantize_half(0x3c00), 1.0);
    assert_eq!(dequantize_half(0xc000), -2.0);
    assert_eq!(dequantize_half(0x7bff), 65504.0);
    assert_eq!(dequantize_half(0x7c00), f32::INFINITY);
    assert!(dequantize_half(0x7e00).is_nan());
    assert_eq!(dequantize_half(0x0001), 0.0);
    assert_eq!(dequantize_half(0x0400), 6.103515625e-5);
}

#[test]
fn quantize_float_values() {
    let q = |v: f32, n: u32| f32::from_bits(quantize_float_bits(v.to_bits(), n));
    assert_eq!(q(1.0, 10), 1.0);
    assert_eq!(q(1.0 + 1.0 / 1024.0, 10), 1.0 + 1.0 / 1024.0);
    assert_eq!(q(1.0 + 1.0 / 2048.0, 10), 1.0 + 1.0 / 1024.0);
    assert_eq!(q(1.0 + 1.0 / 4096.0, 10), 1.0);
    assert_eq!(q(-3.1415927, 1), -3.0);
    assert_eq!(q(3.1415927, 23), 3.1415927);
    assert_eq!(q(1.9999999, 4), 2.0);
    assert_eq!(q(f32::INFINITY, 5), f32::INFINITY);
    assert!(q(f32::NAN, 5).is_nan());
    assert_eq!(q(1.0e-40, 5), 0.0);
    assert_eq!(quantize_float_bits((-1.0e-40f32).to_bits(), 5), 0);
}

#[test]
fn convert_indices() {
    assert_eq!(convert_indices_32_to_16(&[0, 1, 65535]), Ok(vec![0u16, 1, 65535]));
    // 65536 does not fit in 16 bits
    assert_eq!(convert_indices_32_to_16(&[65536]), Err(Error::PreconditionViolation));
    assert_eq!(convert_indices_32_to_16(&[65536, 7]), Err(Error::PreconditionViolation));
    assert_eq!(convert_indices_32_to_16(&[1, 65537]), Err(Error::PreconditionViolation));
    assert_eq!(convert_indices_32_to_16(&[7, u32::MAX]), Err(Error::PreconditionViolation));
    // what fits comes back unchanged
    let narrow = convert_indices_32_to_16(&[3, 65535, 0, 256]).unwrap();
    assert_eq!(convert_indices_16_to_32(&narrow), Ok(vec![3u32, 65535, 0, 256]));
    assert_eq!(convert_indices_32_to_16(&[]), Ok(vec![]));
    assert_eq!(convert_indices_16_to_32(&[0, 65535, 3]), Ok(vec![0u32, 65535, 3]));
}

#[test]
fn valid_index_streams() {
    assert!(is_valid_index_stream(&[], 0));
    assert!(is_valid_index_stream(&[0, 1, 2], 3));
    assert!(!is_valid_index_stream(&[0, 1, 3], 3));
    assert!(!is_valid_index_stream(&[0, 1], 3));
}

#[test]
fn vertex_stream_checks_its_sizes() {
    let data = vec![0u8; 24];
    let stream = VertexStream::new(&data, 12, 12).unwrap();
    assert_eq!(stream.stride(), 12);
    assert_eq!(stream.size(), 12);
    assert_eq!(stream.data(), &data[..]);
    assert!(VertexStream::new(&data, 12, 4).is_ok());
    assert_eq!(VertexStream::new(&data, 12, 13).err(), Some(Error::PreconditionViolation));
    assert_eq!(VertexStream::new(&data, 10, 4).err(), Some(Error::PreconditionViolation));
    assert_eq!(VertexStream::new(&data, 0, 0).err(), Some(Error::PreconditionViolation));
    assert!(VertexStream::new(&[], 8, 8).is_ok());
}

#[test]
fn vertex_adapter_checks_its_sizes() {
    let data = vec![0u8; 32];
    let adapter = VertexDataAdapter::new(&data, 16, 4).unwrap();
    assert_eq!(adapter.vertex_count, 2);
    assert_eq!(adapter.vertex_stride, 16);
    assert_eq!(adapter.position_offset, 4);
    assert!(VertexDataAdapter::new(&data, 16, 5).is_err());
    assert!(VertexDataAdapter::new(&data, 8, 0).is_err());
    assert!(VertexDataAdapter::new(&data, 12, 0).is_err());
    assert!(VertexDataAdapter::new(&data, 0, 0).is_err());
    // an adapter whose fields were set by hand is read with the same care
    let broken = VertexDataAdapter { data: &data, vertex_count: 3, vertex_stride: 16, position_offset: 8 };
    assert!(broken.xyz_bits_at(0).is_ok());
    assert_eq!(broken.xyz_bits_at(1).err(), Some(Error::PreconditionViolation));
    assert_eq!(broken.xyz_bits_at(2).err(), Some(Error::PreconditionViolation));
    assert_eq!(broken.xyz_bits_at(3).err(), Some(Error::PreconditionViolation));
    let bytes: Vec<u8> = (0..16).collect();
    let a = VertexDataAdapter::new(&bytes, 16, 2).unwrap();
    assert_eq!(a.xyz_bits_at(0), Ok([0x05040302, 0x09080706, 0x0d0c0b0a]));
}

#[test]
fn meshlets_hand_out_their_parts() {
    let meshlets = Meshlets {
        meshlets: vec![
            MeshletRange { vertex_offset: 0, triangle_offset: 0, vertex_count: 3, triangle_count: 1 },
            MeshletRange { vertex_offset: 3, triangle_offset: 4, vertex_count: 4, triangle_count: 2 },
        ],
        vertices: vec![10, 11, 12, 20, 21, 22, 23],
        triangles: vec![0, 1, 2, 0, 0, 1, 2, 2, 1, 3],
    };
    assert_eq!(meshlets.len(), 2);
    assert!(!meshlets.is_empty());
    let m: Meshlet<'_> = meshlets.get(1);
    assert_eq!(m.vertices, &[20, 21, 22, 23]);
    assert_eq!(m.triangles, &[0, 1, 2, 2, 1, 3]);
    let all = meshlets.iter();
    assert_eq!(all.len(), 2);
    assert_eq!(all[0].vertices, &[10, 11, 12]);
    assert_eq!(all[0].triangles, &[0, 1, 2]);
    let none = Meshlets { meshlets: vec![], vertices: vec![], triangles: vec![] };
    assert!(none.is_empty());
    assert_eq!(none.iter().len(), 0);
}

#[test]
fn error_codes() {
    assert_eq!(Error::FormatError.code(), -1);
    assert_eq!(Error::TruncatedInput.code(), -2);
    assert_eq!(Error::TrailingBytes.code(), -3);
    assert_eq!(Error::InvalidWidth.code(), -4);
    assert_eq!(Error::PreconditionViolation.code(), -5);
}

fn sorted_triangles(indices: &[u32]) -> Vec<(u32, u32, u32)> {
    let mut tris: Vec<(u32, u32, u32)> =
        indices.chunks(3).map(|t| (t[0], t[1], t[2])).collect();
    tris.sort();
    tris
}

#[test]
fn overdraw_clusters_start_at_new_patches() {
    // two patches of two triangles each: the second shares nothing with the first
    let indices = [0u32, 1, 2, 2, 1, 3, 4, 5, 6, 6, 5, 7];
    // a threshold of 1: a piece is closed when it misses no more than the cluster
    let clusters = overdraw_clusters(&indices, 8, 1, 1);
    assert_eq!(clusters, vec![0, 2]);
    // a threshold of 3 closes a piece at every triangle
    let clusters = overdraw_clusters(&indices, 8, 3, 1);
    assert_eq!(clusters, vec![0, 1, 2, 3]);
    assert_eq!(overdraw_clusters(&[], 0, 1, 1), Vec::<u32>::new());
    assert_eq!(overdraw_clusters(&[0, 1, 2], 3, 105, 100), vec![0]);
}

#[test]
fn reorder_clusters_sorts_by_key() {
    let indices = [0u32, 1, 2, 2, 1, 3, 4, 5, 6, 6, 5, 7, 8, 9, 10];
    let clusters = [0u32, 2, 4];
    let out = reorder_clusters(&indices, 11, &clusters, &[5, 1, 5], 1, 1);
    assert_eq!(out, vec![4, 5, 6, 6, 5, 7, 0, 1, 2, 2, 1, 3, 8, 9, 10]);
    let out = reorder_clusters(&indices, 11, &clusters, &[2047, 2047, 0], 1, 1);
    assert_eq!(out, vec![8, 9, 10, 0, 1, 2, 2, 1, 3, 4, 5, 6, 6, 5, 7]);
    // equal keys keep the old order
    let out = reorder_clusters(&indices, 11, &clusters, &[7, 7, 7], 1, 1);
    assert_eq!(out, indices.to_vec());
    // a cluster without a key, or with too large a key, has the last key
    let out = reorder_clusters(&indices, 11, &clusters, &[9999, 3], 1, 1);
    assert_eq!(out, vec![4, 5, 6, 6, 5, 7, 0, 1, 2, 2, 1, 3, 8, 9, 10]);
    let out = reorder_clusters(&[], 0, &[], &[], 1, 1);
    assert_eq!(out, Vec::<u32>::new());
}

#[test]
fn reorder_clusters_minds_the_cache() {
    // two triangles that share an edge, then six triangles apart from them
    // and from each other, which fill a cache of sixteen vertices
    let mut indices: Vec<u32> = vec![0, 1, 2, 2, 1, 3];
    for k in 0..6 {
        indices.extend_from_slice(&[10 + 3 * k, 11 + 3 * k, 12 + 3 * k]);
    }
    let clusters = [0u32, 1, 2];
    let keys = [0u16, 2, 1];
    // drawn as they are the triangles miss the cache 3 + 1 + 18 = 22 times;
    // with the six between the two, the second finds nothing: 3 + 18 + 3 = 24
    let mut sorted: Vec<u32> = vec![0, 1, 2];
    sorted.extend_from_slice(&indices[6..]);
    sorted.extend_from_slice(&[2, 1, 3]);
    // 24 is more than 22
    assert_eq!(reorder_clusters(&indices, 28, &clusters, &keys, 1, 1), indices);
    // and more than 1.09 times 22, but not more than 1.1 times 22
    assert_eq!(reorder_clusters(&indices, 28, &clusters, &keys, 109, 100), indices);
    assert_eq!(reorder_clusters(&indices, 28, &clusters, &keys, 11, 10), sorted);
    assert_eq!(reorder_clusters(&indices, 28, &clusters, &keys, 3, 1), sorted);

    // a strip cut in two costs the same back to front: 6 misses either way
    let strip = [0u32, 1, 2, 2, 1, 3, 2, 3, 4, 4, 3, 5];
    assert_eq!(
        reorder_clusters(&strip, 6, &[0, 2], &[1, 0], 1, 1),
        vec![2, 3, 4, 4, 3, 5, 0, 1, 2, 2, 1, 3]
    );
}

#[test]
fn meshlet_extent_rounds_the_triangles_up() {
    let last =
        MeshletRange { vertex_offset: 64, triangle_offset: 128, vertex_count: 7, triangle_count: 5 };
    // 15 micro indices take 16 places
    assert_eq!(meshlet_extent(last), (71, 144));
    let last =
        MeshletRange { vertex_offset: 0, triangle_offset: 0, vertex_count: 0, triangle_count: 0 };
    assert_eq!(meshlet_extent(last), (0, 0));
    let last =
        MeshletRange { vertex_offset: 3, triangle_offset: 8, vertex_count: 4, triangle_count: 4 };
    assert_eq!(meshlet_extent(last), (7, 20));
}

#[test]
fn a_meshlet_is_handed_out_beside_one_that_does_not_fit() {
    let meshlets = Meshlets {
        meshlets: vec![
            MeshletRange { vertex_offset: 0, triangle_offset: 0, vertex_count: 3, triangle_count: 1 },
            MeshletRange { vertex_offset: 2, triangle_offset: 0, vertex_count: 9, triangle_count: 9 },
        ],
        vertices: vec![10, 11, 12],
        triangles: vec![0, 1, 2],
    };
    let m = meshlets.get(0);
    assert_eq!(m.vertices, &[10, 11, 12]);
    assert_eq!(m.triangles, &[0, 1, 2]);
}
