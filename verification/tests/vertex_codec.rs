use meshopt::{
    decode_vertex_buffer, encode_vertex_buffer, encode_vertex_buffer_bound, Error,
    PackedVertex, PackedVertexOct,
};

fn four_vertices() -> Vec<PackedVertexOct> {
    let mut vertices: Vec<PackedVertexOct> = Vec::with_capacity(4);

    vertices.push(PackedVertexOct {
        p: [0, 0, 0],
        n: [0, 0],
        t: [0, 0],
    });

    vertices.push(PackedVertexOct {
        p: [300, 0, 0],
        n: [0, 0],
        t: [500, 0],
    });

    vertices.push(PackedVertexOct {
        p: [0, 300, 0],
        n: [0, 0],
        t: [0, 500],
    });

    vertices.push(PackedVertexOct {
        p: [300, 300, 0],
        n: [0, 0],
        t: [500, 500],
    });
    vertices
}

fn bytes_of(vertices: &[PackedVertexOct]) -> Vec<u8> {
    let mut bytes = Vec::new();
    for v in vertices {
        v.write_bytes(&mut bytes);
    }
    bytes
}

#[test]
fn encode_vertex() {
    assert!(true);

    let vertices = four_vertices();
    let bytes = bytes_of(&vertices);
    assert_eq!(bytes.len(), 4 * PackedVertexOct::SIZE);

    let buffer = encode_vertex_buffer(&bytes, PackedVertexOct::SIZE).unwrap();
    assert!(buffer.len() <= encode_vertex_buffer_bound(4, PackedVertexOct::SIZE));

    for i in 0..=buffer.len() {
        let result = decode_vertex_buffer(&buffer[..i], 4, PackedVertexOct::SIZE);
        if i == buffer.len() {
            assert_eq!(result, Ok(bytes.clone()));
        } else {
            assert!(result.is_err());
        }
    }

    let mut large = buffer.clone();
    large.push(0);
    assert!(decode_vertex_buffer(&large, 4, PackedVertexOct::SIZE).is_err());

    let mut broken = buffer.clone();
    broken[0] = 0;
    assert!(decode_vertex_buffer(&broken, 4, PackedVertexOct::SIZE).is_err());
}

#[test]
fn packed_vertex_bytes() {
    let v = PackedVertexOct { p: [0x0102, 300, 0], n: [7, 9], t: [500, 0xffff] };
    let mut bytes = Vec::new();
    v.write_bytes(&mut bytes);
    assert_eq!(bytes, vec![0x02, 0x01, 0x2c, 0x01, 0, 0, 7, 9, 0xf4, 0x01, 0xff, 0xff]);

    let w = PackedVertex { p: [1, 2, 3, 0], n: [-1, 127, -128, 0], t: [0x8000, 5] };
    let mut bytes = vec![0xaa];
    w.write_bytes(&mut bytes);
    assert_eq!(bytes, vec![0xaa, 1, 0, 2, 0, 3, 0, 0, 0, 0xff, 0x7f, 0x80, 0, 0, 0x80, 5, 0]);
    assert_eq!(PackedVertex::SIZE, 16);
}

#[test]
fn vertex_stream_bytes_of_one_record() {
    let buffer = encode_vertex_buffer(&[1, 2, 3, 4], 4).unwrap();
    let mut expected = vec![0xa0u8, 0, 0, 0, 0];
    expected.extend_from_slice(&[0u8; 28]);
    expected.extend_from_slice(&[1, 2, 3, 4]);
    assert_eq!(buffer, expected);
    assert_eq!(decode_vertex_buffer(&buffer, 1, 4), Ok(vec![1, 2, 3, 4]));
}

#[test]
fn vertex_stream_bytes_of_two_records() {
    let buffer = encode_vertex_buffer(&[1, 2, 3, 4, 2, 2, 3, 0], 4).unwrap();
    let mut expected = vec![0xa0u8];
    // place 0: +1 folds to 2, in fields of two bits
    expected.extend_from_slice(&[0x01, 0x20, 0, 0, 0]);
    // places 1 and 2: nothing changes
    expected.extend_from_slice(&[0x00, 0x00]);
    // place 3: -4 folds to 7, an escape in fields of two bits
    expected.extend_from_slice(&[0x01, 0x30, 0, 0, 0, 0x07]);
    expected.extend_from_slice(&[0u8; 28]);
    expected.extend_from_slice(&[1, 2, 3, 4]);
    assert_eq!(buffer, expected);
    assert_eq!(decode_vertex_buffer(&buffer, 2, 4), Ok(vec![1, 2, 3, 4, 2, 2, 3, 0]));
}

#[test]
fn vertex_empty_buffer() {
    let buffer = encode_vertex_buffer(&[], 8).unwrap();
    assert_eq!(buffer.len(), 33);
    assert_eq!(buffer[0], 0xa0);
    assert_eq!(decode_vertex_buffer(&buffer, 0, 8), Ok(vec![]));
    assert_eq!(decode_vertex_buffer(&buffer[..32], 0, 8), Err(Error::TruncatedInput));
    assert_eq!(encode_vertex_buffer_bound(0, 8), 33);
}

#[test]
fn vertex_errors_are_told_apart() {
    let bytes = bytes_of(&four_vertices());
    let buffer = encode_vertex_buffer(&bytes, 12).unwrap();
    for i in 0..buffer.len() {
        assert_eq!(decode_vertex_buffer(&buffer[..i], 4, 12), Err(Error::TruncatedInput));
    }
    let mut large = buffer.clone();
    large.push(0);
    assert_eq!(decode_vertex_buffer(&large, 4, 12), Err(Error::TrailingBytes));
    for tag in 0..=255u8 {
        let mut broken = buffer.clone();
        broken[0] = tag;
        if tag == 0xa0 {
            assert!(decode_vertex_buffer(&broken, 4, 12).is_ok());
        } else {
            assert_eq!(decode_vertex_buffer(&broken, 4, 12), Err(Error::FormatError));
        }
    }
    // records of no size are none
    assert_eq!(decode_vertex_buffer(&buffer, 4, 0), Err(Error::PreconditionViolation));
    assert_eq!(encode_vertex_buffer(&bytes, 0), Err(Error::PreconditionViolation));
    assert_eq!(encode_vertex_buffer(&[], 0), Err(Error::PreconditionViolation));
    // 48 bytes are no whole records of 260, 32 or 7 bytes
    assert_eq!(encode_vertex_buffer(&bytes, 260), Err(Error::PreconditionViolation));
    assert_eq!(encode_vertex_buffer(&bytes, 32), Err(Error::PreconditionViolation));
    assert_eq!(encode_vertex_buffer(&bytes, 7), Err(Error::PreconditionViolation));
    assert_eq!(encode_vertex_buffer(&bytes[..47], 12), Err(Error::PreconditionViolation));
    // a stream is shorter than one record of 260 bytes
    assert_eq!(decode_vertex_buffer(&buffer, 4, 260), Err(Error::TruncatedInput));
}

fn lcg(state: &mut u64) -> u32 {
    *state = state.wrapping_mul(6364136223846793005).wrapping_add(1442695040888963407);
    (*state >> 33) as u32
}

#[test]
fn vertex_round_trip_on_many_buffers() {
    let mut seed = 777u64;
    for round in 0..60 {
        let vs = 4 * (1 + (lcg(&mut seed) % 64) as usize);
        let n = match round % 4 {
            0 => (lcg(&mut seed) % 5) as usize,
            1 => 250 + (lcg(&mut seed) % 20) as usize,
            2 => 31 + (lcg(&mut seed) % 4) as usize,
            _ => (lcg(&mut seed) % 700) as usize,
        };
        let spread = [1u32, 3, 4, 16, 17, 256][(round % 6) as usize];
        let mut bytes = Vec::with_capacity(n * vs);
        for _ in 0..n * vs {
            bytes.push((lcg(&mut seed) % spread) as u8);
        }
        let buffer = encode_vertex_buffer(&bytes, vs).unwrap();
        assert!(buffer.len() <= encode_vertex_buffer_bound(n, vs));
        assert_eq!(decode_vertex_buffer(&buffer, n, vs), Ok(bytes));
        assert_eq!(
            decode_vertex_buffer(&buffer[..buffer.len() - 1], n, vs),
            Err(Error::TruncatedInput)
        );
    }
}

#[test]
fn vertex_records_of_any_size() {
    let mut seed = 2025u64;
    for &vs in &[1usize, 2, 3, 5, 6, 7, 10, 13, 31, 33, 255, 257, 300, 511, 513, 600, 1000, 9000] {
        for &n in &[0usize, 1, 2, 15, 16, 17, 40] {
            let mut bytes = Vec::with_capacity(n * vs);
            for _ in 0..n * vs {
                bytes.push((lcg(&mut seed) % 7) as u8);
            }
            let buffer = encode_vertex_buffer(&bytes, vs).unwrap();
            assert_eq!(buffer[0], 0xa0);
            assert!(buffer.len() <= encode_vertex_buffer_bound(n, vs));
            assert_eq!(decode_vertex_buffer(&buffer, n, vs), Ok(bytes));
            assert_eq!(
                decode_vertex_buffer(&buffer[..buffer.len() - 1], n, vs),
                Err(Error::TruncatedInput)
            );
            let mut long = buffer.clone();
            long.push(0);
            assert_eq!(decode_vertex_buffer(&long, n, vs), Err(Error::TrailingBytes));
        }
    }
}

#[test]
fn vertex_stream_bytes_of_a_record_of_six_bytes() {
    let buffer = encode_vertex_buffer(&[1, 2, 3, 4, 5, 6], 6).unwrap();
    let mut expected = vec![0xa0u8, 0, 0, 0, 0, 0, 0];
    expected.extend_from_slice(&[0u8; 26]);
    expected.extend_from_slice(&[1, 2, 3, 4, 5, 6]);
    assert_eq!(buffer, expected);
    // one record of a single byte, then a second that is larger by one
    let buffer = encode_vertex_buffer(&[9, 10], 1).unwrap();
    let mut expected = vec![0xa0u8, 0x01, 0x20, 0, 0, 0];
    expected.extend_from_slice(&[0u8; 31]);
    expected.push(9);
    assert_eq!(buffer, expected);
    assert_eq!(decode_vertex_buffer(&buffer, 2, 1), Ok(vec![9, 10]));
}

#[test]
fn vertex_bound_values() {
    // records of 6 bytes: 256 in a block
    assert_eq!(encode_vertex_buffer_bound(1, 6), 1 + 6 * 260 + 32);
    // records of 300 and of 600 bytes: 16 in a block, 1 header byte a plane
    assert_eq!(encode_vertex_buffer_bound(16, 300), 1 + 300 * 17 + 300);
    assert_eq!(encode_vertex_buffer_bound(17, 600), 1 + 2 * 600 * 17 + 600);
    // records of no size take the tag and the tail
    assert_eq!(encode_vertex_buffer_bound(5, 0), 33);
    assert_eq!(encode_vertex_buffer_bound(3, usize::MAX), usize::MAX);
    // records of 12 bytes: 256 in a block, 4 header bytes and 256 bytes a plane
    assert_eq!(encode_vertex_buffer_bound(4, 12), 1 + 12 * 260 + 32);
    assert_eq!(encode_vertex_buffer_bound(256, 12), 1 + 12 * 260 + 32);
    assert_eq!(encode_vertex_buffer_bound(257, 12), 1 + 2 * 12 * 260 + 32);
    // records of 256 bytes: 32 in a block, 1 header byte and 32 bytes a plane
    assert_eq!(encode_vertex_buffer_bound(33, 256), 1 + 2 * 256 * 33 + 256);
    // records of 36 bytes: 227 fit, 224 in a block
    assert_eq!(encode_vertex_buffer_bound(224, 36), 1 + 36 * (4 + 224) + 36);
    assert_eq!(encode_vertex_buffer_bound(usize::MAX, 4), usize::MAX);
}

#[test]
fn vertex_garbage_never_panics() {
    let mut seed = 4242u64;
    for _ in 0..3000 {
        let len = (lcg(&mut seed) % 120) as usize;
        let mut bytes = Vec::new();
        for _ in 0..len {
            bytes.push(lcg(&mut seed) as u8);
        }
        if len > 0 && lcg(&mut seed) % 4 != 0 {
            bytes[0] = 0xa0;
        }
        let vs = 4 * (1 + (lcg(&mut seed) % 4) as usize);
        let n = (lcg(&mut seed) % 40) as usize;
        if let Ok(v) = decode_vertex_buffer(&bytes, n, vs) {
            assert_eq!(v.len(), n * vs);
        }
    }
}
