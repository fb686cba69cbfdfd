use meshopt::{
    decode_index_buffer, decode_index_buffer_sized, decode_index_buffer_u16, encode_index_buffer,
    encode_index_buffer_bound, Error,
};

fn same_up_to_turn(a: &[u32], b: &[u32]) -> bool {
    if a.len() != b.len() || a.len() % 3 != 0 {
        return false;
    }
    for k in 0..a.len() / 3 {
        let x = (a[3 * k], a[3 * k + 1], a[3 * k + 2]);
        let y = (b[3 * k], b[3 * k + 1], b[3 * k + 2]);
        if !(x == y || x == (y.1, y.2, y.0) || x == (y.2, y.0, y.1)) {
            return false;
        }
    }
    true
}

const BREAKER: [u32; 12] = [0, 1, 2, 2, 1, 3, 4, 6, 5, 7, 8, 9];

#[test]
fn encode_index() {
    assert!(true);
    // the triangle 4 6 5 is written without a turn: its first and third
    // corners are new, so the numbering does not reach 6 and the next
    // triangle cannot continue it
    let buffer = encode_index_buffer(&BREAKER, 10).unwrap();
    assert!(buffer.len() <= encode_index_buffer_bound(BREAKER.len(), 10));

    for i in 0..=buffer.len() {
        let result = decode_index_buffer(&buffer[..i], BREAKER.len());
        if i == buffer.len() {
            assert!(same_up_to_turn(&result.unwrap(), &BREAKER));
        } else {
            assert!(result.is_err());
        }
    }

    let mut large = buffer.clone();
    large.push(0);
    assert!(decode_index_buffer(&large, BREAKER.len()).is_err());

    let mut broken = buffer.clone();
    broken[0] = 0;
    assert!(decode_index_buffer(&broken, BREAKER.len()).is_err());
}

#[test]
fn index_stream_bytes_of_the_breaker() {
    let buffer = encode_index_buffer(&BREAKER, 10).unwrap();
    let expected: Vec<u8> = vec![
        0xe1, 0xf0, 0x10, 0xfe, 0xff, // tag and one code byte per triangle
        0xf0, 0x0c, // 4 6 5: 4 and 5 are handed out in turn, 6 is a delta of +6
        0xff, 0x02, 0x02, 0x02, // 7 8 9: the numbering stands at 6, so three deltas of +1
        0x00, 0x76, 0x87, 0x56, 0x67, 0x78, 0xa9, 0x86, 0x65, 0x89, 0x68, 0x98, 0x01, 0x69, 0x00,
        0x00,
    ];
    assert_eq!(buffer, expected);
    assert_eq!(decode_index_buffer(&buffer, 12).unwrap(), BREAKER.to_vec());
}

#[test]
fn index_errors_are_told_apart() {
    let buffer = encode_index_buffer(&BREAKER, 10).unwrap();
    for i in 0..buffer.len() {
        assert_eq!(decode_index_buffer(&buffer[..i], 12), Err(Error::TruncatedInput));
    }
    let mut large = buffer.clone();
    large.push(0);
    assert_eq!(decode_index_buffer(&large, 12), Err(Error::TrailingBytes));
    large.extend_from_slice(&[1, 2, 3]);
    assert_eq!(decode_index_buffer(&large, 12), Err(Error::TrailingBytes));
    for tag in 0..=255u8 {
        let mut broken = buffer.clone();
        broken[0] = tag;
        if tag == 0xe1 {
            assert!(decode_index_buffer(&broken, 12).is_ok());
        } else {
            assert_eq!(decode_index_buffer(&broken, 12), Err(Error::FormatError));
        }
    }
    assert_eq!(decode_index_buffer(&buffer, 11), Err(Error::PreconditionViolation));
    assert_eq!(decode_index_buffer_sized(&buffer, 12, 3), Err(Error::InvalidWidth));
    assert_eq!(decode_index_buffer_sized(&buffer, 12, 0), Err(Error::InvalidWidth));
    assert_eq!(decode_index_buffer_sized(&buffer, 11, 8), Err(Error::InvalidWidth));
}

#[test]
fn index_encode_refuses_invalid_streams() {
    assert_eq!(encode_index_buffer(&[0, 1, 2], 2), Err(Error::PreconditionViolation));
    assert_eq!(encode_index_buffer(&[0, 1], 3), Err(Error::PreconditionViolation));
    assert_eq!(encode_index_buffer(&[0, 1, 2, 0], 3), Err(Error::PreconditionViolation));
    assert!(encode_index_buffer(&[0, 1, 2], 3).is_ok());
}

#[test]
fn index_empty_stream() {
    let buffer = encode_index_buffer(&[], 0).unwrap();
    assert_eq!(buffer.len(), 17);
    assert_eq!(buffer[0], 0xe1);
    assert_eq!(decode_index_buffer(&buffer, 0), Ok(vec![]));
    assert_eq!(decode_index_buffer(&buffer[..16], 0), Err(Error::TruncatedInput));
    assert_eq!(decode_index_buffer(&[], 0), Err(Error::TruncatedInput));
    assert_eq!(encode_index_buffer_bound(0, 0), 17);
}

#[test]
fn index_width_equivalence() {
    let buffer = encode_index_buffer(&BREAKER, 10).unwrap();
    let wide = decode_index_buffer(&buffer, 12).unwrap();
    let narrow = decode_index_buffer_u16(&buffer, 12).unwrap();
    assert_eq!(wide.len(), narrow.len());
    for i in 0..wide.len() {
        assert_eq!(wide[i], narrow[i] as u32);
    }
    assert_eq!(decode_index_buffer_sized(&buffer, 12, 2), Ok(wide.clone()));
    assert_eq!(decode_index_buffer_sized(&buffer, 12, 4), Ok(wide));
}

#[test]
fn index_width_two_reduces_large_indices() {
    let indices = [70000u32, 65536, 3];
    let buffer = encode_index_buffer(&indices, 70001).unwrap();
    assert_eq!(decode_index_buffer_sized(&buffer, 3, 4), Ok(vec![70000, 65536, 3]));
    assert_eq!(decode_index_buffer_sized(&buffer, 3, 2), Ok(vec![4464, 0, 3]));
    assert_eq!(decode_index_buffer_u16(&buffer, 3), Ok(vec![4464u16, 0, 3]));
}

#[test]
fn index_bound_values() {
    assert_eq!(encode_index_buffer_bound(12, 10), 1 + 4 * 5 + 16);
    assert_eq!(encode_index_buffer_bound(12, 64), 1 + 4 * 5 + 16);
    assert_eq!(encode_index_buffer_bound(12, 65), 1 + 4 * 8 + 16);
    assert_eq!(encode_index_buffer_bound(3, 8192), 1 + 8 + 16);
    assert_eq!(encode_index_buffer_bound(3, 8193), 1 + 11 + 16);
    assert_eq!(encode_index_buffer_bound(3, 1 << 20), 1 + 11 + 16);
    assert_eq!(encode_index_buffer_bound(3, (1 << 20) + 1), 1 + 14 + 16);
    assert_eq!(encode_index_buffer_bound(3, 1 << 27), 1 + 14 + 16);
    assert_eq!(encode_index_buffer_bound(3, (1 << 27) + 1), 1 + 17 + 16);
    assert_eq!(encode_index_buffer_bound(usize::MAX, 10), usize::MAX);
}

fn lcg(state: &mut u64) -> u32 {
    *state = state.wrapping_mul(6364136223846793005).wrapping_add(1442695040888963407);
    (*state >> 33) as u32
}

#[test]
fn index_round_trip_on_many_streams() {
    let mut seed = 12345u64;
    for round in 0..200 {
        let vertex_count = 1 + (lcg(&mut seed) % 40) as usize;
        let triangles = (lcg(&mut seed) % 60) as usize;
        let mut indices = Vec::new();
        for _ in 0..triangles * 3 {
            indices.push(lcg(&mut seed) % vertex_count as u32);
        }
        if round % 3 == 0 {
            // a strip, where consecutive triangles share an edge
            indices.clear();
            for k in 0..triangles {
                let k = k as u32 % vertex_count as u32;
                let m = vertex_count as u32;
                if k % 2 == 0 {
                    indices.extend_from_slice(&[k % m, (k + 1) % m, (k + 2) % m]);
                } else {
                    indices.extend_from_slice(&[(k + 1) % m, k % m, (k + 2) % m]);
                }
            }
        }
        let buffer = encode_index_buffer(&indices, vertex_count).unwrap();
        assert!(buffer.len() <= encode_index_buffer_bound(indices.len(), vertex_count));
        let decoded = decode_index_buffer(&buffer, indices.len()).unwrap();
        assert!(same_up_to_turn(&decoded, &indices));
        if !buffer.is_empty() {
            assert_eq!(
                decode_index_buffer(&buffer[..buffer.len() - 1], indices.len()),
                Err(Error::TruncatedInput)
            );
        }
    }
}

#[test]
fn index_round_trip_with_extreme_indices() {
    let indices = [u32::MAX, 0, u32::MAX - 1, 0, 1, 2, 5, 0x8000_0000, 0x7fff_ffff];
    let buffer = encode_index_buffer(&indices, usize::MAX).unwrap();
    let decoded = decode_index_buffer(&buffer, indices.len()).unwrap();
    assert!(same_up_to_turn(&decoded, &indices));
}

#[test]
fn index_restart_is_read_back() {
    // the second 0 1 2 restarts the numbering
    let indices = [0u32, 1, 2, 3, 4, 5, 0, 1, 2, 3, 4, 5, 6, 7, 8];
    let buffer = encode_index_buffer(&indices, 9).unwrap();
    assert_eq!(buffer[3], 0xfe);
    let decoded = decode_index_buffer(&buffer, indices.len()).unwrap();
    assert!(same_up_to_turn(&decoded, &indices));
}

#[test]
fn garbage_never_panics() {
    let mut seed = 99u64;
    for _ in 0..2000 {
        let len = (lcg(&mut seed) % 80) as usize;
        let mut bytes = Vec::new();
        for _ in 0..len {
            bytes.push(lcg(&mut seed) as u8);
        }
        if len > 0 && lcg(&mut seed) % 2 == 0 {
            bytes[0] = 0xe1;
        }
        let count = 3 * (lcg(&mut seed) % 20) as usize;
        if let Ok(v) = decode_index_buffer(&bytes, count) {
            assert_eq!(v.len(), count);
        }
    }
}
