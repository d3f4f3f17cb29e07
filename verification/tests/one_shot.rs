use crc32fold::{crc32, crc32_braid, crc32_copy};

const CRC32_INITIAL_VALUE: u32 = 0;

fn input() -> [u8; 1024] {
    let mut array = [0u8; 1024];
    let mut i = 0;
    while i < array.len() {
        array[i] = i as u8;
        i += 1;
    }
    array
}

fn noise(len: usize, salt: u64) -> Vec<u8> {
    let mut state = salt.wrapping_mul(0x9e37_79b9_7f4a_7c15).wrapping_add(0x1234_5678_9abc_def1);
    let mut v = Vec::with_capacity(len);
    for _ in 0..len {
        state = state.wrapping_mul(6364136223846793005).wrapping_add(1442695040888963407);
        v.push((state >> 33) as u8);
    }
    v
}

fn reference(v: &[u8], start: u32) -> u32 {
    let mut h = crc32fast::Hasher::new_with_initial(start);
    h.update(v);
    h.finalize()
}

#[test]
fn test_crc32_fold() {
    // input large enough to take the folding path
    let input = input();
    let mut h = crc32fast::Hasher::new_with_initial(CRC32_INITIAL_VALUE);
    h.update(&input);
    assert_eq!(crc32(&input, CRC32_INITIAL_VALUE), h.finalize());
}

#[test]
fn test_crc32_fold_copy() {
    // input large enough to take the folding path
    let input = input();
    let mut h = crc32fast::Hasher::new_with_initial(CRC32_INITIAL_VALUE);
    h.update(&input);
    let mut dst = [0; 1024];
    assert_eq!(crc32_copy(&mut dst, &input), h.finalize());

    assert_eq!(input, dst);
}

#[test]
fn crc_fold_is_crc32fast() {
    for round in 0..300u64 {
        let len = (round as usize * 7) % 523;
        let v = noise(len, round);
        let start = (round as u32).wrapping_mul(0x9e37_79b1) ^ (round as u32 >> 3);
        assert_eq!(crc32(&v, start), reference(&v, start), "length {}", len);
    }
}

#[test]
fn crc_fold_copy_is_crc32fast() {
    for round in 0..300u64 {
        let len = (round as usize * 11) % 517;
        let v = noise(len, round + 1000);
        let mut dst = vec![0; v.len()];
        let a = crc32_copy(&mut dst, &v);
        assert_eq!(a, reference(&v, CRC32_INITIAL_VALUE), "length {}", len);
        assert_eq!(v, dst);
    }
}

#[test]
fn crc32_of_nothing_is_zero() {
    assert_eq!(crc32(&[], 0), 0);
    assert_eq!(crc32_braid(&[], 0), 0);
    let mut dst: [u8; 0] = [];
    assert_eq!(crc32_copy(&mut dst, &[]), 0);
}

#[test]
fn crc32_of_nothing_is_the_start() {
    assert_eq!(crc32(&[], 0xdead_beef), 0xdead_beef);
}

#[test]
fn crc32_check_value() {
    assert_eq!(crc32(b"123456789", 0), 0xcbf4_3926);
    assert_eq!(crc32_braid(b"123456789", 0), 0xcbf4_3926);
    assert_eq!(crc32(b"123456789", 0xdead_beef), 0xe34f_7c78);
}

#[test]
fn crc32_golden_1024() {
    let input = input();
    assert_eq!(crc32(&input, 0), 0xb70b_4c26);
    assert_eq!(crc32_braid(&input, 0), 0xb70b_4c26);
    assert_eq!(crc32(&input, 0x1234_5678), 0x3d41_f3db);
    assert_eq!(crc32_braid(&input, 0x1234_5678), 0x3d41_f3db);
}

#[test]
fn crc32_copy_golden_1024() {
    let input = input();
    let mut dst = vec![0xaau8; 1024];
    assert_eq!(crc32_copy(&mut dst, &input), 0xb70b_4c26);
    assert_eq!(&dst[..], &input[..]);
}

#[test]
fn crc32_at_the_boundary_lengths() {
    let input = input();
    let expected: [(usize, u32, u32); 12] = [
        (0, 0x0, 0x0),
        (1, 0xd202_ef8d, 0x4b0b_be37),
        (15, 0xa06c_675e, 0x6c3b_5d0f),
        (16, 0xcece_e288, 0xb168_b809),
        (17, 0x2c18_3a19, 0x2fd1_7e4f),
        (31, 0x4d78_6d77, 0xc8aa_c6a3),
        (32, 0x9126_7e8a, 0x4875_f6fd),
        (47, 0x2f1c_12ce, 0xbb69_583f),
        (48, 0x0520_2171, 0xac08_fa68),
        (63, 0xdbde_a683, 0xeab4_178e),
        (64, 0x100e_ce8c, 0x403a_d501),
        (65, 0x40c0_6fd8, 0x4a90_f5e4),
    ];
    for (len, at_0, at_3) in expected {
        assert_eq!(crc32(&input[..len], 0), at_0, "length {}", len);
        assert_eq!(crc32(&input[3..3 + len], 0), at_3, "length {} from 3", len);
        let mut dst = vec![0u8; len];
        assert_eq!(crc32_copy(&mut dst, &input[3..3 + len]), at_3, "copy of length {}", len);
        assert_eq!(&dst[..], &input[3..3 + len]);
    }
}

#[test]
fn crc32_at_every_start_address() {
    let v = noise(400, 7);
    let lengths = [0usize, 1, 15, 16, 17, 31, 32, 47, 48, 63, 64, 65, 127, 128, 129, 300];
    for from in 0..17usize {
        for len in lengths {
            let piece = &v[from..from + len];
            assert_eq!(crc32(piece, 0), reference(piece, 0), "{} bytes from {}", len, from);
            assert_eq!(crc32(piece, 0x8001_0203), reference(piece, 0x8001_0203));
            let mut dst = vec![0u8; len];
            assert_eq!(crc32_copy(&mut dst, piece), reference(piece, 0));
            assert_eq!(&dst[..], piece);
        }
    }
}

#[test]
fn crc32_continues_a_checksum() {
    let v = noise(333, 3);
    let first = crc32(&v[..200], 0);
    assert_eq!(crc32(&v[200..], first), crc32(&v, 0));
    let first = crc32(&v[..20], 0);
    assert_eq!(crc32(&v[20..], first), crc32(&v, 0));
}

#[test]
fn crc32_braid_is_crc32fast() {
    for round in 0..100u64 {
        let v = noise((round as usize * 5) % 211, round + 77);
        let start = (round as u32).wrapping_mul(0x0101_0101);
        assert_eq!(crc32_braid(&v, start), reference(&v, start));
    }
}

#[test]
fn try_crc32_copy_writes_nothing_where_the_lengths_differ() {
    let input = input();
    for len in [0usize, 1, 63, 64, 65, 1024] {
        let buf = &input[..len];
        let mut short = vec![0x77u8; len.saturating_sub(1)];
        if len > 0 {
            assert_eq!(crc32fold::try_crc32_copy(&mut short, buf), None);
            assert_eq!(short, vec![0x77u8; len - 1]);
        }
        let mut long = vec![0x77u8; len + 1];
        assert_eq!(crc32fold::try_crc32_copy(&mut long, buf), None);
        assert_eq!(long, vec![0x77u8; len + 1]);
        let mut dst = vec![0x77u8; len];
        assert_eq!(crc32fold::try_crc32_copy(&mut dst, buf), Some(reference(buf, 0)));
        assert_eq!(&dst[..], buf);
    }
}
