use crc32fold::accumulator::{bytes_down, bytes_up, extract_epi32, reg, Accumulator};
use crc32fold::block::{copy_bytes, load};
use crc32fold::clmul::{clmul64, clmulepi64};

fn bytes(len: usize, salt: u64) -> Vec<u8> {
    let mut state = salt.wrapping_mul(0xd6e8_feb8_6659_fd93).wrapping_add(5);
    let mut v = Vec::with_capacity(len);
    for _ in 0..len {
        state = state.wrapping_mul(6364136223846793005).wrapping_add(1442695040888963407);
        v.push((state >> 35) as u8);
    }
    v
}

fn reference(v: &[u8], start: u32) -> u32 {
    let mut h = crc32fast::Hasher::new_with_initial(start);
    h.update(v);
    h.finalize()
}

#[test]
fn a_fresh_accumulator_finishes_at_zero() {
    assert_eq!(Accumulator::new().finish(), 0);
}

#[test]
fn fold_from_every_address_and_of_every_length() {
    let v = bytes(300, 1);
    for from in 0..16usize {
        for len in 31..200usize {
            let piece = &v[from..from + len];
            let mut acc = Accumulator::new();
            acc.fold(piece, 0);
            assert_eq!(acc.finish(), reference(piece, 0), "{} bytes from {}", len, from);
        }
    }
}

#[test]
fn fold_with_a_seed_from_every_address_and_of_every_length() {
    let v = bytes(300, 2);
    for from in 0..16usize {
        for len in 16..120usize {
            let piece = &v[from..from + len];
            let mut acc = Accumulator::new();
            acc.fold(piece, 0xfedc_ba98);
            assert_eq!(acc.finish(), reference(piece, 0xfedc_ba98), "{} bytes from {}", len, from);
        }
    }
}

#[test]
fn fold_of_less_than_a_block_leaves_the_seed_aside() {
    let v = bytes(40, 3);
    for from in 0..16usize {
        for len in 0..16usize {
            let piece = &v[from..from + len];
            let mut acc = Accumulator::new();
            acc.fold(piece, 1);
            assert_eq!(acc.finish(), reference(piece, 0), "{} bytes from {}", len, from);
        }
    }
}

#[test]
fn fold_copy_from_every_address_and_of_every_length() {
    let v = bytes(300, 4);
    for from in 0..16usize {
        for len in 31..150usize {
            let piece = &v[from..from + len];
            let mut dst = vec![0x5au8; len];
            let mut acc = Accumulator::new();
            acc.fold_copy(&mut dst, piece);
            assert_eq!(acc.finish(), reference(piece, 0), "{} bytes from {}", len, from);
            assert_eq!(&dst[..], piece);
        }
    }
}

#[test]
fn folds_one_after_the_other() {
    let v = bytes(400, 5);
    let mut acc = Accumulator::new();
    acc.fold(&v[..31], 9);
    acc.fold(&v[31..95], 0);
    acc.fold(&v[95..300], 0);
    acc.fold(&v[300..], 0);
    assert_eq!(acc.finish(), reference(&v, 9));
}

#[test]
fn clmul64_exact() {
    assert_eq!(clmul64(0, 0xffff), 0);
    assert_eq!(clmul64(1, 0xabcd), 0xabcd);
    assert_eq!(clmul64(3, 3), 5);
    assert_eq!(clmul64(0b101, 0b111), 0b11011);
    assert_eq!(
        clmul64(0xffff_ffff_ffff_ffff, 0xffff_ffff_ffff_ffff),
        0x5555_5555_5555_5555_5555_5555_5555_5555
    );
    assert_eq!(
        clmul64(0x1_c6e4_1596, 0x1234_5678_9abc_def0),
        0x1fc0_493b_2337_7d4e_69a2_6120
    );
    assert_eq!(
        clmul64(0x1234_5678_9abc_def0, 0x1_c6e4_1596),
        0x1fc0_493b_2337_7d4e_69a2_6120
    );
}

#[test]
fn clmulepi64_picks_the_halves() {
    let a: u128 = (7u128 << 64) | 3;
    let b: u128 = (0x11u128 << 64) | 5;
    assert_eq!(clmulepi64(a, b, 0x00), clmul64(3, 5));
    assert_eq!(clmulepi64(a, b, 0x01), clmul64(7, 5));
    assert_eq!(clmulepi64(a, b, 0x10), clmul64(3, 0x11));
    assert_eq!(clmulepi64(a, b, 0x11), clmul64(7, 0x11));
    assert_eq!(clmulepi64(a, b, 0x00), 15);
    assert_eq!(clmulepi64(a, b, 0x11), 0x77);
}

#[test]
fn reg_puts_the_first_word_lowest() {
    assert_eq!(reg([1, 2, 3, 4]), 0x0000_0004_0000_0003_0000_0002_0000_0001);
    assert_eq!(reg([0x9db4_2487, 0, 0, 0]), 0x9db4_2487);
    assert_eq!(reg([0, 0, 0, 0xffff_ffff]), 0xffff_ffff_0000_0000_0000_0000_0000_0000);
}

#[test]
fn lanes_shift_by_bytes() {
    let v: u128 = 0x0f0e_0d0c_0b0a_0908_0706_0504_0302_0100;
    assert_eq!(bytes_down(v, 0), v);
    assert_eq!(bytes_down(v, 1), 0x000f_0e0d_0c0b_0a09_0807_0605_0403_0201);
    assert_eq!(bytes_down(v, 15), 0x0f);
    assert_eq!(bytes_up(v, 16), v);
    assert_eq!(bytes_up(v, 1), 0);
    assert_eq!(bytes_up(v, 2), 0x0100_0000_0000_0000_0000_0000_0000_0000);
    assert_eq!(bytes_up(v, 15), 0x0e0d_0c0b_0a09_0807_0605_0403_0201_0000);
    assert_eq!(extract_epi32(v, 0), 0x0302_0100);
    assert_eq!(extract_epi32(v, 2), 0x0b0a_0908);
    assert_eq!(extract_epi32(v, 3), 0x0f0e_0d0c);
}

#[test]
fn load_puts_the_first_byte_lowest() {
    let v: Vec<u8> = (0..32u8).collect();
    assert_eq!(load(&v, 0, 16), 0x0f0e_0d0c_0b0a_0908_0706_0504_0302_0100);
    assert_eq!(load(&v, 16, 16), 0x1f1e_1d1c_1b1a_1918_1716_1514_1312_1110);
    assert_eq!(load(&v, 5, 3), 0x07_0605);
    assert_eq!(load(&v, 31, 1), 0x1f);
    assert_eq!(load(&v, 32, 0), 0);
}

#[test]
fn copy_bytes_writes_the_range_and_nothing_else() {
    let src: Vec<u8> = (0..20u8).collect();
    let mut dst = vec![0xffu8; 20];
    copy_bytes(&mut dst, &src, 4, 6);
    let mut expected = vec![0xffu8; 20];
    expected[4..10].copy_from_slice(&src[4..10]);
    assert_eq!(dst, expected);
    copy_bytes(&mut dst, &src, 0, 0);
    assert_eq!(dst, expected);
    copy_bytes(&mut dst, &src, 0, 20);
    assert_eq!(dst, src);
}

#[test]
fn a_fresh_accumulator_has_its_first_lane_set() {
    assert_eq!(format!("{:?}", Accumulator::new()), "Accumulator { fold: [2645828743, 0, 0, 0] }");
    assert_eq!(0x9db4_2487u32, 2645828743);
}

#[test]
fn fold_help_for_every_number_of_leading_bytes() {
    let v = bytes(200, 6);
    for align_diff in 0..16usize {
        for len in 31..130usize {
            let piece = &v[..len];
            let mut acc = Accumulator::new();
            acc.fold_help::<false>(&mut [], piece, 0, align_diff);
            assert_eq!(acc.finish(), reference(piece, 0), "{} bytes, {} first", len, align_diff);
        }
    }
}

#[test]
fn fold_help_with_a_seed_for_every_number_of_leading_bytes() {
    let v = bytes(200, 7);
    for align_diff in 0..16usize {
        for len in 16..100usize {
            let piece = &v[..len];
            let mut acc = Accumulator::new();
            acc.fold_help::<false>(&mut [], piece, 0x0badcafe, align_diff);
            assert_eq!(
                acc.finish(),
                reference(piece, 0x0badcafe),
                "{} bytes, {} first",
                len,
                align_diff
            );
        }
        for len in 0..16usize {
            let piece = &v[..len];
            let mut acc = Accumulator::new();
            acc.fold_help::<false>(&mut [], piece, 0x0badcafe, align_diff);
            assert_eq!(acc.finish(), reference(piece, 0), "{} bytes, {} first", len, align_diff);
        }
    }
}

#[test]
fn fold_help_leaves_the_same_lanes_with_and_without_the_copy() {
    let v = bytes(200, 8);
    for align_diff in 0..16usize {
        for len in [31usize, 32, 47, 48, 63, 64, 65, 100, 128, 199] {
            let piece = &v[..len];
            let mut plain = Accumulator::new();
            plain.fold_help::<false>(&mut [], piece, 0, align_diff);
            let mut copying = Accumulator::new();
            let mut dst = vec![0u8; len];
            copying.fold_help::<true>(&mut dst, piece, 0, align_diff);
            assert_eq!(format!("{:?}", plain), format!("{:?}", copying));
            assert_eq!(&dst[..], piece);
            // a pass that copies takes no seed
            let mut seeded = Accumulator::new();
            let mut dst = vec![0u8; len];
            seeded.fold_help::<true>(&mut dst, piece, 77, align_diff);
            assert_eq!(format!("{:?}", plain), format!("{:?}", seeded));
            assert_eq!(&dst[..], piece);
        }
    }
}

#[test]
fn fold_help_without_the_copy_leaves_dst_alone() {
    let v = bytes(64, 9);
    let mut dst = vec![0x33u8; 64];
    let mut acc = Accumulator::new();
    acc.fold_help::<false>(&mut dst, &v, 0, 5);
    assert_eq!(dst, vec![0x33u8; 64]);
    assert_eq!(acc.finish(), reference(&v, 0));
}

#[test]
fn the_lanes_after_a_fold() {
    let mut acc = Accumulator::new();
    acc.fold_help::<false>(&mut [], &[0u8; 31], 0, 0);
    assert_eq!(format!("{:?}", acc), "Accumulator { fold: [0, 0, 3270960533565887556608, 0] }");

    let src: Vec<u8> = (1..41u8).collect();
    let mut acc = Accumulator::new();
    acc.fold_help::<false>(&mut [], &src, 0, 0);
    assert_eq!(
        format!("{:?}", acc),
        "Accumulator { fold: [0, 246357372652072596776712934433960755200, \
         32021342609599730225796066480199764489, 53372393083070378913694081064153848345] }"
    );
    // other lanes, the same register, where five bytes go first
    let mut other = Accumulator::new();
    other.fold_help::<false>(&mut [], &src, 0, 5);
    assert_eq!(
        format!("{:?}", other),
        "Accumulator { fold: [0, 10670292136129081555712036959689522146, \
         32021342609599730225796066480199764489, 53372393083070378913694081064153848345] }"
    );
    assert_eq!(acc.finish(), other.finish());
    // two bytes cannot carry a seed: the first block goes before them
    let mut seeded = Accumulator::new();
    seeded.fold_help::<false>(&mut [], &src, 7, 2);
    assert_eq!(
        format!("{:?}", seeded),
        "Accumulator { fold: [0, 246357372652072596721372702212832100352, \
         32021342609599730225796066480199764489, 53372393083070378913694081064153848345] }"
    );
    assert_eq!(seeded.finish(), reference(&src, 7));
}
