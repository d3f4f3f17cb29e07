use crc32fold::Crc32Fold;

fn bytes(len: usize, salt: u64) -> Vec<u8> {
    let mut state = salt.wrapping_mul(0x2545_f491_4f6c_dd1d).wrapping_add(99);
    let mut v = Vec::with_capacity(len);
    for _ in 0..len {
        state = state.wrapping_mul(6364136223846793005).wrapping_add(1442695040888963407);
        v.push((state >> 40) as u8);
    }
    v
}

fn reference(v: &[u8], start: u32) -> u32 {
    let mut h = crc32fast::Hasher::new_with_initial(start);
    h.update(v);
    h.finalize()
}

#[test]
fn a_new_state_folds_and_holds_zero() {
    assert!(Crc32Fold::is_pclmulqdq());
    let state = Crc32Fold::new();
    assert!(state.is_folding());
    assert_eq!(state.finish(), 0);
    let state = Crc32Fold::with_folding(false);
    assert!(!state.is_folding());
    assert_eq!(state.finish(), 0);
    assert_eq!(Crc32Fold::with_folding(true).finish(), 0);
}

#[test]
fn one_chunk_by_folding() {
    let v = bytes(1000, 1);
    let mut state = Crc32Fold::new();
    state.fold(&v, 0);
    assert_eq!(state.finish(), reference(&v, 0));
}

#[test]
fn one_chunk_with_a_seed_by_folding() {
    let v = bytes(100, 2);
    let mut state = Crc32Fold::new();
    state.fold(&v, 7);
    assert_eq!(state.finish(), reference(&v, 7));
    let golden: Vec<u8> = (0..100u32).map(|i| i as u8).collect();
    let mut state = Crc32Fold::new();
    state.fold(&golden, 7);
    assert_eq!(state.finish(), 0xcb67_6567);
}

#[test]
fn a_block_is_enough_to_take_the_seed() {
    let v = bytes(64, 3);
    for len in 16..32usize {
        for from in 0..16usize {
            let mut state = Crc32Fold::new();
            state.fold(&v[from..from + len], 0x0102_0304);
            assert_eq!(
                state.finish(),
                reference(&v[from..from + len], 0x0102_0304),
                "{} bytes from {}",
                len,
                from
            );
        }
    }
}

#[test]
fn a_chunk_under_a_block_leaves_the_seed_aside_by_folding() {
    let golden: Vec<u8> = (0..10u8).collect();
    let mut state = Crc32Fold::new();
    state.fold(&golden, 5);
    assert_eq!(state.finish(), 0x456c_d746);
    assert_ne!(0x456c_d746, reference(&golden, 5));
    for len in 0..16usize {
        let v = bytes(len, len as u64);
        let mut state = Crc32Fold::with_folding(true);
        state.fold(&v, 5);
        assert_eq!(state.finish(), reference(&v, 0), "length {}", len);
    }
}

#[test]
fn the_bytewise_path_does_not_look_at_the_seed() {
    let v = bytes(100, 4);
    let mut state = Crc32Fold::with_folding(false);
    state.fold(&v, 7);
    assert_eq!(state.finish(), reference(&v, 0));
    let mut state = Crc32Fold::with_folding(false);
    state.fold(&v[..5], 0);
    state.fold(&v[5..], 1234);
    assert_eq!(state.finish(), reference(&v, 0));
}

#[test]
fn chunks_give_what_the_whole_gives() {
    let v = bytes(700, 5);
    let cuts: [&[usize]; 5] =
        [&[31], &[64, 128], &[100, 131, 162, 193], &[350], &[33, 66, 99, 600, 669]];
    for cut in cuts {
        for folding in [true, false] {
            let mut whole = Crc32Fold::with_folding(folding);
            whole.fold(&v, 0x5555_aaaa);
            let expected = whole.finish();

            let mut state = Crc32Fold::with_folding(folding);
            let mut from = 0;
            let mut seed = 0x5555_aaaa;
            for &to in cut {
                state.fold(&v[from..to], seed);
                seed = 0;
                from = to;
            }
            state.fold(&v[from..], seed);
            assert_eq!(state.finish(), expected);
            if folding {
                assert_eq!(expected, reference(&v, 0x5555_aaaa));
            } else {
                assert_eq!(expected, reference(&v, 0));
            }
        }
    }
}

#[test]
fn small_chunks_on_the_bytewise_path() {
    let v = bytes(50, 6);
    let mut state = Crc32Fold::with_folding(false);
    for b in v.chunks(1) {
        state.fold(b, 0);
    }
    assert_eq!(state.finish(), reference(&v, 0));
    let mut state = Crc32Fold::with_folding(false);
    state.fold(&[], 0);
    assert_eq!(state.finish(), 0);
}

#[test]
fn fold_copy_copies_and_sums() {
    let v = bytes(500, 8);
    for folding in [true, false] {
        let mut state = Crc32Fold::with_folding(folding);
        let mut dst = vec![0u8; 500];
        state.fold_copy(&mut dst[..200], &v[..200]);
        state.fold_copy(&mut dst[200..], &v[200..]);
        assert_eq!(state.finish(), reference(&v, 0));
        assert_eq!(dst, v);
    }
}

#[test]
fn fold_copy_after_fold() {
    let v = bytes(300, 9);
    let mut state = Crc32Fold::new();
    let mut dst = vec![0u8; 150];
    state.fold(&v[..150], 3);
    state.fold_copy(&mut dst, &v[150..]);
    assert_eq!(state.finish(), reference(&v, 3));
    assert_eq!(&dst[..], &v[150..]);
}

#[test]
fn fold_copy_of_a_short_chunk_on_the_bytewise_path() {
    let v = bytes(9, 10);
    let mut state = Crc32Fold::with_folding(false);
    let mut dst = [0u8; 9];
    state.fold_copy(&mut dst, &v);
    assert_eq!(state.finish(), reference(&v, 0));
    assert_eq!(&dst[..], &v[..]);
}

#[test]
fn a_seed_given_again_goes_into_the_checksum_again() {
    // by folding, a seed with a later chunk is taken into the checksum so far
    let v = bytes(200, 11);
    let mut state = Crc32Fold::new();
    state.fold(&v[..100], 0);
    state.fold(&v[100..], 0xff);
    let first = reference(&v[..100], 0);
    assert_eq!(state.finish(), reference(&v[100..], first ^ 0xff));
}

#[test]
fn a_new_state_holds_a_fresh_accumulator_and_zero() {
    let fresh = "Accumulator { fold: [2645828743, 0, 0, 0] }";
    assert_eq!(
        format!("{:?}", Crc32Fold::new()),
        format!("Crc32Fold {{ fold: {}, value: 0, folding: true }}", fresh)
    );
    assert_eq!(
        format!("{:?}", Crc32Fold::with_folding(false)),
        format!("Crc32Fold {{ fold: {}, value: 0, folding: false }}", fresh)
    );
}

#[test]
fn only_the_path_that_is_taken_changes() {
    let v = bytes(100, 12);
    let mut state = Crc32Fold::with_folding(true);
    state.fold(&v, 3);
    let mut dst = vec![0u8; 100];
    state.fold_copy(&mut dst, &v);
    assert!(format!("{:?}", state).ends_with("value: 0, folding: true }"));

    let mut state = Crc32Fold::with_folding(false);
    state.fold(&v, 3);
    state.fold_copy(&mut dst, &v);
    assert!(format!("{:?}", state)
        .starts_with("Crc32Fold { fold: Accumulator { fold: [2645828743, 0, 0, 0] }, value: "));
    assert!(format!("{:?}", state).ends_with("folding: false }"));
}

#[test]
fn try_fold_takes_what_fold_takes() {
    let v = bytes(100, 13);
    let mut state = Crc32Fold::with_folding(true);
    assert!(!state.try_fold(&v[..30], 0));
    assert_eq!(format!("{:?}", state), format!("{:?}", Crc32Fold::with_folding(true)));
    assert!(state.try_fold(&v[..30], 9));
    assert!(state.try_fold(&v[30..61], 0));
    assert!(!state.try_fold(&[], 0));
    assert_eq!(state.finish(), reference(&v[..61], 9));

    let mut state = Crc32Fold::with_folding(false);
    assert!(state.try_fold(&v[..3], 0));
    assert!(state.try_fold(&[], 0));
    assert_eq!(state.finish(), reference(&v[..3], 0));
}

#[test]
fn try_fold_copy_writes_nothing_where_the_lengths_differ() {
    let v = bytes(100, 14);
    for folding in [true, false] {
        let mut state = Crc32Fold::with_folding(folding);
        let mut short = vec![0x11u8; 99];
        assert!(!state.try_fold_copy(&mut short, &v));
        assert_eq!(short, vec![0x11u8; 99]);
        let mut long = vec![0x11u8; 101];
        assert!(!state.try_fold_copy(&mut long, &v));
        assert_eq!(long, vec![0x11u8; 101]);
        assert_eq!(format!("{:?}", state), format!("{:?}", Crc32Fold::with_folding(folding)));
        let mut dst = vec![0x11u8; 100];
        assert!(state.try_fold_copy(&mut dst, &v));
        assert_eq!(dst, v);
        assert_eq!(state.finish(), reference(&v, 0));
    }
    let mut state = Crc32Fold::with_folding(true);
    let mut dst = vec![0x11u8; 30];
    assert!(!state.try_fold_copy(&mut dst, &v[..30]));
    assert_eq!(dst, vec![0x11u8; 30]);
    let mut state = Crc32Fold::with_folding(false);
    assert!(state.try_fold_copy(&mut dst, &v[..30]));
    assert_eq!(&dst[..], &v[..30]);
}
