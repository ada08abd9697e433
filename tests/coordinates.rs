use voxel_world::{
    div_euc, get_single_chunk_axis, get_single_chunk_index, mod_euc, Coordinate, CHUNK_AREA,
    CHUNK_VOLUME, CHUNK_WIDTH,
};

fn split(a: i64) -> (i64, usize) {
    (get_single_chunk_axis(a), get_single_chunk_index(a))
}

#[test]
fn constants_describe_a_cube_of_width_32() {
    assert_eq!(CHUNK_WIDTH, 32);
    assert_eq!(CHUNK_AREA, 1024);
    assert_eq!(CHUNK_VOLUME, 32768);
}

#[test]
fn div_and_mod_round_down_for_negative_dividends() {
    assert_eq!(div_euc(7, 2), 3);
    assert_eq!(mod_euc(7, 2), 1);
    assert_eq!(div_euc(-7, 2), -4);
    assert_eq!(mod_euc(-7, 2), 1);
    assert_eq!(div_euc(-8, 2), -4);
    assert_eq!(mod_euc(-8, 2), 0);
    assert_eq!(div_euc(0, 5), 0);
    assert_eq!(mod_euc(0, 5), 0);
    assert_eq!(div_euc(i64::MIN, 32), i64::MIN / 32);
    assert_eq!(mod_euc(i64::MIN, 32), 0);
    assert_eq!(div_euc(i64::MAX, 32), i64::MAX / 32);
    assert_eq!(mod_euc(i64::MAX, 32), 31);
    assert_eq!(div_euc(i64::MIN + 1, 32), -288230376151711744);
    assert_eq!(mod_euc(i64::MIN + 1, 32), 1);
}

#[test]
fn minus_one_falls_in_chunk_minus_one() {
    assert_eq!(split(-1), (-1, 31));
}

#[test]
fn chunk_boundaries_are_continuous() {
    assert_eq!(split(0), (0, 0));
    assert_eq!(split(31), (0, 31));
    assert_eq!(split(32), (1, 0));
    assert_eq!(split(-32), (-1, 0));
    assert_eq!(split(-33), (-2, 31));
}

#[test]
fn axis_split_round_trips() {
    let mut a: i64 = -1000;
    while a <= 1000 {
        let (c, i) = split(a);
        assert!(i < CHUNK_WIDTH);
        assert_eq!(c * CHUNK_WIDTH as i64 + i as i64, a);
        a += 1;
    }
    for a in [i64::MIN, i64::MIN + 31, i64::MAX, i64::MAX - 31] {
        let (c, i) = split(a);
        assert!(i < CHUNK_WIDTH);
        assert_eq!(c as i128 * CHUNK_WIDTH as i128 + i as i128, a as i128);
    }
}

#[test]
fn euclidean_parts_round_trip_for_other_widths() {
    for w in [1i64, 3, 7, 64] {
        let mut a: i64 = -200;
        while a <= 200 {
            let q = div_euc(a, w);
            let r = mod_euc(a, w);
            assert!(0 <= r && r < w);
            assert_eq!(q * w + r, a);
            a += 1;
        }
    }
}

#[test]
fn coordinate_splits_each_axis() {
    let p = Coordinate { x: -1, y: 32, z: 70 };
    assert_eq!(p.get_chunk_coordinate(), Coordinate { x: -1, y: 1, z: 2 });
    let i = p.get_chunk_index();
    assert_eq!((i.x(), i.y(), i.z()), (31, 0, 6));
    assert_eq!(i.to_array_index(), 31 + 6 * 1024);
}

#[test]
fn flattening_is_a_bijection_onto_the_block_array() {
    let mut seen = vec![false; CHUNK_VOLUME];
    for z in 0..32i64 {
        for y in 0..32i64 {
            for x in 0..32i64 {
                let i = Coordinate { x, y, z }.get_chunk_index();
                let off = i.to_array_index();
                assert_eq!(off as i64, x + 32 * y + 1024 * z);
                assert!(off < CHUNK_VOLUME);
                assert!(!seen[off]);
                seen[off] = true;
            }
        }
    }
    assert!(seen.iter().all(|s| *s));
}
