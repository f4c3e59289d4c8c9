use imagegen::bitmap::{
    byte_to_bits, byte_to_bits_with_range, div_ceil_8, div_floor_8, popcount8, verify_bit_range,
    BitMap, ByteBitRange,
};

#[test]
fn set_then_get_round_trip() {
    let mut bm = BitMap::new(3, 11).unwrap();
    for r in 0..3 {
        for c in 0..11 {
            assert!(!bm.get((r, c)));
        }
    }
    bm.set((1, 10), true);
    assert!(bm.get((1, 10)));
    assert!(!bm.get((1, 9)));
    assert!(!bm.get((0, 10)));
    bm.set((1, 10), false);
    assert!(!bm.get((1, 10)));
}

#[test]
fn count_ones_with_tail_byte() {
    // Width 11 is no multiple of eight: the tail byte of each row carries
    // padding bits that must not be counted.
    let mut bm = BitMap::new(2, 11).unwrap();
    assert_eq!(bm.count_ones(), 0);
    bm.set((0, 0), true);
    bm.set((0, 8), true);
    bm.set((1, 10), true);
    assert_eq!(bm.count_ones(), 3);
    bm.set((0, 8), false);
    assert_eq!(bm.count_ones(), 2);
}

#[test]
fn width_one_and_height_one() {
    let mut a = BitMap::new(1, 7).unwrap();
    a.set((0, 6), true);
    assert_eq!(a.count_ones(), 1);
    let mut b = BitMap::new(7, 1).unwrap();
    b.set((6, 0), true);
    assert_eq!(b.count_ones(), 1);
}

#[test]
fn enumerations_partition_the_grid() {
    let mut bm = BitMap::new(2, 9).unwrap();
    bm.set((0, 3), true);
    bm.set((1, 8), true);
    let trues = bm.for_each_true();
    let falses = bm.for_each_false();
    assert_eq!(trues, vec![(0, 3), (1, 8)]);
    assert_eq!(trues.len() + falses.len(), 18);
    assert!(!falses.contains(&(0, 3)));
    assert!(falses.contains(&(0, 4)));
}

#[test]
fn byte_bit_ranges() {
    let mut r = ByteBitRange { start: 2, end: 5 };
    assert_eq!(r.mask(), 0b0001_1100);
    assert_eq!(r.len(), 3);
    assert!(!r.is_empty());
    assert_eq!(r.pop_first(), Some(2));
    assert_eq!(r.pop_last(), Some(4));
    assert_eq!(r.pop_first(), Some(3));
    assert_eq!(r.pop_first(), None);

    let empty = ByteBitRange::empty();
    assert!(empty.is_empty());
    assert_eq!(empty.mask(), 0);

    let back = ByteBitRange::from_mask(0b0001_1100).unwrap();
    assert_eq!(back.mask(), 0b0001_1100);
    assert!(ByteBitRange::from_mask(0b0101_0000).is_none());
    assert_eq!(ByteBitRange::from_mask(0).unwrap().mask(), 0);
}

#[test]
fn byte_bit_helpers() {
    assert_eq!(div_ceil_8(0), 0);
    assert_eq!(div_ceil_8(1), 1);
    assert_eq!(div_ceil_8(8), 1);
    assert_eq!(div_ceil_8(9), 2);
    assert_eq!(div_floor_8(15), 1);
    assert_eq!(popcount8(0b1011_0001), 4);

    assert!(verify_bit_range(ByteBitRange { start: 3, end: 2 }).is_err());
    assert!(verify_bit_range(ByteBitRange { start: 9, end: 9 }).is_err());
    assert!(verify_bit_range(ByteBitRange { start: 0, end: 9 }).is_err());
    assert!(verify_bit_range(ByteBitRange { start: 0, end: 8 }).is_ok());

    let bits = byte_to_bits(0b0100_0001);
    assert_eq!(bits[0], true);
    assert_eq!(bits[6], true);
    assert_eq!(bits[1], false);

    let ranged = byte_to_bits_with_range(0b0100_0001, ByteBitRange { start: 6, end: 8 });
    assert_eq!(ranged, vec![true, false]);
}
