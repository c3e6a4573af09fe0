use quadtree_sort::BitPoint;
use quadtree_sort::Coord;
use quadtree_sort::Point;

#[test]
fn round_trip_in_range() {
    let cases = [
        (0, 0),
        (1, 2),
        (-1, -2),
        (5, -7),
        (1000, -1000),
        (16383, -16383),
        (-16383, 16383),
    ];
    for (x, y) in cases {
        let p = BitPoint::new(x, y);
        assert_eq!(p.x(), x, "x of ({}, {})", x, y);
        assert_eq!(p.y(), y, "y of ({}, {})", x, y);
    }
}

#[test]
fn raw_word_round_trip() {
    assert_eq!(BitPoint::from_raw(0).to_raw(), 0);
    assert_eq!(BitPoint::from_raw(0xDEAD_BEEF).to_raw(), 0xDEAD_BEEF);
    assert_eq!(BitPoint::from_raw(u32::MAX).to_raw(), u32::MAX);
}

#[test]
fn origin_packs_to_bias() {
    // both fields hold the bias 16383 = 0x3FFF; the X field sits at bit 15
    let p = BitPoint::new(0, 0);
    assert_eq!(p.to_raw(), (0x3FFF << 15) | 0x3FFF);
}

#[test]
fn out_of_range_corrupts_silently() {
    // 20000 + 16383 = 36383 needs sixteen bits; only the low fifteen stay
    let p = BitPoint::new(20000, 0);
    assert_eq!(p.x(), 36383 % 32768 - 16383);
    assert_eq!(p.x(), -12768);
    assert_eq!(p.y(), 0);
    // -20000 + 16383 = -3617 wraps to 32768 - 3617 in the fifteen-bit field
    let q = BitPoint::new(-20000, 0);
    assert_eq!(q.x(), 32768 - 3617 - 16383);
    assert_eq!(q.x(), 12768);
    assert_eq!(q.y(), 0);
}

#[test]
fn converts_between_point_forms() {
    let p = Point::new(-12, 34);
    let b = BitPoint::from(p);
    assert_eq!(b.x(), -12);
    assert_eq!(b.y(), 34);
    let back = Point::from(b);
    assert_eq!(back, p);
    assert_eq!(back.x(), -12);
    assert_eq!(back.y(), 34);
}

#[test]
fn stray_bits_read_as_coordinates() {
    // bits 30 and 31 belong to no field; x and y ignore them
    let noisy = BitPoint::from_raw(((0x3FFF << 15) | 0x3FFF) | 0xC000_0000);
    assert_eq!(noisy.x(), 0);
    assert_eq!(noisy.y(), 0);
}
