use swiss_archive::hash::{hash_value, tag_of};
use swiss_archive::layout::{checked_layout, layout};
use swiss_archive::probe::span_of;

#[test]
fn layout_exact_values() {
    assert_eq!(layout(3, (1, 1)), (3, 1));
    assert_eq!(layout(0, (7, 8)), (0, 0));
    assert_eq!(layout(10, (7, 8)), (12, 1));
    assert_eq!(layout(100, (1, 2)), (200, 13));
    assert_eq!(layout(16, (1, 1)), (16, 1));
    assert_eq!(layout(17, (1, 1)), (17, 2));
    assert_eq!(layout(7, (7, 8)), (8, 1));
    assert_eq!(layout(5, (2, 1)), (5, 1));
}

#[test]
fn layout_keeps_load_factor() {
    for len in 0..200usize {
        for (num, den) in [(1usize, 1usize), (7, 8), (1, 2), (3, 5), (5, 3)] {
            let (buckets, groups) = layout(len, (num, den));
            assert!(buckets >= len);
            assert!(len * den <= buckets * num);
            if buckets > len {
                assert!((buckets - 1) * num < len * den);
            }
            assert_eq!(groups, (buckets + 15) / 16);
        }
    }
}

#[test]
fn checked_layout_refuses_what_does_not_fit() {
    assert_eq!(checked_layout(1, (0, 1)), None);
    assert_eq!(checked_layout(usize::MAX, (1, 2)), None);
    assert_eq!(checked_layout(usize::MAX, (1, 1)), None);
    assert_eq!(checked_layout(usize::MAX - 15, (1, 1)), Some((usize::MAX - 15, usize::MAX / 16)));
    assert_eq!(checked_layout(10, (7, 8)), Some((12, 1)));
    assert_eq!(checked_layout(0, (1, 0)), Some((0, 0)));
}

#[test]
fn hash_known_values() {
    assert_eq!(hash_value(&Vec::new()), 0xcbf2_9ce4_8422_2325);
    assert_eq!(hash_value(&b"a".to_vec()), 0xaf63_dc4c_8601_ec8c);
    assert_eq!(hash_value(&b"foobar".to_vec()), 0x8594_4171_f739_67e8);
}

#[test]
fn tag_is_top_seven_bits() {
    assert_eq!(tag_of(0xaf63_dc4c_8601_ec8c), 0x57);
    assert_eq!(tag_of(u64::MAX), 0x7f);
    assert_eq!(tag_of(0), 0);
    assert_eq!(tag_of(1 << 57), 1);
}

#[test]
fn span_is_the_next_power_of_two() {
    assert_eq!(span_of(1), 1);
    assert_eq!(span_of(2), 2);
    assert_eq!(span_of(3), 4);
    assert_eq!(span_of(4), 4);
    assert_eq!(span_of(5), 8);
    assert_eq!(span_of(1000), 1024);
}
