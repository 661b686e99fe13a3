use rasterizer::natural::{times_plus, times_power, weigh, Comparison};

fn number(limbs: &[u32]) -> u128 {
    limbs.iter().rev().fold(0u128, |value, limb| (value << 32) + *limb as u128)
}

#[test]
fn a_factor_and_an_addend() {
    assert_eq!(number(&times_plus(&vec![], 10, 7)), 7);
    assert_eq!(number(&times_plus(&vec![], 10, 0)), 0);
    assert_eq!(number(&times_plus(&vec![7], 10, 3)), 73);
    assert_eq!(number(&times_plus(&vec![0xFFFF_FFFF], 0xFFFF_FFFF, 0xFFFF_FFFF)), 0xFFFF_FFFF_0000_0000);
    assert_eq!(times_plus(&vec![0xFFFF_FFFF], 0xFFFF_FFFF, 0xFFFF_FFFF), vec![0, 0xFFFF_FFFF]);
    assert_eq!(times_plus(&vec![0xFFFF_FFFF, 0xFFFF_FFFF], 2, 1), vec![0xFFFF_FFFF, 0xFFFF_FFFF, 1]);
    assert_eq!(number(&times_plus(&vec![5, 6, 7], 0, 9)), 9);
    assert_eq!(
        number(&times_plus(&vec![0x89AB_CDEF, 0x0123_4567, 0x1111], 1_000_000_007, 12345)),
        0x1111_0123_4567_89AB_CDEFu128 * 1_000_000_007 + 12345
    );
}

#[test]
fn a_power_of_a_factor() {
    assert_eq!(number(&times_power(vec![3], 10, 0)), 3);
    assert_eq!(number(&times_power(vec![3], 10, 30)), 3_000_000_000_000_000_000_000_000_000_000);
    assert_eq!(number(&times_power(vec![1], 2, 100)), 1 << 100);
    assert_eq!(times_power(vec![1], 2, 128), vec![0, 0, 0, 0, 1]);
    assert_eq!(number(&times_power(vec![], 7, 50)), 0);
    assert_eq!(number(&times_power(vec![9, 9], 0, 3)), 0);
    assert_eq!(number(&times_power(vec![9, 9], 1, 1000)), (9 << 32) + 9);
}

#[test]
fn numbers_are_weighed_by_what_they_stand_for() {
    assert_eq!(weigh(&vec![], &vec![]), Comparison::Same);
    assert_eq!(weigh(&vec![], &vec![0, 0]), Comparison::Same);
    assert_eq!(weigh(&vec![5, 0, 0], &vec![5]), Comparison::Same);
    assert_eq!(weigh(&vec![5], &vec![6]), Comparison::Below);
    assert_eq!(weigh(&vec![6], &vec![5]), Comparison::Above);
    assert_eq!(weigh(&vec![9, 1], &vec![1, 2]), Comparison::Below);
    assert_eq!(weigh(&vec![0, 1], &vec![0xFFFF_FFFF]), Comparison::Above);
    assert_eq!(weigh(&vec![0xFFFF_FFFF, 0], &vec![0, 1]), Comparison::Below);
    assert_eq!(weigh(&vec![1, 2, 3], &vec![1, 2, 3, 0]), Comparison::Same);
    assert_eq!(weigh(&vec![1, 2, 3], &vec![2, 2, 3]), Comparison::Below);
    assert_eq!(weigh(&vec![], &vec![0, 0, 1]), Comparison::Below);
}
