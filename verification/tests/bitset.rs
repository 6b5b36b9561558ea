use radial::bitset::{merge_counts, BitSet};

#[test]
fn empty_merge_is_empty_coverage() {
    assert_eq!(merge_counts(&[], 3), vec![0; 3]);
}

#[test]
fn merges_set_bits() {
    let mut a = BitSet::new(66);
    a.set(0);
    a.set(65);
    assert_eq!(merge_counts(&[&a, &a], 66)[65], 2);
}

#[test]
fn saturates() {
    let mut a = BitSet::new(1);
    a.set(0);
    let layers: Vec<&BitSet> = (0..300).map(|_| &a).collect();
    assert_eq!(merge_counts(&layers, 1), vec![255]);
}

#[test]
fn members_are_those_that_were_set() {
    let mut set = BitSet::new(130);
    for index in [0, 63, 64, 129] {
        set.set(index);
    }
    for index in 0..200 {
        assert_eq!(set.contains(index), [0, 63, 64, 129].contains(&index));
    }
    assert_eq!(set.count_ones(), 4);
    assert_eq!(set.len(), 130);
    assert!(!set.is_empty());
    assert!(BitSet::new(0).is_empty());
    assert_eq!(set.words(), &[1 | 1 << 63, 1, 2]);
}

#[test]
fn words_can_be_edited_in_place() {
    let mut set = BitSet::new(70);
    set.words_mut()[1] = 0b10_0001;
    assert!(set.contains(64));
    assert!(set.contains(69));
    assert!(!set.contains(65));
    assert_eq!(set.count_ones(), 2);
}

#[test]
fn merge_ignores_bits_beyond_the_cells() {
    let mut a = BitSet::new(64);
    a.set(3);
    a.set(63);
    assert_eq!(merge_counts(&[&a], 4), vec![0, 0, 0, 1]);
    assert_eq!(merge_counts(&[&a], 70)[63], 1);
    assert_eq!(merge_counts(&[&a], 70)[69], 0);
}
