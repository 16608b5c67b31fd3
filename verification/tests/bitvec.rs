use apollo_ecs::bitvec::{u32s, BitVec};

fn set_bits(bv: &BitVec) -> Vec<usize> {
    let mut out = Vec::new();
    for i in 0..bv.len() {
        if bv.get(i) {
            out.push(i);
        }
    }
    out
}

#[test]
fn words_are_counted_by_rounding_up() {
    assert_eq!(u32s(0), 0);
    assert_eq!(u32s(1), 1);
    assert_eq!(u32s(31), 1);
    assert_eq!(u32s(32), 1);
    assert_eq!(u32s(33), 2);
    assert_eq!(u32s(64), 2);
    assert_eq!(u32s(65), 3);
}

#[test]
fn a_new_vector_is_clear_and_whole_words_long() {
    assert_eq!(BitVec::new(0).len(), 0);
    assert_eq!(BitVec::new(1).len(), 32);
    assert_eq!(BitVec::new(32).len(), 32);
    assert_eq!(BitVec::new(33).len(), 64);
    let bv = BitVec::new(70);
    assert_eq!(bv.len(), 96);
    assert_eq!(set_bits(&bv), Vec::<usize>::new());
}

#[test]
fn ones_sets_the_lowest_bit_of_every_word() {
    let bv = BitVec::ones(65);
    assert_eq!(bv.len(), 96);
    assert_eq!(set_bits(&bv), vec![0, 32, 64]);
    assert_eq!(BitVec::ones(0).len(), 0);
}

#[test]
fn set_and_unset_change_one_bit() {
    let mut bv = BitVec::new(64);
    bv.set(0);
    bv.set(5);
    bv.set(31);
    bv.set(32);
    bv.set(63);
    assert_eq!(set_bits(&bv), vec![0, 5, 31, 32, 63]);
    bv.set(5);
    assert_eq!(set_bits(&bv), vec![0, 5, 31, 32, 63]);
    bv.unset(31);
    bv.unset(0);
    assert_eq!(set_bits(&bv), vec![5, 32, 63]);
    bv.unset(0);
    assert_eq!(set_bits(&bv), vec![5, 32, 63]);
    assert!(bv.get(63));
    assert!(!bv.get(62));
}

#[test]
fn distinct_means_no_common_bit() {
    let mut a = BitVec::new(64);
    let mut b = BitVec::new(64);
    assert!(a.distinct(&b));
    a.set(3);
    a.set(40);
    b.set(4);
    b.set(41);
    assert!(a.distinct(&b));
    assert!(b.distinct(&a));
    b.set(40);
    assert!(!a.distinct(&b));
    assert!(BitVec::new(0).distinct(&BitVec::new(0)));
}

#[test]
fn overlap_means_a_common_bit_in_every_word() {
    let mut a = BitVec::new(64);
    let mut b = BitVec::new(64);
    assert!(!a.overlap(&b));
    a.set(3);
    b.set(3);
    assert!(!a.overlap(&b));
    a.set(40);
    b.set(41);
    assert!(!a.overlap(&b));
    b.set(40);
    assert!(a.overlap(&b));
    assert!(BitVec::new(0).overlap(&BitVec::new(0)));
    assert!(BitVec::ones(64).overlap(&BitVec::ones(64)));
}

#[test]
fn all_overlap_means_subset() {
    let mut a = BitVec::new(64);
    let mut b = BitVec::new(64);
    assert!(a.all_overlap(&b));
    b.set(7);
    b.set(50);
    assert!(a.all_overlap(&b));
    a.set(7);
    assert!(a.all_overlap(&b));
    assert!(!b.all_overlap(&a));
    a.set(51);
    assert!(!a.all_overlap(&b));
    assert!(BitVec::new(32).all_overlap(&BitVec::ones(32)));
    assert!(!BitVec::ones(32).all_overlap(&BitVec::new(32)));
}
