use dfvs::bitset::BitSet;
use rand::Rng;

#[test]
fn iter() {
    let mut bs = BitSet::new(256);

    let a: Vec<usize> = (0..256).filter(|i| i % 2 == 0).collect();
    for i in &a {
        bs.set_bit(*i);
    }

    let b: Vec<usize> = bs.iter().collect();
    assert_eq!(a, b);
    {
        let mut c = Vec::new();
        let mut v = bs.get_next_set(0);
        while v.is_some() {
            c.push(v.unwrap());
            v = bs.get_next_set(v.unwrap() + 1);
        }
        assert_eq!(a, c);
    }

    {
        let odds: Vec<usize> = (0..256).filter(|i| i % 2 == 1).collect();
        let mut d = Vec::new();
        let mut v = bs.get_next_unset(0);
        while v.is_some() {
            d.push(v.unwrap());
            v = bs.get_next_unset(v.unwrap() + 1);
        }
        assert_eq!(odds, d);
    }
}

#[test]
fn get_set() {
    let n = 257;
    let mut bs = BitSet::new(n);
    for i in 0..n {
        assert_eq!(false, bs.at(i));
    }
    for i in 0..n {
        bs.set_bit(i);
        assert_eq!(true, bs.at(i));
    }

    for i in 0..n {
        bs.unset_bit(i);
        assert_eq!(false, bs.at(i));
    }
}

#[test]
fn logic() {
    let n = 257;
    let mut bs1 = BitSet::new_all_set(n);

    for i in 0..n {
        assert_eq!(true, bs1.at(i));
    }

    let mut bs2 = BitSet::new(n);
    for i in (0..n).filter(|i| i % 2 == 0) {
        bs2.set_bit(i);
        bs1.unset_bit(i);
    }

    let mut tmp = bs1.clone();
    tmp.and(&bs2);
    for i in 0..n {
        assert_eq!(false, tmp.at(i));
    }

    let mut tmp = bs1.clone();
    tmp.or(&bs2);
    for i in 0..n {
        assert_eq!(true, tmp.at(i));
    }

    let mut tmp = bs1.clone();
    tmp.and_not(&bs2);
    for i in (0..n).filter(|i| i % 2 == 0) {
        assert_eq!(false, tmp.at(i));
    }
}

#[test]
fn test_new_all_set_but() {
    let unset: Vec<usize> =
        (0usize..10).filter_map(|x| if x % 3 == 0 { Some(x) } else { None }).collect();
    let bs = BitSet::new_all_set_but(10, &unset);
    assert_eq!(bs.cardinality(), 6);
    let out: Vec<usize> = bs.iter().collect();
    assert_eq!(out, vec![1, 2, 4, 5, 7, 8]);
}

#[test]
fn test_new_all_unset_but() {
    let into: Vec<usize> =
        (0..10).filter_map(|x| if x % 3 == 0 { Some(x) } else { None }).collect();
    let bs = BitSet::new_all_unset_but(10, &into);
    assert_eq!(bs.cardinality(), 4);
    let out: Vec<usize> = bs.iter().collect();
    assert_eq!(out, into);
}

#[test]
fn test_clone() {
    for n in [0, 1, 100] {
        let empty = BitSet::new(n);
        let copied = empty.clone();
        assert_eq!(copied.len(), n);
        assert_eq!(copied.cardinality(), 0);
    }

    for n in [10, 50, 100] {
        let mut orig = BitSet::new(n);
        for _ in 0..n / 5 {
            orig.set_bit(rand::thread_rng().gen_range(0..n));
        }

        let copied = orig.clone();
        assert_eq!(copied, orig);
        assert_eq!(copied.len(), orig.len());
        assert_eq!(copied.cardinality(), orig.cardinality());

        for i in 0..n {
            assert_eq!(copied.at(i), orig.at(i));
        }
    }
}

#[test]
fn new_is_empty_for_every_length() {
    for n in [0usize, 1, 63, 64, 65, 128, 1000] {
        let bs = BitSet::new(n);
        assert_eq!(bs.cardinality(), 0);
        assert_eq!(bs.len(), n);
        assert!(bs.empty());
        assert_eq!(bs.is_empty(), n == 0);
        assert_eq!(bs.full(), n == 0);
        assert_eq!(bs.get_first_set(), None);
        assert_eq!(bs.get_next_set(0), None);
        assert_eq!(bs.to_vec(), Vec::<u32>::new());
    }
}

#[test]
fn new_all_set_is_full() {
    for n in [1usize, 63, 64, 65, 130] {
        let bs = BitSet::new_all_set(n);
        assert_eq!(bs.cardinality(), n);
        assert_eq!(bs.len(), n);
        assert!(bs.full());
        assert!(!bs.empty());
        assert_eq!(bs.get_first_unset(), None);
        assert_eq!(bs.get_next_unset(0), None);
        assert_eq!(bs.get_first_set(), Some(0));
        assert_eq!(bs.iter().collect().len(), n);
    }
}

#[test]
fn iteration_is_ascending_and_as_long_as_the_cardinality() {
    let picks = [3usize, 64, 0, 199, 65, 127, 128, 3];
    let mut bs = BitSet::new(200);
    for p in picks {
        bs.set_bit(p);
    }
    let seen = bs.iter().collect();
    assert_eq!(seen, vec![0, 3, 64, 65, 127, 128, 199]);
    assert_eq!(seen.len(), bs.cardinality());
    for w in seen.windows(2) {
        assert!(w[0] < w[1]);
    }
    assert_eq!(bs.to_vec(), vec![0u32, 3, 64, 65, 127, 128, 199]);
}

#[test]
fn iterator_steps_and_restarts() {
    let bs = BitSet::from_slice(70, &[5u32, 69]);
    let mut it = bs.iter();
    assert_eq!(it.next(), Some(5));
    assert_eq!(it.next(), Some(69));
    assert_eq!(it.next(), None);
    assert_eq!(it.next(), None);
    let mut again = bs.iter();
    assert_eq!(again.next(), Some(5));
    assert_eq!(again.collect(), vec![69]);
}

#[test]
fn set_and_unset_report_the_previous_state() {
    let mut bs = BitSet::new(10);
    assert_eq!(bs.set_bit(4), false);
    assert_eq!(bs.cardinality(), 1);
    assert_eq!(bs.set_bit(4), true);
    assert_eq!(bs.cardinality(), 1);
    assert_eq!(bs.unset_bit(4), true);
    assert_eq!(bs.cardinality(), 0);
    assert_eq!(bs.unset_bit(4), false);
    assert_eq!(bs.cardinality(), 0);
}

#[test]
fn and_counts_the_common_positions() {
    let a_bits = [1usize, 2, 3, 64, 65, 99];
    let b_bits = [2usize, 3, 4, 65, 98, 99];
    let mut a = BitSet::new_all_unset_but(100, &a_bits);
    let b = BitSet::new_all_unset_but(100, &b_bits);
    a.and(&b);
    assert_eq!(a.cardinality(), 4);
    assert_eq!(a.iter().collect(), vec![2, 3, 65, 99]);
}

#[test]
fn and_with_a_shorter_operand() {
    let mut a = BitSet::new_all_set(130);
    let b = BitSet::new_all_unset_but(10, &[1, 9]);
    a.and(&b);
    assert_eq!(a.iter().collect(), vec![1, 9]);
    assert_eq!(a.cardinality(), 2);
    assert_eq!(a.len(), 130);
    let mut short = BitSet::new_all_set(10);
    let mut long = BitSet::new(200);
    long.not();
    short.and(&long);
    assert_eq!(short.cardinality(), 10);
    assert_eq!(short.len(), 10);
}

#[test]
fn or_grows_to_the_longer_operand() {
    let mut a = BitSet::new_all_unset_but(10, &[1]);
    let b = BitSet::new_all_unset_but(70, &[2, 69]);
    a.or(&b);
    assert_eq!(a.len(), 70);
    assert_eq!(a.cardinality(), 3);
    assert_eq!(a.iter().collect(), vec![1, 2, 69]);

    let mut c = BitSet::new_all_unset_but(70, &[69]);
    let d = BitSet::new_all_set(3);
    c.or(&d);
    assert_eq!(c.len(), 70);
    assert_eq!(c.iter().collect(), vec![0, 1, 2, 69]);
}

#[test]
fn and_not_ignores_what_lies_past_the_operand() {
    let mut a = BitSet::new_all_set(70);
    let mut b = BitSet::new(5);
    b.not();
    a.and_not(&b);
    assert_eq!(a.cardinality(), 65);
    assert_eq!(a.get_first_set(), Some(5));
}

#[test]
fn not_flips_only_the_declared_range() {
    let mut a = BitSet::new_all_unset_but(67, &[0, 66]);
    a.not();
    assert_eq!(a.cardinality(), 65);
    assert_eq!(a.at(0), false);
    assert_eq!(a.at(1), true);
    assert_eq!(a.at(66), false);
    assert_eq!(a.get_next_set(66), None);
    assert_eq!(a.get_next_unset(1), Some(66));
    a.not();
    assert_eq!(a.iter().collect(), vec![0, 66]);
}

#[test]
fn set_all_and_unset_all() {
    let mut a = BitSet::new_all_unset_but(67, &[3]);
    a.set_all();
    assert_eq!(a.cardinality(), 67);
    assert!(a.full());
    assert_eq!(a.get_next_unset(0), None);
    a.unset_all();
    assert_eq!(a.cardinality(), 0);
    assert!(a.empty());
    assert_eq!(a.len(), 67);
}

#[test]
fn resize_grows_with_unset_bits_and_recounts_when_shrinking() {
    let mut a = BitSet::new_all_set(10);
    a.resize(100);
    assert_eq!(a.len(), 100);
    assert_eq!(a.cardinality(), 10);
    assert_eq!(a.get_next_unset(0), Some(10));
    assert_eq!(a.get_next_set(10), None);
    a.resize(4);
    assert_eq!(a.len(), 4);
    assert_eq!(a.cardinality(), 4);
    a.resize(4);
    assert_eq!(a.cardinality(), 4);
}

#[test]
fn subset_is_reflexive_and_bounds_the_cardinality() {
    let a = BitSet::new_all_unset_but(130, &[0, 64, 129]);
    let b = BitSet::new_all_unset_but(130, &[0, 5, 64, 100, 129]);
    assert!(a.is_subset_of(&a));
    assert!(b.is_subset_of(&b));
    assert!(a.is_subset_of(&b));
    assert!(a.cardinality() <= b.cardinality());
    assert!(!b.is_subset_of(&a));
    assert!(b.is_superset_of(&a));
    assert!(!a.is_superset_of(&b));
}

#[test]
fn subset_pads_the_shorter_operand_with_zeros() {
    let short = BitSet::new_all_unset_but(10, &[3]);
    let long = BitSet::new_all_unset_but(200, &[3, 150]);
    assert!(short.is_subset_of(&long));
    assert!(!long.is_subset_of(&short));
    let mut flipped = BitSet::new(10);
    flipped.not();
    let ten = BitSet::new_all_set(10);
    assert!(flipped.is_subset_of(&ten));
    assert!(ten.is_subset_of(&flipped));
}

#[test]
fn disjoint_and_intersecting() {
    let a = BitSet::new_all_unset_but(130, &[0, 64]);
    let b = BitSet::new_all_unset_but(130, &[1, 65, 129]);
    let c = BitSet::new_all_unset_but(70, &[64]);
    assert!(a.is_disjoint_with(&b));
    assert!(!a.intersects_with(&b));
    assert!(a.intersects_with(&c));
    assert!(!a.is_disjoint_with(&c));
    assert!(b.is_disjoint_with(&c));
    let empty = BitSet::new(0);
    assert!(a.is_disjoint_with(&empty));
}

#[test]
fn scanning_crosses_words_and_stops_at_the_length() {
    let bs = BitSet::new_all_unset_but(200, &[70, 199]);
    assert_eq!(bs.get_next_set(0), Some(70));
    assert_eq!(bs.get_next_set(70), Some(70));
    assert_eq!(bs.get_next_set(71), Some(199));
    assert_eq!(bs.get_next_set(199), Some(199));
    assert_eq!(bs.get_next_set(200), None);
    assert_eq!(bs.get_next_set(5000), None);
    assert_eq!(bs.get_next_unset(70), Some(71));
    assert_eq!(bs.get_next_unset(199), None);
    assert_eq!(bs.get_first_unset(), Some(0));
    assert_eq!(bs.get_first_set(), Some(70));
}

#[test]
fn has_smaller_compares_the_lowest_set_bits() {
    let mut a = BitSet::new_all_unset_but(100, &[10, 20]);
    let b = BitSet::new_all_unset_but(100, &[11]);
    let mut c = BitSet::new_all_unset_but(100, &[11, 99]);
    let mut none = BitSet::new(100);
    assert_eq!(a.has_smaller(&b), Some(true));
    assert_eq!(c.has_smaller(&a), Some(false));
    assert_eq!(c.has_smaller(&b), Some(false));
    assert_eq!(none.has_smaller(&a), None);
    assert_eq!(a.has_smaller(&none), None);
}

#[test]
fn storage_words_hold_the_bits_least_significant_first() {
    let bs = BitSet::new_all_unset_but(130, &[0, 1, 63, 64, 129]);
    let words = bs.as_slice();
    assert_eq!(words.len(), 3);
    assert_eq!(words[0], 0x8000_0000_0000_0003);
    assert_eq!(words[1], 1);
    assert_eq!(words[2] & 0b11, 0b10);
}

#[test]
fn from_slice_counts_each_index_once() {
    let bs = BitSet::from_slice(20, &[7u32, 7, 3, 19, 3]);
    assert_eq!(bs.cardinality(), 3);
    assert_eq!(bs.iter().collect(), vec![3, 7, 19]);
}

#[test]
fn sets_compare_by_their_bits() {
    let a = BitSet::new_all_unset_but(10, &[1]);
    let b = BitSet::new_all_unset_but(10, &[2]);
    let c = BitSet::new_all_unset_but(10, &[1]);
    assert_eq!(a, c);
    assert_ne!(a, b);
    assert!(b < a);
    assert_eq!(dfvs::bitset::block_size(), 64);
}

#[test]
fn a_set_is_rebuilt_from_its_bit_vector() {
    let bs = BitSet::new_all_unset_but(70, &[0, 5, 69]);
    let rebuilt = BitSet::from_bitvec(bs.as_bit_vec());
    assert_eq!(rebuilt, bs);
    assert_eq!(rebuilt.cardinality(), 3);
    assert_eq!(rebuilt.len(), 70);
    assert_eq!(rebuilt.iter().collect(), vec![0, 5, 69]);
    let nothing = BitSet::default();
    assert_eq!(nothing.len(), 0);
    assert_eq!(nothing.cardinality(), 0);
}
