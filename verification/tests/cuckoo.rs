use cuckush::CuckooTable;
use cuckush::HashFunction;
use cuckush::HashMod;

#[test]
fn hashmod() {
    let h1 = HashMod::new(13);
    let x = 24;
    assert_eq!(h1.hash(x), 11);
}

#[test]
fn init_test() {
    let h1 = HashMod::new(13);
    let h2 = HashMod::new(11);
    let tab = CuckooTable::new(h1, h2, 13);
    assert_eq!(tab.table1[10], None);
}

#[test]
fn insert_test1() {
    let h1 = HashMod::new(13);
    let h2 = HashMod::new(11);
    let mut tab = CuckooTable::new(h1, h2, 13);
    let x = 10;
    assert_eq!(tab.insert(x), Ok(()));
    assert_eq!(tab.table1[10], Some(x));
}

#[test]
fn cycle_test() {
    let h1 = HashMod::new(13);
    let h2 = HashMod::new(11);
    let mut tab = CuckooTable::new(h1, h2, 13);
    assert_eq!(tab.insert(1), Ok(()));
    assert_eq!(tab.insert(144), Ok(()));
    assert_eq!(tab.insert(287), Err("cycle, rehash"));
}

#[test]
fn lookup_test() {
    let h1 = HashMod::new(13);
    let h2 = HashMod::new(11);
    let mut tab = CuckooTable::new(h1, h2, 13);
    assert_eq!(tab.insert(222), Ok(()));
    assert_eq!(tab.insert(111), Ok(()));
    assert!(tab.lookup(222) && tab.lookup(111));
    assert!(!tab.lookup(123));
}

#[test]
fn hashmod_boundaries() {
    // The hash is exactly `key % modulus`: zero at multiples, identity below.
    let h = HashMod::new(7);
    assert_eq!(h.hash(0), 0);
    assert_eq!(h.hash(6), 6);
    assert_eq!(h.hash(7), 0);
    assert_eq!(h.hash(20), 6);
    let h1 = HashMod::new(1);
    assert_eq!(h1.hash(12345), 0);
}

#[test]
fn fresh_table_all_empty() {
    // Every slot of a fresh table is empty and no key looks present.
    let tab = CuckooTable::new(HashMod::new(13), HashMod::new(11), 5);
    for i in 0..5 {
        assert_eq!(tab.table1[i], None);
        assert_eq!(tab.table2[i], None);
    }
    for k in [0usize, 1, 4, 5, 1000] {
        assert!(!tab.lookup(k));
    }
}

#[test]
fn displacement_relocates_occupant() {
    // 1 and 144 collide in the first table (both are 1 mod 13): the second
    // insert displaces 1 into its slot of the second table (1 mod 11).
    let mut tab = CuckooTable::new(HashMod::new(13), HashMod::new(11), 13);
    assert_eq!(tab.insert(1), Ok(()));
    assert_eq!(tab.table1[1], Some(1));
    assert_eq!(tab.insert(144), Ok(()));
    assert_eq!(tab.table1[1], Some(144));
    assert_eq!(tab.table2[1], Some(1));
    assert!(tab.lookup(1));
    assert!(tab.lookup(144));
}

#[test]
fn reinsert_is_not_a_noop() {
    // Re-inserting a present key reruns the displacement chain: the key
    // displaces itself out of the first table and lands in the second one
    // too, so the table changes even though membership does not.
    let mut tab = CuckooTable::new(HashMod::new(13), HashMod::new(11), 13);
    assert_eq!(tab.insert(10), Ok(()));
    assert_eq!(tab.table2[10], None);
    assert_eq!(tab.insert(10), Ok(()));
    assert_eq!(tab.table1[10], Some(10));
    assert_eq!(tab.table2[10], Some(10));
    assert!(tab.lookup(10));
}

#[test]
fn hash_output_reduced_modulo_size() {
    // A hint beyond the table size is taken modulo the size: 23 mod 7 = 2.
    let mut tab = CuckooTable::new(HashMod::new(100), HashMod::new(100), 7);
    assert_eq!(tab.insert(23), Ok(()));
    assert_eq!(tab.table1[2], Some(23));
    assert!(tab.lookup(23));
}

#[test]
fn cycle_in_size_one_table() {
    // With one slot per array, the third key closes a cycle. The origin is
    // still present afterwards; the key displaced last (0) is lost.
    let mut tab = CuckooTable::new(HashMod::new(1), HashMod::new(1), 1);
    assert_eq!(tab.insert(0), Ok(()));
    assert_eq!(tab.insert(1), Ok(()));
    assert_eq!(tab.insert(2), Err("cycle, rehash"));
    assert_eq!(tab.table1[0], Some(1));
    assert_eq!(tab.table2[0], Some(2));
    assert!(tab.lookup(2));
    assert!(tab.lookup(1));
    assert!(!tab.lookup(0));
}
