use photonsim::util::power::next_power_of_two;
use photonsim::util::set::U32OpenAddressSet;

#[test]
fn open_addr_basic_growth_and_max() {
    let mut s = U32OpenAddressSet::new(0);
    assert_eq!(s.slot_capacity(), 32);
    for i in 0..1000u32 {
        assert!(s.insert(i * 3));
    }
    for i in 0..1000u32 {
        assert!(s.contains(i * 3));
        assert!(!s.contains(i * 3 + 1));
    }
    assert!(s.insert(u32::MAX));
    assert!(s.contains(u32::MAX));
    assert_eq!(s.len(), 1001);
    s.clear();
    assert!(s.is_empty());
    assert!(!s.contains(u32::MAX));
}

#[test]
fn open_addr_cluster_removal() {
    let mut s = U32OpenAddressSet::new(16);
    let keys: Vec<u32> = (0..12u32).map(|i| (i << 20) | 5).collect();
    for &k in &keys {
        assert!(s.insert(k));
    }
    assert!(s.remove(keys[5]));
    for (i, &k) in keys.iter().enumerate() {
        assert_eq!(s.contains(k), i != 5);
    }
}

#[test]
fn what_was_inserted_is_found_once() {
    let mut s = U32OpenAddressSet::new(4);
    assert!(s.insert(7));
    assert!(!s.insert(7));
    assert!(s.insert(u32::MAX));
    assert!(!s.insert(u32::MAX));
    // the largest number comes last
    assert_eq!(s.iter(), [7, u32::MAX]);
    assert!(s.remove(u32::MAX));
    assert!(!s.remove(u32::MAX));
    assert_eq!(s.iter(), [7]);
    assert!(!s.is_empty());
}

#[test]
fn slots_double_when_three_quarters_are_taken() {
    let mut s = U32OpenAddressSet::new(0);
    for i in 0..24u32 {
        s.insert(i);
    }
    assert_eq!(s.slot_capacity(), 32);
    s.insert(24);
    assert_eq!(s.slot_capacity(), 64);
    assert_eq!(s.len(), 25);
}

#[test]
fn clearing_keeps_the_slots() {
    let mut s = U32OpenAddressSet::new(0);
    for i in 0..100u32 {
        s.insert(i * 7);
    }
    s.insert(u32::MAX);
    let slots = s.slot_capacity();
    s.clear();
    assert_eq!((s.len(), s.slot_capacity()), (0, slots));
    assert!(s.iter().is_empty());
    assert!(s.insert(7));
    assert_eq!(s.iter(), [7]);
}

#[test]
fn powers_of_two_are_rounded_up() {
    assert_eq!(next_power_of_two(0), 1);
    assert_eq!(next_power_of_two(1), 1);
    assert_eq!(next_power_of_two(513), 1024);
    assert_eq!(next_power_of_two(0x8000_0000), 0x8000_0000);
}
