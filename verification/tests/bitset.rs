use robot_reboot::bitset::CompactBoolArray;

#[test]
fn new_array_is_clear() {
    let a = CompactBoolArray::new(20);
    for i in 0..20 {
        assert!(!a.is_set(i));
    }
}

#[test]
fn set_then_read() {
    let mut a = CompactBoolArray::new(20);
    a.set(9);
    assert!(a.is_set(9));
    assert!(!a.is_set(8));
    assert!(!a.is_set(10));
    assert!(!a.is_set(1));
}

#[test]
fn set_keeps_others() {
    let mut a = CompactBoolArray::new(17);
    a.set(0);
    a.set(7);
    a.set(8);
    a.set(16);
    let set: Vec<usize> = (0..17).filter(|&i| a.is_set(i)).collect();
    assert_eq!(set, vec![0, 7, 8, 16]);
    a.set(7);
    let set: Vec<usize> = (0..17).filter(|&i| a.is_set(i)).collect();
    assert_eq!(set, vec![0, 7, 8, 16]);
}

#[test]
fn large_array() {
    let mut a = CompactBoolArray::new(1 << 32);
    a.set((1 << 32) - 1);
    a.set(123_456_789);
    assert!(a.is_set((1 << 32) - 1));
    assert!(a.is_set(123_456_789));
    assert!(!a.is_set(123_456_788));
}

#[test]
fn sequence_of_sets() {
    let idxs = [3usize, 17, 3, 0, 29, 16];
    let mut a = CompactBoolArray::new(30);
    for &i in idxs.iter() {
        a.set(i);
    }
    for j in 0..30 {
        assert_eq!(a.is_set(j), idxs.contains(&j), "flag {}", j);
    }
}
