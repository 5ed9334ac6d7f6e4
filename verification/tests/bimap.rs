use rumba_core::bimap::BiMap;

#[test]
fn both_readings_hold_the_same_pairs() {
    let mut m: BiMap<u64, u64> = BiMap::new();
    m.insert(1, 10);
    m.insert(2, 20);
    assert_eq!(m.len(), 2);
    assert_eq!(m.get_by_left(&1), Some(&10));
    assert_eq!(m.get_by_right(&20), Some(&2));
    m.insert(3, 10);
    assert_eq!(m.len(), 2);
    assert_eq!(m.get_by_left(&1), None);
    assert_eq!(m.get_by_right(&10), Some(&3));
    m.insert(2, 30);
    assert_eq!(m.get_by_right(&20), None);
    assert_eq!(m.get_by_left(&2), Some(&30));
    assert_eq!(m.len(), 2);
}
