use trashmap::TrashMap;
use trashmap::prime::{find_next_prime, is_prime};

#[test]
fn test_insert_collsions() {
    let mut map = TrashMap::new();
    for i in 0..100u64 {
        map.insert(i, ());
    }
    for i in 0..100u64 {
        assert!(map.remove(&i));
    }
    assert!(!map.remove(&0));
    assert!(map.len() == 0);
}

#[test]
fn test_empty_map() {
    let mut map: TrashMap<u32> = TrashMap::new();
    assert_eq!(map.len(), 0);
    assert!(map.get(&0).is_none());
    assert!(!map.remove(&0));
    assert_eq!(map.len(), 0);
}

#[test]
fn test_round_trip_distinct_keys() {
    let mut map = TrashMap::new();
    let keys: [u64; 7] = [0, 1, 2, 3, 1000, 65536, u64::MAX];
    for (pos, k) in keys.iter().enumerate() {
        map.insert(*k, pos as u32);
    }
    assert_eq!(map.len(), 7);
    for (pos, k) in keys.iter().enumerate() {
        assert_eq!(map.get(k), Some(&(pos as u32)));
    }
}

#[test]
fn test_remove_correctness() {
    let mut map = TrashMap::new();
    map.insert(1, 'a');
    map.insert(2, 'b');
    map.insert(3, 'c');
    assert_eq!(map.len(), 3);
    assert!(map.remove(&2));
    assert!(map.get(&2).is_none());
    assert_eq!(map.len(), 2);
    assert!(!map.remove(&2));
    assert_eq!(map.len(), 2);
    assert_eq!(map.get(&1), Some(&'a'));
    assert_eq!(map.get(&3), Some(&'c'));
}

#[test]
fn test_overwrite_keeps_one_entry() {
    let mut map = TrashMap::new();
    map.insert(1, 10u64);
    map.insert(2, 20);
    map.insert(1, 30);
    assert_eq!(map.len(), 2);
    assert_eq!(map.get(&1), Some(&30));
    assert_eq!(map.get(&2), Some(&20));
}

#[test]
fn test_overwrite_keeps_positions() {
    let mut map = TrashMap::new();
    for i in 0..20u64 {
        map.insert(i, i);
    }
    let before: Vec<u64> = map.iter().iter().map(|p| p.0).collect();
    map.insert(7, 700);
    let after: Vec<u64> = map.iter().iter().map(|p| p.0).collect();
    assert_eq!(before, after);
    assert_eq!(map.get(&7), Some(&700));
    assert_eq!(map.len(), 20);
}

#[test]
fn test_growth_thousand_keys() {
    let mut map = TrashMap::new();
    for i in 0..1000u64 {
        map.insert(i, i * 3 + 1);
    }
    assert_eq!(map.len(), 1000);
    for i in 0..1000u64 {
        assert_eq!(map.get(&i), Some(&(i * 3 + 1)));
    }
}

#[test]
fn test_iter_matches_contents() {
    let mut map = TrashMap::new();
    for i in 0..50u64 {
        map.insert(i * 17, i);
    }
    let pairs = map.iter();
    assert_eq!(pairs.len(), 50);
    let mut seen: Vec<u64> = Vec::new();
    for (k, v) in pairs {
        assert_eq!(map.get(&k), Some(v));
        assert!(!seen.contains(&k));
        seen.push(k);
    }
}

#[test]
fn test_is_prime_exact() {
    assert!(is_prime(3));
    assert!(is_prime(7));
    assert!(!is_prime(9));
    assert!(!is_prime(15));
    assert!(is_prime(17));
    assert!(!is_prime(25));
    assert!(is_prime(65537));
    assert!(!is_prime(65536));
}

#[test]
fn test_find_next_prime_exact() {
    assert_eq!(find_next_prime(7), 7);
    assert_eq!(find_next_prime(9), 11);
    assert_eq!(find_next_prime(15), 17);
    assert_eq!(find_next_prime(35), 37);
}
