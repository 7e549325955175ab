use bump_allocator::hashmap::HashMap;

#[test]
fn empty_map_finds_nothing() {
    let m: HashMap<u32> = HashMap::new();
    assert_eq!(m.get(&1), None);
    let mut it = m.iter();
    assert!(it.next().is_none());
}

#[test]
fn insert_then_get() {
    let mut m: HashMap<&str> = HashMap::new();
    m.insert(1, "one");
    m.insert(2, "two");
    assert_eq!(m.get(&1), Some(&"one"));
    assert_eq!(m.get(&2), Some(&"two"));
    assert_eq!(m.get(&3), None);
}

#[test]
fn insert_replaces_value() {
    let mut m: HashMap<String> = HashMap::new();
    m.insert(7, String::from("a"));
    m.insert(7, String::from("b"));
    assert_eq!(m.get(&7).map(|s| s.as_str()), Some("b"));
    assert_eq!(m.iter().count_pairs(), 1);
}

trait CountPairs {
    fn count_pairs(self) -> usize;
}

impl<'a, V> CountPairs for bump_allocator::hashmap::Iter<'a, V> {
    fn count_pairs(mut self) -> usize {
        let mut n = 0;
        while self.next().is_some() {
            n += 1;
        }
        n
    }
}

#[test]
fn many_keys_survive_growth() {
    let mut m: HashMap<u64> = HashMap::new();
    for k in 0..1000u64 {
        m.insert(k * 7919, k);
    }
    for k in 0..1000u64 {
        assert_eq!(m.get(&(k * 7919)), Some(&k));
    }
    assert_eq!(m.get(&1), None);
    assert_eq!(m.iter().count_pairs(), 1000);
}

#[test]
fn iteration_yields_each_pair_once() {
    let mut m: HashMap<u64> = HashMap::new();
    let keys = [0u64, 1, 255, 256, u64::MAX, 42, 1 << 40];
    for &k in keys.iter() {
        m.insert(k, k.wrapping_add(1));
    }
    let mut seen: Vec<u64> = Vec::new();
    let mut it = m.iter();
    while let Some((k, v)) = it.next() {
        assert_eq!(*v, k.wrapping_add(1));
        seen.push(*k);
    }
    seen.sort();
    let mut expected = keys.to_vec();
    expected.sort();
    assert_eq!(seen, expected);
    assert!(it.next().is_none());
}
