use rune_alloc::entry::Entry;
use rune_alloc::map::BTreeMap;

#[test]
fn entry_key_for_vacant_and_occupied() {
    let mut m: BTreeMap<&str, usize> = BTreeMap::new();
    assert_eq!(m.entry("poneyland").key(), &"poneyland");
    m.entry("poneyland").or_try_insert(12).unwrap();
    assert_eq!(m.entry("poneyland").key(), &"poneyland");
}

#[test]
fn or_insert_with_calls_only_when_vacant() {
    let mut m: BTreeMap<&str, String> = BTreeMap::new();
    let s = "hoho".to_string();
    m.entry("poneyland").or_try_insert_with(|| s).unwrap();
    assert_eq!(m.get(&"poneyland"), Some(&"hoho".to_string()));
    m.entry("poneyland").or_try_insert_with(|| panic!("not called")).unwrap();
}

#[test]
fn or_insert_with_key_sees_the_key() {
    let mut m: BTreeMap<&str, usize> = BTreeMap::new();
    m.entry("poneyland").or_try_insert_with_key(|key| key.chars().count()).unwrap();
    assert_eq!(m.get(&"poneyland"), Some(&9));
}

#[test]
fn or_default_inserts_default() {
    let mut m: BTreeMap<&str, Option<usize>> = BTreeMap::new();
    m.entry("poneyland").or_try_default().unwrap();
    assert_eq!(m.get(&"poneyland"), Some(&None));
    let mut n: BTreeMap<u32, u64> = BTreeMap::new();
    *n.entry(3).or_try_default().unwrap() += 5;
    *n.entry(3).or_try_default().unwrap() += 5;
    assert_eq!(n.get(&3), Some(&10));
}

#[test]
fn vacant_entry_into_key_and_insert() {
    let mut m: BTreeMap<&str, u32> = BTreeMap::new();
    if let Entry::Vacant(v) = m.entry("poneyland") {
        assert_eq!(v.key(), &"poneyland");
        assert_eq!(v.into_key(), "poneyland");
    } else {
        panic!("expected a vacant entry");
    }
    assert!(m.is_empty());
    if let Entry::Vacant(v) = m.entry("poneyland") {
        *v.try_insert(37).unwrap() += 1;
    }
    assert_eq!(m.get(&"poneyland"), Some(&38));
}

#[test]
fn occupied_entry_get_and_update() {
    let mut m: BTreeMap<&str, usize> = BTreeMap::new();
    m.entry("poneyland").or_try_insert(12).unwrap();
    if let Entry::Occupied(mut o) = m.entry("poneyland") {
        assert_eq!(o.key(), &"poneyland");
        assert_eq!(o.get(), &12);
        *o.get_mut() += 10;
        assert_eq!(*o.get(), 22);
        *o.get_mut() += 2;
        assert_eq!(o.insert(15), 24);
        *o.into_mut() += 1;
    } else {
        panic!("expected an occupied entry");
    }
    assert_eq!(m.get(&"poneyland"), Some(&16));
}

#[test]
fn occupied_entry_remove() {
    let mut m: BTreeMap<&str, usize> = BTreeMap::new();
    m.entry("poneyland").or_try_insert(12).unwrap();
    m.entry("other").or_try_insert(1).unwrap();
    if let Entry::Occupied(o) = m.entry("poneyland") {
        assert_eq!(o.remove_entry(), ("poneyland", 12));
    }
    assert!(!m.contains_key(&"poneyland"));
    if let Entry::Occupied(o) = m.entry("other") {
        assert_eq!(o.remove(), 1);
    }
    assert!(m.is_empty());
}

#[test]
fn insert_if_vacant_keeps_the_rejected_value() {
    let mut m: BTreeMap<u32, &str> = BTreeMap::new();
    assert_eq!(*m.try_insert_if_vacant(1, "one").unwrap().ok().unwrap(), "one");
    match m.try_insert_if_vacant(1, "uno").unwrap() {
        Err(e) => {
            assert_eq!(e.value, "uno");
            assert_eq!(e.entry.key(), &1);
            assert_eq!(e.entry.get(), &"one");
        }
        Ok(_) => panic!("expected the key to be taken"),
    }
    assert_eq!(m.get(&1), Some(&"one"));
}

#[test]
fn occupied_entries_in_a_deep_tree() {
    let mut m: BTreeMap<u32, u32> = BTreeMap::new();
    for k in 0..2000 {
        m.try_insert(k, k).unwrap();
    }
    for k in (0..2000).step_by(3) {
        if let Entry::Occupied(mut o) = m.entry(k) {
            assert_eq!(*o.key(), k);
            o.insert(k + 1);
        } else {
            panic!("expected an occupied entry");
        }
    }
    for k in (0..2000).step_by(7) {
        if let Entry::Occupied(o) = m.entry(k) {
            let v = o.remove();
            assert_eq!(v, if k % 3 == 0 { k + 1 } else { k });
        }
    }
    for k in 0..2000 {
        let expected = if k % 7 == 0 { None } else if k % 3 == 0 { Some(k + 1) } else { Some(k) };
        assert_eq!(m.get(&k).copied(), expected);
    }
}

#[test]
fn entries_can_be_debug_printed() {
    let mut m: BTreeMap<&str, u32> = BTreeMap::new();
    let vacant = format!("{:?}", m.entry("a"));
    assert!(vacant.starts_with("Vacant"));
    m.entry("a").or_try_insert(1).unwrap();
    let occupied = format!("{:?}", m.entry("a"));
    assert!(occupied.starts_with("Occupied"));
}
