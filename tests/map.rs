use pinned_bucket::PinnedMap;

fn address<T>(r: &T) -> String {
    format!("{:p}", r)
}

fn unreachable<T>() -> T {
    unreachable!()
}

#[test]
fn map_it_works() {
    let mut v = PinnedMap::new();
    let a = v.insert(1, 2);
    let b = v.insert(2, 3);
    let a_ = v.get_or_insert(1, -1);
    let b_ = v.get_or_insert_with(2, unreachable);

    assert_eq!(v.len(), 2);

    let c = v.get_or_insert(3, 4);

    assert_eq!(v.len(), 3);

    let d = v.get_or_insert_with(4, || 5);

    v.get_or_insert_with(4, unreachable);

    assert_eq!(v.len(), 4);

    assert_eq!(v.cell(a), &2);
    assert_eq!(v.cell(a), v.get(&1).unwrap());
    assert_eq!(address(v.cell(a)), address(v.get(&1).unwrap()));
    assert_eq!(a, a_);

    assert_eq!(v.cell(b), &3);
    assert_eq!(v.cell(b), v.get(&2).unwrap());
    assert_eq!(address(v.cell(b)), address(v.get(&2).unwrap()));
    assert_eq!(b, b_);

    assert_eq!(v.cell(c), &4);
    assert_eq!(v.cell(c), v.get(&3).unwrap());
    assert_eq!(address(v.cell(c)), address(v.get(&3).unwrap()));

    assert_eq!(v.cell(d), &5);
    assert_eq!(v.cell(d), v.get(&4).unwrap());
    assert_eq!(address(v.cell(d)), address(v.get(&4).unwrap()));

    let values: Vec<i32> = v.values().to_vec().into_iter().cloned().collect();
    assert_eq!(values, vec![2, 3, 4, 5]);
}

#[test]
fn map_debug_list() {
    let mut v: PinnedMap<usize> = PinnedMap::default();
    v.insert(1, 2);
    v.insert(3, 4);
    let u = v.clone();
    assert_eq!(format!("{:?}", v), format!("{:?}", u));
    assert_eq!(format!("{:?}", v.iter().to_vec()), format!("{:?}", u.iter().to_vec()));
    let values: Vec<usize> = v.values().to_vec().into_iter().cloned().collect();
    assert_eq!(values, vec![2, 4]);
}

#[test]
fn debug_keys() {
    let mut v: PinnedMap<String> = PinnedMap::default();
    v.insert(1, "1".into());
    v.insert(2, "2".into());
    assert_eq!(format!("{:?}", v.keys().to_vec()), "[1, 2]");
    assert_eq!(v.values().to_vec(), vec!["1", "2"]);
}

#[test]
fn insert_duplicate() {
    let mut v = PinnedMap::new();
    let a = v.insert(1, "1".to_owned());
    let b = v.insert(1, "2".to_owned());
    assert_eq!(v.cell(a), "1");
    assert_eq!(v.cell(b), "2");
}

#[test]
fn insert_with() {
    let mut v = PinnedMap::new();
    v.insert(1, "1".to_owned());
    v.insert(2, "2".to_owned());
    v.get_or_insert_with(2, unreachable);
}

#[test]
#[should_panic = "internal error: entered unreachable code"]
fn insert_with_panicked() {
    let mut v = PinnedMap::new();
    v.insert(1, "1".to_owned());
    v.insert(2, "2".to_owned());
    v.get_or_insert_with(2, unreachable);
    v.get_or_insert_with(3, unreachable::<String>);
}

#[test]
fn push_while_iter() {
    let mut m = PinnedMap::new();
    m.insert(9, 3);
    m.insert(8, 2);
    m.insert(6, 3);
    m.insert(4, 2);
    assert_eq!(m.len(), 4);
    let items = format!("{:?}", m.iter().to_vec());
    let keys = format!("{:?}", m.keys().to_vec());
    let values = format!("{:?}", m.values().to_vec());
    for (k, v) in m.iter().to_vec() {
        let v_ = m.get(&k).unwrap();
        assert_eq!(v_, v);
        assert_eq!(format!("{:?}", m.iter().to_vec()), items);
        assert_eq!(format!("{:?}", m.keys().to_vec()), keys);
        assert_eq!(format!("{:?}", m.values().to_vec()), values);

        assert_eq!(m.iter().last(), Some((9, &3)));
        assert_eq!(m.keys().last(), Some(9));
        assert_eq!(m.values().last(), Some(&3));

        assert_eq!(m.keys().size_hint(), (4, Some(4)));
        assert_eq!(m.values().size_hint(), (4, Some(4)));
        assert_eq!(m.iter().size_hint(), (4, Some(4)));

        assert_eq!(m.iter().to_vec().len(), 4);
        assert_eq!(m.iter().len(), 4);
        assert_eq!(m.iter().min(), Some((4, &2)));
        assert_eq!(m.iter().max(), Some((9, &3)));

        assert_eq!(m.keys().to_vec().len(), 4);
        assert_eq!(m.keys().len(), 4);
        assert_eq!(m.keys().min(), Some(4));
        assert_eq!(m.keys().max(), Some(9));

        assert_eq!(m.values().to_vec().len(), 4);
        assert_eq!(m.values().len(), 4);
        assert_eq!(m.values().to_vec().into_iter().min(), Some(&2));
        assert_eq!(m.values().to_vec().into_iter().max(), Some(&3));
    }
    assert_eq!(m.len(), 4);
}

#[test]
fn concrete_scenario() {
    let mut m = PinnedMap::new();
    let a = m.insert(1, 2);
    let b = m.insert(2, 3);
    let again = m.get_or_insert(1, -1);
    assert_eq!(again, a);
    assert_eq!(address(m.cell(again)), address(m.cell(a)));
    assert_eq!(*m.cell(a), 2);
    assert_eq!(*m.cell(b), 3);
    assert_eq!(m.len(), 2);
    assert_eq!(m.keys().to_vec(), vec![1, 2]);
    assert_eq!(m.values().to_vec(), vec![&2, &3]);
}

#[test]
fn stability_across_many_inserts() {
    let mut m = PinnedMap::new();
    let h = m.insert(500, 7u64);
    let before = address(m.cell(h));
    for k in 0..1000u64 {
        if k != 500 {
            m.insert(k, k * 2);
        }
    }
    assert_eq!(address(m.cell(h)), before);
    assert_eq!(address(m.get(&500).unwrap()), before);
    assert_eq!(*m.get(&500).unwrap(), 7);
    assert_eq!(m.len(), 1000);
}

#[test]
fn shadowed_cell_keeps_old_value() {
    let mut m = PinnedMap::new();
    let h1 = m.insert(5, "v1".to_string());
    let old_address = address(m.cell(h1));
    let h2 = m.insert(5, "v2".to_string());
    assert_ne!(h1, h2);
    assert_eq!(m.cell(h1), "v1");
    assert_eq!(address(m.cell(h1)), old_address);
    assert_eq!(m.get(&5).unwrap(), "v2");
    assert_eq!(m.len(), 1);
}

#[test]
fn strict_map_accepts_distinct_keys() {
    let mut m = PinnedMap::new_strict();
    let a = m.insert(2, 'a');
    let b = m.insert(1, 'b');
    assert_eq!(*m.cell(a), 'a');
    assert_eq!(*m.cell(b), 'b');
    assert_eq!(m.keys().to_vec(), vec![1, 2]);
    assert_eq!(m.get_or_insert(2, 'z'), a);
    assert_eq!(m.len(), 2);
}

#[test]
fn map_clone_is_independent_and_drops_shadows() {
    let mut m = PinnedMap::new();
    m.insert(3, 30);
    m.insert(1, 10);
    m.insert(3, 31);
    let c = m.clone();
    assert_eq!(c.len(), 2);
    assert_eq!(c.keys().to_vec(), m.keys().to_vec());
    assert_eq!(c.values().to_vec(), m.values().to_vec());
    assert_eq!(c.values().to_vec(), vec![&10, &31]);
    for k in [1u64, 3] {
        assert_ne!(address(c.get(&k).unwrap()), address(m.get(&k).unwrap()));
    }
    assert_eq!(*c.cell(0), 10);
    assert_eq!(*c.cell(1), 31);
}

#[test]
fn traversal_follows_key_order_not_insertion_order() {
    let mut a = PinnedMap::new();
    let mut b = PinnedMap::new();
    for k in [5u64, 1, 9, 3, 7] {
        a.insert(k, k + 100);
    }
    for k in [9u64, 7, 5, 3, 1] {
        b.insert(k, k + 100);
    }
    assert_eq!(a.keys().to_vec(), vec![1, 3, 5, 7, 9]);
    assert_eq!(a.keys().to_vec(), b.keys().to_vec());
    assert_eq!(a.values().to_vec(), b.values().to_vec());
    let entries: Vec<(u64, u64)> = a.iter().to_vec().into_iter().map(|(k, v)| (k, *v)).collect();
    assert_eq!(entries, vec![(1, 101), (3, 103), (5, 105), (7, 107), (9, 109)]);
}

#[test]
fn snapshots_consume_from_both_ends() {
    let mut m = PinnedMap::new();
    for k in [u64::MAX, 0, 42] {
        m.insert(k, k);
    }
    let mut keys = m.keys();
    assert_eq!(keys.next(), Some(0));
    assert_eq!(keys.next_back(), Some(u64::MAX));
    assert_eq!(keys.len(), 1);
    assert_eq!(keys.next(), Some(42));
    assert_eq!(keys.next(), None);
    assert_eq!(keys.next_back(), None);

    let mut values = m.values();
    assert_eq!(values.next_back(), Some(&u64::MAX));
    assert_eq!(values.next(), Some(&0));
    assert_eq!(values.to_vec(), vec![&42]);

    let mut iter = m.iter();
    assert_eq!(iter.next(), Some((0, &0)));
    assert_eq!(iter.next_back(), Some((u64::MAX, &u64::MAX)));
    assert_eq!(iter.next(), Some((42, &42)));
    assert_eq!(iter.next(), None);
    assert_eq!(iter.size_hint(), (0, Some(0)));
}

#[test]
fn empty_map() {
    let m: PinnedMap<i32> = PinnedMap::new();
    assert_eq!(m.len(), 0);
    assert_eq!(m.get(&0), None);
    assert_eq!(m.keys().to_vec(), Vec::<u64>::new());
    assert_eq!(m.keys().min(), None);
    assert_eq!(m.iter().last(), None);
    assert_eq!(m.values().last(), None);
}

#[test]
fn get_or_insert_with_calls_default_once() {
    let mut m = PinnedMap::new();
    let mut calls = 0;
    let h1 = m.get_or_insert_with(8, || {
        calls += 1;
        "x"
    });
    let h2 = m.get_or_insert_with(8, || {
        calls += 1;
        "y"
    });
    assert_eq!(calls, 1);
    assert_eq!(h1, h2);
    assert_eq!(*m.get(&8).unwrap(), "x");
}

#[test]
fn insert() {
    let mut res = PinnedMap::new();
    for i in 0..1000u64 {
        res.insert(i, i * i);
    }
    assert_eq!(res.len(), 1000);
    for (k, v) in res.iter().to_vec() {
        assert_eq!(k * k, *v);
    }
}

#[test]
fn strict_map_never_shadows() {
    let mut m = PinnedMap::new_strict();
    assert!(m.is_strict());
    for k in [3u64, 1, 2] {
        m.insert(k, k);
    }
    let first = m.get_or_insert_with(1, || 100);
    assert_eq!(*m.cell(first), 1);
    assert_eq!(m.len(), 3);
    assert!(!PinnedMap::<u8>::new().is_strict());
}
