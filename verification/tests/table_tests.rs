use psst::Psst;

#[test]
fn it_works() {
    let mut s = Psst::new();

    s.insert("Heisann!".to_owned(), 76);
    s.insert("Hadesann!".to_owned(), 69);

    s.insert("Marcus".to_owned(), 1);
    s.insert("Takvam".to_owned(), 2);
    s.insert("Lexander".to_owned(), 3);

    s.insert("Ylva".to_owned(), 3);
    s.insert("Os".to_owned(), 28);

    s.insert("Sverre".to_owned(), 23);
    s.insert("Emanuel".to_owned(), 18);
    s.insert("DÃ¥rflot".to_owned(), 321);
    s.insert("Olsen".to_owned(), 17);

    s.insert("231456".to_owned(), 11235);
    s.insert("...".to_owned(), 987);

    s.insert("68".to_owned(), 25);
    s.insert("5".to_owned(), 655458);
    s.insert("6".to_owned(), 666);
    assert_eq!(s.insert("Marcus".to_owned(), 7), Some(1));
    s.insert("7".to_owned(), 1215);
    s.insert("8".to_owned(), 6654842);
    s.insert("9".to_owned(), 655458);
    s.insert("10".to_owned(), 666);
    s.insert("12".to_owned(), 666);

    println!("{:?}", s);

    assert_eq!(s.get(&"Marcus".to_owned()), Some(&7));
}

#[test]
fn empty_table() {
    let t: Psst<String, i32> = Psst::new();
    assert_eq!(t.len(), 0);
    assert_eq!(t.get(&"anything".to_owned()), None);
    assert_eq!(t.sorted_region_len(), 0);
    assert_eq!(t.unsorted_capacity(), 10);
}

#[test]
fn three_keys_no_resort() {
    let mut t = Psst::new();
    t.insert("b".to_owned(), 2);
    assert_eq!(t.sorted_region_len(), 0);
    t.insert("a".to_owned(), 1);
    assert_eq!(t.sorted_region_len(), 0);
    t.insert("c".to_owned(), 3);
    assert_eq!(t.sorted_region_len(), 0);
    assert_eq!(t.get(&"a".to_owned()), Some(&1));
    assert_eq!(t.get(&"b".to_owned()), Some(&2));
    assert_eq!(t.get(&"c".to_owned()), Some(&3));
    assert_eq!(t.len(), 3);
}

#[test]
fn two_resorts_keep_every_key() {
    let mut t = Psst::new();
    let mut resorts: u32 = 0;
    for i in 0..30u64 {
        let key = format!("key{:02}", i);
        assert_eq!(t.insert(key, i), None);
        // the unsorted region is within the threshold after every insert
        assert!(t.len() - t.sorted_region_len() <= t.unsorted_capacity());
        if t.sorted_region_len() == t.len() {
            resorts += 1;
            // after a resort the whole table is the sorted region, and
            // every key inserted so far is still found with its value
            for j in 0..=i {
                let k = format!("key{:02}", j);
                assert_eq!(t.get(&k), Some(&j));
            }
            if resorts == 1 {
                assert_eq!(t.len(), 11);
                assert_eq!(t.unsorted_capacity(), 7);
            }
            if resorts == 2 {
                assert_eq!(t.len(), 19);
                assert_eq!(t.unsorted_capacity(), 11);
            }
        }
    }
    assert_eq!(resorts, 2);
    assert_eq!(t.len(), 30);
    for j in 0..30u64 {
        let k = format!("key{:02}", j);
        assert_eq!(t.get(&k), Some(&j));
    }
}

#[test]
fn reinsert_returns_previous() {
    let mut t = Psst::new();
    assert_eq!(t.insert("x".to_owned(), 1), None);
    assert_eq!(t.insert("x".to_owned(), 2), Some(1));
    assert_eq!(t.get(&"x".to_owned()), Some(&2));
    assert_eq!(t.len(), 1);
}

#[test]
fn lookup_idempotent() {
    let mut t = Psst::new();
    t.insert("a".to_owned(), 5);
    let r1 = t.get(&"a".to_owned()).copied();
    let r2 = t.get(&"a".to_owned()).copied();
    assert_eq!(r1, r2);
    assert_eq!(r1, Some(5));
    let m1 = t.get(&"zz".to_owned()).copied();
    let m2 = t.get(&"zz".to_owned()).copied();
    assert_eq!(m1, m2);
    assert_eq!(m1, None);
}

#[test]
fn updates_never_resort() {
    let mut t: Psst<u64, u64> = Psst::new();
    for i in 0..10u64 {
        assert_eq!(t.insert(i, i), None);
    }
    assert_eq!(t.sorted_region_len(), 0);
    assert_eq!(t.insert(9, 77), Some(9));
    assert_eq!(t.insert(9, 78), Some(77));
    assert_eq!(t.insert(9, 79), Some(78));
    // updates of a present key never move the region boundary
    assert_eq!(t.sorted_region_len(), 0);
    assert_eq!(t.len(), 10);
    assert_eq!(t.get(&9), Some(&79));
}

#[test]
fn get_mut_updates_in_place() {
    let mut t: Psst<u64, u64> = Psst::new();
    t.insert(3, 30);
    t.insert(1, 10);
    match t.get_mut(&3) {
        Some(v) => {
            assert_eq!(*v, 30);
            *v = 99;
        }
        None => panic!("key missing"),
    }
    assert_eq!(t.get(&3), Some(&99));
    assert_eq!(t.get(&1), Some(&10));
    assert!(t.get_mut(&7).is_none());
    assert_eq!(t.len(), 2);
}

#[test]
fn prefix_keys_order_correctly() {
    let mut t = Psst::new();
    let keys = [
        "", "a", "aa", "ab", "aab", "b", "ba", "ab0", "A", "Z", "z", "0", "00", "001",
    ];
    for (i, k) in keys.iter().enumerate() {
        assert_eq!(t.insert((*k).to_owned(), i), None);
    }
    // 14 distinct keys force one resort; every key still maps to its value
    assert_eq!(t.sorted_region_len(), 11);
    for (i, k) in keys.iter().enumerate() {
        assert_eq!(t.get(&(*k).to_owned()), Some(&i));
    }
    assert_eq!(t.get(&"aaa".to_owned()), None);
}

#[test]
fn multibyte_keys() {
    let mut t = Psst::new();
    t.insert("æble".to_owned(), 1);
    t.insert("øre".to_owned(), 2);
    t.insert("å".to_owned(), 3);
    t.insert("ae".to_owned(), 4);
    assert_eq!(t.get(&"æble".to_owned()), Some(&1));
    assert_eq!(t.get(&"øre".to_owned()), Some(&2));
    assert_eq!(t.get(&"å".to_owned()), Some(&3));
    assert_eq!(t.get(&"ae".to_owned()), Some(&4));
    assert_eq!(t.get(&"æ".to_owned()), None);
}

#[test]
fn lookup_after_resort_spans_both_regions() {
    let mut t: Psst<u64, u64> = Psst::new();
    // force one resort, then leave a few entries in the unsorted suffix
    for i in 0..15u64 {
        t.insert(i * 2, i);
    }
    assert_eq!(t.sorted_region_len(), 11);
    assert_eq!(t.len(), 15);
    // keys in the sorted region, the unsorted region, and absent keys
    assert_eq!(t.get(&0), Some(&0));
    assert_eq!(t.get(&20), Some(&10));
    assert_eq!(t.get(&28), Some(&14));
    assert_eq!(t.get(&1), None);
    assert_eq!(t.get(&29), None);
}
