use skiplist::skiplist::SkipList;

#[test]
fn empty_list_find_not_found() {
    let skl = SkipList::new();
    assert_eq!(skl.find(100), None);
    assert_eq!(skl.length, 0);
}

#[test]
fn three_entries_scenario() {
    let mut skl = SkipList::new();
    skl.append(10, "a".to_string());
    skl.append(20, "b".to_string());
    skl.append(30, "c".to_string());
    assert_eq!(skl.find(20), Some("b".to_string()));
    assert_eq!(skl.find(25), None);
    assert_eq!(skl.length, 3);
}

#[test]
fn single_entry_lookup() {
    let mut skl = SkipList::new();
    skl.append(7, "only".to_string());
    assert_eq!(skl.find(7), Some("only".to_string()));
    assert_eq!(skl.find(6), None);
    assert_eq!(skl.find(8), None);
    assert_eq!(skl.length, 1);
}

#[test]
fn key_below_all_entries_not_found() {
    let mut skl = SkipList::new();
    skl.append(100, "x".to_string());
    skl.append(200, "y".to_string());
    assert_eq!(skl.find(50), None);
}

#[test]
fn length_counts_appends() {
    let mut skl = SkipList::new();
    for i in 0..500u64 {
        assert_eq!(skl.length, i);
        skl.append(i * 3 + 1, format!("entry {}", i));
    }
    assert_eq!(skl.length, 500);
}

#[test]
fn repeated_finds_agree() {
    let mut skl = SkipList::new();
    for i in 0..64u64 {
        skl.append(i * 2, format!("p{}", i));
    }
    let first = skl.find(34);
    for _ in 0..10u32 {
        assert_eq!(skl.find(34), first);
    }
    let missing = skl.find(33);
    for _ in 0..10u32 {
        assert_eq!(skl.find(33), missing);
    }
    assert_eq!(first, Some("p17".to_string()));
    assert_eq!(missing, None);
}

#[test]
fn get_level_stays_under_cap() {
    let skl = SkipList::new();
    for _ in 0..2000u32 {
        assert!(skl.get_level() <= 10);
    }
}

#[test]
fn near_max_keys() {
    let mut skl = SkipList::new();
    skl.append(u64::MAX - 1, "penultimate".to_string());
    skl.append(u64::MAX, "last".to_string());
    assert_eq!(skl.find(u64::MAX), Some("last".to_string()));
    assert_eq!(skl.find(u64::MAX - 1), Some("penultimate".to_string()));
    assert_eq!(skl.find(0), None);
}

#[test]
fn bulk_append_then_find_latest() {
    let mut skl = SkipList::new();
    for i in 0..=100000u64 {
        skl.append(i, format!("{}command", i));
    }
    let aim: u64 = 10_000_000;
    skl.append(aim, "Findcommand".to_string());
    assert_eq!(skl.find(aim), Some("Findcommand".to_string()));
    assert_eq!(skl.find(50000), Some("50000command".to_string()));
    assert_eq!(skl.length, 100002);
}
