use sillad_sosistab3::dedup::Dedup;

fn id(n: u8) -> [u8; 32] {
    let mut a = [0u8; 32];
    a[31] = n;
    a
}

#[test]
fn second_presentation_is_a_replay() {
    let mut store = Dedup::new(180, 16);
    assert!(!store.check_and_insert(&id(1), 1000));
    assert!(store.check_and_insert(&id(1), 1000));
    assert!(store.check_and_insert(&id(1), 1179));
    assert!(!store.check_and_insert(&id(2), 1100));
    assert!(store.check_and_insert(&id(2), 1101));
    assert_eq!(store.len(), 2);
}

#[test]
fn identifiers_differ_by_any_byte() {
    let mut store = Dedup::new(180, 16);
    let mut a = [0u8; 32];
    assert!(!store.check_and_insert(&a, 0));
    a[0] = 1;
    assert!(!store.check_and_insert(&a, 0));
    a[0] = 0;
    a[17] = 0x80;
    assert!(!store.check_and_insert(&a, 0));
    a[17] = 0;
    assert!(store.check_and_insert(&a, 0));
    assert_eq!(store.len(), 3);
}

#[test]
fn entries_past_the_horizon_are_forgotten() {
    let mut store = Dedup::new(180, 16);
    assert!(!store.check_and_insert(&id(1), 1000));
    assert!(!store.check_and_insert(&id(2), 1100));
    assert_eq!(store.len(), 2);
    assert!(!store.check_and_insert(&id(3), 1180));
    assert_eq!(store.len(), 2);
    assert!(!store.check_and_insert(&id(1), 1180));
    assert_eq!(store.len(), 3);
    assert!(store.check_and_insert(&id(2), 1279));
    assert!(!store.check_and_insert(&id(2), 1280));
    assert!(!store.check_and_insert(&id(9), 5000));
    assert_eq!(store.len(), 1);
}

#[test]
fn a_replay_does_not_renew_an_entry() {
    let mut store = Dedup::new(100, 16);
    assert!(!store.check_and_insert(&id(1), 0));
    assert!(store.check_and_insert(&id(1), 99));
    assert!(!store.check_and_insert(&id(1), 100));
}

#[test]
fn a_clock_set_back_forgets_nothing() {
    let mut store = Dedup::new(100, 16);
    assert!(!store.check_and_insert(&id(1), 5000));
    assert!(store.check_and_insert(&id(1), 10));
    assert!(!store.check_and_insert(&id(2), 10));
    assert_eq!(store.len(), 2);
}

#[test]
fn a_full_store_drops_the_oldest() {
    let mut store = Dedup::new(1000, 3);
    assert!(!store.check_and_insert(&id(1), 1));
    assert!(!store.check_and_insert(&id(2), 2));
    assert!(!store.check_and_insert(&id(3), 3));
    assert_eq!(store.len(), 3);
    assert!(!store.check_and_insert(&id(4), 4));
    assert_eq!(store.len(), 3);
    assert!(store.check_and_insert(&id(2), 5));
    assert!(store.check_and_insert(&id(3), 5));
    assert!(store.check_and_insert(&id(4), 5));
    assert!(!store.check_and_insert(&id(1), 5));
    assert_eq!(store.len(), 3);
    assert!(!store.check_and_insert(&id(2), 6));
}

#[test]
fn sustained_traffic_stays_bounded() {
    let mut store = Dedup::new(50, 1000);
    for t in 0u64..5000 {
        let mut a = [0u8; 32];
        a[..8].copy_from_slice(&t.to_be_bytes());
        assert!(!store.check_and_insert(&a, t));
        assert!(store.len() <= 50);
    }
    assert_eq!(store.len(), 50);
    let mut store = Dedup::new(u64::MAX, 10);
    for t in 0u64..100 {
        let mut a = [0u8; 32];
        a[..8].copy_from_slice(&t.to_be_bytes());
        assert!(!store.check_and_insert(&a, t));
        assert!(store.len() <= 10);
    }
}

#[test]
fn capacity_and_horizon_edge_cases() {
    let mut store = Dedup::new(180, 0);
    assert_eq!(store.len(), 0);
    assert!(!store.check_and_insert(&id(1), 0));
    assert!(store.check_and_insert(&id(1), 0));
    assert!(!store.check_and_insert(&id(2), 0));
    assert_eq!(store.len(), 1);
    assert!(!store.check_and_insert(&id(1), 0));
    let mut store = Dedup::new(0, 4);
    assert!(!store.check_and_insert(&id(1), 7));
    assert!(!store.check_and_insert(&id(1), 7));
    assert_eq!(store.len(), 1);
}
