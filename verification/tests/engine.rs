use srmap::srmap::SRMap;

fn s(x: &str) -> String {
    x.to_string()
}

fn vs(xs: &[&str]) -> Vec<String> {
    xs.iter().map(|x| x.to_string()).collect()
}

#[test]
fn scenario_two_users_share_then_diverge() {
    let mut m = SRMap::<u64>::new(0);
    m.add_user(7);
    m.insert(s("a"), vs(&["x"]), 7);
    assert_eq!(m.get(&s("a"), 7), Some(&vs(&["x"])));

    m.add_user(9);
    m.insert(s("a"), vs(&["x"]), 9);
    assert_eq!(m.get(&s("a"), 9), Some(&vs(&["x"])));
    // one shared copy for "a": a single global entry, no overrides
    assert_eq!(m.g_map.len(), 1);
    assert_eq!(m.g_map[0], (s("a"), vs(&["x"])));
    assert!(m.u_map.is_empty());

    m.insert(s("a"), vs(&["y"]), 9);
    assert_eq!(m.get(&s("a"), 9), Some(&vs(&["y"])));
    assert_eq!(m.get(&s("a"), 7), Some(&vs(&["x"])));

    m.remove_user(7);
    // user 9 still sees the key through its own path
    assert!(m.g_map.iter().any(|e| e.0 == "a"));

    m.remove(s("a"), 9);
    assert!(!m.g_map.iter().any(|e| e.0 == "a"));
    assert!(m.b_map.is_empty());
}

#[test]
fn sharing_one_global_copy() {
    let mut m = SRMap::<u64>::new(0);
    m.add_user(1);
    m.add_user(2);
    m.insert(s("k"), vs(&["v1", "v2"]), 1);
    m.insert(s("k"), vs(&["v1", "v2"]), 2);
    assert_eq!(m.get(&s("k"), 1), Some(&vs(&["v1", "v2"])));
    assert_eq!(m.get(&s("k"), 2), Some(&vs(&["v1", "v2"])));
    assert_eq!(m.g_map.len(), 1);
    assert!(m.u_map.is_empty());
}

#[test]
fn divergence_second_writer_goes_private() {
    let mut m = SRMap::<u64>::new(0);
    m.add_user(1);
    m.add_user(2);
    m.insert(s("k"), vs(&["v1"]), 1);
    m.insert(s("k"), vs(&["v2"]), 2);
    assert_eq!(m.get(&s("k"), 1), Some(&vs(&["v1"])));
    assert_eq!(m.get(&s("k"), 2), Some(&vs(&["v2"])));
    // the global entry still holds the first writer's value
    assert_eq!(m.g_map[0], (s("k"), vs(&["v1"])));
    assert_eq!(m.u_map.len(), 1);
    assert_eq!(m.u_map[0], ((2, s("k")), vs(&["v2"])));
}

#[test]
fn garbage_collection_on_last_remove() {
    let mut m = SRMap::<u64>::new(0);
    m.add_user(1);
    m.insert(s("k"), vs(&["v"]), 1);
    assert_eq!(m.g_map.len(), 1);
    assert_eq!(m.b_map.len(), 1);
    m.remove(s("k"), 1);
    assert!(m.g_map.is_empty());
    assert!(m.b_map.is_empty());
    assert_eq!(m.get(&s("k"), 1), None);
}

#[test]
fn fresh_user_sees_nothing() {
    let mut m = SRMap::<u64>::new(0);
    m.add_user(1);
    m.insert(s("k"), vs(&["v"]), 1);
    m.add_user(2);
    assert_eq!(m.get(&s("k"), 2), None);
    // visibility must be earned through an insert
    m.insert(s("k"), vs(&["v"]), 2);
    assert_eq!(m.get(&s("k"), 2), Some(&vs(&["v"])));
}

#[test]
fn repeated_insert_changes_nothing() {
    let mut m = SRMap::<u64>::new(0);
    m.add_user(1);
    m.add_user(2);
    m.insert(s("k"), vs(&["v"]), 1);
    m.insert(s("k"), vs(&["v"]), 2);
    let g = m.g_map.clone();
    let b = m.b_map.clone();
    let u = m.u_map.clone();
    let ids = m.id_store.clone();
    m.insert(s("k"), vs(&["v"]), 2);
    assert_eq!(m.g_map, g);
    assert_eq!(m.b_map, b);
    assert_eq!(m.u_map, u);
    assert_eq!(m.id_store, ids);
}

#[test]
fn unregistered_user_parks_on_slot_zero() {
    let mut m = SRMap::<u64>::new(0);
    m.insert(s("k"), vs(&["v"]), 42);
    assert_eq!(m.id_store, vec![(42, 0)]);
    assert_eq!(m.get(&s("k"), 42), Some(&vs(&["v"])));
    assert_eq!(m.b_map[0].1, vec![true]);
}

#[test]
fn same_value_insert_by_unregistered_user_is_a_no_op() {
    let mut m = SRMap::<u64>::new(0);
    m.add_user(1);
    m.insert(s("k"), vs(&["v"]), 1);
    m.insert(s("k"), vs(&["v"]), 99);
    assert_eq!(m.get(&s("k"), 99), None);
    assert!(m.id_store.iter().all(|e| e.0 != 99));
}

#[test]
fn remove_unknown_key_or_user_is_a_no_op() {
    let mut m = SRMap::<u64>::new(0);
    m.add_user(1);
    m.insert(s("k"), vs(&["v"]), 1);
    let g = m.g_map.clone();
    m.remove(s("absent"), 1);
    m.remove(s("k"), 99);
    assert_eq!(m.g_map, g);
    assert_eq!(m.get(&s("k"), 1), Some(&vs(&["v"])));
}

#[test]
fn remove_clears_override_first() {
    let mut m = SRMap::<u64>::new(0);
    m.add_user(1);
    m.add_user(2);
    m.insert(s("k"), vs(&["v1"]), 1);
    m.insert(s("k"), vs(&["v2"]), 2);
    m.remove(s("k"), 2);
    // the override is gone; user 2 falls back to nothing (its bit was
    // never set), while user 1 keeps the global value
    assert_eq!(m.get(&s("k"), 2), None);
    assert_eq!(m.get(&s("k"), 1), Some(&vs(&["v1"])));
    assert!(m.u_map.is_empty());
}

#[test]
fn slots_grow_monotonically_and_bitmaps_follow() {
    let mut m = SRMap::<u64>::new(0);
    assert_eq!(m.add_user(5), 1);
    assert_eq!(m.add_user(6), 2);
    m.insert(s("k"), vs(&["v"]), 5);
    // bitmap covers slots 0..=largest
    assert_eq!(m.b_map[0].1.len(), 3);
    assert_eq!(m.b_map[0].1, vec![false, true, false]);
    assert_eq!(m.add_user(8), 3);
    assert_eq!(m.b_map[0].1, vec![false, true, false, false]);
}

#[test]
fn remove_user_keeps_overrides_and_slot() {
    let mut m = SRMap::<u64>::new(0);
    m.add_user(1);
    m.add_user(2);
    m.insert(s("k"), vs(&["v1"]), 1);
    m.insert(s("k"), vs(&["v2"]), 2);
    m.remove_user(2);
    // the override of user 2 is per-user state and stays
    assert_eq!(m.get(&s("k"), 2), Some(&vs(&["v2"])));
    assert_eq!(m.id_store.len(), 2);
    // clearing the only visible user's bit collects the global entry
    m.remove_user(1);
    assert!(m.g_map.is_empty());
    assert_eq!(m.get(&s("k"), 1), None);
    assert_eq!(m.get(&s("k"), 2), Some(&vs(&["v2"])));
}

#[test]
fn largest_slot_reports_allocations() {
    let mut m = SRMap::<u64>::new(0);
    assert_eq!(m.largest_slot(), 0);
    m.add_user(1);
    m.add_user(2);
    assert_eq!(m.largest_slot(), 2);
}

#[test]
fn metadata_is_carried() {
    let m = SRMap::<u64>::new(17);
    assert_eq!(m.meta, 17);
}
