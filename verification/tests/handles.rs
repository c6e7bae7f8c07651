use std::cell::Cell;

use srmap::handles::{construct, new_read, new_write};

fn s(x: &str) -> String {
    x.to_string()
}

#[test]
fn construct_gives_an_empty_map() {
    let (r, w) = construct::<u64>(5);
    assert!(r.is_empty());
    assert!(w.is_empty());
    assert_eq!(r.len(), 0);
    assert_eq!(r.meta(), Some(5));
}

#[test]
fn write_then_read_through_handles() {
    let (r, mut w) = construct::<u64>(0);
    assert_eq!(w.add_user(7), Some(1));
    w.insert(s("a"), s("x"), 7);
    assert!(r.contains_key(&s("a")));
    assert_eq!(r.len(), 1);
    assert!(!r.is_empty());
    let got = r.get_and(&s("a"), |vs: &[String]| vs.to_vec(), 7);
    assert_eq!(got, Some(vec![s("x")]));
}

#[test]
fn scenario_through_handles() {
    let (r, mut w) = construct::<u64>(0);
    assert_eq!(w.add_user(7), Some(1));
    w.insert(s("a"), s("x"), 7);
    assert_eq!(r.get_and(&s("a"), |vs: &[String]| vs.to_vec(), 7), Some(vec![s("x")]));
    assert_eq!(w.add_user(9), Some(2));
    w.insert(s("a"), s("x"), 9);
    assert_eq!(r.get_and(&s("a"), |vs: &[String]| vs.to_vec(), 9), Some(vec![s("x")]));
    assert_eq!(r.len(), 1);
    w.insert(s("a"), s("y"), 9);
    assert_eq!(r.get_and(&s("a"), |vs: &[String]| vs.to_vec(), 9), Some(vec![s("y")]));
    assert_eq!(r.get_and(&s("a"), |vs: &[String]| vs.to_vec(), 7), Some(vec![s("x")]));
    w.remove_user(7);
    assert!(r.contains_key(&s("a")));
    w.remove(s("a"), 9);
    assert!(!r.contains_key(&s("a")));
}

#[test]
fn absent_key_projects_to_none() {
    let (r, mut w) = construct::<u64>(0);
    w.add_user(1);
    assert_eq!(r.get_and(&s("nope"), |vs: &[String]| vs.len(), 1), None);
}

#[test]
fn meta_get_and_pairs_projection_with_metadata() {
    let (r, mut w) = construct::<u64>(33);
    w.add_user(1);
    w.insert(s("k"), s("v"), 1);
    let got = r.meta_get_and(&s("k"), |vs: &[String]| vs.len(), 1);
    assert_eq!(got, Some((Some(1), 33)));
    let missing = r.meta_get_and(&s("nope"), |vs: &[String]| vs.len(), 1);
    assert_eq!(missing, Some((None, 33)));
    let w_side = w.meta_get_and(&s("k"), |vs: &[String]| vs.len(), 1);
    assert_eq!(w_side, Some((Some(1), 33)));
}

#[test]
fn update_empty_clear_and_empty_at_index_resolve_to_the_engine() {
    let (r, mut w) = construct::<u64>(0);
    w.add_user(1);
    w.update(s("k"), s("v"), 1);
    assert!(r.contains_key(&s("k")));
    w.empty(s("k"), 1);
    assert!(!r.contains_key(&s("k")));
    w.insert(s("k"), s("v"), 1);
    w.clear(s("k"), 1);
    assert!(!r.contains_key(&s("k")));
    w.insert(s("k"), s("v"), 1);
    w.empty_at_index(s("k"), 1);
    assert!(!r.contains_key(&s("k")));
}

#[test]
fn for_each_visits_global_entries_only() {
    let (r, mut w) = construct::<u64>(0);
    w.add_user(1);
    w.add_user(2);
    w.insert(s("a"), s("x"), 1);
    w.insert(s("b"), s("y"), 1);
    // user 2 diverges on "a": that override is per-user state and is not
    // visited by the whole-map scan
    w.insert(s("a"), s("z"), 2);
    let count = Cell::new(0usize);
    let values = Cell::new(0usize);
    r.for_each(|_k: &String, vs: &[String]| {
        count.set(count.get() + 1);
        values.set(values.get() + vs.len());
    });
    assert_eq!(count.get(), 2);
    assert_eq!(values.get(), 2);
}

#[test]
fn diagnostics_snapshot_the_state() {
    let (mut r, mut w) = construct::<u64>(0);
    w.add_user(4);
    w.insert(s("k"), s("v"), 4);
    w.insert(s("k"), s("w"), 9);
    let g = r.g_map_diagnostics();
    assert_eq!(g, vec![(s("k"), vec![s("v")])]);
    let b = r.b_map_diagnostics();
    assert_eq!(b, vec![(s("k"), vec![false, true])]);
    let u = r.u_map_diagnostics();
    assert_eq!(u, vec![((9, s("k")), vec![s("w")])]);
    let ids = r.id_store_diagnostics();
    assert_eq!(ids, vec![(4, 1)]);
}

#[test]
fn handles_clone_and_share_one_map() {
    let (r, mut w) = construct::<u64>(0);
    let r2 = r.clone();
    let mut w2 = w.clone();
    w.add_user(1);
    w2.insert(s("k"), s("v"), 1);
    assert!(r2.contains_key(&s("k")));
    assert_eq!(r2.get_and(&s("k"), |vs: &[String]| vs.to_vec(), 1), Some(vec![s("v")]));
}

#[test]
fn new_read_and_new_write_share_the_lock() {
    let (r, _w) = construct::<u64>(0);
    let lock = r.get_lock();
    let mut w2 = new_write(lock);
    let r2 = new_read(r.get_lock());
    w2.add_user(1);
    w2.insert(s("k"), s("v"), 1);
    assert!(r2.contains_key(&s("k")));
    assert!(r.contains_key(&s("k")));
}

#[test]
fn refresh_is_a_no_op() {
    srmap::handles::WriteHandle::<u64>::refresh();
}

#[test]
fn concurrent_readers_and_writer() {
    let (r, mut w) = construct::<u64>(0);
    w.add_user(1);
    for i in 0..100 {
        w.insert(format!("k{}", i), s("v"), 1);
    }
    let r2 = r.clone();
    let a = r.len();
    let b = r2.len();
    assert_eq!(a, 100);
    assert_eq!(a, b);
}
