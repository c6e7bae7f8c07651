use srmap::codec::{from_bytes, to_bytes};
use srmap::srmap::SRMap;

fn s(x: &str) -> String {
    x.to_string()
}

fn vs(xs: &[&str]) -> Vec<String> {
    xs.iter().map(|x| x.to_string()).collect()
}

#[test]
fn roundtrip_empty_map() {
    let m = SRMap::<u64>::new(7);
    let b = to_bytes(&m);
    let m2 = from_bytes(&b).expect("an encoding decodes");
    assert_eq!(m2.g_map, m.g_map);
    assert_eq!(m2.b_map, m.b_map);
    assert_eq!(m2.u_map, m.u_map);
    assert_eq!(m2.id_store, m.id_store);
    assert_eq!(m2.largest_slot(), m.largest_slot());
    assert_eq!(m2.meta, m.meta);
}

#[test]
fn roundtrip_populated_map() {
    let mut m = SRMap::<u64>::new(99);
    m.add_user(3);
    m.add_user(11);
    m.insert(s("alpha"), vs(&["one", "two"]), 3);
    m.insert(s("alpha"), vs(&["one", "two"]), 11);
    m.insert(s("beta"), vs(&["drei"]), 11);
    m.insert(s("beta"), vs(&["vier"]), 3);
    let b = to_bytes(&m);
    let m2 = from_bytes(&b).expect("an encoding decodes");
    assert_eq!(m2.g_map, m.g_map);
    assert_eq!(m2.b_map, m.b_map);
    assert_eq!(m2.u_map, m.u_map);
    assert_eq!(m2.id_store, m.id_store);
    assert_eq!(m2.largest_slot(), m.largest_slot());
    assert_eq!(m2.meta, m.meta);
    // the reconstructed state answers queries like the original
    assert_eq!(m2.get(&s("beta"), 3), Some(&vs(&["vier"])));
    assert_eq!(m2.get(&s("beta"), 11), Some(&vs(&["drei"])));
}

#[test]
fn roundtrip_keeps_non_ascii_keys() {
    let mut m = SRMap::<u64>::new(0);
    m.add_user(1);
    m.insert(s("clé\u{1F511}"), vs(&["värde"]), 1);
    let b = to_bytes(&m);
    let m2 = from_bytes(&b).expect("an encoding decodes");
    assert_eq!(m2.get(&s("clé\u{1F511}"), 1), Some(&vs(&["värde"])));
}

#[test]
fn ragged_byte_stream_is_refused() {
    assert!(from_bytes(&vec![1u8, 2, 3]).is_none());
}

#[test]
fn truncated_stream_is_refused() {
    let mut m = SRMap::<u64>::new(1);
    m.add_user(1);
    m.insert(s("k"), vs(&["v"]), 1);
    let mut b = to_bytes(&m);
    // drop the last word: the slot table is cut short
    for _ in 0..8 {
        b.pop();
    }
    assert!(from_bytes(&b).is_none());
}

#[test]
fn trailing_garbage_is_refused() {
    let m = SRMap::<u64>::new(1);
    let mut b = to_bytes(&m);
    for _ in 0..8 {
        b.push(0);
    }
    assert!(from_bytes(&b).is_none());
}

#[test]
fn empty_stream_is_refused() {
    assert!(from_bytes(&Vec::new()).is_none());
}

#[test]
fn known_prefix_of_encoding() {
    let m = SRMap::<u64>::new(0x0102030405060708);
    let b = to_bytes(&m);
    // metadata word, little endian, then the slot counter and four empty
    // tables: six words in all
    assert_eq!(b.len(), 48);
    assert_eq!(&b[0..8], &[8, 7, 6, 5, 4, 3, 2, 1]);
    assert!(b[8..48].iter().all(|x| *x == 0));
}
