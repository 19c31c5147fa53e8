use senklot::util::MutDict;
use senklot::util::Optional;
use senklot::util::StrMap;

#[test]
fn set_inserts_and_replaces_in_place() {
    let mut m: StrMap<u32> = StrMap::new();
    assert_eq!(m.len(), 0);
    m.set("a", 1);
    m.set("b", 2);
    m.set("a", 3);
    assert_eq!(m.len(), 2);
    assert_eq!(m.get("a"), Some(&3));
    assert_eq!(m.get("b"), Some(&2));
    assert_eq!(m.get("c"), None);
    assert!(m.contains("a"));
    assert!(!m.contains("c"));
    // replacement keeps the original position
    assert_eq!(m.pair_at(0).0, "a");
    assert_eq!(*m.pair_at(0).1, 3);
    assert_eq!(m.pair_at(1).0, "b");
}

#[test]
fn options_and_results_convert_alike() {
    let some: Option<u32> = Some(5);
    let none: Option<u32> = None;
    assert_eq!(some.into_option(), Some(5));
    assert_eq!(none.into_option(), None);
    let ok: Result<u32, ()> = Ok(7);
    let err: Result<u32, ()> = Err(());
    assert_eq!(ok.into_option(), Some(7));
    assert_eq!(err.into_option(), None);
}
