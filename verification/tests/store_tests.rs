use forghetti::digest::digest;
use forghetti::store::Store;
use forghetti::Error;

const ID_A: &str = "ca978112ca1bbdcafac231b39a23dc4da786eff8147c4e72b9807785afee48bb";

#[test]
fn digest_of_empty_content() {
    assert_eq!(
        digest(b""),
        "e3b0c44298fc1c149afbf4c8996fb92427ae41e4649b934ca495991b7852b855"
    );
}

#[test]
fn digest_of_abc() {
    assert_eq!(
        digest(b"abc"),
        "ba7816bf8f01cfea414140de5dae2223b00361a396177a9cb410ff61f20015ad"
    );
}

#[test]
fn digest_is_deterministic() {
    assert_eq!(digest(b"some scribble"), digest(b"some scribble"));
    assert_eq!(digest(b"a").len(), 64);
}

#[test]
fn add_then_resolve_full_id_round_trips() {
    let mut s = Store::new();
    let id = s.add(b"remember the milk");
    let resolved = s.resolve(&id).unwrap();
    assert_eq!(resolved, id);
}

#[test]
fn adding_identical_content_is_idempotent() {
    let mut s = Store::new();
    let id1 = s.add(b"same note");
    let id2 = s.add(b"same note");
    assert_eq!(id1, id2);
    assert_eq!(s.list(None).len(), 1);
}

#[test]
fn adding_identical_content_keeps_recency() {
    let mut s = Store::new();
    let id_a = s.add(b"first");
    let id_b = s.add(b"second");
    let again = s.add(b"first");
    assert_eq!(again, id_a);
    let listing = s.list(None);
    assert_eq!(listing.len(), 2);
    assert_eq!(listing[0].0, id_b);
    assert_eq!(listing[1].0, id_a);
}

#[test]
fn distinct_content_gets_distinct_ids() {
    let mut s = Store::new();
    let id1 = s.add(b"a");
    let id2 = s.add(b"b");
    assert_ne!(id1, id2);
}

#[test]
fn resolve_empty_store_is_not_found() {
    let s = Store::new();
    assert!(matches!(s.resolve("ab"), Err(Error::NotFound)));
}

#[test]
fn resolve_unmatched_prefix_is_not_found() {
    let mut s = Store::new();
    s.add(b"abc");
    assert!(matches!(s.resolve("zz"), Err(Error::NotFound)));
}

#[test]
fn resolve_unique_prefix_succeeds() {
    let mut s = Store::new();
    s.add(b"");
    let id_abc = s.add(b"abc");
    // the two ids start with e3 and ba: "ba" designates one of them
    assert_eq!(s.resolve("ba").unwrap(), id_abc);
}

#[test]
fn resolve_shared_prefix_is_ambiguous_with_candidates() {
    let mut s = Store::new();
    let id1 = s.add(b"");
    let id2 = s.add(b"abc");
    // the empty prefix is shared by every stored id
    match s.resolve("") {
        Err(Error::Ambiguous(cands)) => {
            assert_eq!(cands.len(), 2);
            assert_eq!(cands[0], id1);
            assert_eq!(cands[1], id2);
        }
        other => panic!("expected Ambiguous, got {:?}", other),
    }
}

#[test]
fn read_returns_exact_bytes() {
    let mut s = Store::new();
    let id = s.add(&[0u8, 159, 146, 150]);
    assert_eq!(s.read(&id).unwrap(), vec![0u8, 159, 146, 150]);
}

#[test]
fn read_unknown_id_is_not_found() {
    let s = Store::new();
    assert!(matches!(s.read(ID_A), Err(Error::NotFound)));
}

#[test]
fn tagging_twice_lists_the_tag_once() {
    let mut s = Store::new();
    let id = s.add(b"note");
    s.tag(&id, "x").unwrap();
    s.tag(&id, "x").unwrap();
    let tags = s.tags_of(&id);
    assert_eq!(tags, vec!["x".to_string()]);
}

#[test]
fn tagging_a_missing_id_is_not_found() {
    let mut s = Store::new();
    s.add(b"something else");
    assert!(matches!(s.tag(ID_A, "x"), Err(Error::NotFound)));
    assert_eq!(s.all_tags().len(), 0);
}

#[test]
fn tag_names_with_separators_are_invalid() {
    let mut s = Store::new();
    let id = s.add(b"note");
    assert!(matches!(s.tag(&id, "a/b"), Err(Error::InvalidTagName)));
    assert!(matches!(s.tag(&id, ""), Err(Error::InvalidTagName)));
    assert!(matches!(s.tag(&id, "."), Err(Error::InvalidTagName)));
    assert!(matches!(s.tag(&id, ".."), Err(Error::InvalidTagName)));
    assert!(matches!(s.tag(&id, "a\\b"), Err(Error::InvalidTagName)));
    assert!(s.tag(&id, "a.b").is_ok());
}

#[test]
fn tags_of_lists_most_recently_used_first() {
    let mut s = Store::new();
    let id = s.add(b"note");
    s.tag(&id, "one").unwrap();
    s.tag(&id, "two").unwrap();
    assert_eq!(s.tags_of(&id), vec!["two".to_string(), "one".to_string()]);
}

#[test]
fn tags_of_unknown_id_is_empty() {
    let mut s = Store::new();
    let id = s.add(b"note");
    s.tag(&id, "one").unwrap();
    assert_eq!(s.tags_of(ID_A), Vec::<String>::new());
}

#[test]
fn all_tags_orders_by_most_recent_association() {
    let mut s = Store::new();
    let id1 = s.add(b"one");
    let id2 = s.add(b"two");
    s.tag(&id1, "alpha").unwrap();
    s.tag(&id2, "beta").unwrap();
    assert_eq!(s.all_tags(), vec!["beta".to_string(), "alpha".to_string()]);
    // re-tagging the same pair is a no-op and moves nothing
    s.tag(&id1, "alpha").unwrap();
    assert_eq!(s.all_tags(), vec!["beta".to_string(), "alpha".to_string()]);
    // a genuinely new association moves its container to the front
    s.tag(&id2, "alpha").unwrap();
    assert_eq!(s.all_tags(), vec!["alpha".to_string(), "beta".to_string()]);
}

#[test]
fn list_two_of_five_returns_newest_two() {
    let mut s = Store::new();
    s.add(b"A");
    s.add(b"B");
    s.add(b"C");
    let id_d = s.add(b"D");
    let id_e = s.add(b"E");
    let listing = s.list(Some(2));
    assert_eq!(listing.len(), 2);
    assert_eq!(listing[0].0, id_e);
    assert_eq!(listing[1].0, id_d);
}

#[test]
fn list_without_limit_returns_all_newest_first() {
    let mut s = Store::new();
    let id1 = s.add(b"first");
    let id2 = s.add(b"second");
    let listing = s.list(None);
    assert_eq!(listing.len(), 2);
    assert_eq!(listing[0].0, id2);
    assert_eq!(listing[1].0, id1);
}

#[test]
fn list_ids_by_recency_is_newest_first() {
    let mut s = Store::new();
    let id1 = s.add(b"first");
    let id2 = s.add(b"second");
    assert_eq!(s.list_ids_by_recency(), vec![id2, id1]);
}
