use spin_geospatial::kv::{read_outcome, write_outcome, KvOperation, KvStore};

#[test]
fn item_urls_and_authorization() {
    let s = KvStore::new("https://kv.example.com//", "tok".to_string(), "geo".to_string());
    assert_eq!(s.item_url("dev:phone"), "https://kv.example.com/v1/kv/geo/dev:phone");
    assert_eq!(s.authorization(), "Bearer tok");
    let t = KvStore::new("http://h", "t".to_string(), "b".to_string());
    assert_eq!(t.item_url("k"), "http://h/v1/kv/b/k");
}

#[test]
fn read_statuses() {
    assert_eq!(read_outcome("k", 200, vec![1, 2]).unwrap(), Some(vec![1, 2]));
    assert_eq!(read_outcome("k", 404, vec![]).unwrap(), None);
    let e = read_outcome("k", 500, vec![]).unwrap_err();
    assert_eq!(e.operation, KvOperation::Get);
    assert_eq!(e.message(), "kv get k -> 500");
}

#[test]
fn write_statuses() {
    assert!(write_outcome("k", 200).is_ok());
    assert!(write_outcome("k", 204).is_ok());
    let e = write_outcome("k", 403).unwrap_err();
    assert_eq!(e.operation, KvOperation::Put);
    assert_eq!(e.message(), "kv set k -> 403");
}
