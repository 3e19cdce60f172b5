use yagna_named::cache::Cache;
use yagna_named::names::NameMap;
use yagna_named::node_id::{parse_node_id, NodeId};

const N1: &str = "0x1111111111111111111111111111111111111111";
const N2: &str = "0x2222222222222222222222222222222222222222";

fn id(s: &str) -> NodeId {
    parse_node_id(s).unwrap()
}

fn updates(pairs: &[(&str, &str)]) -> NameMap {
    let mut m = NameMap::new();
    for (k, v) in pairs {
        m.insert(id(k), v.to_string());
    }
    m
}

fn cache_with(json: &str) -> Cache {
    Cache::new("/tmp/names.cache".to_string(), Some(json.as_bytes().to_vec())).ok().unwrap()
}

#[test]
fn missing_file_gives_empty_cache() {
    let cache = Cache::new("/nowhere/names.cache".to_string(), None).ok().unwrap();
    assert_eq!(cache.node_name(id(N1)), None);
    assert_eq!(cache.path(), "/nowhere/names.cache");
}

#[test]
fn load_reads_names() {
    let cache = cache_with(&format!("{{\"{}\": \"Alice\"}}", N1));
    assert_eq!(cache.node_name(id(N1)), Some("Alice".to_string()));
    assert_eq!(cache.node_name(id(N2)), None);
}

#[test]
fn malformed_file_is_load_error() {
    let r = Cache::new("/tmp/bad.cache".to_string(), Some(b"{not json".to_vec()));
    match r {
        Ok(_) => panic!("malformed content loaded"),
        Err(e) => assert_eq!(e.path, "/tmp/bad.cache"),
    }
}

#[test]
fn bad_identity_in_file_is_load_error() {
    let r = Cache::new("/tmp/bad.cache".to_string(), Some(b"{\"N1\": \"Alice\"}".to_vec()));
    assert!(r.is_err());
}

#[test]
fn merge_new_name_then_same_again() {
    let mut cache = cache_with(&format!("{{\"{}\": \"Alice\"}}", N1));
    let u = || updates(&[(N1, "Alice"), (N2, "Bob")]);
    assert!(cache.update_cache(u()));
    assert_eq!(cache.node_name(id(N1)), Some("Alice".to_string()));
    assert_eq!(cache.node_name(id(N2)), Some("Bob".to_string()));
    assert!(!cache.update_cache(u()));
    assert_eq!(cache.node_name(id(N2)), Some("Bob".to_string()));
}

#[test]
fn merge_changed_name_overrides() {
    let mut cache = cache_with(&format!("{{\"{}\": \"Alice\"}}", N1));
    assert!(cache.update_cache(updates(&[(N1, "Alicia")])));
    assert_eq!(cache.node_name(id(N1)), Some("Alicia".to_string()));
}

#[test]
fn merge_keeps_names_not_updated() {
    let mut cache = cache_with(&format!("{{\"{}\": \"Alice\"}}", N1));
    assert!(cache.update_cache(updates(&[(N2, "Bob")])));
    assert_eq!(cache.node_name(id(N1)), Some("Alice".to_string()));
}

#[test]
fn merge_nothing_is_no_change() {
    let mut cache = cache_with(&format!("{{\"{}\": \"Alice\"}}", N1));
    assert!(!cache.update_cache(NameMap::new()));
}

#[test]
fn persist_then_load_round_trip() {
    let mut cache = Cache::new("/tmp/a.cache".to_string(), None).ok().unwrap();
    cache.update_cache(updates(&[(N1, "Alice"), (N2, "Bob")]));
    let bytes = cache.contents().unwrap();
    let text = String::from_utf8(bytes.clone()).unwrap();
    assert!(text.contains(N1) && text.contains("Bob"));
    let again = Cache::new("/tmp/a.cache".to_string(), Some(bytes)).ok().unwrap();
    assert_eq!(again.node_name(id(N1)), Some("Alice".to_string()));
    assert_eq!(again.node_name(id(N2)), Some("Bob".to_string()));
}

#[test]
fn empty_cache_contents() {
    let cache = Cache::new("/tmp/a.cache".to_string(), None).ok().unwrap();
    let bytes = cache.contents().unwrap();
    assert_eq!(String::from_utf8(bytes).unwrap(), "{}");
}

#[test]
fn merged_state_persists_and_reads_back() {
    let mut cache = cache_with(&format!("{{\"{}\": \"Alice\"}}", N1));
    assert!(cache.update_cache(updates(&[(N1, "Alice"), (N2, "Bob")])));
    let bytes = cache.contents().unwrap();
    let again = Cache::new("/tmp/names.cache".to_string(), Some(bytes)).ok().unwrap();
    assert_eq!(again.node_name(id(N1)), Some("Alice".to_string()));
    assert_eq!(again.node_name(id(N2)), Some("Bob".to_string()));
}
