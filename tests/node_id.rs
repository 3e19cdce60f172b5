use yagna_named::names::NameMap;
use yagna_named::node_id::{parse_node_id, NodeId};

#[test]
fn parses_lower_and_upper_hex() {
    let a = parse_node_id("0x00ff10000000000000000000000000000000abCD").unwrap();
    assert_eq!(a.inner[0], 0x00);
    assert_eq!(a.inner[1], 0xff);
    assert_eq!(a.inner[2], 0x10);
    assert_eq!(a.inner[18], 0xab);
    assert_eq!(a.inner[19], 0xcd);
}

#[test]
fn rejects_malformed_ids() {
    assert!(parse_node_id("N1").is_none());
    assert!(parse_node_id("0x00").is_none());
    assert!(parse_node_id("1x00ff10000000000000000000000000000000abcd").is_none());
    assert!(parse_node_id("0x00ff1000000000000000000000000000000gabcd").is_none());
    assert!(parse_node_id("").is_none());
}

#[test]
fn ids_compare_by_bytes() {
    let mut b = [0u8; 20];
    b[5] = 7;
    assert!(NodeId::from_bytes(b) == NodeId::from_bytes(b));
    assert!(NodeId::from_bytes(b) != NodeId::from_bytes([0u8; 20]));
}

#[test]
fn name_map_last_insert_wins() {
    let mut m = NameMap::new();
    let k = NodeId::from_bytes([1u8; 20]);
    m.insert(k, "a".to_string());
    m.insert(k, "b".to_string());
    assert_eq!(m.len(), 1);
    assert_eq!(m.get(&k), Some("b".to_string()));
    assert_eq!(m.get(&NodeId::from_bytes([2u8; 20])), None);
}
