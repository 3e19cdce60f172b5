use yagna_named::collect::{
    listing_streams, Collection, CollectError, ExtractionError, FieldValue, ListingEvent, NodeInfo,
    Step,
};
use yagna_named::node_id::NodeId;

fn info(b: u8, name: &str) -> NodeInfo {
    NodeInfo { id: NodeId::from_bytes([b; 20]), name: name.to_string() }
}

#[test]
fn offer_with_name_is_extracted() {
    let issuer = NodeId::from_bytes([3u8; 20]);
    let r = NodeInfo::from_offer(issuer, FieldValue::Text("Carol".to_string()));
    let node = r.ok().unwrap();
    assert!(node.id == issuer);
    assert_eq!(node.name, "Carol");
}

#[test]
fn offer_without_name_is_error() {
    let issuer = NodeId::from_bytes([3u8; 20]);
    assert_eq!(
        NodeInfo::from_offer(issuer, FieldValue::Missing).err(),
        Some(ExtractionError::NoNameProperty)
    );
    assert_eq!(
        NodeInfo::from_offer(issuer, FieldValue::Other).err(),
        Some(ExtractionError::NameNotText)
    );
}

#[test]
fn one_failed_source_is_dropped() {
    let opened: Vec<Result<u32, String>> = vec![Ok(1), Err("down".to_string()), Ok(3)];
    assert_eq!(listing_streams(opened), Ok(vec![1, 3]));
}

#[test]
fn all_sources_failed() {
    let opened: Vec<Result<u32, String>> = vec![Err("a".to_string()), Err("b".to_string())];
    assert_eq!(listing_streams(opened), Err(CollectError::NoSourcesAvailable));
    let none: Vec<Result<u32, String>> = vec![];
    assert_eq!(listing_streams(none), Err(CollectError::NoSourcesAvailable));
}

#[test]
fn drain_skips_failed_items() {
    let mut c = Collection::new();
    assert_eq!(c.observe(ListingEvent::Offer(info(1, "Alice"))), Step::Continue);
    assert_eq!(c.observe(ListingEvent::Skipped), Step::Continue);
    assert_eq!(c.observe(ListingEvent::Offer(info(2, "Bob"))), Step::Continue);
    assert!(!c.is_finished());
    let nodes = c.into_nodes();
    assert_eq!(nodes.len(), 2);
    assert_eq!(nodes.get(&NodeId::from_bytes([2u8; 20])), Some("Bob".to_string()));
}

#[test]
fn drain_later_offer_overrides() {
    let mut c = Collection::new();
    c.observe(ListingEvent::Offer(info(1, "Alice")));
    c.observe(ListingEvent::Offer(info(1, "Alicia")));
    let nodes = c.into_nodes();
    assert_eq!(nodes.len(), 1);
    assert_eq!(nodes.get(&NodeId::from_bytes([1u8; 20])), Some("Alicia".to_string()));
}

#[test]
fn drain_stops_at_deadline() {
    let mut c = Collection::new();
    c.observe(ListingEvent::Offer(info(1, "Alice")));
    assert_eq!(c.observe(ListingEvent::DeadlineElapsed), Step::Finish);
    assert!(c.is_finished());
    assert_eq!(c.observe(ListingEvent::Offer(info(2, "Bob"))), Step::Finish);
    let nodes = c.into_nodes();
    assert_eq!(nodes.len(), 1);
    assert_eq!(nodes.get(&NodeId::from_bytes([2u8; 20])), None);
}

#[test]
fn drain_stops_when_streams_end() {
    let mut c = Collection::new();
    assert_eq!(c.observe(ListingEvent::Exhausted), Step::Finish);
    assert_eq!(c.into_nodes().len(), 0);
}
