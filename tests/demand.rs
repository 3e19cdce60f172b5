use yagna_named::demand::{create_demand, DemandValue};

#[test]
fn demand_names_scanner_and_subnet() {
    let props = create_demand("public-beta", 1700000000123);
    assert_eq!(props.len(), 3);
    assert_eq!(props[0].0, "golem.node.id.name");
    assert!(matches!(&props[0].1, DemandValue::Text(t) if t == "Named node scanner"));
    assert_eq!(props[1].0, "golem.node.debug.subnet");
    assert!(matches!(&props[1].1, DemandValue::Text(t) if t == "public-beta"));
    assert_eq!(props[2].0, "golem.srv.comp.expiration");
    assert!(matches!(props[2].1, DemandValue::Millis(1700000000123)));
}
