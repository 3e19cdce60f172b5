use yagna_named::cache::Cache;
use yagna_named::collect::FieldValue;
use yagna_named::decorate::row_name;

const N2: &str = "0x2222222222222222222222222222222222222222";
const N9: &str = "0x9999999999999999999999999999999999999999";

fn cache() -> Cache {
    let json = format!("{{\"{}\": \"Bob\"}}", N2);
    Cache::new("/tmp/names.cache".to_string(), Some(json.into_bytes())).ok().unwrap()
}

#[test]
fn known_node_gets_its_name() {
    assert_eq!(row_name(&cache(), &FieldValue::Text(N2.to_string())), "Bob");
}

#[test]
fn known_node_in_upper_case_gets_its_name() {
    let upper = N2.to_uppercase().replacen("0X", "0x", 1);
    assert_eq!(row_name(&cache(), &FieldValue::Text(upper)), "Bob");
}

#[test]
fn unknown_node_gets_placeholder() {
    assert_eq!(row_name(&cache(), &FieldValue::Text(N9.to_string())), "-");
}

#[test]
fn missing_or_bad_node_id_gets_placeholder() {
    assert_eq!(row_name(&cache(), &FieldValue::Missing), "-");
    assert_eq!(row_name(&cache(), &FieldValue::Other), "-");
    assert_eq!(row_name(&cache(), &FieldValue::Text("N2".to_string())), "-");
}
