use vstd::prelude::*;

verus! {

broadcast use vstd::string::group_string_axioms;

/// The value of one property of a demand.
pub enum DemandValue {
    Text(String),
    /// A point in time, in milliseconds since the Unix epoch.
    Millis(i64),
}

/// A demand property value, with text as characters.
pub enum DemandValueSpec {
    Text(Seq<char>),
    Millis(i64),
}

/// The properties of the demand that subscribes to the offers of `subnet`,
/// made at `now_millis`: the scanner's own name, the subnet, and an
/// expiration of now.
pub open spec fn demand_properties(subnet: Seq<char>, now_millis: i64) -> Seq<(Seq<char>, DemandValueSpec)> {
    seq![
        ("golem.node.id.name"@, DemandValueSpec::Text("Named node scanner"@)),
        ("golem.node.debug.subnet"@, DemandValueSpec::Text(subnet)),
        ("golem.srv.comp.expiration"@, DemandValueSpec::Millis(now_millis)),
    ]
}

impl DemandValue {
    pub open spec fn view(&self) -> DemandValueSpec {
        match self {
            DemandValue::Text(s) => DemandValueSpec::Text(s@),
            DemandValue::Millis(m) => DemandValueSpec::Millis(*m),
        }
    }
}

/// The properties of the demand for `subnet` made at `now_millis`, in order.
pub fn create_demand(subnet: &str, now_millis: i64) -> (r: Vec<(String, DemandValue)>)
    ensures
        r@.len() == demand_properties(subnet@, now_millis).len(),
        forall|i: int|
            0 <= i < r@.len() ==> (#[trigger] r@[i]).0@ == demand_properties(subnet@, now_millis)[i].0
                && r@[i].1@ == demand_properties(subnet@, now_millis)[i].1,
{
    let mut r: Vec<(String, DemandValue)> = Vec::new();
    r.push(
        ("golem.node.id.name".to_string(), DemandValue::Text("Named node scanner".to_string())),
    );
    r.push(("golem.node.debug.subnet".to_string(), DemandValue::Text(subnet.to_string())));
    r.push(("golem.srv.comp.expiration".to_string(), DemandValue::Millis(now_millis)));
    r
}

} // verus!
