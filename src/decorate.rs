use vstd::prelude::*;

use crate::cache::Cache;
use crate::collect::FieldValue;
use crate::node_id::{parse_node_id, parsed_node_id};

verus! {

broadcast use vstd::string::group_string_axioms;

/// The name shown for a node that is unknown, or whose identity is missing or
/// malformed.
pub open spec fn placeholder() -> Seq<char> {
    seq!['-']
}

/// The name that goes on a table row whose `nodeId` field holds `field`.
pub open spec fn row_name_of(names: Map<Seq<u8>, Seq<char>>, field: FieldValue) -> Seq<char> {
    match field {
        FieldValue::Text(s) => match parsed_node_id(s@) {
            Some(k) => if names.contains_key(k) {
                names[k]
            } else {
                placeholder()
            },
            None => placeholder(),
        },
        _ => placeholder(),
    }
}

/// The name to attach to a row whose `nodeId` field holds `field`: the
/// cached name of that node, or `-` when there is none to give.
pub fn row_name(cache: &Cache, field: &FieldValue) -> (r: String)
    requires
        cache.wf(),
    ensures
        r@ == row_name_of(cache@, *field),
{
    proof {
        reveal_strlit("-");
    }
    match field {
        FieldValue::Text(s) => match parse_node_id(s.as_str()) {
            Some(id) => match cache.node_name(id) {
                Some(name) => name,
                None => "-".to_string(),
            },
            None => "-".to_string(),
        },
        _ => "-".to_string(),
    }
}

} // verus!
