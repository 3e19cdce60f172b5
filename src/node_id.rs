use vstd::prelude::*;

use std::str::FromStr;

verus! {

/// Number of bytes in a node identity.
pub const NODE_ID_LENGTH: usize = 20;

/// The identity of a marketplace participant: a 20-byte address, written
/// as `0x` followed by 40 hexadecimal digits.
#[derive(Clone, Copy, Debug, Hash)]
pub struct NodeId {
    pub inner: [u8; 20],
}

impl NodeId {
    pub open spec fn view(&self) -> Seq<u8> {
        self.inner@
    }

    /// The identity made of the given bytes.
    pub fn from_bytes(inner: [u8; 20]) -> (r: NodeId)
        ensures
            r@ == inner@,
    {
        NodeId { inner }
    }
}

impl PartialEq for NodeId {
    fn eq(&self, o: &NodeId) -> (r: bool) {
        let mut i: usize = 0;
        while i < NODE_ID_LENGTH
            invariant
                0 <= i <= NODE_ID_LENGTH,
                self.inner@.len() == NODE_ID_LENGTH,
                o.inner@.len() == NODE_ID_LENGTH,
                forall|j: int| 0 <= j < i ==> self.inner@[j] == o.inner@[j],
            decreases NODE_ID_LENGTH - i,
        {
            if self.inner[i] != o.inner[i] {
                return false;
            }
            i = i + 1;
        }
        assert(self.inner@ =~= o.inner@);
        true
    }
}

impl vstd::std_specs::cmp::PartialEqSpecImpl for NodeId {
    open spec fn obeys_eq_spec() -> bool {
        true
    }

    open spec fn eq_spec(&self, o: &NodeId) -> bool {
        self.inner@ == o.inner@
    }
}

impl Eq for NodeId {}

/// Whether `c` is a hexadecimal digit, of either case.
pub open spec fn is_hex_digit(c: char) -> bool {
    ('0' <= c && c <= '9') || ('a' <= c && c <= 'f') || ('A' <= c && c <= 'F')
}

/// The value of a hexadecimal digit.
pub open spec fn hex_value(c: char) -> int {
    if '0' <= c && c <= '9' {
        c as int - '0' as int
    } else if 'a' <= c && c <= 'f' {
        c as int - 'a' as int + 10
    } else {
        c as int - 'A' as int + 10
    }
}

/// Whether `s` is the text of a node identity: `0x`, then 40 hexadecimal digits.
pub open spec fn is_node_id_text(s: Seq<char>) -> bool {
    &&& s.len() == 2 + 2 * NODE_ID_LENGTH
    &&& s[0] == '0'
    &&& s[1] == 'x'
    &&& forall|i: int| 2 <= i < s.len() ==> is_hex_digit(#[trigger] s[i])
}

/// The bytes that the text of a node identity stands for, two digits per byte.
pub open spec fn node_id_bytes(s: Seq<char>) -> Seq<u8> {
    Seq::new(
        NODE_ID_LENGTH as nat,
        |j: int| (hex_value(s[2 + 2 * j]) * 16 + hex_value(s[3 + 2 * j])) as u8,
    )
}

/// The identity that `s` denotes, if it is the text of one.
pub open spec fn parsed_node_id(s: Seq<char>) -> Option<Seq<u8>> {
    if is_node_id_text(s) {
        Some(node_id_bytes(s))
    } else {
        None
    }
}

/// Relies on `ya_client_model::NodeId::from_str`: it accepts exactly `0x`
/// followed by 40 hexadecimal digits, each pair of digits giving one byte.
#[verifier::external_body]
pub fn parse_node_id(s: &str) -> (r: Option<NodeId>)
    ensures
        r is Some <==> parsed_node_id(s@) is Some,
        r is Some ==> parsed_node_id(s@) == Some(r->Some_0@),
{
    match ya_client_model::NodeId::from_str(s) {
        Ok(id) => Some(NodeId { inner: id.into_array() }),
        Err(_) => None,
    }
}

} // verus!
