use vstd::prelude::*;

use std::collections::HashMap;

use crate::names::{entries_map, keys_unique, lemma_entries_map_index, lemma_entries_map_key, NameMap};
use crate::node_id::NodeId;

verus! {

#[verifier::external_type_specification]
#[verifier::external_body]
pub struct ExJsonError(serde_json::Error);

/// The mapping that the bytes of a cache file hold, when they are a JSON
/// object from node identities to names.
pub uninterp spec fn cache_document(b: Seq<u8>) -> Option<Map<Seq<u8>, Seq<char>>>;

/// Relies on `serde_json::from_slice` into a `HashMap<ya_client_model::NodeId, String>`:
/// it succeeds exactly when the bytes are such an object, and the map it
/// yields depends on the bytes alone; a `HashMap` holds each key once.
#[verifier::external_body]
fn decode_entries(b: &[u8]) -> (r: Result<Vec<(NodeId, String)>, serde_json::Error>)
    ensures
        r is Ok <==> cache_document(b@) is Some,
        r is Ok ==> keys_unique(r->Ok_0@) && cache_document(b@) == Some(entries_map(r->Ok_0@)),
{
    let map = serde_json::from_slice::<HashMap<ya_client_model::NodeId, String>>(b)?;
    Ok(map.into_iter().map(|(k, v)| (NodeId { inner: k.into_array() }, v)).collect())
}

/// Relies on `serde_json::to_vec_pretty` of a `HashMap<ya_client_model::NodeId, String>`:
/// it fails only when a `Serialize` impl fails or a map key is not a string,
/// and `NodeId` is written as a string, so it succeeds; the text is a JSON
/// object with one member per entry, which `serde_json::from_slice` reads
/// back to the same map.
#[verifier::external_body]
fn encode_entries(entries: &Vec<(NodeId, String)>) -> (r: Result<Vec<u8>, serde_json::Error>)
    requires
        keys_unique(entries@),
    ensures
        r is Ok,
        r is Ok ==> cache_document(r->Ok_0@) == Some(entries_map(entries@)),
{
    let map: HashMap<ya_client_model::NodeId, String> = entries
        .iter()
        .map(|(k, v)| (ya_client_model::NodeId::from(k.inner), v.clone()))
        .collect();
    serde_json::to_vec_pretty(&map)
}

/// What loading a cache file gives: nothing on disk is an empty mapping.
pub open spec fn loaded(contents: Option<Seq<u8>>) -> Option<Map<Seq<u8>, Seq<char>>> {
    match contents {
        None => Some(Map::empty()),
        Some(b) => cache_document(b),
    }
}

/// `u` merged into `s`: every name of `u` replaces the one held for its identity.
pub open spec fn merged(s: Map<Seq<u8>, Seq<char>>, u: Map<Seq<u8>, Seq<char>>) -> Map<
    Seq<u8>,
    Seq<char>,
> {
    s.union_prefer_right(u)
}

/// Whether merging `u` into `s` adds an identity or changes a name.
pub open spec fn changes(s: Map<Seq<u8>, Seq<char>>, u: Map<Seq<u8>, Seq<char>>) -> bool {
    exists|k: Seq<u8>| #[trigger] u.contains_key(k) && (!s.contains_key(k) || s[k] != u[k])
}

/// The cache file could not be read as a mapping of names.
pub struct CacheLoadError {
    pub path: String,
    pub cause: serde_json::Error,
}

/// The names known so far, and the file they are kept in.
pub struct Cache {
    path: String,
    nodes: NameMap,
}

impl Cache {
    pub closed spec fn view(&self) -> Map<Seq<u8>, Seq<char>> {
        self.nodes@
    }

    pub closed spec fn wf(&self) -> bool {
        self.nodes.wf()
    }

    pub closed spec fn path_spec(&self) -> Seq<char> {
        self.path@
    }

    /// The cache kept at `path`, whose file holds `contents` (`None` when
    /// there is no file).
    pub fn new(path: String, contents: Option<Vec<u8>>) -> (r: Result<Cache, CacheLoadError>)
        ensures
            match r {
                Ok(c) => c.wf() && c.path_spec() == path@ && loaded(
                    match contents {
                        Some(b) => Some(b@),
                        None => None,
                    },
                ) == Some(c@),
                Err(e) => e.path@ == path@ && contents is Some && cache_document(
                    contents->Some_0@,
                ) is None,
            },
    {
        match contents {
            None => Ok(Cache { path, nodes: NameMap::new() }),
            Some(b) => match decode_entries(b.as_slice()) {
                Ok(entries) => {
                    let mut nodes = NameMap::new();
                    let mut i: usize = 0;
                    while i < entries.len()
                        invariant
                            0 <= i <= entries@.len(),
                            keys_unique(entries@),
                            nodes.wf(),
                            nodes@ == entries_map(entries@.take(i as int)),
                        decreases entries@.len() - i,
                    {
                        assert(entries@.take(i + 1).drop_last() =~= entries@.take(i as int));
                        nodes.insert(entries[i].0, entries[i].1.clone());
                        i = i + 1;
                    }
                    assert(entries@.take(i as int) =~= entries@);
                    Ok(Cache { path, nodes })
                },
                Err(cause) => Err(CacheLoadError { path, cause }),
            },
        }
    }

    /// The path of the cache file.
    pub fn path(&self) -> (r: &String)
        ensures
            r@ == self.path_spec(),
    {
        &self.path
    }

    /// Merges `nodes_info` into the cache, and says whether that added an
    /// identity or changed a name, i.e. whether the file needs writing.
    pub fn update_cache(&mut self, nodes_info: NameMap) -> (changed: bool)
        requires
            old(self).wf(),
            nodes_info.wf(),
        ensures
            final(self).wf(),
            final(self)@ == merged(old(self)@, nodes_info@),
            final(self).path_spec() == old(self).path_spec(),
            changed == changes(old(self)@, nodes_info@),
    {
        let ghost s = self.nodes@;
        let ghost u = nodes_info.entries();
        proof {
            nodes_info.lemma_wf_view();
        }
        let mut changed = false;
        let mut i: usize = 0;
        while i < nodes_info.len()
            invariant
                0 <= i <= u.len(),
                u == nodes_info.entries(),
                keys_unique(u),
                nodes_info.wf(),
                self.nodes.wf(),
                self.path@ == old(self).path@,
                self.nodes@ == merged(s, entries_map(u.take(i as int))),
                changed == exists|j: int|
                    0 <= j < i && (!s.contains_key((#[trigger] u[j]).0@) || s[u[j].0@]
                        != u[j].1@),
            decreases u.len() - i,
        {
            let (id, name) = nodes_info.entry(i);
            proof {
                if entries_map(u.take(i as int)).contains_key(id@) {
                    lemma_entries_map_key(u.take(i as int), id@);
                    let j = choose|j: int|
                        0 <= j < i && (#[trigger] u.take(i as int)[j]).0@ == id@;
                    assert(u.take(i as int)[j] == u[j]);
                }
            }
            let differs = match self.nodes.get(&id) {
                None => true,
                Some(prior) => prior != name,
            };
            assert(differs == (!s.contains_key(u[i as int].0@) || s[u[i as int].0@]
                != u[i as int].1@));
            if differs {
                changed = true;
            }
            self.nodes.insert(id, name);
            assert(u.take(i + 1).drop_last() =~= u.take(i as int));
            assert(self.nodes@ =~= merged(s, entries_map(u.take(i + 1))));
            i = i + 1;
        }
        assert(u.take(i as int) =~= u);
        proof {
            if changed {
                let j = choose|j: int|
                    0 <= j < i && (!s.contains_key((#[trigger] u[j]).0@) || s[u[j].0@]
                        != u[j].1@);
                lemma_entries_map_index(u, j);
                assert(nodes_info@.contains_key(u[j].0@));
            }
            if changes(s, nodes_info@) {
                let k = choose|k: Seq<u8>|
                    #[trigger] nodes_info@.contains_key(k) && (!s.contains_key(k) || s[k]
                        != nodes_info@[k]);
                lemma_entries_map_key(u, k);
                let j = choose|j: int| 0 <= j < u.len() && (#[trigger] u[j]).0@ == k;
                lemma_entries_map_index(u, j);
            }
        }
        changed
    }

    /// The name known for `id`, if any.
    pub fn node_name(&self, id: NodeId) -> (r: Option<String>)
        requires
            self.wf(),
        ensures
            r is Some <==> self@.contains_key(id@),
            r is Some ==> r->Some_0@ == self@[id@],
    {
        self.nodes.get(&id)
    }

    /// The contents to write to the cache file: a JSON object from
    /// identities to names, which loads back to the same names.
    pub fn contents(&self) -> (r: Result<Vec<u8>, serde_json::Error>)
        requires
            self.wf(),
        ensures
            r is Ok,
            r is Ok ==> loaded(Some(r->Ok_0@)) == Some(self@),
    {
        let mut entries: Vec<(NodeId, String)> = Vec::new();
        let mut i: usize = 0;
        proof {
            self.nodes.lemma_wf_view();
        }
        let ghost all = self.nodes.entries();
        while i < self.nodes.len()
            invariant
                0 <= i <= all.len(),
                all == self.nodes.entries(),
                keys_unique(all),
                self.nodes.wf(),
                entries@.len() == i,
                forall|j: int|
                    0 <= j < i ==> (#[trigger] entries@[j]).0@ == all[j].0@ && entries@[j].1@
                        == all[j].1@,
            decreases all.len() - i,
        {
            entries.push(self.nodes.entry(i));
            i = i + 1;
        }
        proof {
            lemma_same_entries(entries@, all);
        }
        encode_entries(&entries)
    }
}

/// Two lists with the same identities and names, entry by entry, are the same mapping.
proof fn lemma_same_entries(a: Seq<(NodeId, String)>, b: Seq<(NodeId, String)>)
    requires
        a.len() == b.len(),
        forall|j: int| 0 <= j < a.len() ==> (#[trigger] a[j]).0@ == b[j].0@ && a[j].1@ == b[j].1@,
    ensures
        entries_map(a) == entries_map(b),
        keys_unique(b) ==> keys_unique(a),
    decreases a.len(),
{
    if a.len() > 0 {
        lemma_same_entries(a.drop_last(), b.drop_last());
        assert(a.last().0@ == b.last().0@);
    }
    if keys_unique(b) {
        assert forall|i: int, j: int| 0 <= i < j < a.len() implies (#[trigger] a[i]).0@
            != (#[trigger] a[j]).0@ by {
            assert(a[i].0@ == b[i].0@ && a[j].0@ == b[j].0@);
        }
    }
}

/// Merging the same updates twice gives what merging them once gave, and the
/// second merge reports no change.
pub proof fn lemma_merge_idempotent(s: Map<Seq<u8>, Seq<char>>, u: Map<Seq<u8>, Seq<char>>)
    ensures
        merged(merged(s, u), u) == merged(s, u),
        !changes(merged(s, u), u),
{
    assert(merged(merged(s, u), u) =~= merged(s, u));
}

/// After a merge, an identity of the updates has the name the updates give
/// it; any other identity keeps what it had.
pub proof fn lemma_merge_lookup(
    s: Map<Seq<u8>, Seq<char>>,
    u: Map<Seq<u8>, Seq<char>>,
    k: Seq<u8>,
)
    ensures
        u.contains_key(k) ==> merged(s, u).contains_key(k) && merged(s, u)[k] == u[k],
        !u.contains_key(k) ==> (merged(s, u).contains_key(k) == s.contains_key(k)),
        !u.contains_key(k) && s.contains_key(k) ==> merged(s, u)[k] == s[k],
{
}

/// Loading what was written for a mapping gives back that mapping.
pub proof fn lemma_load_after_persist(m: Map<Seq<u8>, Seq<char>>, b: Seq<u8>)
    requires
        cache_document(b) == Some(m),
    ensures
        loaded(Some(b)) == Some(m),
{
}

/// A cache with no file is empty, and loading it does not fail.
pub proof fn lemma_missing_file()
    ensures
        loaded(None) == Some(Map::<Seq<u8>, Seq<char>>::empty()),
{
}

} // verus!
