use vstd::prelude::*;

use crate::node_id::NodeId;

verus! {

broadcast use vstd::std_specs::vec::group_vec_axioms;

/// The entries of an association list as a map; a later entry for a key
/// overrides an earlier one.
pub open spec fn entries_map(s: Seq<(NodeId, String)>) -> Map<Seq<u8>, Seq<char>>
    decreases s.len(),
{
    if s.len() == 0 {
        Map::empty()
    } else {
        entries_map(s.drop_last()).insert(s.last().0@, s.last().1@)
    }
}

/// No two entries share a key.
pub open spec fn keys_unique(s: Seq<(NodeId, String)>) -> bool {
    forall|i: int, j: int| 0 <= i < j < s.len() ==> (#[trigger] s[i]).0@ != (#[trigger] s[j]).0@
}

/// A key is in the map exactly when some entry carries it, and then the map
/// holds that entry's name.
pub proof fn lemma_entries_map_index(s: Seq<(NodeId, String)>, i: int)
    requires
        keys_unique(s),
        0 <= i < s.len(),
    ensures
        entries_map(s).contains_key(s[i].0@),
        entries_map(s)[s[i].0@] == s[i].1@,
    decreases s.len(),
{
    if i < s.len() - 1 {
        let t = s.drop_last();
        assert(t[i] == s[i]);
        assert(keys_unique(t)) by {
            assert forall|a: int, b: int| 0 <= a < b < t.len() implies (#[trigger] t[a]).0@
                != (#[trigger] t[b]).0@ by {
                assert(t[a] == s[a] && t[b] == s[b]);
            }
        }
        lemma_entries_map_index(t, i);
        assert(s[i].0@ != s[s.len() - 1].0@);
    }
}

/// Every key of the map is carried by some entry.
pub proof fn lemma_entries_map_key(s: Seq<(NodeId, String)>, k: Seq<u8>)
    requires
        entries_map(s).contains_key(k),
    ensures
        exists|i: int| 0 <= i < s.len() && (#[trigger] s[i]).0@ == k,
    decreases s.len(),
{
    if s.last().0@ != k {
        let t = s.drop_last();
        lemma_entries_map_key(t, k);
        let i = choose|i: int| 0 <= i < t.len() && (#[trigger] t[i]).0@ == k;
        assert(s[i] == t[i]);
    } else {
        assert(s[s.len() - 1].0@ == k);
    }
}

/// Replacing the name of one entry replaces it in the map.
pub proof fn lemma_entries_map_update(s: Seq<(NodeId, String)>, i: int, e: (NodeId, String))
    requires
        keys_unique(s),
        0 <= i < s.len(),
        e.0@ == s[i].0@,
    ensures
        keys_unique(s.update(i, e)),
        entries_map(s.update(i, e)) == entries_map(s).insert(e.0@, e.1@),
    decreases s.len(),
{
    let u = s.update(i, e);
    assert(keys_unique(u)) by {
        assert forall|a: int, b: int| 0 <= a < b < u.len() implies (#[trigger] u[a]).0@
            != (#[trigger] u[b]).0@ by {
            assert(s[a].0@ == u[a].0@ && s[b].0@ == u[b].0@);
        }
    }
    if i == s.len() - 1 {
        assert(u.drop_last() =~= s.drop_last());
        assert(entries_map(u) =~= entries_map(s).insert(e.0@, e.1@));
    } else {
        let t = s.drop_last();
        assert(keys_unique(t)) by {
            assert forall|a: int, b: int| 0 <= a < b < t.len() implies (#[trigger] t[a]).0@
                != (#[trigger] t[b]).0@ by {
                assert(t[a] == s[a] && t[b] == s[b]);
            }
        }
        lemma_entries_map_update(t, i, e);
        assert(u.drop_last() =~= t.update(i, e));
        assert(s[i].0@ != s.last().0@);
        assert(entries_map(u) =~= entries_map(s).insert(e.0@, e.1@));
    }
}

/// A mapping from node identity to display name, at most one name per identity.
pub struct NameMap {
    entries: Vec<(NodeId, String)>,
}

impl NameMap {
    pub closed spec fn view(&self) -> Map<Seq<u8>, Seq<char>> {
        entries_map(self.entries@)
    }

    /// The internal list never holds two entries for one identity.
    pub closed spec fn wf(&self) -> bool {
        keys_unique(self.entries@)
    }

    /// The entries, in the order kept.
    pub closed spec fn entries(&self) -> Seq<(NodeId, String)> {
        self.entries@
    }

    pub proof fn lemma_wf_view(&self)
        requires
            self.wf(),
        ensures
            keys_unique(self.entries()),
            self@ == entries_map(self.entries()),
    {
    }

    /// The empty mapping.
    pub fn new() -> (r: NameMap)
        ensures
            r.wf(),
            r@ == Map::<Seq<u8>, Seq<char>>::empty(),
    {
        NameMap { entries: Vec::new() }
    }

    /// Number of identities held.
    pub fn len(&self) -> (r: usize)
        requires
            self.wf(),
        ensures
            r == self.entries().len(),
    {
        self.entries.len()
    }

    /// The entry at position `i`.
    pub fn entry(&self, i: usize) -> (r: (NodeId, String))
        requires
            self.wf(),
            i < self.entries().len(),
        ensures
            r.0@ == self.entries()[i as int].0@,
            r.1@ == self.entries()[i as int].1@,
    {
        let e = &self.entries[i];
        (e.0, e.1.clone())
    }

    fn position(&self, id: &NodeId) -> (r: Option<usize>)
        requires
            self.wf(),
        ensures
            r is Some ==> r->Some_0 < self.entries@.len() && self.entries@[r->Some_0 as int].0@
                == id@,
            r is None ==> forall|i: int|
                0 <= i < self.entries@.len() ==> (#[trigger] self.entries@[i]).0@ != id@,
    {
        let mut i: usize = 0;
        while i < self.entries.len()
            invariant
                0 <= i <= self.entries@.len(),
                forall|j: int| 0 <= j < i ==> (#[trigger] self.entries@[j]).0@ != id@,
            decreases self.entries@.len() - i,
        {
            if self.entries[i].0 == *id {
                return Some(i);
            }
            i = i + 1;
        }
        None
    }

    /// The name held for `id`, if any.
    pub fn get(&self, id: &NodeId) -> (r: Option<String>)
        requires
            self.wf(),
        ensures
            r is Some <==> self@.contains_key(id@),
            r is Some ==> r->Some_0@ == self@[id@],
    {
        match self.position(id) {
            Some(i) => {
                proof {
                    lemma_entries_map_index(self.entries@, i as int);
                }
                Some(self.entries[i].1.clone())
            },
            None => {
                proof {
                    if self@.contains_key(id@) {
                        lemma_entries_map_key(self.entries@, id@);
                    }
                }
                None
            },
        }
    }

    /// Sets the name of `id`, replacing any name held for it.
    pub fn insert(&mut self, id: NodeId, name: String)
        requires
            old(self).wf(),
        ensures
            final(self).wf(),
            final(self)@ == old(self)@.insert(id@, name@),
    {
        match self.position(&id) {
            Some(i) => {
                proof {
                    lemma_entries_map_update(self.entries@, i as int, (id, name));
                }
                self.entries.set(i, (id, name));
            },
            None => {
                let ghost s = self.entries@;
                self.entries.push((id, name));
                assert(self.entries@.drop_last() =~= s);
                assert(keys_unique(self.entries@)) by {
                    assert forall|a: int, b: int|
                        0 <= a < b < self.entries@.len() implies (#[trigger] self.entries@[a]).0@
                        != (#[trigger] self.entries@[b]).0@ by {
                        if b < s.len() {
                            assert(self.entries@[a] == s[a] && self.entries@[b] == s[b]);
                        } else {
                            assert(self.entries@[a] == s[a]);
                        }
                    }
                }
            },
        }
    }
}

} // verus!
