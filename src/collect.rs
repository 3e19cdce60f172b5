use vstd::prelude::*;

use crate::names::NameMap;
use crate::node_id::NodeId;

verus! {

/// What a property document holds at a path.
pub enum FieldValue {
    /// Nothing is there.
    Missing,
    /// A value that is not a string.
    Other,
    /// A string.
    Text(String),
}

/// Why an offer gave no name.
#[derive(Clone, Copy, Debug, PartialEq, Eq, Structural)]
pub enum ExtractionError {
    /// The offer has no name property.
    NoNameProperty,
    /// The name property is not a string.
    NameNotText,
}

/// A collection pass could not start.
#[derive(Clone, Copy, Debug, PartialEq, Eq, Structural)]
pub enum CollectError {
    /// No market segment could be subscribed to.
    NoSourcesAvailable,
}

/// A node and the name it gives itself.
pub struct NodeInfo {
    pub id: NodeId,
    pub name: String,
}

impl NodeInfo {
    /// The node of an offer, from the offer's issuer and what its property
    /// document holds at the name property.
    pub fn from_offer(issuer: NodeId, name: FieldValue) -> (r: Result<NodeInfo, ExtractionError>)
        ensures
            match name {
                FieldValue::Text(s) => r is Ok && r->Ok_0.id@ == issuer@ && r->Ok_0.name@ == s@,
                FieldValue::Missing => r == Err::<NodeInfo, ExtractionError>(
                    ExtractionError::NoNameProperty,
                ),
                FieldValue::Other => r == Err::<NodeInfo, ExtractionError>(
                    ExtractionError::NameNotText,
                ),
            },
    {
        match name {
            FieldValue::Text(s) => Ok(NodeInfo { id: issuer, name: s }),
            FieldValue::Missing => Err(ExtractionError::NoNameProperty),
            FieldValue::Other => Err(ExtractionError::NameNotText),
        }
    }
}

/// The values of the successes, in order.
pub open spec fn oks<S, E>(s: Seq<Result<S, E>>) -> Seq<S>
    decreases s.len(),
{
    if s.len() == 0 {
        Seq::empty()
    } else {
        let rest = oks(s.skip(1));
        match s[0] {
            Ok(v) => seq![v] + rest,
            Err(_) => rest,
        }
    }
}

/// Each opened source is among the values kept.
pub proof fn lemma_oks_contains<S, E>(s: Seq<Result<S, E>>, i: int)
    requires
        0 <= i < s.len(),
        s[i] is Ok,
    ensures
        oks(s).contains(s[i]->Ok_0),
    decreases s.len(),
{
    if i == 0 {
        assert(oks(s)[0] == s[0]->Ok_0);
    } else {
        assert(s.skip(1)[i - 1] == s[i]);
        lemma_oks_contains(s.skip(1), i - 1);
        let rest = oks(s.skip(1));
        let j = choose|j: int| 0 <= j < rest.len() && rest[j] == s[i]->Ok_0;
        match s[0] {
            Ok(v) => {
                assert(oks(s)[j + 1] == rest[j]);
            },
            Err(_) => {},
        }
    }
}

/// Keeps the sources that opened, in order, dropping those that failed;
/// fails only when none opened.
pub fn listing_streams<S, E>(opened: Vec<Result<S, E>>) -> (r: Result<Vec<S>, CollectError>)
    ensures
        r is Ok <==> oks(opened@).len() > 0,
        r is Ok ==> r->Ok_0@ == oks(opened@),
        r is Err ==> r == Err::<Vec<S>, CollectError>(CollectError::NoSourcesAvailable),
{
    let ghost all = opened@;
    let mut opened = opened;
    let mut kept: Vec<S> = Vec::new();
    while opened.len() > 0
        invariant
            kept@ + oks(opened@) == oks(all),
        decreases opened@.len(),
    {
        let ghost before = opened@;
        let first = opened.remove(0);
        assert(opened@ =~= before.skip(1));
        match first {
            Ok(v) => {
                kept.push(v);
                assert(kept@ + oks(opened@) =~= oks(all));
            },
            Err(_) => {},
        }
    }
    assert(kept@ =~= oks(all));
    if kept.len() == 0 {
        Err(CollectError::NoSourcesAvailable)
    } else {
        Ok(kept)
    }
}

/// Keeping the successes of two lists one after the other keeps those of each.
pub proof fn lemma_oks_append<S, E>(a: Seq<Result<S, E>>, b: Seq<Result<S, E>>)
    ensures
        oks(a + b) == oks(a) + oks(b),
    decreases a.len(),
{
    if a.len() == 0 {
        assert(a + b =~= b);
    } else {
        assert((a + b).skip(1) =~= a.skip(1) + b);
        lemma_oks_append(a.skip(1), b);
        assert((a + b)[0] == a[0]);
        match a[0] {
            Ok(v) => {
                assert(seq![v] + (oks(a.skip(1)) + oks(b)) =~= (seq![v] + oks(a.skip(1))) + oks(b));
            },
            Err(_) => {},
        }
    }
}

/// When every source opened, all of them are kept, in order.
pub proof fn lemma_oks_all<S, E>(s: Seq<Result<S, E>>)
    requires
        forall|i: int| 0 <= i < s.len() ==> (#[trigger] s[i]) is Ok,
    ensures
        oks(s) == s.map_values(|r: Result<S, E>| r->Ok_0),
    decreases s.len(),
{
    if s.len() > 0 {
        assert forall|i: int| 0 <= i < s.skip(1).len() implies (#[trigger] s.skip(1)[i]) is Ok by {
            assert(s.skip(1)[i] == s[i + 1]);
        }
        lemma_oks_all(s.skip(1));
        assert(s[0] is Ok);
        assert(oks(s) =~= s.map_values(|r: Result<S, E>| r->Ok_0));
    }
}

/// One source failing to open costs only that source: listing still
/// succeeds, with the streams of all the others, in order.
pub proof fn lemma_one_source_failed<S, E>(opened: Seq<Result<S, E>>, f: int)
    requires
        2 <= opened.len(),
        0 <= f < opened.len(),
        opened[f] is Err,
        forall|i: int| 0 <= i < opened.len() && i != f ==> (#[trigger] opened[i]) is Ok,
    ensures
        oks(opened).len() == opened.len() - 1,
        oks(opened) == opened.remove(f).map_values(|r: Result<S, E>| r->Ok_0),
{
    let a = opened.take(f);
    let b = opened.skip(f + 1);
    let one = seq![opened[f]];
    assert(opened =~= a + one + b);
    assert(opened.remove(f) =~= a + b);
    lemma_oks_append(a + one, b);
    lemma_oks_append(a, one);
    lemma_oks_append(a, b);
    assert(one.skip(1) =~= Seq::<Result<S, E>>::empty());
    assert(one[0] is Err);
    assert(oks(one.skip(1)) =~= Seq::<S>::empty());
    assert(oks(one) =~= Seq::<S>::empty());
    assert forall|i: int| 0 <= i < (a + b).len() implies (#[trigger] (a + b)[i]) is Ok by {
        if i < a.len() {
            assert((a + b)[i] == opened[i]);
        } else {
            assert((a + b)[i] == opened[i + 1]);
        }
    }
    lemma_oks_all(a + b);
    assert(oks(opened) =~= oks(a + b));
}

/// Sources that fail to open cost only their own contribution: as long as
/// one source opened, listing succeeds and keeps every source that opened.
pub proof fn lemma_partial_sources<S, E>(opened: Seq<Result<S, E>>, i: int)
    requires
        0 <= i < opened.len(),
        opened[i] is Ok,
    ensures
        oks(opened).len() > 0,
        forall|j: int| 0 <= j < opened.len() && (#[trigger] opened[j]) is Ok ==> oks(opened).contains(opened[j]->Ok_0),
{
    lemma_oks_contains(opened, i);
    assert forall|j: int| 0 <= j < opened.len() && (#[trigger] opened[j]) is Ok implies oks(opened).contains(opened[j]->Ok_0) by {
        lemma_oks_contains(opened, j);
    }
}

/// What the merged listing streams deliver to the drain.
pub enum ListingEvent {
    /// An offer whose node and name were read.
    Offer(NodeInfo),
    /// An item that failed: the stream reported an error, or the offer had
    /// no name.
    Skipped,
    /// Every stream has ended.
    Exhausted,
    /// The deadline of the pass elapsed.
    DeadlineElapsed,
}

/// What the drain does next.
#[derive(Clone, Copy, Debug, PartialEq, Eq, Structural)]
pub enum Step {
    /// Wait for the next event.
    Continue,
    /// Stop and hand out what was collected.
    Finish,
}

/// Whether the event ends the drain.
pub open spec fn is_stop(e: ListingEvent) -> bool {
    e is Exhausted || e is DeadlineElapsed
}

/// Whether some event of `events` ended the drain.
pub open spec fn stopped(events: Seq<ListingEvent>) -> bool {
    exists|i: int| 0 <= i < events.len() && is_stop(#[trigger] events[i])
}

/// The names that a drain collects from `events`: each offer seen before the
/// drain stopped sets the name of its node, a later offer for a node
/// overriding an earlier one.
pub open spec fn collected(events: Seq<ListingEvent>) -> Map<Seq<u8>, Seq<char>>
    decreases events.len(),
{
    if events.len() == 0 {
        Map::empty()
    } else {
        let prev = collected(events.drop_last());
        if stopped(events.drop_last()) {
            prev
        } else {
            match events.last() {
                ListingEvent::Offer(info) => prev.insert(info.id@, info.name@),
                _ => prev,
            }
        }
    }
}

/// The state of one drain of the listing streams.
pub struct Collection {
    nodes: NameMap,
    finished: bool,
    history: Ghost<Seq<ListingEvent>>,
}

impl Collection {
    /// The events observed so far.
    pub closed spec fn events(&self) -> Seq<ListingEvent> {
        self.history@
    }

    /// The names collected so far.
    pub closed spec fn view(&self) -> Map<Seq<u8>, Seq<char>> {
        self.nodes@
    }

    pub closed spec fn wf(&self) -> bool {
        &&& self.nodes.wf()
        &&& self.finished == stopped(self.history@)
        &&& self.nodes@ == collected(self.history@)
    }

    /// A drain that has observed nothing.
    pub fn new() -> (r: Collection)
        ensures
            r.wf(),
            r.events() == Seq::<ListingEvent>::empty(),
            r@ == Map::<Seq<u8>, Seq<char>>::empty(),
    {
        Collection { nodes: NameMap::new(), finished: false, history: Ghost(Seq::empty()) }
    }

    /// Whether the drain has stopped.
    pub fn is_finished(&self) -> (r: bool)
        requires
            self.wf(),
        ensures
            r == stopped(self.events()),
    {
        self.finished
    }

    /// Takes in one event and says whether to go on. An offer sets the name
    /// of its node, a failed item is passed over, and the end of the streams
    /// or of the time ends the drain; once ended, the drain takes in nothing.
    pub fn observe(&mut self, event: ListingEvent) -> (r: Step)
        requires
            old(self).wf(),
        ensures
            final(self).wf(),
            final(self).events() == old(self).events().push(event),
            final(self)@ == collected(old(self).events().push(event)),
            r == Step::Finish <==> stopped(old(self).events().push(event)),
            (is_stop(event) || stopped(old(self).events())) ==> r == Step::Finish && final(self)@
                == old(self)@,
            event is Skipped ==> final(self)@ == old(self)@,
    {
        let ghost before = self.history@;
        let ghost after = before.push(event);
        assert(after.drop_last() =~= before);
        proof {
            if stopped(before) {
                let i = choose|i: int| 0 <= i < before.len() && is_stop(#[trigger] before[i]);
                assert(after[i] == before[i]);
            }
            if is_stop(event) {
                assert(is_stop(after[after.len() - 1]));
            }
            if stopped(after) && !is_stop(event) {
                let i = choose|i: int| 0 <= i < after.len() && is_stop(#[trigger] after[i]);
                assert(before[i] == after[i]);
            }
        }
        self.history = Ghost(after);
        if self.finished {
            return Step::Finish;
        }
        match event {
            ListingEvent::Offer(info) => {
                self.nodes.insert(info.id, info.name);
                Step::Continue
            },
            ListingEvent::Skipped => Step::Continue,
            ListingEvent::Exhausted => {
                self.finished = true;
                Step::Finish
            },
            ListingEvent::DeadlineElapsed => {
                self.finished = true;
                Step::Finish
            },
        }
    }

    /// The names collected.
    pub fn into_nodes(self) -> (r: NameMap)
        requires
            self.wf(),
        ensures
            r.wf(),
            r@ == collected(self.events()),
    {
        self.nodes
    }
}

/// Nothing that arrives after the deadline counts: the names collected from
/// events that hold an elapsed deadline at `i` are those collected before it.
pub proof fn lemma_deadline_ends_drain(events: Seq<ListingEvent>, i: int)
    requires
        0 <= i < events.len(),
        events[i] is DeadlineElapsed,
    ensures
        stopped(events),
        collected(events) == collected(events.take(i)),
    decreases events.len(),
{
    assert(is_stop(events[i]));
    if i == events.len() - 1 {
        assert(events.take(i) =~= events.drop_last());
    } else {
        let t = events.drop_last();
        assert(t[i] == events[i]);
        assert(is_stop(t[i]));
        lemma_deadline_ends_drain(t, i);
        assert(t.take(i) =~= events.take(i));
    }
}

/// A failed item is passed over: the names collected are those collected
/// with that item left out, so the offers after it still count.
pub proof fn lemma_skipped_item(events: Seq<ListingEvent>, i: int)
    requires
        0 <= i < events.len(),
        events[i] is Skipped,
    ensures
        collected(events) == collected(events.remove(i)),
        stopped(events) == stopped(events.remove(i)),
    decreases events.len(),
{
    let r = events.remove(i);
    if i == events.len() - 1 {
        assert(r =~= events.drop_last());
        if stopped(events) {
            let j = choose|j: int| 0 <= j < events.len() && is_stop(#[trigger] events[j]);
            assert(r[j] == events[j]);
        }
    } else {
        let t = events.drop_last();
        assert(t[i] == events[i]);
        lemma_skipped_item(t, i);
        assert(r.drop_last() =~= t.remove(i));
        assert(r.last() == events.last());
        if stopped(events) {
            let j = choose|j: int| 0 <= j < events.len() && is_stop(#[trigger] events[j]);
            if j < i {
                assert(r[j] == events[j]);
            } else {
                assert(r[j - 1] == events[j]);
            }
        }
        if stopped(r) {
            let j = choose|j: int| 0 <= j < r.len() && is_stop(#[trigger] r[j]);
            if j < i {
                assert(r[j] == events[j]);
            } else {
                assert(r[j] == events[j + 1]);
            }
        }
    }
}

} // verus!
