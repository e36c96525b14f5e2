use vstd::prelude::*;
use crate::frame::be32;
use crate::tree::TreeNode;

verus! {

/// An inbound event: something happened to `id` on `date`.
#[derive(Debug, PartialEq, Eq)]
pub struct Event {
    pub id: i32,
    pub date: i32,
    pub event_type: String,
}

/// What a batch of payloads came to: the ids to forward, in order, and how
/// many payloads were events and how many could not be read.
pub struct Routed {
    pub ids: Vec<i32>,
    pub handled: usize,
    pub malformed: usize,
}

/// The ids forwarded for a run of payloads, each either a decoded event or
/// `None` for one that could not be decoded: the dispatch of each event's
/// date, in order; an undecodable payload adds nothing.
pub open spec fn routed_ids(tree: TreeNode, events: Seq<Option<Event>>) -> Seq<i32>
    decreases events.len(),
{
    if events.len() == 0 {
        Seq::empty()
    } else {
        routed_ids(tree, events.drop_last()) + match events.last() {
            Some(e) => tree.dispatch_spec(e.date as int),
            None => Seq::empty(),
        }
    }
}

/// How many of the payloads were decoded events.
pub open spec fn handled_count(events: Seq<Option<Event>>) -> nat
    decreases events.len(),
{
    if events.len() == 0 {
        0
    } else {
        handled_count(events.drop_last()) + if events.last() is Some {
            1nat
        } else {
            0nat
        }
    }
}

/// How many of the payloads could not be decoded.
pub open spec fn malformed_count(events: Seq<Option<Event>>) -> nat
    decreases events.len(),
{
    if events.len() == 0 {
        0
    } else {
        malformed_count(events.drop_last()) + if events.last() is None {
            1nat
        } else {
            0nat
        }
    }
}

/// Routing two runs of payloads one after the other is routing them together.
pub proof fn lemma_route_append(tree: TreeNode, a: Seq<Option<Event>>, b: Seq<Option<Event>>)
    ensures
        routed_ids(tree, a + b) == routed_ids(tree, a) + routed_ids(tree, b),
        handled_count(a + b) == handled_count(a) + handled_count(b),
        malformed_count(a + b) == malformed_count(a) + malformed_count(b),
    decreases b.len(),
{
    if b.len() == 0 {
        assert(a + b =~= a);
        assert(routed_ids(tree, a) + routed_ids(tree, b) =~= routed_ids(tree, a));
    } else {
        lemma_route_append(tree, a, b.drop_last());
        assert((a + b).drop_last() =~= a + b.drop_last());
        assert(routed_ids(tree, a + b) =~= routed_ids(tree, a) + routed_ids(tree, b));
    }
}

/// A payload that cannot be decoded, wherever it stands among others, is
/// counted once as malformed and changes neither the ids forwarded nor the
/// count of events handled.
pub proof fn lemma_malformed_skipped(tree: TreeNode, before: Seq<Option<Event>>, after: Seq<Option<Event>>)
    ensures
        routed_ids(tree, before + seq![None] + after) == routed_ids(tree, before + after),
        handled_count(before + seq![None] + after) == handled_count(before + after),
        malformed_count(before + seq![None] + after) == malformed_count(before + after) + 1,
{
    let bad: Seq<Option<Event>> = seq![None];
    lemma_route_append(tree, before, bad);
    lemma_route_append(tree, before + bad, after);
    lemma_route_append(tree, before, after);
    let none: Seq<Option<Event>> = Seq::empty();
    assert(bad.drop_last() =~= none);
    assert(routed_ids(tree, none) == Seq::<i32>::empty());
    assert(handled_count(none) == 0 && malformed_count(none) == 0);
    assert(routed_ids(tree, bad) =~= Seq::<i32>::empty());
    assert(handled_count(bad) == 0 && malformed_count(bad) == 1);
    assert(routed_ids(tree, before) + routed_ids(tree, bad) =~= routed_ids(tree, before));
}

/// Dispatches the date of each decoded event in turn and collects the ids to
/// forward; a payload that could not be decoded is only counted.
pub fn route_events(tree: &TreeNode, events: &Vec<Option<Event>>) -> (r: Routed)
    ensures
        r.ids@ == routed_ids(*tree, events@),
        r.handled == handled_count(events@),
        r.malformed == malformed_count(events@),
{
    let mut ids: Vec<i32> = Vec::new();
    let mut handled: usize = 0;
    let mut malformed: usize = 0;
    let n = events.len();
    for i in 0..n
        invariant
            n == events@.len(),
            ids@ == routed_ids(*tree, events@.take(i as int)),
            handled == handled_count(events@.take(i as int)),
            malformed == malformed_count(events@.take(i as int)),
            handled + malformed == i,
    {
        assert(events@.take(i + 1).drop_last() =~= events@.take(i as int));
        match &events[i] {
            Some(e) => {
                tree.dispatch(e.date, &mut ids);
                handled += 1;
            },
            None => {
                malformed += 1;
            },
        }
    }
    assert(events@.take(n as int) =~= events@);
    Routed { ids, handled, malformed }
}

/// The four bytes sent downstream for a matched id: its value as an
/// unsigned 32-bit number, most significant byte first.
pub fn encode_id(id: i32) -> (r: [u8; 4])
    ensures
        be32(r@) == id as u32,
{
    let v = id as u32;
    let r = [
        (v / 0x100_0000) as u8,
        (v / 0x1_0000 % 0x100) as u8,
        (v / 0x100 % 0x100) as u8,
        (v % 0x100) as u8,
    ];
    assert(be32(r@) == v);
    r
}

} // verus!
