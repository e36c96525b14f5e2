use vstd::prelude::*;
use vstd::multiset::Multiset;

verus! {

/// Partial lists longer than this make a node split in two.
pub const SPLIT_THRESHOLD: usize = 10;

/// A subscriber interested in every date of the closed range `[start, end]`.
#[derive(Debug, Clone, Copy, PartialEq, Eq, Structural)]
pub struct Customer {
    pub id: i32,
    pub start: i32,
    pub end: i32,
}

/// What a node holds besides the customers that cover it whole.
pub enum Value {
    /// Customers that overlap the node's span without covering it.
    Partial(Vec<Customer>),
    /// The two halves `[min, mid]` and `[mid + 1, max]`.
    Parent(Box<TreeNode>, Box<TreeNode>),
}

/// A node of the interval index, spanning the dates `[min, max]`.
pub struct TreeNode {
    pub min: i32,
    pub max: i32,
    pub mid: i32,
    /// The size a partial list may reach before the node splits.
    pub threshold: usize,
    /// Customers whose range covers `[min, max]`, in insertion order.
    pub full_customers: Vec<Customer>,
    pub value: Value,
}

/// The customer's range holds the date.
pub open spec fn covers(c: Customer, d: int) -> bool {
    c.start <= d <= c.end
}

/// The ids of a list of customers, in order.
pub open spec fn ids(s: Seq<Customer>) -> Seq<i32> {
    s.map_values(|c: Customer| c.id)
}

/// The ids of the customers of `s` whose range holds `d`, in order.
pub open spec fn covering_ids(s: Seq<Customer>, d: int) -> Seq<i32>
    decreases s.len(),
{
    if s.len() == 0 {
        Seq::empty()
    } else {
        let rest = covering_ids(s.drop_last(), d);
        if covers(s.last(), d) {
            rest.push(s.last().id)
        } else {
            rest
        }
    }
}

/// What one customer adds to the reports for the date `d`.
pub open spec fn hits(c: Customer, d: int) -> Multiset<i32> {
    if covers(c, d) {
        Multiset::singleton(c.id)
    } else {
        Multiset::empty()
    }
}

/// Appending a customer to a list adds its hits to the list's matches.
pub proof fn lemma_covering_ids_push(s: Seq<Customer>, c: Customer, d: int)
    ensures
        covering_ids(s.push(c), d).to_multiset() =~= covering_ids(s, d).to_multiset().add(
            hits(c, d),
        ),
{
    broadcast use vstd::seq_lib::group_to_multiset_ensures, vstd::multiset::group_multiset_axioms;

    assert(s.push(c).drop_last() =~= s);
}

/// Taking one customer out of a list takes its hits out of the list's matches.
proof fn lemma_covering_ids_remove(s: Seq<Customer>, j: int, d: int)
    requires
        0 <= j < s.len(),
    ensures
        covering_ids(s, d).to_multiset() =~= covering_ids(s.remove(j), d).to_multiset().add(
            hits(s[j], d),
        ),
    decreases s.len(),
{
    broadcast use vstd::multiset::group_multiset_axioms;

    let init = s.drop_last();
    assert(init.push(s.last()) =~= s);
    lemma_covering_ids_push(init, s.last(), d);
    if j == s.len() - 1 {
        assert(s.remove(j) =~= init);
    } else {
        lemma_covering_ids_remove(init, j, d);
        assert(init.remove(j).push(s.last()) =~= s.remove(j));
        lemma_covering_ids_push(init.remove(j), s.last(), d);
    }
}

/// The same customers inserted in any order report the same ids, as many
/// times each, for every date: a tree built from either list dispatches the
/// same multiset of ids.
pub proof fn lemma_reports_independent_of_order(a: Seq<Customer>, b: Seq<Customer>, d: int)
    requires
        a.to_multiset() == b.to_multiset(),
    ensures
        covering_ids(a, d).to_multiset() == covering_ids(b, d).to_multiset(),
    decreases a.len(),
{
    broadcast use vstd::seq_lib::group_to_multiset_ensures, vstd::multiset::group_multiset_axioms;

    a.to_multiset_ensures();
    b.to_multiset_ensures();
    if a.len() == 0 {
        assert(b.len() == 0);
        assert(b =~= a);
    } else {
        let x = a.last();
        let init = a.drop_last();
        assert(init.push(x) =~= a);
        assert(a.to_multiset().count(x) > 0);
        assert(b.contains(x));
        let j = choose|j: int| 0 <= j < b.len() && b[j] == x;
        assert(b.remove(j).to_multiset() =~= b.to_multiset().remove(x));
        assert(init.to_multiset() =~= a.to_multiset().remove(x));
        lemma_reports_independent_of_order(init, b.remove(j), d);
        lemma_covering_ids_push(init, x, d);
        lemma_covering_ids_remove(b, j, d);
    }
}

/// The ids reported for a date are among the ids of the list.
proof fn lemma_covering_ids_within(s: Seq<Customer>, d: int, x: i32)
    requires
        covering_ids(s, d).contains(x),
    ensures
        ids(s).contains(x),
    decreases s.len(),
{
    let rest = covering_ids(s.drop_last(), d);
    if rest.contains(x) {
        lemma_covering_ids_within(s.drop_last(), d, x);
        let k = choose|k: int| 0 <= k < ids(s.drop_last()).len() && ids(s.drop_last())[k] == x;
        assert(ids(s)[k] == x);
    } else {
        assert(ids(s)[s.len() - 1] == x);
    }
}

/// Customers with distinct ids give a list of matches without repeats.
proof fn lemma_covering_ids_distinct(s: Seq<Customer>, d: int)
    requires
        ids(s).no_duplicates(),
    ensures
        covering_ids(s, d).no_duplicates(),
    decreases s.len(),
{
    if s.len() > 0 {
        let init = s.drop_last();
        assert(ids(init) =~= ids(s).drop_last());
        lemma_covering_ids_distinct(init, d);
        if covering_ids(init, d).contains(s.last().id) {
            lemma_covering_ids_within(init, d, s.last().id);
            let k = choose|k: int| 0 <= k < ids(init).len() && ids(init)[k] == s.last().id;
            assert(ids(s)[k] == ids(s)[s.len() - 1]);
        }
    }
}

/// Two lists that report the same multiset of ids agree on having repeats.
proof fn lemma_no_duplicates_by_multiset(a: Seq<i32>, b: Seq<i32>)
    requires
        a.to_multiset() == b.to_multiset(),
        b.no_duplicates(),
    ensures
        a.no_duplicates(),
{
    b.lemma_multiset_has_no_duplicates();
    a.lemma_multiset_has_no_duplicates_conv();
}

/// What a node holds, seen without its bounds: the full list, and either
/// the partial list or what the two halves hold.
#[verifier::ext_equal]
pub struct NodeView {
    pub full: Seq<Customer>,
    pub body: BodyView,
}

/// The rest of a [`NodeView`] besides the full list.
#[verifier::ext_equal]
pub enum BodyView {
    Partial(Seq<Customer>),
    Split(Box<NodeView>, Box<NodeView>),
}

/// A node that holds nothing.
pub open spec fn empty_view() -> NodeView {
    NodeView { full: Seq::empty(), body: BodyView::Partial(Seq::empty()) }
}

/// The contents of a node over `[lo, hi]` with split threshold `t` after
/// one insertion: a customer that covers the span joins the full list;
/// otherwise a split node hands it to its halves, and an unsplit node
/// appends it to its partial list, splitting when the list grows past `t`
/// (unless the span is a single date) and handing every entry down in order.
pub open spec fn inserted(v: NodeView, lo: int, hi: int, t: nat, c: Customer) -> NodeView
    decreases hi - lo, 1int, 0int,
{
    if c.start <= lo && c.end >= hi {
        NodeView { full: v.full.push(c), body: v.body }
    } else {
        match v.body {
            BodyView::Split(_, _) => into_children(v, lo, hi, t, c),
            BodyView::Partial(list) => {
                let grown = list.push(c);
                if grown.len() > t && lo != hi {
                    let fresh = NodeView {
                        full: v.full,
                        body: BodyView::Split(Box::new(empty_view()), Box::new(empty_view())),
                    };
                    redistributed(fresh, lo, hi, t, grown)
                } else {
                    NodeView { full: v.full, body: BodyView::Partial(grown) }
                }
            },
        }
    }
}

/// Hands a customer to the halves of a split node over `[lo, hi]`: the
/// lower half `[lo, mid]` when it starts at or before `mid`, the upper half
/// `[mid + 1, hi]` when it ends after it. A half it misses, the full list,
/// and an unsplit node are left as they were. (A node over a single date
/// is never split; such a node is left as it was too.)
pub open spec fn into_children(v: NodeView, lo: int, hi: int, t: nat, c: Customer) -> NodeView
    decreases hi - lo, 0int, 0int,
{
    let mid = midpoint(lo, hi);
    match v.body {
        BodyView::Split(lower, upper) => if lo < hi {
            NodeView {
                full: v.full,
                body: BodyView::Split(
                    Box::new(
                        if c.start <= mid {
                            inserted(*lower, lo, mid, t, c)
                        } else {
                            *lower
                        },
                    ),
                    Box::new(
                        if c.end > mid {
                            inserted(*upper, mid + 1, hi, t, c)
                        } else {
                            *upper
                        },
                    ),
                ),
            }
        } else {
            v
        },
        BodyView::Partial(_) => v,
    }
}

/// A split node over `[lo, hi]` after handing it the customers of `s`, one
/// after another, in order.
pub open spec fn redistributed(v: NodeView, lo: int, hi: int, t: nat, s: Seq<Customer>) -> NodeView
    decreases hi - lo, 0int, s.len() + 1,
{
    if s.len() == 0 {
        v
    } else {
        into_children(redistributed(v, lo, hi, t, s.drop_last()), lo, hi, t, s.last())
    }
}

/// The middle of a span, rounded down.
pub open spec fn midpoint(min: int, max: int) -> int {
    (min + max) / 2
}

impl TreeNode {
    /// The node's shape is consistent: spans nest and halve, only a span
    /// of more than one date is ever split, the full list holds only
    /// customers that cover the span, and a partial list none that do.
    pub open spec fn wf(self) -> bool
        decreases self,
    {
        &&& 1 <= self.min <= self.max
        &&& self.mid == midpoint(self.min as int, self.max as int)
        &&& forall|i: int|
            0 <= i < self.full_customers@.len() ==> self.covered_by(
                #[trigger] self.full_customers@[i],
            )
        &&& match self.value {
            Value::Partial(list) => {
                &&& list@.len() <= self.threshold || self.min == self.max
                &&& forall|i: int| 0 <= i < list@.len() ==> !self.covered_by(#[trigger] list@[i])
            },
            Value::Parent(left, right) => {
                &&& self.min != self.max
                &&& left.min == self.min && left.max == self.mid
                &&& right.min == self.mid + 1 && right.max == self.max
                &&& left.threshold == self.threshold && right.threshold == self.threshold
                &&& left.wf()
                &&& right.wf()
            },
        }
    }

    /// What the node and the nodes below it hold.
    pub open spec fn contents(self) -> NodeView
        decreases self,
    {
        NodeView {
            full: self.full_customers@,
            body: match self.value {
                Value::Partial(list) => BodyView::Partial(list@),
                Value::Parent(left, right) => BodyView::Split(
                    Box::new(left.contents()),
                    Box::new(right.contents()),
                ),
            },
        }
    }

    /// The customer's range covers the node's whole span.
    pub open spec fn covered_by(self, c: Customer) -> bool {
        c.start <= self.min && c.end >= self.max
    }

    /// The ids that a dispatch of `d` reports, in the order it reports them:
    /// the full lists from this node down to the leaf that holds `d`, then the
    /// matching entries of that leaf's partial list.
    pub open spec fn dispatch_spec(self, d: int) -> Seq<i32>
        decreases self,
    {
        ids(self.full_customers@) + match self.value {
            Value::Partial(list) => covering_ids(list@, d),
            Value::Parent(left, right) => if d <= self.mid {
                left.dispatch_spec(d)
            } else {
                right.dispatch_spec(d)
            },
        }
    }

    /// An empty node over `[min, max]` with the default split threshold.
    pub fn new(min: i32, max: i32) -> (r: TreeNode)
        requires
            1 <= min <= max,
        ensures
            r.wf(),
            r.min == min,
            r.max == max,
            r.threshold == SPLIT_THRESHOLD,
            r.full_customers@ == Seq::<Customer>::empty(),
            r.value is Partial,
            r.value->Partial_0@ == Seq::<Customer>::empty(),
            forall|d: int| #[trigger] r.dispatch_spec(d) == Seq::<i32>::empty(),
    {
        TreeNode::with_threshold(min, max, SPLIT_THRESHOLD)
    }

    /// An empty node over `[min, max]` that splits once a partial list
    /// grows past `threshold` entries.
    pub fn with_threshold(min: i32, max: i32, threshold: usize) -> (r: TreeNode)
        requires
            1 <= min <= max,
        ensures
            r.wf(),
            r.min == min,
            r.max == max,
            r.threshold == threshold,
            r.full_customers@ == Seq::<Customer>::empty(),
            r.value is Partial,
            r.value->Partial_0@ == Seq::<Customer>::empty(),
            forall|d: int| #[trigger] r.dispatch_spec(d) == Seq::<i32>::empty(),
    {
        let r = TreeNode {
            min,
            max,
            mid: min + (max - min) / 2,
            threshold,
            full_customers: Vec::new(),
            value: Value::Partial(Vec::new()),
        };
        assert forall|d: int| #[trigger] r.dispatch_spec(d) == Seq::<i32>::empty() by {
            assert(ids(r.full_customers@) =~= Seq::<i32>::empty());
        }
        r
    }
}

impl TreeNode {
    /// Records a customer in the index.
    ///
    /// A customer whose range covers the whole node is kept in the node's
    /// full list. Otherwise it goes down to the halves its range meets, or
    /// into the partial list of an unsplit node; a partial list that grows
    /// past the threshold makes the node split and hands its entries down.
    /// For every date of the node's span, what a dispatch reports gains this
    /// customer's id exactly when its range holds the date, and nothing else
    /// changes.
    pub fn insert(&mut self, customer: Customer)
        requires
            old(self).wf(),
        ensures
            final(self).wf(),
            final(self).min == old(self).min,
            final(self).max == old(self).max,
            final(self).threshold == old(self).threshold,
            final(self).contents() == inserted(
                old(self).contents(),
                old(self).min as int,
                old(self).max as int,
                old(self).threshold as nat,
                customer,
            ),
            forall|d: int|
                old(self).min <= d <= old(self).max ==> #[trigger] final(self).dispatch_spec(
                    d,
                ).to_multiset() == old(self).dispatch_spec(d).to_multiset().add(hits(customer, d)),
            old(self).covered_by(customer) ==> final(self).full_customers@ == old(
                self,
            ).full_customers@.push(customer) && final(self).value == old(self).value,
            !old(self).covered_by(customer) ==> final(self).full_customers == old(
                self,
            ).full_customers,
            old(self).value is Parent ==> final(self).value is Parent,
            !old(self).covered_by(customer) && old(self).value is Partial ==> if old(
                self,
            ).value->Partial_0@.len() < old(self).threshold || old(self).min == old(self).max {
                final(self).value is Partial && final(self).value->Partial_0@ == old(
                    self,
                ).value->Partial_0@.push(customer)
            } else {
                final(self).value is Parent
            },
        decreases old(self).max - old(self).min, 1int,
    {
        broadcast use vstd::seq_lib::group_to_multiset_ensures, vstd::multiset::group_multiset_axioms, vstd::seq_lib::lemma_multiset_commutative;

        let start = customer.start;
        let end = customer.end;

        if start <= self.min && end >= self.max {
            let ghost before = *self;
            self.full_customers.push(customer);
            assert forall|d: int| before.min <= d <= before.max implies #[trigger] self.dispatch_spec(
                d,
            ).to_multiset() == before.dispatch_spec(d).to_multiset().add(hits(customer, d)) by {
                assert(ids(self.full_customers@) =~= ids(before.full_customers@).push(customer.id));
            }
            assert(self.contents() =~= inserted(before.contents(), before.min as int, before.max as int, before.threshold as nat, customer));
            return;
        }

        let is_parent = match &self.value {
            Value::Parent(_, _) => true,
            Value::Partial(_) => false,
        };
        if is_parent {
            let ghost before = *self;
            self.insert_into_children(customer);
            assert(self.contents() == inserted(before.contents(), before.min as int, before.max as int, before.threshold as nat, customer));
            return;
        }

        let ghost before = *self;
        let threshold = self.threshold;
        let mut split = false;
        match &mut self.value {
            Value::Partial(list) => {
                list.push(customer);
                split = list.len() > threshold && self.min != self.max;
            },
            Value::Parent(_, _) => {},
        }
        assert forall|d: int| before.min <= d <= before.max implies #[trigger] self.dispatch_spec(
            d,
        ).to_multiset() == before.dispatch_spec(d).to_multiset().add(hits(customer, d)) by {
            let list = before.value->Partial_0;
            lemma_covering_ids_push(list@, customer, d);
        }
        if !split {
            assert(self.contents() =~= inserted(before.contents(), before.min as int, before.max as int, before.threshold as nat, customer));
            return;
        }

        let ghost pushed = *self;
        let lower = TreeNode::with_threshold(self.min, self.mid, threshold);
        let upper = TreeNode::with_threshold(self.mid + 1, self.max, threshold);
        let mut parent = Value::Parent(Box::new(lower), Box::new(upper));
        std::mem::swap(&mut self.value, &mut parent);
        let list = match parent {
            Value::Partial(list) => list,
            Value::Parent(_, _) => Vec::new(),
        };
        assert(list@ == pushed.value->Partial_0@);
        assert forall|d: int| self.min <= d <= self.max implies #[trigger] self.dispatch_spec(
            d,
        ).to_multiset() == ids(self.full_customers@).to_multiset().add(
            covering_ids(list@.take(0), d).to_multiset(),
        ) by {
            assert(list@.take(0) =~= Seq::<Customer>::empty());
            let child = if d <= self.mid { lower } else { upper };
            assert(child.dispatch_spec(d) == Seq::<i32>::empty());
            assert(self.dispatch_spec(d) =~= ids(self.full_customers@));
            assert(covering_ids(list@.take(0), d).to_multiset() =~= Multiset::empty());
            assert(self.dispatch_spec(d).to_multiset() =~= ids(self.full_customers@).to_multiset().add(
                covering_ids(list@.take(0), d).to_multiset()));
        }
        let ghost fresh = self.contents();
        assert(fresh == NodeView {
            full: before.full_customers@,
            body: BodyView::Split(Box::new(empty_view()), Box::new(empty_view())),
        }) by {
            assert(lower.contents() =~= empty_view());
            assert(upper.contents() =~= empty_view());
            assert(fresh =~= NodeView {
                full: before.full_customers@,
                body: BodyView::Split(Box::new(empty_view()), Box::new(empty_view())),
            });
        }
        assert(list@.take(0) =~= Seq::<Customer>::empty());
        let n = list.len();
        for i in 0..n
            invariant
                n == list.len(),
                self.contents() == redistributed(fresh, before.min as int, before.max as int, before.threshold as nat, list@.take(i as int)),
                self.wf(),
                self.value is Parent,
                self.min == before.min,
                self.max == before.max,
                before.min == old(self).min,
                before.max == old(self).max,
                self.threshold == before.threshold,
                self.full_customers == before.full_customers,
                forall|d: int|
                    self.min <= d <= self.max ==> #[trigger] self.dispatch_spec(d).to_multiset()
                        == ids(self.full_customers@).to_multiset().add(
                        covering_ids(list@.take(i as int), d).to_multiset(),
                    ),
        {
            let ghost mid_state = *self;
            self.insert_into_children(list[i]);
            assert(list@.take(i + 1).drop_last() =~= list@.take(i as int));
            assert forall|d: int| self.min <= d <= self.max implies #[trigger] self.dispatch_spec(
                d,
            ).to_multiset() == ids(self.full_customers@).to_multiset().add(
                covering_ids(list@.take(i + 1), d).to_multiset(),
            ) by {
                assert(list@.take(i + 1) =~= list@.take(i as int).push(list@[i as int]));
                lemma_covering_ids_push(list@.take(i as int), list@[i as int], d);
                assert(mid_state.dispatch_spec(d).to_multiset() == ids(mid_state.full_customers@).to_multiset().add(
                    covering_ids(list@.take(i as int), d).to_multiset()));
            }
        }
        assert(list@.take(n as int) =~= list@);
        assert(list@ == before.value->Partial_0@.push(customer));
        assert(self.contents() == inserted(before.contents(), before.min as int, before.max as int, before.threshold as nat, customer));
        assert forall|d: int| before.min <= d <= before.max implies #[trigger] self.dispatch_spec(
            d,
        ).to_multiset() == before.dispatch_spec(d).to_multiset().add(hits(customer, d)) by {
            assert(list@.take(n as int) =~= list@);
            assert(pushed.dispatch_spec(d) == ids(pushed.full_customers@) + covering_ids(list@, d));
            assert(pushed.dispatch_spec(d).to_multiset() =~= ids(self.full_customers@).to_multiset().add(
                covering_ids(list@, d).to_multiset()));
        }
    }

    /// Hands a customer down to the halves of a split node that its range
    /// meets: the lower half when it starts at or before `mid`, the upper
    /// half when it ends after it.
    fn insert_into_children(&mut self, customer: Customer)
        requires
            old(self).wf(),
        ensures
            final(self).wf(),
            final(self).min == old(self).min,
            final(self).max == old(self).max,
            final(self).threshold == old(self).threshold,
            final(self).full_customers == old(self).full_customers,
            final(self).contents() == into_children(
                old(self).contents(),
                old(self).min as int,
                old(self).max as int,
                old(self).threshold as nat,
                customer,
            ),
            old(self).value is Partial ==> *final(self) == *old(self),
            old(self).value is Parent ==> final(self).value is Parent,
            old(self).value is Parent ==> forall|d: int|
                old(self).min <= d <= old(self).max ==> #[trigger] final(self).dispatch_spec(
                    d,
                ).to_multiset() == old(self).dispatch_spec(d).to_multiset().add(hits(customer, d)),
        decreases old(self).max - old(self).min, 0int,
    {
        broadcast use vstd::seq_lib::group_to_multiset_ensures, vstd::multiset::group_multiset_axioms, vstd::seq_lib::lemma_multiset_commutative;

        let ghost before = *self;
        let mid = self.mid;
        match &mut self.value {
            Value::Parent(left, right) => {
                if customer.start <= mid {
                    left.insert(customer);
                }
                if customer.end > mid {
                    right.insert(customer);
                }
            },
            Value::Partial(_) => {},
        }
        proof {
            if before.value is Partial {
                assert(*self == before);
            } else {
                assert(self.contents() =~= into_children(
                    before.contents(),
                    before.min as int,
                    before.max as int,
                    before.threshold as nat,
                    customer,
                )) by {
                    let l0 = before.value->Parent_0;
                    let r0 = before.value->Parent_1;
                    assert(self.contents().body == BodyView::Split(
                        Box::new(self.value->Parent_0.contents()),
                        Box::new(self.value->Parent_1.contents()),
                    ));
                    assert(before.contents().body == BodyView::Split(Box::new(l0.contents()), Box::new(r0.contents())));
                }
                assert forall|d: int| before.min <= d <= before.max implies #[trigger] self.dispatch_spec(
                    d,
                ).to_multiset() == before.dispatch_spec(d).to_multiset().add(hits(customer, d)) by {
                    let l0 = before.value->Parent_0;
                    let r0 = before.value->Parent_1;
                    let l1 = self.value->Parent_0;
                    let r1 = self.value->Parent_1;
                    let f = ids(before.full_customers@);
                    if d <= mid {
                        if customer.start > mid {
                            assert(hits(customer, d) =~= Multiset::empty());
                            assert(l1 == l0);
                        }
                        assert(self.dispatch_spec(d) == f + l1.dispatch_spec(d));
                        assert(before.dispatch_spec(d) == f + l0.dispatch_spec(d));
                        assert(self.dispatch_spec(d).to_multiset() =~= before.dispatch_spec(d).to_multiset().add(hits(customer, d)));
                    } else {
                        if customer.end <= mid {
                            assert(hits(customer, d) =~= Multiset::empty());
                            assert(r1 == r0);
                        }
                        assert(self.dispatch_spec(d) == f + r1.dispatch_spec(d));
                        assert(before.dispatch_spec(d) == f + r0.dispatch_spec(d));
                        assert(self.dispatch_spec(d).to_multiset() =~= before.dispatch_spec(d).to_multiset().add(hits(customer, d)));
                    }
                }
            }
        }
    }
}

impl TreeNode {
    /// The number of unsplit nodes below and including this one.
    pub open spec fn leaf_count(self) -> int
        decreases self,
    {
        match self.value {
            Value::Partial(_) => 1,
            Value::Parent(left, right) => left.leaf_count() + right.leaf_count(),
        }
    }

    /// Each leaf holds at least one date of the span.
    pub proof fn lemma_leaf_count_bounds(self)
        requires
            self.wf(),
        ensures
            1 <= self.leaf_count() <= self.max - self.min + 1,
        decreases self,
    {
        if let Value::Parent(left, right) = self.value {
            left.lemma_leaf_count_bounds();
            right.lemma_leaf_count_bounds();
        }
    }

    /// How many unsplit nodes the index has.
    pub fn leaves(&self) -> (r: i32)
        requires
            self.wf(),
        ensures
            r == self.leaf_count(),
        decreases self,
    {
        proof {
            self.lemma_leaf_count_bounds();
        }
        match &self.value {
            Value::Parent(left, right) => {
                proof {
                    left.lemma_leaf_count_bounds();
                    right.lemma_leaf_count_bounds();
                }
                left.leaves() + right.leaves()
            },
            Value::Partial(_) => 1,
        }
    }

    /// Appends to `out` the id of every customer whose range holds `date`:
    /// first the full lists from this node down to the leaf that holds the
    /// date, then the matching entries of that leaf's partial list, each in
    /// insertion order.
    ///
    /// Only a date within `[min, max]` has a meaning here. For a date outside
    /// it the walk still ends in some leaf, so the full lists along the way
    /// are reported even though their ranges do not hold that date.
    pub fn dispatch(&self, date: i32, out: &mut Vec<i32>)
        ensures
            final(out)@ == old(out)@ + self.dispatch_spec(date as int),
        decreases self,
    {
        let ghost start = out@;
        let n = self.full_customers.len();
        for i in 0..n
            invariant
                n == self.full_customers@.len(),
                out@ == start + ids(self.full_customers@).take(i as int),
        {
            out.push(self.full_customers[i].id);
            assert(ids(self.full_customers@).take(i + 1) =~= ids(self.full_customers@).take(
                i as int,
            ).push(self.full_customers@[i as int].id));
        }
        assert(ids(self.full_customers@).take(n as int) =~= ids(self.full_customers@));
        let ghost head = out@;
        match &self.value {
            Value::Partial(list) => {
                let m = list.len();
                for i in 0..m
                    invariant
                        m == list@.len(),
                        out@ == head + covering_ids(list@.take(i as int), date as int),
                {
                    let c = list[i];
                    assert(list@.take(i + 1).drop_last() =~= list@.take(i as int));
                    if c.start <= date && date <= c.end {
                        out.push(c.id);
                    }
                }
                assert(list@.take(m as int) =~= list@);
            },
            Value::Parent(left, right) => {
                if date <= self.mid {
                    left.dispatch(date, out);
                }
                if date > self.mid {
                    right.dispatch(date, out);
                }
            },
        }
        assert(out@ =~= start + self.dispatch_spec(date as int));
    }

    /// Builds the index over `[min, max]` by inserting the customers in order.
    ///
    /// Whatever the threshold and the order, a dispatch of any date of the
    /// span reports each customer whose range holds the date once, and no
    /// other; with distinct ids no id is reported twice.
    pub fn build(min: i32, max: i32, threshold: usize, customers: &Vec<Customer>) -> (r: TreeNode)
        requires
            1 <= min <= max,
        ensures
            r.wf(),
            r.min == min,
            r.max == max,
            r.threshold == threshold,
            forall|d: int|
                min <= d <= max ==> #[trigger] r.dispatch_spec(d).to_multiset()
                    == covering_ids(customers@, d).to_multiset(),
            ids(customers@).no_duplicates() ==> forall|d: int|
                min <= d <= max ==> #[trigger] r.dispatch_spec(d).no_duplicates(),
    {
        broadcast use vstd::seq_lib::group_to_multiset_ensures, vstd::multiset::group_multiset_axioms;

        let mut tree = TreeNode::with_threshold(min, max, threshold);
        let n = customers.len();
        assert forall|d: int| min <= d <= max implies #[trigger] tree.dispatch_spec(d).to_multiset()
            == covering_ids(customers@.take(0), d).to_multiset() by {
            assert(customers@.take(0) =~= Seq::<Customer>::empty());
            assert(tree.dispatch_spec(d).to_multiset() =~= Multiset::empty());
        }
        for i in 0..n
            invariant
                n == customers@.len(),
                tree.wf(),
                tree.min == min,
                tree.max == max,
                tree.threshold == threshold,
                forall|d: int|
                    min <= d <= max ==> #[trigger] tree.dispatch_spec(d).to_multiset()
                        == covering_ids(customers@.take(i as int), d).to_multiset(),
        {
            tree.insert(customers[i]);
            assert forall|d: int| min <= d <= max implies #[trigger] tree.dispatch_spec(d).to_multiset()
                == covering_ids(customers@.take(i + 1), d).to_multiset() by {
                assert(customers@.take(i + 1) =~= customers@.take(i as int).push(customers@[i as int]));
                lemma_covering_ids_push(customers@.take(i as int), customers@[i as int], d);
            }
        }
        assert(customers@.take(n as int) =~= customers@);
        proof {
            if ids(customers@).no_duplicates() {
                assert forall|d: int| min <= d <= max implies #[trigger] tree.dispatch_spec(d).no_duplicates() by {
                    lemma_covering_ids_distinct(customers@, d);
                    lemma_no_duplicates_by_multiset(tree.dispatch_spec(d), covering_ids(customers@, d));
                }
            }
        }
        tree
    }
}

impl TreeNode {
    /// The node reached by following `path` down from this one, `false`
    /// taking the lower half and `true` the upper; `None` where the path
    /// runs past a leaf.
    pub open spec fn descend(self, path: Seq<bool>) -> Option<TreeNode>
        decreases path.len(),
    {
        if path.len() == 0 {
            Some(self)
        } else {
            match self.value {
                Value::Parent(left, right) => (if path[0] {
                    *right
                } else {
                    *left
                }).descend(path.drop_first()),
                Value::Partial(_) => None,
            }
        }
    }

    /// The ids of the full lists of the nodes passed on the way down `path`,
    /// from this node on, not counting the node the path ends at.
    pub open spec fn ancestors_full(self, path: Seq<bool>) -> Seq<i32>
        decreases path.len(),
    {
        if path.len() == 0 {
            Seq::empty()
        } else {
            match self.value {
                Value::Parent(left, right) => ids(self.full_customers@) + (if path[0] {
                    *right
                } else {
                    *left
                }).ancestors_full(path.drop_first()),
                Value::Partial(_) => Seq::empty(),
            }
        }
    }

    /// For a node below this one and a date of its span, the full lists
    /// above that node followed by what it reports are what this node
    /// reports.
    pub proof fn lemma_reports_along_path(self, path: Seq<bool>, d: int)
        requires
            self.wf(),
            self.descend(path) is Some,
            self.descend(path)->0.min <= d <= self.descend(path)->0.max,
        ensures
            self.min <= self.descend(path)->0.min,
            self.descend(path)->0.max <= self.max,
            self.ancestors_full(path) + self.descend(path)->0.dispatch_spec(d) == self.dispatch_spec(d),
        decreases path.len(),
    {
        if path.len() == 0 {
            assert(self.ancestors_full(path) + self.dispatch_spec(d) =~= self.dispatch_spec(d));
        } else {
            let child = if path[0] {
                *self.value->Parent_1
            } else {
                *self.value->Parent_0
            };
            child.lemma_reports_along_path(path.drop_first(), d);
            assert(self.ancestors_full(path) + self.descend(path)->0.dispatch_spec(d)
                =~= ids(self.full_customers@) + child.dispatch_spec(d));
        }
    }

    /// In a tree that reports, for every date of its span, exactly the
    /// customers of `customers` that cover the date (as `build` leaves it),
    /// every node accounts for them too: the full lists above the node plus
    /// what the node reports for a date of its own span are those customers.
    pub proof fn lemma_every_node_accounts(self, customers: Seq<Customer>, path: Seq<bool>, d: int)
        requires
            self.wf(),
            forall|e: int|
                self.min <= e <= self.max ==> #[trigger] self.dispatch_spec(e).to_multiset()
                    == covering_ids(customers, e).to_multiset(),
            self.descend(path) is Some,
            self.descend(path)->0.min <= d <= self.descend(path)->0.max,
        ensures
            (self.ancestors_full(path) + self.descend(path)->0.dispatch_spec(d)).to_multiset()
                == covering_ids(customers, d).to_multiset(),
    {
        self.lemma_reports_along_path(path, d);
    }
}

} // verus!
