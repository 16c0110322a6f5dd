//! Multi-producer, single-consumer handoff to one worker: Vyukov's intrusive
//! queue. A push is two stores, and a producer can be held up between them: then
//! what comes after is out of the worker's reach for a while, but nothing is lost
//! and nothing waits.

use vstd::prelude::*;

verus! {

/// One place in the queue.
#[derive(Debug, Clone, Copy)]
struct Node {
    next: Option<usize>,
    item: usize,
}

/// The node that is no item: it keeps the list from ever being empty.
const STUB: usize = 0;

pub struct Queue {
    nodes: Vec<Node>,
    /// The last node; producers append here.
    head: usize,
    /// The first node; the worker takes from here.
    tail: usize,
    /// Nodes that are in no list.
    free: Vec<usize>,
    /// The nodes of the list, from `tail` to `head`.
    order: Ghost<Seq<usize>>,
    pushed: Ghost<Seq<usize>>,
    popped: Ghost<Seq<usize>>,
}

/// The value of a [`Queue`].
#[verifier::ext_equal]
pub struct QueueView {
    /// What was pushed and not popped, in order.
    pub items: Seq<usize>,
    /// The pushes that are between their two stores: the node before, and the
    /// node that is to follow it.
    pub unfinished: Set<(usize, usize)>,
}

/// The items on the given nodes, in order.
spec fn items_on(nodes: Seq<Node>, order: Seq<usize>) -> Seq<usize>
    decreases order.len(),
{
    if order.len() == 0 {
        Seq::empty()
    } else if order.last() == STUB {
        items_on(nodes, order.drop_last())
    } else {
        items_on(nodes, order.drop_last()).push(nodes[order.last() as int].item)
    }
}

/// The link from the first of the pair to the second is still to be made.
spec fn missing(nodes: Seq<Node>, order: Seq<usize>, p: (usize, usize)) -> bool {
    exists|i: int|
        0 <= i < order.len() - 1 && #[trigger] order[i] == p.0 && order[i + 1] == p.1
            && nodes[p.0 as int].next is None
}

proof fn lemma_items_first(nodes: Seq<Node>, order: Seq<usize>)
    requires
        order.len() > 0,
    ensures
        items_on(nodes, order) == (if order[0] == STUB {
            items_on(nodes, order.drop_first())
        } else {
            seq![nodes[order[0] as int].item] + items_on(nodes, order.drop_first())
        }),
    decreases order.len(),
{
    let rest = order.drop_first();
    if rest.len() == 0 {
        assert(order.drop_last() == Seq::<usize>::empty());
        assert(items_on(nodes, order.drop_last()) == Seq::<usize>::empty());
        assert(items_on(nodes, rest) == Seq::<usize>::empty());
        if order[0] != STUB {
            assert(items_on(nodes, order) == seq![nodes[order[0] as int].item]);
            assert(seq![nodes[order[0] as int].item] + Seq::<usize>::empty()
                == seq![nodes[order[0] as int].item]);
        }
    } else {
        lemma_items_first(nodes, order.drop_last());
        assert(order.drop_last().drop_first() == rest.drop_last());
        assert(order.last() == rest.last());
        let x = nodes[order.last() as int].item;
        let first = seq![nodes[order[0] as int].item];
        let mid = items_on(nodes, rest.drop_last());
        assert(first + mid.push(x) == (first + mid).push(x));
    }
}

/// The items depend on nothing but what the nodes in the list carry.
proof fn lemma_items_same(a: Seq<Node>, b: Seq<Node>, order: Seq<usize>)
    requires
        forall|i: int| 0 <= i < order.len() ==> a[#[trigger] order[i] as int].item == b[order[i] as int].item,
    ensures
        items_on(a, order) == items_on(b, order),
    decreases order.len(),
{
    if order.len() > 0 {
        let before = order.drop_last();
        assert forall|i: int| 0 <= i < before.len() implies a[#[trigger] before[i] as int].item
            == b[before[i] as int].item by {
            assert(before[i] == order[i]);
        }
        lemma_items_same(a, b, before);
        assert(order[order.len() - 1] == order.last());
    }
}

impl View for Queue {
    type V = QueueView;

    closed spec fn view(&self) -> QueueView {
        QueueView {
            items: items_on(self.nodes@, self.order@),
            unfinished: Set::new(|p: (usize, usize)| missing(self.nodes@, self.order@, p)),
        }
    }
}

impl Queue {
    /// All that was ever pushed, in order.
    pub closed spec fn pushed(&self) -> Seq<usize> {
        self.pushed@
    }

    /// All that was ever popped, in order.
    pub closed spec fn popped(&self) -> Seq<usize> {
        self.popped@
    }

    /// The list, and the links that are made or still to be made in it.
    spec fn linked(&self) -> bool {
        let order = self.order@;
        let nodes = self.nodes@;
        &&& order.len() > 0
        &&& order[0] == self.tail
        &&& order.last() == self.head
        &&& order.no_duplicates()
        &&& forall|i: int| 0 <= i < order.len() ==> (#[trigger] order[i]) < nodes.len()
        &&& forall|i: int|
            0 <= i < order.len() - 1 ==> (nodes[#[trigger] order[i] as int].next matches Some(n)
                ==> n == order[i + 1])
        &&& nodes[self.head as int].next is None
    }

    /// The nodes that are in no list.
    spec fn spare(&self) -> bool {
        &&& self.free@.no_duplicates()
        &&& forall|i: int|
            0 <= i < self.free@.len() ==> STUB < #[trigger] self.free@[i] < self.nodes@.len()
                && !self.order@.contains(self.free@[i])
    }

    /// What holds of every queue.
    pub closed spec fn wf(&self) -> bool {
        &&& self.nodes@.len() > 0
        &&& self.linked()
        &&& self.spare()
        &&& self.pushed@ == self.popped@ + self@.items
    }

    pub fn new() -> (q: Self)
        ensures
            q.wf(),
            q@.items == Seq::<usize>::empty(),
            q@.unfinished == Set::<(usize, usize)>::empty(),
            q.pushed() == Seq::<usize>::empty(),
            q.popped() == Seq::<usize>::empty(),
    {
        let mut nodes: Vec<Node> = Vec::new();
        nodes.push(Node { next: None, item: 0 });
        let ghost order: Seq<usize> = seq![STUB];
        let q = Queue {
            nodes,
            head: STUB,
            tail: STUB,
            free: Vec::new(),
            order: Ghost(order),
            pushed: Ghost(Seq::empty()),
            popped: Ghost(Seq::empty()),
        };
        proof {
            lemma_items_first(q.nodes@, q.order@);
            assert(q.order@.drop_first() == Seq::<usize>::empty());
            assert(q.pushed@ == q.popped@ + q@.items);
            assert(q@.unfinished == Set::<(usize, usize)>::empty());
        }
        q
    }

    /// A node that is in no list.
    fn spare_node(&mut self) -> (n: usize)
        requires
            old(self).wf(),
        ensures
            final(self).wf(),
            STUB < n < final(self).nodes@.len(),
            !final(self).order@.contains(n),
            !final(self).free@.contains(n),
            final(self).order == old(self).order,
            final(self).pushed == old(self).pushed,
            final(self).popped == old(self).popped,
            final(self).head == old(self).head,
            final(self).tail == old(self).tail,
            final(self)@ == old(self)@,
    {
        let ghost nodes = self.nodes@;
        match self.free.pop() {
            Some(n) => {
                proof {
                    let before = old(self).free@;
                    assert(before[before.len() - 1] == n);
                    assert(forall|i: int| 0 <= i < self.free@.len() ==> self.free@[i] == before[i]);
                }
                n
            },
            None => {
                let n: usize = self.nodes.len();
                self.nodes.push(Node { next: None, item: 0 });
                proof {
                    assert forall|i: int| 0 <= i < self.order@.len() implies #[trigger]
                        self.order@[i] != n by {}
                    assert forall|i: int| 0 <= i < self.order@.len() implies nodes[#[trigger]
                    self.order@[i] as int] == self.nodes@[self.order@[i] as int] by {}
                    lemma_items_same(nodes, self.nodes@, self.order@);
                    assert forall|p: (usize, usize)|
                        missing(self.nodes@, self.order@, p) == missing(nodes, self.order@, p) by {}
                    assert(self@ == old(self)@);
                }
                n
            },
        }
    }

    /// The first store of a push: `item` is the last in the queue, but what is
    /// before it does not lead to it yet. The result says which link is to be
    /// made.
    pub fn begin_push(&mut self, item: usize) -> (link: (usize, usize))
        requires
            old(self).wf(),
        ensures
            final(self).wf(),
            final(self)@.items == old(self)@.items.push(item),
            !old(self)@.unfinished.contains(link),
            final(self)@.unfinished == old(self)@.unfinished.insert(link),
            final(self).pushed() == old(self).pushed().push(item),
            final(self).popped() == old(self).popped(),
    {
        let n: usize = self.spare_node();
        let ghost mid = *self;
        let ghost order = self.order@;
        let ghost nodes = self.nodes@;
        self.nodes[n] = Node { next: None, item };
        let prev: usize = self.head;
        self.head = n;
        self.order = Ghost(order.push(n));
        self.pushed = Ghost(self.pushed@.push(item));
        proof {
            let after = self.order@;
            assert forall|i: int| 0 <= i < order.len() implies #[trigger] order[i] != n by {}
            lemma_items_same(nodes, self.nodes@, order);
            assert(after.drop_last() == order);
            assert(after[order.len() as int] == n);
            assert forall|p: (usize, usize)|
                missing(self.nodes@, after, p) == (p == (prev, n) || missing(nodes, order, p)) by {
                if missing(nodes, order, p) {
                    let i = choose|i: int|
                        0 <= i < order.len() - 1 && #[trigger] order[i] == p.0 && order[i + 1] == p.1
                            && nodes[p.0 as int].next is None;
                    assert(after[i] == p.0 && after[i + 1] == p.1);
                }
                if p == (prev, n) {
                    let i = order.len() - 1;
                    assert(after[i] == prev && after[i + 1] == n);
                }
                if missing(self.nodes@, after, p) {
                    let i = choose|i: int|
                        0 <= i < after.len() - 1 && #[trigger] after[i] == p.0 && after[i + 1] == p.1
                            && self.nodes@[p.0 as int].next is None;
                    if i < order.len() - 1 {
                        assert(order[i] == p.0 && order[i + 1] == p.1);
                    }
                }
            }
            assert(self@.unfinished == old(self)@.unfinished.insert((prev, n)));
            assert(self.pushed@ == self.popped@ + self@.items);
        }
        (prev, n)
    }

    /// The second store of a push: makes the link that [`Queue::begin_push`] left
    /// to be made.
    pub fn finish_push(&mut self, link: (usize, usize))
        requires
            old(self).wf(),
            old(self)@.unfinished.contains(link),
        ensures
            final(self).wf(),
            final(self)@.items == old(self)@.items,
            final(self)@.unfinished == old(self)@.unfinished.remove(link),
            final(self).pushed() == old(self).pushed(),
            final(self).popped() == old(self).popped(),
    {
        let (prev, n): (usize, usize) = link;
        let ghost nodes = self.nodes@;
        let ghost order = self.order@;
        let ghost at = choose|i: int|
            0 <= i < order.len() - 1 && #[trigger] order[i] == prev && order[i + 1] == n
                && nodes[prev as int].next is None;
        self.nodes[prev].next = Some(n);
        proof {
            assert forall|i: int| 0 <= i < order.len() && i != at implies #[trigger] order[i]
                != prev by {}
            lemma_items_same(nodes, self.nodes@, order);
            assert forall|p: (usize, usize)|
                missing(self.nodes@, order, p) == (p != link && missing(nodes, order, p)) by {
                if missing(nodes, order, p) && p.0 == prev {
                    let i = choose|i: int|
                        0 <= i < order.len() - 1 && #[trigger] order[i] == p.0 && order[i + 1] == p.1
                            && nodes[p.0 as int].next is None;
                    assert(i == at);
                }
            }
            assert(self@.unfinished == old(self)@.unfinished.remove(link));
        }
    }

    /// Appends `item`.
    pub fn push(&mut self, item: usize)
        requires
            old(self).wf(),
        ensures
            final(self).wf(),
            final(self)@.items == old(self)@.items.push(item),
            final(self)@.unfinished == old(self)@.unfinished,
            final(self).pushed() == old(self).pushed().push(item),
            final(self).popped() == old(self).popped(),
    {
        let link = self.begin_push(item);
        self.finish_push(link);
        assert(self@.unfinished == old(self)@.unfinished);
    }

    /// Moves `tail` past the stub, which is then in no list.
    fn skip_stub(&mut self, next: usize)
        requires
            old(self).wf(),
            old(self).tail == STUB,
            old(self).nodes@[STUB as int].next == Some(next),
        ensures
            final(self).wf(),
            final(self).tail == next,
            next != STUB,
            final(self).order@ == old(self).order@.drop_first(),
            final(self).nodes == old(self).nodes,
            final(self).head == old(self).head,
            final(self)@ == old(self)@,
            final(self).pushed == old(self).pushed,
            final(self).popped == old(self).popped,
    {
        let ghost order = self.order@;
        let ghost after = order.drop_first();
        proof {
            self.lemma_front(next);
        }
        self.tail = next;
        self.order = Ghost(after);
        assert(self@ == old(self)@);
    }

    /// What leaving the first node out of the list does.
    proof fn lemma_front(&self, next: usize)
        requires
            self.linked(),
            self.spare(),
            self.nodes@[self.tail as int].next == Some(next),
        ensures
            ({
                let order = self.order@;
                let after = order.drop_first();
                &&& order.len() > 1
                &&& after.len() > 0
                &&& after[0] == next
                &&& after.last() == self.head
                &&& after.no_duplicates()
                &&& next != self.tail
                &&& !after.contains(self.tail)
                &&& forall|i: int| 0 <= i < after.len() ==> #[trigger] after[i] == order[i + 1]
                &&& forall|i: int| 0 <= i < after.len() ==> (#[trigger] after[i]) < self.nodes@.len()
                &&& forall|i: int|
                    0 <= i < after.len() - 1 ==> (self.nodes@[#[trigger] after[i] as int].next
                        matches Some(n) ==> n == after[i + 1])
                &&& forall|i: int|
                    0 <= i < self.free@.len() ==> !after.contains(#[trigger] self.free@[i])
                &&& items_on(self.nodes@, order) == (if self.tail == STUB {
                    items_on(self.nodes@, after)
                } else {
                    seq![self.nodes@[self.tail as int].item] + items_on(self.nodes@, after)
                })
                &&& forall|p: (usize, usize)|
                    missing(self.nodes@, after, p) == missing(self.nodes@, order, p)
            }),
    {
        let order = self.order@;
        let nodes = self.nodes@;
        let after = order.drop_first();
        assert(order[0] == self.tail);
        if order.len() == 1 {
            assert(order.last() == order[0]);
        }
        assert(order[1] == next);
        lemma_items_first(nodes, order);
        assert forall|i: int| 0 <= i < after.len() implies #[trigger] after[i] == order[i + 1] by {}
        assert forall|i: int, j: int| 0 <= i < j < after.len() implies after[i] != after[j] by {
            assert(order[i + 1] != order[j + 1]);
        }
        if after.contains(self.tail) {
            let i = after.index_of(self.tail);
            assert(order[i + 1] == order[0]);
        }
        assert forall|i: int| 0 <= i < self.free@.len() implies !after.contains(
            #[trigger] self.free@[i],
        ) by {
            if after.contains(self.free@[i]) {
                let k = after.index_of(self.free@[i]);
                assert(order[k + 1] == self.free@[i]);
            }
        }
        assert forall|p: (usize, usize)| missing(nodes, after, p) == missing(nodes, order, p) by {
            if missing(nodes, after, p) {
                let i = choose|i: int|
                    0 <= i < after.len() - 1 && #[trigger] after[i] == p.0 && after[i + 1] == p.1
                        && nodes[p.0 as int].next is None;
                assert(order[i + 1] == p.0 && order[i + 2] == p.1);
            }
            if missing(nodes, order, p) {
                let i = choose|i: int|
                    0 <= i < order.len() - 1 && #[trigger] order[i] == p.0 && order[i + 1] == p.1
                        && nodes[p.0 as int].next is None;
                assert(i > 0);
                assert(after[i - 1] == p.0 && after[i] == p.1);
            }
        }
    }

    /// Takes the first node, which is an item's and leads to `next`.
    fn take_first(&mut self, next: usize) -> (item: usize)
        requires
            old(self).wf(),
            old(self).tail != STUB,
            old(self).nodes@[old(self).tail as int].next == Some(next),
        ensures
            final(self).wf(),
            old(self)@.items.len() > 0,
            item == old(self)@.items[0],
            final(self)@.items == old(self)@.items.drop_first(),
            final(self)@.unfinished == old(self)@.unfinished,
            final(self).pushed() == old(self).pushed(),
            final(self).popped() == old(self).popped().push(item),
    {
        let ghost order = self.order@;
        let ghost after = order.drop_first();
        let ghost items = self@.items;
        proof {
            self.lemma_front(next);
        }
        let first: usize = self.tail;
        let item: usize = self.nodes[first].item;
        self.tail = next;
        self.free.push(first);
        self.order = Ghost(after);
        self.popped = Ghost(self.popped@.push(item));
        proof {
            assert(items == seq![item] + self@.items);
            assert(items.drop_first() == self@.items);
            let before = old(self).free@;
            assert(forall|i: int| 0 <= i < before.len() ==> self.free@[i] == before[i]);
            assert(order.contains(first)) by {
                assert(order[0] == first);
            }
            assert(self@.unfinished == old(self)@.unfinished);
            assert(old(self).popped@ + (seq![item] + self@.items) == old(self).popped@.push(item)
                + self@.items);
        }
        item
    }

    /// Puts the stub behind the one node that is in the list.
    fn append_stub(&mut self)
        requires
            old(self).wf(),
            old(self).tail == old(self).head,
            old(self).tail != STUB,
        ensures
            final(self).wf(),
            final(self)@ == old(self)@,
            final(self).tail == old(self).tail,
            final(self).nodes@[final(self).tail as int].next == Some(STUB),
            final(self).pushed == old(self).pushed,
            final(self).popped == old(self).popped,
    {
        let ghost order = self.order@;
        let ghost nodes = self.nodes@;
        let prev: usize = self.head;
        self.nodes[STUB].next = None;
        self.head = STUB;
        self.nodes[prev].next = Some(STUB);
        self.order = Ghost(order.push(STUB));
        proof {
            let after = self.order@;
            assert(order.len() == 1) by {
                assert(order[0] == order[order.len() - 1]);
            }
            assert(after.drop_last() == order);
            assert(after[0] == prev && after[1] == STUB);
            lemma_items_same(nodes, self.nodes@, order);
            assert forall|p: (usize, usize)|
                missing(self.nodes@, after, p) == missing(nodes, order, p) by {}
            assert forall|i: int| 0 <= i < self.free@.len() implies !after.contains(
                #[trigger] self.free@[i],
            ) by {
                let f = self.free@[i];
                assert(!order.contains(f));
                if after.contains(f) {
                    let k = after.index_of(f);
                    assert(after[k] == f);
                    if k == 0 {
                        assert(order[0] == f);
                    }
                }
            }
            assert(self@ == old(self)@);
        }
    }

    /// The list goes on behind its first node, but the link is still to be made.
    proof fn lemma_blocked(&self)
        requires
            self.linked(),
            self.nodes@[self.tail as int].next is None,
            self.tail != self.head,
        ensures
            !self@.unfinished.is_empty(),
    {
        let order = self.order@;
        assert(order.len() > 1) by {
            if order.len() == 1 {
                assert(order[0] == order.last());
            }
        }
        assert(self@.unfinished.contains((order[0], order[1])));
    }

    /// Takes the first item. `None` also while a producer is between its two
    /// stores; try again next poll.
    pub fn pop(&mut self) -> (r: Option<usize>)
        requires
            old(self).wf(),
        ensures
            final(self).wf(),
            final(self)@.unfinished == old(self)@.unfinished,
            final(self).pushed() == old(self).pushed(),
            match r {
                Some(item) => {
                    &&& old(self)@.items.len() > 0
                    &&& item == old(self)@.items[0]
                    &&& final(self)@.items == old(self)@.items.drop_first()
                    &&& final(self).popped() == old(self).popped().push(item)
                },
                None => {
                    &&& final(self)@.items == old(self)@.items
                    &&& final(self).popped() == old(self).popped()
                    &&& old(self)@.items.len() > 0 ==> !old(self)@.unfinished.is_empty()
                },
            },
    {
        if self.tail == STUB {
            match self.nodes[STUB].next {
                Some(next) => self.skip_stub(next),
                None => {
                    proof {
                        if self.head == STUB {
                            let order = self.order@;
                            assert(order.len() == 1) by {
                                assert(order[0] == order[order.len() - 1]);
                            }
                            lemma_items_first(self.nodes@, order);
                            assert(order.drop_first() == Seq::<usize>::empty());
                        } else {
                            self.lemma_blocked();
                        }
                    }
                    return None;
                },
            }
        }
        if let Some(next) = self.nodes[self.tail].next {
            return Some(self.take_first(next));
        }
        if self.head != self.tail {
            proof {
                self.lemma_blocked();
            }
            return None;
        }
        self.append_stub();
        Some(self.take_first(STUB))
    }

    /// Everything pushed comes out exactly once, in the order in which it was
    /// pushed: what was popped, followed by what is still here, is what was
    /// pushed.
    pub proof fn law_first_in_first_out(&self)
        requires
            self.wf(),
        ensures
            self.pushed() == self.popped() + self@.items,
            self.popped().is_prefix_of(self.pushed()),
            self@.items.len() == 0 ==> self.popped() == self.pushed(),
    {
        if self@.items.len() == 0 {
            assert(self.popped() + self@.items == self.popped());
        }
    }
}

/// Where a request stands with whoever submitted it. They are parked until it is
/// published, and return when it is released: a worker never wakes a thread that
/// is gone.
#[derive(Debug, Clone, Copy, PartialEq, Eq, Structural)]
pub enum SlotState {
    Pending,
    Published,
    Released,
}

/// What a worker does next to a request whose outcome is in place.
#[derive(Debug, Clone, Copy, PartialEq, Eq, Structural)]
pub enum Handoff {
    Publish,
    Wake,
    Release,
    Done,
}

impl SlotState {
    /// The state as whoever is parked reads it: anything but 0 wakes them.
    pub fn code(self) -> (r: u32)
        ensures
            r == (match self {
                SlotState::Pending => 0u32,
                SlotState::Published => 1,
                SlotState::Released => 2,
            }),
    {
        match self {
            SlotState::Pending => 0,
            SlotState::Published => 1,
            SlotState::Released => 2,
        }
    }
}

impl Handoff {
    /// The step after this one: publish, wake whoever waits, release.
    pub open spec fn after(self, waiting: bool) -> Handoff {
        match self {
            Handoff::Publish => if waiting {
                Handoff::Wake
            } else {
                Handoff::Release
            },
            Handoff::Wake => Handoff::Release,
            Handoff::Release => Handoff::Done,
            Handoff::Done => Handoff::Done,
        }
    }

    /// The state in which this step finds the request.
    pub open spec fn found(self) -> SlotState {
        match self {
            Handoff::Publish => SlotState::Pending,
            Handoff::Wake => SlotState::Published,
            Handoff::Release => SlotState::Published,
            Handoff::Done => SlotState::Released,
        }
    }

    pub fn next(self, waiting: bool) -> (r: Handoff)
        ensures
            r == self.after(waiting),
    {
        match self {
            Handoff::Publish => if waiting {
                Handoff::Wake
            } else {
                Handoff::Release
            },
            Handoff::Wake => Handoff::Release,
            Handoff::Release => Handoff::Done,
            Handoff::Done => Handoff::Done,
        }
    }

    /// The state that this step leaves behind, where it leaves another.
    pub fn stores(self) -> (r: Option<SlotState>)
        ensures
            r == (match self {
                Handoff::Publish => Some(SlotState::Published),
                Handoff::Release => Some(SlotState::Released),
                _ => None,
            }),
    {
        match self {
            Handoff::Publish => Some(SlotState::Published),
            Handoff::Release => Some(SlotState::Released),
            _ => None,
        }
    }
}

/// Whoever submitted a request may return only once it is released, and nothing
/// is done to it from then on; they are woken before that, if at all.
pub proof fn law_released_is_last(h: Handoff, waiting: bool)
    ensures
        h.found() == SlotState::Released ==> h == Handoff::Done && h.after(waiting)
            == Handoff::Done,
        h == Handoff::Wake ==> h.found() == SlotState::Published,
        Handoff::Publish.after(waiting) == Handoff::Wake <==> waiting,
        h.after(waiting).after(waiting).after(waiting) == Handoff::Done,
{
}

/// What one step leaves behind is what the next one finds, from the first, which
/// finds the request pending, to the last, which finds it released.
pub proof fn law_each_step_finds_what_was_left(
    h: Handoff,
    waiting: bool,
    next: Handoff,
    stored: Option<SlotState>,
)
    requires
        h != Handoff::Done,
        call_ensures(Handoff::next, (h, waiting), next),
        call_ensures(Handoff::stores, (h,), stored),
    ensures
        Handoff::Publish.found() == SlotState::Pending,
        Handoff::Done.found() == SlotState::Released,
        next.found() == (match stored {
            Some(state) => state,
            None => h.found(),
        }),
        stored matches Some(state) ==> state != h.found(),
{
}

/// The steps that follow publishing: whoever waits is woken once, and then the
/// request is released, once, whether anybody waited or not.
pub proof fn law_woken_then_released(waiting: bool)
    ensures
        ({
            let second = Handoff::Publish.after(waiting);
            let third = second.after(waiting);
            &&& waiting ==> second == Handoff::Wake && third == Handoff::Release
                && third.after(waiting) == Handoff::Done
            &&& !waiting ==> second == Handoff::Release && third == Handoff::Done
            &&& Handoff::Done.after(waiting) == Handoff::Done
        }),
{
}

/// Whoever is parked sleeps on nothing but a pending request, and can tell a
/// published one from one that is released.
pub proof fn law_states_tell_apart(a: SlotState, b: SlotState, m: u32, n: u32)
    requires
        call_ensures(SlotState::code, (a,), m),
        call_ensures(SlotState::code, (b,), n),
    ensures
        m == 0 <==> a == SlotState::Pending,
        m == n <==> a == b,
{
}

} // verus!
