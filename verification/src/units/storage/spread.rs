use vstd::prelude::*;

verus! {

/// A number of children of a tree node.
pub type ChildCount = usize;

/// An index of a child within a tree node.
pub type ChildIndex = usize;

/// The capacity of a tree node of the given branching factor: `2 * B - 1`.
pub open spec fn spec_capacity(branching: int) -> int {
    branching * 2 - 1
}

/// Returns the capacity of a tree node of the given branching factor.
pub fn capacity(branching: ChildCount) -> (result: ChildCount)
    requires
        1 <= branching,
        branching * 2 <= usize::MAX,
    ensures
        result == spec_capacity(branching as int),
{
    branching * 2 - 1
}

/// A distribution of items over one layer of tree nodes: `head` nodes of
/// `items` items each, followed by `tail` nodes of `items + 1` items each,
/// walked item by item.
#[derive(Debug)]
pub struct Spread {
    head: ChildCount,
    tail: ChildCount,
    items: ChildCount,
    next: ChildIndex,
}

impl Spread {
    /// The number of leading nodes of `items` items not yet finished.
    pub closed spec fn spec_head(&self) -> nat {
        self.head as nat
    }

    /// The number of trailing nodes of one item more.
    pub closed spec fn spec_tail(&self) -> nat {
        self.tail as nat
    }

    /// The number of items of each leading node (of each trailing node once
    /// the walk reaches them).
    pub closed spec fn spec_items(&self) -> nat {
        self.items as nat
    }

    /// The number of items the layer holds.
    pub closed spec fn spec_total(&self) -> int {
        self.head * self.items + self.tail * (self.items + 1)
    }

    /// The position within the current node of the next item.
    pub closed spec fn spec_next(&self) -> nat {
        self.next as nat
    }

    /// The number of items the walk has not yet visited.
    pub closed spec fn remaining(&self) -> int {
        if self.head > 0 {
            (self.items - self.next) + (self.head - 1) * self.items + self.tail * (self.items + 1)
        } else {
            (self.items - self.next) + (self.tail - 1) * self.items
        }
    }

    /// The walk is in a consistent state and has not finished yet.
    pub closed spec fn wf(&self) -> bool {
        &&& self.next <= self.items
        &&& self.head > 0 || self.tail > 0
        &&& self.head > 0 ==> self.items >= 1 || (self.head == 1 && self.tail == 0)
        &&& self.head == 0 ==> self.items >= 1
        &&& self.head > 0 ==> self.head * self.items + self.tail * (self.items + 1) <= usize::MAX
        &&& self.head == 0 ==> self.tail * self.items <= usize::MAX
    }

    /// Distributes `total` items over the nodes of a layer with branching
    /// factor `branching`: one node when they fit into its capacity,
    /// otherwise `total / branching` nodes that share the remainder evenly,
    /// the last ones taking one item more.
    pub fn new(branching: ChildCount, total: ChildCount) -> (result: Spread)
        requires
            2 <= branching,
            branching * 2 <= usize::MAX,
        ensures
            result.wf(),
            result.spec_next() == 0,
            result.spec_total() == total,
            result.remaining() == total,
            result.spec_total() == result.spec_head() * result.spec_items() + result.spec_tail() * (result.spec_items() + 1),
            total <= spec_capacity(branching as int) ==> result.spec_head() == 1 && result.spec_tail() == 0
                && result.spec_items() == total,
            total > spec_capacity(branching as int) ==> {
                let count = total / branching;
                let rest = total % branching;
                &&& result.spec_items() == branching + rest / count
                &&& result.spec_tail() == rest % count
                &&& result.spec_head() == count - rest % count
                &&& result.spec_head() + result.spec_tail() == total / branching
                &&& branching <= result.spec_items()
                &&& result.spec_tail() > 0 ==> result.spec_items() + 1 <= spec_capacity(branching as int)
                &&& result.spec_items() <= spec_capacity(branching as int)
                &&& result.spec_tail() < result.spec_head() + result.spec_tail()
            },
    {
        let cap = capacity(branching);
        if total <= cap {
            let result = Spread { head: 1, tail: 0, items: total, next: 0 };
            assert(result.spec_total() == total);
            return result;
        }
        let branch_count = total / branching;
        proof {
            assert(branch_count >= 1) by (nonlinear_arith)
                requires
                    branch_count == total / branching,
                    total > branching * 2 - 1,
                    branching >= 2,
            ;
            assert(branch_count * branching <= total) by (nonlinear_arith)
                requires
                    branch_count == total / branching,
                    branching >= 2,
            ;
        }
        let reminder = total - branch_count * branching;
        proof {
            vstd::arithmetic::div_mod::lemma_fundamental_div_mod(total as int, branching as int);
            assert(branching * branch_count == branch_count * branching) by (nonlinear_arith);
            assert(reminder == total % branching);
            assert(reminder < branching) by (nonlinear_arith)
                requires
                    branch_count == total / branching,
                    reminder == total - branch_count * branching,
                    branching >= 2,
            ;
        }
        let reminder_spread = reminder / branch_count;
        proof {
            assert(reminder_spread * branch_count <= reminder) by (nonlinear_arith)
                requires
                    reminder_spread == reminder / branch_count,
                    branch_count >= 1,
            ;
            assert(reminder - reminder_spread * branch_count < branch_count) by (nonlinear_arith)
                requires
                    reminder_spread == reminder / branch_count,
                    branch_count >= 1,
            ;
            assert(reminder_spread <= reminder) by (nonlinear_arith)
                requires
                    reminder_spread == reminder / branch_count,
                    branch_count >= 1,
            ;
        }
        proof {
            vstd::arithmetic::div_mod::lemma_fundamental_div_mod(reminder as int, branch_count as int);
            assert(branch_count * reminder_spread == reminder_spread * branch_count) by (nonlinear_arith);
        }
        let items = branching + reminder_spread;
        let tail = reminder - reminder_spread * branch_count;
        let head = branch_count - tail;
        let result = Spread { head, tail, items, next: 0 };
        proof {
            assert(result.spec_total() == total) by (nonlinear_arith)
                requires
                    head == branch_count - tail,
                    tail == reminder - reminder_spread * branch_count,
                    items == branching + reminder_spread,
                    reminder == total - branch_count * branching,
                    head * items + tail * (items + 1) == result.spec_total(),
            ;
            if tail > 0 {
                assert(reminder_spread + 1 <= branching - 1) by (nonlinear_arith)
                    requires
                        reminder_spread * branch_count + tail == reminder,
                        tail > 0,
                        reminder < branching,
                        branch_count >= 1,
                ;
            }
            assert(reminder_spread <= branching - 1);
            assert((head - 1) * items + items == head * items) by (nonlinear_arith);
        }
        result
    }

    /// Walks to the next item: returns its index within its node, where 0
    /// starts a new node, or `usize::MAX` once every item was visited.
    pub fn advance(&mut self) -> (result: ChildIndex)
        requires
            old(self).wf(),
        ensures
            old(self).remaining() > 0 ==> {
                &&& result != usize::MAX
                &&& final(self).wf()
                &&& final(self).remaining() == old(self).remaining() - 1
                &&& result < final(self).spec_items()
                &&& final(self).spec_next() == result + 1
                &&& result > 0 ==> final(self).spec_items() == old(self).spec_items()
            },
            old(self).remaining() == 0 ==> result == usize::MAX,
            old(self).remaining() > 0 && old(self).spec_next() < old(self).spec_items() ==> {
                &&& result == old(self).spec_next()
                &&& final(self).spec_items() == old(self).spec_items()
                &&& final(self).spec_head() == old(self).spec_head()
                &&& final(self).spec_tail() == old(self).spec_tail()
            },
            old(self).remaining() > 0 && old(self).spec_next() >= old(self).spec_items() ==> {
                &&& result == 0
                &&& old(self).spec_head() > 1 ==> final(self).spec_items() == old(self).spec_items()
                    && final(self).spec_head() == old(self).spec_head() - 1
                    && final(self).spec_tail() == old(self).spec_tail()
                &&& old(self).spec_head() == 1 ==> final(self).spec_items() == old(self).spec_items() + 1
                    && final(self).spec_head() == 0 && final(self).spec_tail() == old(self).spec_tail()
                    && old(self).spec_tail() > 0
                &&& old(self).spec_head() == 0 ==> final(self).spec_items() == old(self).spec_items()
                    && final(self).spec_head() == 0 && final(self).spec_tail() == old(self).spec_tail() - 1
            },
    {
        let ghost before = *self;
        if self.next < self.items {
            self.next = self.next + 1;
            return self.next - 1;
        }
        self.next = 1;
        if self.head > 0 {
            self.head = self.head - 1;
            if self.head == 0 {
                if self.tail == 0 {
                    proof {
                        let items = before.items as int;
                        assert(before.head == 1);
                        assert(before.next == before.items);
                        assert((before.head - 1) * items == 0) by (nonlinear_arith)
                            requires
                                before.head == 1,
                        ;
                        assert(before.tail * (items + 1) == 0) by (nonlinear_arith)
                            requires
                                before.tail == 0,
                        ;
                        assert(before.remaining() == 0);
                    }
                    return usize::MAX;
                }
                proof {
                    assert(self.items + 1 <= usize::MAX) by (nonlinear_arith)
                        requires
                            self.tail >= 1,
                            self.tail * (self.items + 1) <= usize::MAX,
                    ;
                }
                self.items = self.items + 1;
                proof {
                    let items = self.items as int;
                    let tail = self.tail as int;
                    assert((items - 1) + (tail - 1) * items == tail * items - 1) by (nonlinear_arith);
                }
            } else {
                proof {
                    let items = self.items as int;
                    let head = self.head as int;
                    assert(head * items + items == (head + 1) * items) by (nonlinear_arith);
                    assert(head * items <= (head + 1) * items) by (nonlinear_arith)
                        requires
                            items >= 0,
                    ;
                    assert((head - 1) * items + items == head * items) by (nonlinear_arith);
                }
            }
        } else {
            self.tail = self.tail - 1;
            if self.tail == 0 {
                return usize::MAX;
            }
            proof {
                let items = self.items as int;
                let tail = self.tail as int;
                assert(tail * items + items == (tail + 1) * items) by (nonlinear_arith);
                assert(tail * items <= (tail + 1) * items) by (nonlinear_arith)
                    requires
                        items >= 0,
                ;
                assert((tail - 1) * items + items == tail * items) by (nonlinear_arith);
            }
        }
        0
    }

    /// The walk never runs past the end of its current node.
    pub proof fn lemma_next_bound(&self)
        requires
            self.wf(),
        ensures
            self.spec_next() <= self.spec_items(),
    {
    }

    /// A walk over a single node has the rest of that node left.
    pub proof fn lemma_single_node(&self)
        requires
            self.wf(),
            self.spec_head() == 1,
            self.spec_tail() == 0,
        ensures
            self.remaining() == self.spec_items() - self.spec_next(),
    {
    }

    /// A walk in a consistent state has a node left.
    pub proof fn lemma_has_node(&self)
        requires
            self.wf(),
        ensures
            self.spec_head() > 0 || self.spec_tail() > 0,
    {
    }

    /// Once the walk has visited every item, it stands in its last node:
    /// the only leading node with no trailing ones, or the last trailing
    /// node.
    pub proof fn lemma_finished_in_last(&self)
        requires
            self.wf(),
            self.remaining() == 0,
        ensures
            (self.spec_head() == 1 && self.spec_tail() == 0) || (self.spec_head() == 0 && self.spec_tail() == 1),
    {
        let items = self.items as int;
        let next = self.next as int;
        if self.head > 0 {
            assert((self.head - 1) * items >= 0) by (nonlinear_arith)
                requires
                    self.head >= 1,
                    items >= 0,
            ;
            assert(self.tail * (items + 1) >= 0) by (nonlinear_arith)
                requires
                    self.tail >= 0,
                    items >= 0,
            ;
            assert(self.tail * (items + 1) == 0);
            assert(self.tail == 0) by (nonlinear_arith)
                requires
                    self.tail * (items + 1) == 0,
                    items >= 0,
                    self.tail >= 0,
            ;
            if items >= 1 {
                assert(self.head == 1) by (nonlinear_arith)
                    requires
                        (self.head - 1) * items == 0,
                        items >= 1,
                ;
            }
        } else {
            assert((self.tail - 1) * items >= 0) by (nonlinear_arith)
                requires
                    self.tail >= 1,
                    items >= 0,
            ;
            assert(self.tail == 1) by (nonlinear_arith)
                requires
                    (self.tail - 1) * items == 0,
                    items >= 1,
            ;
        }
    }

    /// Once the walk has visited every item, the current node is full.
    pub proof fn lemma_finished(&self)
        requires
            self.wf(),
            self.remaining() == 0,
        ensures
            self.spec_next() == self.spec_items(),
    {
        let items = self.items as int;
        let next = self.next as int;
        if self.head > 0 {
            assert((self.head - 1) * items >= 0) by (nonlinear_arith)
                requires
                    self.head >= 1,
                    items >= 0,
            ;
            assert(self.tail * (items + 1) >= 0) by (nonlinear_arith)
                requires
                    self.tail >= 0,
                    items >= 0,
            ;
        } else {
            assert((self.tail - 1) * items >= 0) by (nonlinear_arith)
                requires
                    self.tail >= 1,
                    items >= 0,
            ;
        }
    }

    /// Returns the number of nodes in the layer.
    pub fn layer_size(&self) -> (result: ChildCount)
        requires
            self.spec_head() + self.spec_tail() <= usize::MAX,
        ensures
            result == self.spec_head() + self.spec_tail(),
    {
        self.head + self.tail
    }

    /// Returns the number of items of the current node.
    pub fn items(&self) -> (result: ChildCount)
        ensures
            result == self.spec_items(),
    {
        self.items
    }

    /// Returns the number of items the layer holds.
    pub fn total_items(&self) -> (result: ChildCount)
        requires
            self.spec_total() <= usize::MAX,
            self.spec_items() < usize::MAX,
        ensures
            result == self.spec_total(),
    {
        proof {
            assert(self.head * self.items <= self.spec_total()) by (nonlinear_arith)
                requires
                    self.spec_total() == self.head * self.items + self.tail * (self.items + 1),
                    self.tail >= 0,
                    self.items >= 0,
            ;
            assert(self.tail * (self.items + 1) <= self.spec_total()) by (nonlinear_arith)
                requires
                    self.spec_total() == self.head * self.items + self.tail * (self.items + 1),
                    self.head >= 0,
                    self.items >= 0,
            ;
        }
        self.head * self.items + self.tail * (self.items + 1)
    }
}

} // verus!
