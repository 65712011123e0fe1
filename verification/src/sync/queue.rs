use vstd::prelude::*;
use std::collections::VecDeque;

verus! {

/// A first-in, first-out queue: items leave in the order in which they were pushed.
pub struct Queue<T> {
    items: VecDeque<T>,
}

/// The values that repeated pops return from a queue holding `items`, until it is
/// empty: the front first.
pub open spec fn popped_in_order<T>(items: Seq<T>) -> Seq<T>
    decreases items.len(),
{
    if items.len() == 0 {
        Seq::empty()
    } else {
        seq![items[0]] + popped_in_order(items.drop_first())
    }
}

impl<T> Queue<T> {
    /// The items in the queue, front (oldest) first.
    pub closed spec fn items(&self) -> Seq<T> {
        self.items@
    }

    /// An empty queue.
    pub fn new() -> (q: Self)
        ensures
            q.items() == Seq::<T>::empty(),
    {
        Queue { items: VecDeque::new() }
    }

    /// Puts `item` at the back of the queue.
    pub fn push(&mut self, item: T)
        ensures
            final(self).items() == old(self).items().push(item),
    {
        self.items.push_back(item);
    }

    /// Removes and returns the item at the front, or returns `None` and changes
    /// nothing when the queue is empty.
    pub fn try_pop(&mut self) -> (item: Option<T>)
        ensures
            old(self).items().len() == 0 ==> item is None && final(self).items() == old(
                self,
            ).items(),
            old(self).items().len() > 0 ==> item == Some(old(self).items()[0])
                && final(self).items() == old(self).items().drop_first(),
    {
        self.items.pop_front()
    }
}

impl<T> Default for Queue<T> {
    /// An empty queue.
    fn default() -> (q: Self)
        ensures
            q.items() == Seq::<T>::empty(),
    {
        Queue::new()
    }
}

/// Popping a queue until it is empty returns its items in the order in which
/// they were pushed, each exactly once.
pub proof fn lemma_pops_follow_push_order<T>(items: Seq<T>)
    ensures
        popped_in_order(items) == items,
    decreases items.len(),
{
    if items.len() > 0 {
        lemma_pops_follow_push_order(items.drop_first());
        assert(seq![items[0]] + items.drop_first() =~= items);
    } else {
        assert(items =~= Seq::<T>::empty());
    }
}

/// Pushing onto a non-empty queue does not change which item the next pop
/// returns, and the pushed item comes out after everything already queued.
pub proof fn lemma_push_behind_queued<T>(items: Seq<T>, item: T)
    requires
        items.len() > 0,
    ensures
        items.push(item)[0] == items[0],
        items.push(item).drop_first() == items.drop_first().push(item),
{
    assert(items.push(item).drop_first() =~= items.drop_first().push(item));
}

} // verus!
