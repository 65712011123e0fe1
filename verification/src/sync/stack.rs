use vstd::prelude::*;

verus! {

/// A last-in, first-out stack with a separate pop counter.
///
/// The counter reported by `len` is decremented, with wrap-around, by every
/// successful pop and is left unchanged by `push`: it starts at zero, so after
/// a push and a pop it reads `usize::MAX`.
pub struct Stack<T> {
    items: Vec<T>,
    len: usize,
}

/// The counter after one successful pop: one less, wrapping from zero to `usize::MAX`.
pub open spec fn counter_after_pop(c: usize) -> usize {
    if c == 0 {
        usize::MAX
    } else {
        (c - 1) as usize
    }
}

/// The values that repeated pops return from a stack holding `items`, until it is
/// empty: the top first.
pub open spec fn popped_in_order<T>(items: Seq<T>) -> Seq<T>
    decreases items.len(),
{
    if items.len() == 0 {
        Seq::empty()
    } else {
        seq![items.last()] + popped_in_order(items.drop_last())
    }
}

impl<T> Stack<T> {
    /// The items on the stack, bottom first; the top is the last element.
    pub closed spec fn items(&self) -> Seq<T> {
        self.items@
    }

    /// The value of the counter that `len` reports.
    pub closed spec fn counter(&self) -> usize {
        self.len
    }

    /// An empty stack whose counter is zero.
    pub fn new() -> (s: Self)
        ensures
            s.items() == Seq::<T>::empty(),
            s.counter() == 0,
    {
        Stack { items: Vec::new(), len: 0 }
    }

    /// Puts `item` on top of the stack.
    pub fn push(&mut self, item: T)
        ensures
            final(self).items() == old(self).items().push(item),
            final(self).counter() == old(self).counter(),
    {
        self.items.push(item);
    }

    /// Removes and returns the top item of a non-empty stack.
    pub fn pop(&mut self) -> (item: T)
        requires
            old(self).items().len() > 0,
        ensures
            item == old(self).items().last(),
            final(self).items() == old(self).items().drop_last(),
            final(self).counter() == counter_after_pop(old(self).counter()),
    {
        self.len = self.len.wrapping_sub(1);
        self.items.pop().unwrap()
    }

    /// The value of the pop counter.
    pub fn len(&self) -> (n: usize)
        ensures
            n == self.counter(),
    {
        self.len
    }

    /// Whether the stack holds no item.
    pub fn is_empty(&self) -> (b: bool)
        ensures
            b == (self.items().len() == 0),
    {
        self.items.len() == 0
    }

    /// Removes and returns the top item, or returns `None` and changes nothing
    /// when the stack is empty.
    pub fn try_pop(&mut self) -> (item: Option<T>)
        ensures
            old(self).items().len() == 0 ==> {
                &&& item is None
                &&& final(self).items() == old(self).items()
                &&& final(self).counter() == old(self).counter()
            },
            old(self).items().len() > 0 ==> {
                &&& item == Some(old(self).items().last())
                &&& final(self).items() == old(self).items().drop_last()
                &&& final(self).counter() == counter_after_pop(old(self).counter())
            },
    {
        let ret = self.items.pop();
        if ret.is_some() {
            self.len = self.len.wrapping_sub(1);
        }
        ret
    }
}

impl<T> Default for Stack<T> {
    /// An empty stack whose counter is zero.
    fn default() -> (s: Self)
        ensures
            s.items() == Seq::<T>::empty(),
            s.counter() == 0,
    {
        Stack::new()
    }
}

/// A pop returns the item that the last push put on the stack, and leaves the
/// items as they were before that push.
pub proof fn lemma_pop_returns_last_push<T>(items: Seq<T>, item: T)
    ensures
        items.push(item).len() > 0,
        items.push(item).last() == item,
        items.push(item).drop_last() == items,
{
    assert(items.push(item).drop_last() =~= items);
}

/// Popping a stack until it is empty returns every pushed item exactly once,
/// the most recently pushed first: after pushing `pushed` onto a stack holding
/// `items`, the pops return `pushed` reversed, then what `items` alone gives.
pub proof fn lemma_pops_reverse_pushes<T>(items: Seq<T>, pushed: Seq<T>)
    ensures
        popped_in_order(items + pushed) == pushed.reverse() + popped_in_order(items),
    decreases pushed.len(),
{
    if pushed.len() == 0 {
        assert(items + pushed =~= items);
        assert(pushed.reverse() =~= Seq::<T>::empty());
        assert(pushed.reverse() + popped_in_order(items) =~= popped_in_order(items));
    } else {
        let rest = pushed.drop_last();
        lemma_pops_reverse_pushes(items, rest);
        assert((items + pushed).drop_last() =~= items + rest);
        assert((items + pushed).last() == pushed.last());
        assert(pushed.reverse() =~= seq![pushed.last()] + rest.reverse());
        assert(popped_in_order(items + pushed) =~= seq![pushed.last()] + (rest.reverse()
            + popped_in_order(items)));
    }
}

} // verus!
