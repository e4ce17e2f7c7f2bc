//! The buffer behind which metrics wait before they are written to
//! persistent storage.

use vstd::prelude::*;
use std::collections::VecDeque;

verus! {

broadcast use vstd::std_specs::vecdeque::group_vec_dequeue_axioms;

/// True when `s` ends with `t`.
pub open spec fn is_suffix<T>(t: Seq<T>, s: Seq<T>) -> bool {
    t.len() <= s.len() && t == s.skip(s.len() - t.len())
}

/// The interface for buffering metrics before they are written to
/// persistent storage. Callers depend on `Storage`, not on a concrete queue.
pub trait Storage<T>: Sized {
    /// The buffered items, oldest first.
    spec fn items(&self) -> Seq<T>;

    /// Buffers `item` as the newest entry; older entries may be given up.
    fn push(&mut self, item: T)
        ensures
            final(self).items().len() > 0,
            is_suffix(final(self).items(), old(self).items().push(item)),
    ;

    /// Takes every buffered item out, oldest first, and leaves the buffer empty.
    fn drain(&mut self) -> (out: Vec<T>)
        ensures
            out@ == old(self).items(),
            final(self).items() == Seq::<T>::empty(),
    ;

    /// The number of buffered items.
    fn len(&self) -> (n: usize)
        ensures
            n == self.items().len(),
    ;

    /// True when nothing is buffered.
    fn is_empty(&self) -> (b: bool)
        ensures
            b == (self.items().len() == 0),
    {
        self.len() == 0
    }
}

/// What a bounded buffer holds after `item` is pushed: when it is full (and
/// its capacity is not zero) the oldest entry is evicted first.
pub open spec fn push_evict<T>(items: Seq<T>, capacity: nat, item: T) -> Seq<T> {
    if items.len() == capacity && capacity > 0 {
        items.drop_first().push(item)
    } else {
        items.push(item)
    }
}

/// In-memory adapter for `Storage`: a queue with a capacity. Pushing onto a
/// full queue evicts the oldest entry. A capacity of zero never evicts.
pub struct InMemoryStorage<T> {
    inner: VecDeque<T>,
    capacity: usize,
}

impl<T> InMemoryStorage<T> {
    /// The capacity the buffer was made with.
    pub closed spec fn capacity(&self) -> nat {
        self.capacity as nat
    }

    /// An empty buffer of capacity 1024.
    pub fn new() -> (s: Self)
        ensures
            s.items() == Seq::<T>::empty(),
            s.capacity() == 1024,
    {
        InMemoryStorage { inner: VecDeque::with_capacity(1024), capacity: 1024 }
    }

    /// An empty buffer of the given capacity.
    pub fn with_capacity(capacity: usize) -> (s: Self)
        ensures
            s.items() == Seq::<T>::empty(),
            s.capacity() == capacity,
    {
        InMemoryStorage { inner: VecDeque::with_capacity(capacity), capacity }
    }
}

impl<T> Default for InMemoryStorage<T> {
    fn default() -> (s: Self)
        ensures
            s.items() == Seq::<T>::empty(),
            s.capacity() == 1024,
    {
        Self::new()
    }
}

impl<T> Storage<T> for InMemoryStorage<T> {
    closed spec fn items(&self) -> Seq<T> {
        self.inner@
    }

    fn push(&mut self, item: T)
        ensures
            final(self).items() == push_evict(old(self).items(), old(self).capacity(), item),
            final(self).capacity() == old(self).capacity(),
    {
        if self.inner.len() == self.capacity {
            let _ = self.inner.pop_front();
        }
        self.inner.push_back(item);
        proof {
            let all = old(self).items().push(item);
            let fin = self.inner@;
            assert(fin =~= all.skip(all.len() - fin.len()));
        }
    }

    fn drain(&mut self) -> (out: Vec<T>)
        ensures
            final(self).capacity() == old(self).capacity(),
    {
        let mut out: Vec<T> = Vec::new();
        let ghost start = self.inner@;
        while self.inner.len() > 0
            invariant
                start == out@ + self.inner@,
                self.capacity == old(self).capacity,
            decreases self.inner@.len(),
        {
            match self.inner.pop_front() {
                Some(x) => {
                    out.push(x);
                },
                None => {},
            }
            assert(start =~= out@ + self.inner@);
        }
        assert(out@ =~= start);
        out
    }

    fn len(&self) -> (n: usize) {
        self.inner.len()
    }
}


/// What a bounded buffer holds after each item of `xs` is pushed in turn.
pub open spec fn push_all<T>(items: Seq<T>, capacity: nat, xs: Seq<T>) -> Seq<T>
    decreases xs.len(),
{
    if xs.len() == 0 {
        items
    } else {
        push_evict(push_all(items, capacity, xs.drop_last()), capacity, xs.last())
    }
}

/// A buffer that is within its capacity stays within it after a push.
pub proof fn lemma_push_stays_bounded<T>(items: Seq<T>, capacity: nat, item: T)
    requires
        capacity > 0,
        items.len() <= capacity,
    ensures
        push_evict(items, capacity, item).len() <= capacity,
        push_evict(items, capacity, item).last() == item,
{
}

/// Pushing a run of items into a buffer of non-zero capacity keeps exactly
/// the newest `capacity` of all items seen, oldest first: the oldest entries
/// are the ones evicted, and the order of the rest is kept.
pub proof fn lemma_push_all_keeps_newest<T>(items: Seq<T>, capacity: nat, xs: Seq<T>)
    requires
        capacity > 0,
        items.len() <= capacity,
    ensures
        push_all(items, capacity, xs) == (items + xs).skip(
            if items.len() + xs.len() > capacity { items.len() + xs.len() - capacity } else { 0 },
        ),
    decreases xs.len(),
{
    let n = items.len() + xs.len();
    if xs.len() == 0 {
        assert((items + xs).skip(0) =~= items);
    } else {
        let xs0 = xs.drop_last();
        lemma_push_all_keeps_newest(items, capacity, xs0);
        let n0 = items.len() + xs0.len();
        let k0: int = if n0 > capacity { n0 - capacity } else { 0 };
        let p = push_all(items, capacity, xs0);
        assert(p == (items + xs0).skip(k0));
        assert(items + xs0 =~= (items + xs).drop_last());
        if p.len() == capacity {
            assert(p.drop_first().push(xs.last()) =~= (items + xs).skip(n - capacity));
        } else {
            assert(p.push(xs.last()) =~= (items + xs).skip(0));
        }
    }
}

/// A buffer of capacity zero never evicts: it keeps every pushed item in order.
pub proof fn lemma_zero_capacity_keeps_all<T>(items: Seq<T>, xs: Seq<T>)
    ensures
        push_all(items, 0, xs) == items + xs,
    decreases xs.len(),
{
    if xs.len() == 0 {
        assert(items + xs =~= items);
    } else {
        lemma_zero_capacity_keeps_all(items, xs.drop_last());
        assert((items + xs.drop_last()).push(xs.last()) =~= items + xs);
    }
}

} // verus!
