use vstd::prelude::*;

verus! {

/// An append-only list whose items are numbered from zero in the order they were pushed.
pub struct List<T> {
    items: Vec<T>,
}

/// Items `start..end` of `s`, cut off at its end; empty when the range is empty or starts
/// past the end.
pub open spec fn range_of<T>(s: Seq<T>, start: u64, end: u64) -> Seq<T> {
    if start < end && start < s.len() {
        s.subrange(start as int, if end < s.len() { end as int } else { s.len() as int })
    } else {
        Seq::empty()
    }
}

/// An item pushed onto a list is found at the list's former length, and the items before
/// it stay where they were.
pub proof fn law_push_then_get<T>(items: Seq<T>, item: T, i: int)
    requires
        0 <= i < items.len(),
    ensures
        items.push(item)[items.len() as int] == item,
        items.push(item)[i] == items[i],
{
}

impl<T: Copy> List<T> {
    /// The items in order.
    pub closed spec fn items(&self) -> Seq<T> {
        self.items@
    }

    /// An empty list.
    pub fn new() -> (r: List<T>)
        ensures
            r.items() == Seq::<T>::empty(),
    {
        List { items: Vec::new() }
    }

    /// Append an item.
    pub fn push(&mut self, item: T)
        requires
            old(self).items().len() < u64::MAX,
        ensures
            final(self).items() == old(self).items().push(item),
    {
        self.items.push(item);
    }

    /// The item numbered `index`, if there is one.
    pub fn get(&self, index: u64) -> (r: Option<T>)
        ensures
            r == (if index < self.items().len() { Some(self.items()[index as int]) } else { None::<T> }),
    {
        if index < self.items.len() as u64 {
            Some(self.items[index as usize])
        } else {
            None
        }
    }

    /// The items numbered `start` (included) to `end` (excluded) that exist.
    pub fn range(&self, start: u64, end: u64) -> (r: Vec<T>)
        ensures
            r@ == range_of(self.items(), start, end),
    {
        let mut result: Vec<T> = Vec::new();
        let mut i: u64 = start;
        while i < end
            invariant
                start <= i,
                start < end ==> i <= end,
                start >= end ==> i == start,
                i <= start || i <= self.items@.len(),
                result@ == range_of(self.items@, start, i),
            decreases end - i,
        {
            match self.get(i) {
                Some(item) => {
                    result.push(item);
                    proof {
                        assert(range_of(self.items@, start, (i + 1) as u64) =~= range_of(self.items@, start, i).push(item));
                    }
                },
                None => {
                    proof {
                        assert(range_of(self.items@, start, end) =~= range_of(self.items@, start, i));
                    }
                    return result;
                },
            }
            i = i + 1;
        }
        proof {
            if start >= end {
                assert(range_of(self.items@, start, end) =~= range_of(self.items@, start, i));
            }
        }
        result
    }

    /// Number of items.
    pub fn len(&self) -> (r: u64)
        requires
            self.items().len() <= u64::MAX,
        ensures
            r == self.items().len(),
    {
        self.items.len() as u64
    }
}

} // verus!
