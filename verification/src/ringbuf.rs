//! A bounded buffer that forgets its oldest item.

use vstd::prelude::*;

verus! {

/// What a buffer holds: its items from the oldest to the newest, and how many
/// it has room for.
#[verifier::ext_equal]
pub struct Ring<T> {
    pub items: Seq<T>,
    pub capacity: int,
}

impl<T> Ring<T> {
    /// A buffer without items.
    pub open spec fn empty(capacity: int) -> Ring<T> {
        Ring { items: seq![], capacity }
    }

    /// The buffer with one more item; a full one loses its oldest.
    pub open spec fn pushed(self, value: T) -> Ring<T> {
        if self.items.len() == self.capacity {
            Ring { items: self.items.drop_first().push(value), ..self }
        } else {
            Ring { items: self.items.push(value), ..self }
        }
    }
}

/// A bounded buffer.
#[derive(Debug)]
pub struct RingBuffer<T: Clone> {
    data: Vec<Option<T>>,
    head: usize,
    len: usize,
}

impl<T: Clone> View for RingBuffer<T> {
    type V = Ring<T>;

    closed spec fn view(&self) -> Ring<T> {
        Ring {
            items: Seq::new(self.len as nat, |i: int| self.data@[self.slot(i)]->0),
            capacity: self.data@.len() as int,
        }
    }
}

impl<T: Clone> RingBuffer<T> {
    /// The slot of the item at a place, the oldest being at 0.
    spec fn slot(&self, i: int) -> int {
        if self.head + i < self.data@.len() {
            self.head + i
        } else {
            self.head + i - self.data@.len()
        }
    }

    #[verifier::type_invariant]
    spec fn sound(&self) -> bool {
        &&& self.head < self.data@.len()
        &&& self.len <= self.data@.len()
        &&& forall|i: int| 0 <= i < self.len ==> self.data@[#[trigger] self.slot(i)] is Some
    }

    /// A buffer without items.
    pub fn new(cap: usize) -> (r: RingBuffer<T>)
        requires
            cap > 0,
        ensures
            r@ == Ring::<T>::empty(cap as int),
    {
        let r = RingBuffer { data: Self::blank(cap), head: 0, len: 0 };
        assert(r@.items =~= Seq::<T>::empty());
        r
    }

    fn blank(cap: usize) -> (r: Vec<Option<T>>)
        ensures
            r@.len() == cap,
    {
        let mut data: Vec<Option<T>> = Vec::new();
        let mut i: usize = 0;
        while i < cap
            invariant
                i <= cap,
                data@.len() == i,
            decreases cap - i,
        {
            data.push(None);
            i = i + 1;
        }
        data
    }

    /// The place of an item among the slots.
    fn index(&self, i: usize) -> (r: usize)
        requires
            i <= self.data@.len(),
            self.head <= self.data@.len(),
        ensures
            r == self.slot(i as int),
    {
        let cap: usize = self.data.len();
        if i < cap - self.head {
            self.head + i
        } else {
            i - (cap - self.head)
        }
    }

    fn with(self, value: T) -> (r: RingBuffer<T>)
        ensures
            r@ == self@.pushed(value),
    {
        proof {
            use_type_invariant(&self);
        }
        let ghost before = self;
        let cap: usize = self.data.len();
        if self.len == cap {
            let mut data = self.data;
            let head: usize = self.head;
            data[head] = Some(value);
            let next: usize = if head < cap - 1 {
                head + 1
            } else {
                0
            };
            proof {
                let after = RingBuffer { data, head: next, len: self.len };
                assert forall|i: int| 0 <= i < after.len implies after.data@[
                    #[trigger] after.slot(i)
                ] is Some by {
                    if i < cap - 1 {
                        assert(after.slot(i) == before.slot(i + 1));
                    } else {
                        assert(after.slot(i) == head);
                    }
                }
            }
            let r = RingBuffer { data, head: next, len: self.len };
            proof {
                let a = r@.items;
                let b = before@.items.drop_first().push(value);
                assert forall|i: int| 0 <= i < a.len() implies a[i] == b[i] by {
                    if i < cap - 1 {
                        assert(r.slot(i) == before.slot(i + 1));
                    }
                }
                assert(a =~= b);
            }
            r
        } else {
            let at = self.index(self.len);
            let mut data = self.data;
            data[at] = Some(value);
            proof {
                let after = RingBuffer { data, head: self.head, len: (self.len + 1) as usize };
                assert forall|i: int| 0 <= i < after.len implies after.data@[
                    #[trigger] after.slot(i)
                ] is Some by {
                    assert(after.slot(i) == before.slot(i));
                }
            }
            let r = RingBuffer { data, head: self.head, len: self.len + 1 };
            proof {
                let a = r@.items;
                let b = before@.items.push(value);
                assert forall|i: int| 0 <= i < a.len() implies a[i] == b[i] by {
                    assert(r.slot(i) == before.slot(i));
                }
                assert(a =~= b);
            }
            r
        }
    }

    /// Adds an item; a full buffer loses its oldest.
    pub fn push(&mut self, value: T)
        ensures
            final(self)@ == old(self)@.pushed(value),
            final(self)@.items.len() <= final(self)@.capacity,
    {
        let mut now = RingBuffer::new(1);
        std::mem::swap(&mut now, self);
        *self = now.with(value);
        proof {
            use_type_invariant(&*self);
        }
    }

    /// How many items there are.
    pub fn len(&self) -> (r: usize)
        ensures
            r == self@.items.len(),
            r <= self@.capacity,
    {
        proof {
            use_type_invariant(&*self);
        }
        self.len
    }

    /// Whether there are no items.
    pub fn is_empty(&self) -> (r: bool)
        ensures
            r == (self@.items.len() == 0),
    {
        self.len() == 0
    }

    /// How many items there is room for.
    pub fn capacity(&self) -> (r: usize)
        ensures
            r == self@.capacity,
            r > 0,
            self@.items.len() <= r,
    {
        proof {
            use_type_invariant(&*self);
        }
        self.data.len()
    }

    /// The items from the oldest to the newest.
    pub fn snapshot(&self) -> (r: Vec<T>)
        ensures
            r@.len() == self@.items.len(),
            forall|i: int| 0 <= i < r@.len() ==> cloned(self@.items[i], #[trigger] r@[i]),
    {
        proof {
            use_type_invariant(&*self);
        }
        let mut out: Vec<T> = Vec::new();
        let mut i: usize = 0;
        while i < self.len
            invariant
                i <= self.len,
                self.sound(),
                out@.len() == i,
                forall|j: int| 0 <= j < i ==> cloned(self@.items[j], #[trigger] out@[j]),
            decreases self.len - i,
        {
            let at = self.index(i);
            assert(self.data@[self.slot(i as int)] is Some);
            match &self.data[at] {
                Some(v) => {
                    assert(*v == self@.items[i as int]);
                    out.push(v.clone());
                },
                None => {},
            }
            i = i + 1;
        }
        out
    }

    /// Drops all items.
    pub fn clear(&mut self)
        ensures
            final(self)@ == Ring::<T>::empty(old(self)@.capacity),
    {
        proof {
            use_type_invariant(&*self);
        }
        let cap: usize = self.data.len();
        *self = RingBuffer { data: Self::blank(cap), head: 0, len: 0 };
        assert(self@.items =~= Seq::<T>::empty());
    }
}

/// A buffer keeps the latest items, as many as it has room for, from the oldest to
/// the newest.
pub proof fn law_latest_items_stay<T>(r: Ring<T>, value: T)
    requires
        r.capacity > 0,
        r.items.len() <= r.capacity,
    ensures
        ({
            let all = r.items.push(value);
            let n = if all.len() <= r.capacity {
                all.len() as int
            } else {
                r.capacity
            };
            &&& r.pushed(value).items == all.skip(all.len() - n)
            &&& r.pushed(value).items.len() == n <= r.capacity
            &&& r.pushed(value).capacity == r.capacity
        }),
{
    let all = r.items.push(value);
    if r.items.len() == r.capacity {
        assert(r.pushed(value).items =~= all.skip(1));
    } else {
        assert(r.pushed(value).items =~= all.skip(0));
    }
}

} // verus!
