use vstd::prelude::*;

verus! {

/// A double-ended list of items.
///
/// [`Vec<T>`] or [`std::collections::VecDeque<T>`] are almost always better choices;
/// this type adds a cursor that can step through the items.
pub struct LinkedList<T> {
    items: Vec<T>,
}

impl<T> View for LinkedList<T> {
    type V = Seq<T>;

    /// The items, front to back.
    closed spec fn view(&self) -> Seq<T> {
        self.items@
    }
}

impl<T> LinkedList<T> {
    /// A new list with no items; performs no allocations.
    pub fn new() -> (r: Self)
        ensures
            r@ == Seq::<T>::empty(),
    {
        LinkedList { items: Vec::new() }
    }

    /// The number of items in this list.
    pub fn len(&self) -> (r: usize)
        ensures
            r == self@.len(),
    {
        self.items.len()
    }

    /// `true` when this list holds no items.
    pub fn is_empty(&self) -> (r: bool)
        ensures
            r == (self@.len() == 0),
    {
        self.items.len() == 0
    }

    /// A cursor on the front item.
    pub fn cursor_front(&mut self) -> (r: Cursor<'_, T>)
        ensures
            r.wf(),
            r.list() == *old(self),
            r.position() == (if old(self)@.len() > 0 { Some(0nat) } else { None }),
    {
        let pos = if self.items.len() > 0 {
            Some(0)
        } else {
            None
        };
        Cursor { ll: self, pos }
    }

    /// A cursor on the back item.
    pub fn cursor_back(&mut self) -> (r: Cursor<'_, T>)
        ensures
            r.wf(),
            r.list() == *old(self),
            r.position() == (if old(self)@.len() > 0 { Some((old(self)@.len() - 1) as nat) } else { None }),
    {
        let n = self.items.len();
        let pos = if n > 0 {
            Some(n - 1)
        } else {
            None
        };
        Cursor { ll: self, pos }
    }

    /// An iterator that moves from front to back.
    pub fn iter(&self) -> (r: Iter<'_, T>)
        ensures
            r.rest() == self@,
    {
        Iter { ll: self, pos: 0 }
    }

    /// Push an item to the back of the list.
    pub fn push_back(&mut self, element: T)
        ensures
            final(self)@ == old(self)@.push(element),
    {
        self.items.push(element);
    }

    /// Push an item to the front of the list.
    pub fn push_front(&mut self, element: T)
        ensures
            final(self)@ == seq![element] + old(self)@,
    {
        self.items.insert(0, element);
        proof {
            assert(self.items@ =~= seq![element] + old(self)@);
        }
    }

    /// Pop the item at the back of the list.
    pub fn pop_back(&mut self) -> (r: Option<T>)
        ensures
            old(self)@.len() == 0 ==> r is None && final(self)@ == old(self)@,
            old(self)@.len() > 0 ==> r == Some(old(self)@.last()) && final(self)@ == old(self)@.drop_last(),
    {
        self.items.pop()
    }

    /// Pop the item at the front of the list.
    pub fn pop_front(&mut self) -> (r: Option<T>)
        ensures
            old(self)@.len() == 0 ==> r is None && final(self)@ == old(self)@,
            old(self)@.len() > 0 ==> r == Some(old(self)@[0]) && final(self)@ == old(self)@.drop_first(),
    {
        if self.items.len() > 0 {
            let x = self.items.remove(0);
            proof {
                assert(self.items@ =~= old(self)@.drop_first());
            }
            Some(x)
        } else {
            None
        }
    }

    /// The item at the front of the list.
    pub fn front(&self) -> (r: Option<&T>)
        ensures
            self@.len() == 0 ==> r is None,
            self@.len() > 0 ==> r == Some(&self@[0]),
    {
        if self.items.len() > 0 {
            Some(&self.items[0])
        } else {
            None
        }
    }

    /// The item at the back of the list.
    pub fn back(&self) -> (r: Option<&T>)
        ensures
            self@.len() == 0 ==> r is None,
            self@.len() > 0 ==> r == Some(&self@.last()),
    {
        let n = self.items.len();
        if n > 0 {
            Some(&self.items[n - 1])
        } else {
            None
        }
    }

    /// A list holding the items of `v`, in order.
    pub fn from_vec(v: Vec<T>) -> (r: Self)
        ensures
            r@ == v@,
    {
        let mut v = v;
        let mut rev: Vec<T> = Vec::new();
        let ghost orig = v@;
        while v.len() > 0
            invariant
                v@ == orig.subrange(0, v@.len() as int),
                rev@.len() == orig.len() - v@.len(),
                forall|j: int| 0 <= j < rev@.len() ==> #[trigger] rev@[j] == orig[orig.len() - 1 - j],
            decreases v@.len(),
        {
            let x = v.pop().unwrap();
            rev.push(x);
            proof {
                assert(v@ =~= orig.subrange(0, v@.len() as int));
            }
        }
        let mut list = LinkedList::new();
        while rev.len() > 0
            invariant
                list@.len() + rev@.len() == orig.len(),
                forall|j: int| 0 <= j < rev@.len() ==> #[trigger] rev@[j] == orig[orig.len() - 1 - j],
                list@ == orig.subrange(0, list@.len() as int),
            decreases rev@.len(),
        {
            let x = rev.pop().unwrap();
            list.push_back(x);
            proof {
                assert(list@ =~= orig.subrange(0, list@.len() as int));
            }
        }
        proof {
            assert(list@ =~= orig);
        }
        list
    }
}

/// Where a cursor at `pos` rests after moving `n` items toward the back of a list of `len`
/// items: off the list once it passes the end.
pub open spec fn forward_to(pos: Option<nat>, n: nat, len: nat) -> Option<nat> {
    if n == 0 {
        pos
    } else {
        match pos {
            Some(p) => if p + n < len {
                Some(p + n)
            } else {
                None
            },
            None => None,
        }
    }
}

/// Where a cursor at `pos` rests after moving `n` items toward the front: off the list
/// once it passes the start.
pub open spec fn backward_to(pos: Option<nat>, n: nat) -> Option<nat> {
    if n == 0 {
        pos
    } else {
        match pos {
            Some(p) => if n <= p {
                Some((p - n) as nat)
            } else {
                None
            },
            None => None,
        }
    }
}

/// A position in a [`LinkedList`], which may also rest on no item.
pub struct Cursor<'a, T> {
    ll: &'a mut LinkedList<T>,
    pos: Option<usize>,
}

impl<'a, T> Cursor<'a, T> {
    /// The position, if any, is that of an item.
    pub closed spec fn wf(&self) -> bool {
        self.pos matches Some(p) ==> p < self.ll@.len()
    }

    /// The list as the cursor sees it.
    pub closed spec fn list(&self) -> LinkedList<T> {
        *self.ll
    }

    /// The index of the current item, if any.
    pub closed spec fn position(&self) -> Option<nat> {
        match self.pos {
            Some(p) => Some(p as nat),
            None => None,
        }
    }

    /// The current item.
    pub fn elem(&self) -> (r: Option<&T>)
        requires
            self.wf(),
        ensures
            self.position() is None ==> r is None,
            self.position() matches Some(p) ==> r == Some(&self.list()@[p as int]),
    {
        match self.pos {
            Some(p) => Some(&self.ll.items[p]),
            None => None,
        }
    }

    /// Mutable access to the current item.
    pub fn elem_mut(&mut self) -> (r: Option<&mut T>)
        requires
            old(self).wf(),
        ensures
            final(self).wf(),
            final(self).position() == old(self).position(),
            old(self).position() is None ==> r is None && final(self).list() == old(self).list(),
            old(self).position() matches Some(p) ==> r matches Some(e) && *e == old(self).list()@[p as int]
                && final(self).list()@ == old(self).list()@.update(p as int, *final(e)),
    {
        match self.pos {
            Some(p) => Some(&mut self.ll.items[p]),
            None => None,
        }
    }

    /// Move `n` items toward the back; `true` when the cursor still rests on an item.
    pub fn seek_forward(&mut self, n: usize) -> (r: bool)
        requires
            old(self).wf(),
        ensures
            final(self).wf(),
            final(self).list() == old(self).list(),
            r == (final(self).position() is Some),
            final(self).position() matches Some(p) ==> p < final(self).list()@.len(),
            final(self).position() == forward_to(old(self).position(), n as nat, old(self).list()@.len()),
    {
        if n == 0 {
            return self.pos.is_some();
        }
        match self.pos {
            Some(p) => {
                let len = self.ll.items.len();
                if p < len && n < len - p {
                    self.pos = Some(p + n);
                    true
                } else {
                    self.pos = None;
                    false
                }
            },
            None => false,
        }
    }

    /// Move `n` items toward the front; `true` when the cursor still rests on an item.
    pub fn seek_backward(&mut self, n: usize) -> (r: bool)
        requires
            old(self).wf(),
        ensures
            final(self).wf(),
            final(self).list() == old(self).list(),
            r == (final(self).position() is Some),
            final(self).position() matches Some(p) ==> p < final(self).list()@.len(),
            final(self).position() == backward_to(old(self).position(), n as nat),
    {
        if n == 0 {
            return self.pos.is_some();
        }
        match self.pos {
            Some(p) => {
                if n <= p {
                    self.pos = Some(p - n);
                    true
                } else {
                    self.pos = None;
                    false
                }
            },
            None => false,
        }
    }
}

impl<'a, T> Cursor<'a, T> {
    /// Move one item toward the back and return the new current item; off the end, the
    /// cursor rests on no item.
    pub fn advance(&mut self) -> (r: Option<&T>)
        requires
            old(self).wf(),
        ensures
            final(self).wf(),
            final(self).list() == old(self).list(),
            final(self).position() == forward_to(old(self).position(), 1, old(self).list()@.len()),
            final(self).position() is None ==> r is None,
            final(self).position() matches Some(p) ==> r == Some(&old(self).list()@[p as int]),
    {
        self.seek_forward(1);
        self.elem()
    }

    /// Move one item toward the front and return the new current item; off the start, the
    /// cursor rests on no item.
    pub fn retreat(&mut self) -> (r: Option<&T>)
        requires
            old(self).wf(),
        ensures
            final(self).wf(),
            final(self).list() == old(self).list(),
            final(self).position() == backward_to(old(self).position(), 1),
            final(self).position() is None ==> r is None,
            final(self).position() matches Some(p) ==> r == Some(&old(self).list()@[p as int]),
    {
        self.seek_backward(1);
        self.elem()
    }

    /// The item one position toward the back.
    pub fn peek_next(&self) -> (r: Option<&T>)
        requires
            self.wf(),
        ensures
            self.position() matches Some(p) ==> (p + 1 < self.list()@.len() ==> r == Some(&self.list()@[p + 1 as int])) && (p + 1
                >= self.list()@.len() ==> r is None),
            self.position() is None ==> r is None,
    {
        let n = self.ll.items.len();
        match self.pos {
            Some(p) => if p < n - 1 {
                Some(&self.ll.items[p + 1])
            } else {
                None
            },
            None => None,
        }
    }

    /// The item one position toward the front.
    pub fn peek_prev(&self) -> (r: Option<&T>)
        requires
            self.wf(),
        ensures
            self.position() matches Some(p) ==> (p > 0 ==> r == Some(&self.list()@[p - 1 as int])) && (p == 0 ==> r is None),
            self.position() is None ==> r is None,
    {
        match self.pos {
            Some(p) => if p > 0 {
                Some(&self.ll.items[p - 1])
            } else {
                None
            },
            None => None,
        }
    }

    /// Remove and return the current item. The cursor moves to the next item, or to the
    /// previous one when the last item was taken.
    pub fn take(&mut self) -> (r: Option<T>)
        requires
            old(self).wf(),
        ensures
            final(self).wf(),
            old(self).position() is None ==> r is None && final(self).list() == old(self).list() && final(self).position() is None,
            old(self).position() matches Some(p) ==> r == Some(old(self).list()@[p as int]) && final(self).list()@ == old(self).list()@.remove(p as int),
            old(self).position() matches Some(p) ==> final(self).position() == (if p + 1 < old(self).list()@.len() {
                Some(p)
            } else if p > 0 {
                Some((p - 1) as nat)
            } else {
                None
            }),
    {
        match self.pos {
            Some(p) => {
                let item = self.ll.items.remove(p);
                let n = self.ll.items.len();
                self.pos = if p < n {
                    Some(p)
                } else if p > 0 {
                    Some(p - 1)
                } else {
                    None
                };
                Some(item)
            },
            None => None,
        }
    }

    /// Insert an item after the current one; on an empty list it becomes the only item
    /// and the cursor rests on it.
    pub fn insert_after(&mut self, element: T)
        requires
            old(self).wf(),
            old(self).list()@.len() < usize::MAX,
        ensures
            final(self).wf(),
            old(self).position() matches Some(p) ==> final(self).list()@ == old(self).list()@.insert(p + 1 as int, element)
                && final(self).position() == old(self).position(),
            old(self).position() is None ==> final(self).list()@ == seq![element] + old(self).list()@ && final(self).position() == Some(0nat),
    {
        match self.pos {
            Some(p) => {
                self.ll.items.insert(p + 1, element);
            },
            None => {
                self.ll.items.insert(0, element);
                self.pos = Some(0);
                proof {
                    assert(self.ll.items@ =~= seq![element] + old(self).list()@);
                }
            },
        }
    }

    /// Insert an item before the current one; on an empty list it becomes the only item
    /// and the cursor rests on it.
    pub fn insert_before(&mut self, element: T)
        requires
            old(self).wf(),
            old(self).list()@.len() < usize::MAX,
        ensures
            final(self).wf(),
            old(self).position() matches Some(p) ==> final(self).list()@ == old(self).list()@.insert(p as int, element)
                && final(self).position() == Some(p + 1),
            old(self).position() is None ==> final(self).list()@ == old(self).list()@.push(element) && final(self).position()
                == Some(old(self).list()@.len()),
    {
        match self.pos {
            Some(p) => {
                self.ll.items.insert(p, element);
                self.pos = Some(p + 1);
            },
            None => {
                self.ll.items.push(element);
                self.pos = Some(self.ll.items.len() - 1);
            },
        }
    }
}

/// An iterator over the items of a [`LinkedList`], front to back.
pub struct Iter<'a, T> {
    ll: &'a LinkedList<T>,
    pos: usize,
}

impl<'a, T> Iter<'a, T> {
    /// The items not yet returned.
    pub closed spec fn rest(&self) -> Seq<T> {
        self.ll@.subrange(self.pos as int, self.ll@.len() as int)
    }

    #[verifier::type_invariant]
    spec fn inv(&self) -> bool {
        self.pos <= self.ll@.len()
    }

    /// The next item, if any.
    pub fn next(&mut self) -> (r: Option<&'a T>)
        ensures
            old(self).rest().len() == 0 ==> r is None && final(self).rest() == old(self).rest(),
            old(self).rest().len() > 0 ==> r == Some(&old(self).rest()[0]) && final(self).rest() == old(self).rest().drop_first(),
    {
        proof {
            use_type_invariant(&*self);
        }
        if self.pos < self.ll.items.len() {
            let item = &self.ll.items[self.pos];
            self.pos = self.pos + 1;
            proof {
                assert(self.rest() =~= old(self).rest().drop_first());
            }
            Some(item)
        } else {
            None
        }
    }
}

} // verus!
