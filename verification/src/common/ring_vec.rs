use vstd::prelude::*;

verus! {

/// Position in `cache` of the element at logical index `i`, for a ring whose head is at
/// `start` (with `start <= len`).
pub open spec fn ring_slot(start: int, len: int, i: int) -> int {
    if start + i < len {
        start + i
    } else {
        start + i - len
    }
}

proof fn lemma_mod_wrap(x: int, len: int)
    requires
        0 < len,
        0 <= x <= 2 * len,
    ensures
        x % len == (if x < len { x } else if x < 2 * len { x - len } else { 0 }),
{
    if x < len {
        assert(x % len == x) by (nonlinear_arith)
            requires
                0 <= x < len,
        ;
    } else if x == 2 * len {
        assert(x % len == 0) by (nonlinear_arith)
            requires
                x == 2 * len,
                len > 0,
        ;
    } else {
        assert(x % len == x - len) by (nonlinear_arith)
            requires
                len <= x < 2 * len,
        ;
    }
}

/// A bounded buffer that keeps the most recent `capacity` elements: pushing onto a full
/// ring drops its oldest element (or, at the front, its newest one).
pub struct RingVec<T> {
    cache: Vec<T>,
    start: usize,
    size: usize,
}

impl<T> RingVec<T> {
    /// The ring's elements in logical order, oldest first.
    pub closed spec fn view(&self) -> Seq<T> {
        Seq::new(
            self.cache@.len(),
            |i: int| self.cache@[ring_slot(self.start as int, self.cache@.len() as int, i)],
        )
    }

    /// The greatest number of elements the ring holds.
    pub closed spec fn capacity(&self) -> nat {
        self.size as nat
    }

    /// The slot where the logical sequence starts.
    pub closed spec fn head(&self) -> nat {
        self.start as nat
    }

    /// Internal consistency: the head lies within the stored elements (or just past them
    /// while the ring is not full), and no more than `capacity` elements are stored.
    pub closed spec fn wf(&self) -> bool {
        &&& self.start <= self.cache@.len() <= self.size
        &&& self.size <= usize::MAX / 2
        &&& (self.cache@.len() == self.size && self.size > 0) ==> self.start < self.cache@.len()
    }

    /// A ring never holds more elements than its capacity.
    pub proof fn lemma_len_within_capacity(&self)
        requires
            self.wf(),
        ensures
            self.view().len() <= self.capacity(),
    {
    }

    pub fn with_capacity(size: usize) -> (r: Self)
        requires
            size <= usize::MAX / 2,
        ensures
            r.wf(),
            r.view() == Seq::<T>::empty(),
            r.capacity() == size,
            r.head() == 0,
    {
        RingVec { cache: Vec::with_capacity(size), start: 0, size: size }
    }

    pub fn is_empty(&self) -> (r: bool)
        ensures
            r == (self.view().len() == 0),
    {
        self.cache.len() == 0
    }

    pub fn len(&self) -> (r: usize)
        ensures
            r == self.view().len(),
    {
        self.cache.len()
    }

    fn slot(&self, index: usize) -> (r: usize)
        requires
            self.wf(),
            index < self.cache@.len(),
        ensures
            r == ring_slot(self.start as int, self.cache@.len() as int, index as int),
            r < self.cache@.len(),
    {
        proof {
            lemma_mod_wrap(self.start + index, self.cache@.len() as int);
        }
        (self.start + index) % self.cache.len()
    }

    /// Removes the element at logical `index` and hands it back; `None` (and no change)
    /// when there is no such element.
    pub fn remove(&mut self, index: usize) -> (r: Option<T>)
        requires
            old(self).wf(),
        ensures
            final(self).wf(),
            final(self).capacity() == old(self).capacity(),
            index >= old(self).view().len() ==> r is None && final(self).view() == old(self).view()
                && final(self).head() == old(self).head(),
            index < old(self).view().len() ==> r == Some(old(self).view()[index as int])
                && final(self).view() == old(self).view().remove(index as int),
    {
        if index >= self.cache.len() {
            return None;
        }
        let ghost old_view = self.view();
        let ghost s = self.start as int;
        let ghost n = self.cache@.len() as int;
        let ghost oc = self.cache@;
        let idx = self.slot(index);
        let item = self.cache.remove(idx);
        if self.start > idx {
            self.start = self.start - 1;
        }
        proof {
            let nv = self.view();
            assert(nv.len() == n - 1);
            assert forall|i: int| 0 <= i < n - 1 implies nv[i] == old_view.remove(index as int)[i] by {
                let k = if i < index { i } else { i + 1 };
                let ok = ring_slot(s, n, k);
                assert(old_view[k] == oc[ok]);
                let ns = self.start as int;
                let nk = ring_slot(ns, n - 1, i);
                assert(nv[i] == self.cache@[nk]);
                if nk < idx {
                    assert(self.cache@[nk] == oc[nk]);
                } else {
                    assert(self.cache@[nk] == oc[nk + 1]);
                }
            }
            assert(nv =~= old_view.remove(index as int));
        }
        Some(item)
    }

    /// Removes the newest element (the last in logical order).
    pub fn remove_last(&mut self) -> (r: Option<T>)
        requires
            old(self).wf(),
            old(self).view().len() > 0,
        ensures
            final(self).wf(),
            final(self).capacity() == old(self).capacity(),
            r == Some(old(self).view().last()),
            final(self).view() == old(self).view().drop_last(),
    {
        let n = self.cache.len();
        let r = self.remove(n - 1);
        proof {
            assert(self.view() =~= old(self).view().drop_last());
        }
        r
    }

    /// Puts `item` in front of the oldest element. On a full ring the newest element is
    /// dropped and handed back.
    pub fn push_front(&mut self, item: T) -> (r: Option<T>)
        requires
            old(self).wf(),
            old(self).capacity() > 0,
        ensures
            final(self).wf(),
            final(self).capacity() == old(self).capacity(),
            old(self).view().len() < old(self).capacity() ==> r is None && final(self).view()
                == seq![item] + old(self).view(),
            old(self).view().len() == old(self).capacity() ==> r == Some(old(self).view().last())
                && final(self).view() == seq![item] + old(self).view().drop_last(),
    {
        let ghost old_view = self.view();
        let ghost s = self.start as int;
        let ghost n = self.cache@.len() as int;
        let ghost oc = self.cache@;
        if self.cache.len() < self.size {
            self.cache.insert(self.start, item);
            proof {
                let nv = self.view();
                assert forall|i: int| 0 <= i < n + 1 implies nv[i] == (seq![item] + old_view)[i] by {
                    let nk = ring_slot(s, n + 1, i);
                    if i > 0 {
                        let ok = ring_slot(s, n, i - 1);
                        if ok < s {
                            assert(nk == ok);
                        } else {
                            assert(nk == ok + 1);
                        }
                    }
                }
                assert(nv =~= seq![item] + old_view);
            }
            None
        } else {
            if self.start == 0 {
                self.start = self.size - 1;
            } else {
                proof {
                    lemma_mod_wrap(s - 1, self.size as int);
                }
                self.start = (self.start - 1) % self.size;
            }
            let st = self.start;
            let mut old_item = item;
            std::mem::swap(&mut self.cache[st], &mut old_item);
            proof {
                let nv = self.view();
                assert(old_item == old_view[n - 1]);
                assert forall|i: int| 0 <= i < n implies nv[i] == (seq![item] + old_view.drop_last())[i] by {
                    if i > 0 {
                        let ok = ring_slot(s, n, i - 1);
                        assert(ring_slot(st as int, n, i) == ok);
                    }
                }
                assert(nv =~= seq![item] + old_view.drop_last());
            }
            Some(old_item)
        }
    }

    /// Appends `item` as the newest element. On a full ring the oldest element is dropped
    /// and handed back. After a removal has left the head just past the stored elements,
    /// appending to a ring that is not full places `item` first instead.
    pub fn push(&mut self, item: T) -> (r: Option<T>)
        requires
            old(self).wf(),
            old(self).capacity() > 0,
        ensures
            final(self).wf(),
            final(self).capacity() == old(self).capacity(),
            old(self).view().len() < old(self).capacity() ==> r is None,
            old(self).view().len() < old(self).capacity() && !(old(self).head()
                == old(self).view().len() > 0) ==> final(self).view() == old(self).view().push(item),
            old(self).view().len() < old(self).capacity() && old(self).head()
                == old(self).view().len() > 0 ==> final(self).view() == seq![item] + old(self).view(),
            old(self).view().len() == old(self).capacity() ==> r == Some(old(self).view()[0])
                && final(self).view() == old(self).view().drop_first().push(item),
    {
        let ghost old_view = self.view();
        let ghost s = self.start as int;
        let ghost n = self.cache@.len() as int;
        let ghost oc = self.cache@;
        if self.cache.len() < self.size {
            if self.start == 0 {
                self.cache.push(item);
                proof {
                    assert(self.view() =~= old_view.push(item));
                }
            } else {
                proof {
                    lemma_mod_wrap(s + n, n);
                }
                let end = (self.start + self.cache.len()) % self.cache.len();
                self.cache.insert(end, item);
                proof {
                    lemma_mod_wrap(s + 1, n + 1);
                }
                self.start = (self.start + 1) % self.cache.len();
                proof {
                    let nv = self.view();
                    if s < n {
                        assert(end == s);
                        assert forall|i: int| 0 <= i < n + 1 implies nv[i] == old_view.push(item)[i] by {
                            if i < n {
                                let ok = ring_slot(s, n, i);
                                let nk = ring_slot(s + 1, n + 1, i);
                                if ok < s {
                                    assert(nk == ok);
                                } else {
                                    assert(nk == ok + 1);
                                }
                            }
                        }
                        assert(nv =~= old_view.push(item));
                    } else {
                        assert(end == 0);
                        assert(self.start == 0);
                        assert forall|i: int| 0 <= i < n + 1 implies nv[i] == (seq![item] + old_view)[i] by {
                            if i > 0 {
                                assert(ring_slot(s, n, i - 1) == i - 1);
                            }
                        }
                        assert(nv =~= seq![item] + old_view);
                    }
                }
            }
            None
        } else {
            let st = self.start;
            let mut old_item = item;
            std::mem::swap(&mut self.cache[st], &mut old_item);
            proof {
                lemma_mod_wrap(s + 1, n);
            }
            self.start = (self.start + 1) % self.size;
            proof {
                let nv = self.view();
                assert(old_item == old_view[0]);
                assert forall|i: int| 0 <= i < n implies nv[i] == old_view.drop_first().push(item)[i] by {
                    if i < n - 1 {
                        assert(ring_slot(self.start as int, n, i) == ring_slot(s, n, i + 1));
                    }
                }
                assert(nv =~= old_view.drop_first().push(item));
            }
            Some(old_item)
        }
    }

    /// The element at logical `index`, if there is one.
    pub fn get(&self, index: usize) -> (r: Option<&T>)
        requires
            self.wf(),
        ensures
            index < self.view().len() ==> r == Some(&self.view()[index as int]),
            index >= self.view().len() ==> r is None,
    {
        if index >= self.cache.len() {
            return None;
        }
        let idx = self.slot(index);
        Some(&self.cache[idx])
    }

    /// The newest element, if there is one.
    pub fn last(&self) -> (r: Option<&T>)
        requires
            self.wf(),
        ensures
            self.view().len() > 0 ==> r == Some(&self.view().last()),
            self.view().len() == 0 ==> r is None,
    {
        if self.cache.len() == 0 {
            return None;
        }
        let idx = self.slot(self.cache.len() - 1);
        Some(&self.cache[idx])
    }

    pub fn clear(&mut self)
        requires
            old(self).wf(),
        ensures
            final(self).wf(),
            final(self).capacity() == old(self).capacity(),
            final(self).view() == Seq::<T>::empty(),
            final(self).head() == 0,
    {
        self.cache.clear();
        self.start = 0;
        proof {
            assert(self.view() =~= Seq::<T>::empty());
        }
    }

    /// References to the elements in logical order, oldest first.
    pub fn iter(&self) -> (r: Vec<&T>)
        requires
            self.wf(),
        ensures
            r@.len() == self.view().len(),
            forall|i: int| 0 <= i < r@.len() ==> *r@[i] == self.view()[i],
    {
        let mut out: Vec<&T> = Vec::with_capacity(self.cache.len());
        let mut index: usize = 0;
        while index < self.cache.len()
            invariant
                self.wf(),
                index <= self.cache@.len(),
                out@.len() == index,
                forall|i: int| 0 <= i < index ==> *out@[i] == self.view()[i],
            decreases self.cache@.len() - index,
        {
            let idx = self.slot(index);
            out.push(&self.cache[idx]);
            index = index + 1;
        }
        out
    }

    /// Replaces the element at logical `index` with `item` and hands back the one it
    /// held; `None` (and no change) when there is no such element.
    pub fn replace(&mut self, index: usize, item: T) -> (r: Option<T>)
        requires
            old(self).wf(),
        ensures
            final(self).wf(),
            final(self).capacity() == old(self).capacity(),
            final(self).head() == old(self).head(),
            index >= old(self).view().len() ==> r is None && final(self).view() == old(self).view(),
            index < old(self).view().len() ==> r == Some(old(self).view()[index as int])
                && final(self).view() == old(self).view().update(index as int, item),
    {
        if index >= self.cache.len() {
            return None;
        }
        let ghost old_view = self.view();
        let idx = self.slot(index);
        let mut old_item = item;
        std::mem::swap(&mut self.cache[idx], &mut old_item);
        proof {
            let nv = self.view();
            assert forall|i: int| 0 <= i < old_view.len() implies nv[i] == old_view.update(
                index as int,
                item,
            )[i] by {
                if i != index {
                    let a = ring_slot(self.start as int, self.cache@.len() as int, i);
                    assert(a != idx);
                }
            }
            assert(nv =~= old_view.update(index as int, item));
        }
        Some(old_item)
    }
}

} // verus!
