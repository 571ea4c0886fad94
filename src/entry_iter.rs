//! Iteration over a frozen set by walking its entry table directly: no
//! allocation, and an exact count of what is left.
use vstd::prelude::*;
use crate::frozenset::PyFrozenSet;
use crate::ownership::{Borrowed, PyObject};
use crate::runtime::{Heap, Python, dec, inc, lemma_keys_same_objects, lemma_recounted_same_objects};

verus! {

/// An iterator over a frozen set that owns a reference to the set and a
/// cursor into its entry table.
pub struct BoundFrozenSetIterator {
    set: PyFrozenSet,
    pos: usize,
}

impl BoundFrozenSetIterator {
    /// The set walked.
    pub closed spec fn set(&self) -> PyFrozenSet {
        self.set
    }

    /// The cursor: the number of entries already handed out.
    pub closed spec fn pos(&self) -> usize {
        self.pos
    }

    pub open spec fn valid_in(&self, py: Heap) -> bool {
        &&& self.set().valid_in(py)
        &&& self.pos() <= self.set().keys(py).len()
    }

    /// The number of keys still to come.
    pub open spec fn remaining(&self, py: Heap) -> nat {
        (self.set().keys(py).len() - self.pos()) as nat
    }

    /// Starts at the first entry of `set`, taking over its reference.
    pub fn new(set: PyFrozenSet) -> (r: BoundFrozenSetIterator)
        ensures
            r.set() == set,
            r.pos() == 0,
    {
        BoundFrozenSetIterator { set, pos: 0 }
    }

    /// The next key as a new owned reference, or `None` once every key was
    /// handed out, and at every call after that.
    pub fn next(&mut self, py: &mut Python) -> (r: Option<PyObject>)
        requires
            old(py)@.wf(),
            old(self).valid_in(old(py)@),
        ensures
            final(py)@.wf(),
            final(self).set() == old(self).set(),
            final(self).valid_in(final(py)@),
            final(self).set().keys(final(py)@) == old(self).set().keys(old(py)@),
            old(self).remaining(old(py)@) == 0 ==> r is None && *final(self) == *old(self) && final(py)@ == old(py)@,
            old(self).remaining(old(py)@) > 0 ==> {
                let e = old(py)@.entries(old(self).set().ptr())[old(self).pos() as int];
                &&& final(self).pos() == old(self).pos() + 1
                &&& final(self).remaining(final(py)@) == old(self).remaining(old(py)@) - 1
                &&& r matches Some(o) && o.ptr() == e
                &&& final(py)@.is_int(e)
                &&& final(py)@.int_of(e) == old(self).set().keys(old(py)@)[old(self).pos() as int]
                &&& final(py)@.recounted(old(py)@, e, inc(old(py)@.refcnt(e)))
            },
    {
        let ghost h0 = py@;
        let s = self.set.as_ptr();
        match py.set_next_entry(s, &mut self.pos) {
            Some(e) => {
                proof { assert(h0.is_int(h0.entries(s)[self.pos - 1])); }
                let o = Borrowed::from_borrowed_ptr(e).to_owned(py);
                proof {
                    lemma_recounted_same_objects(h0, py@, e, inc(h0.refcnt(e)));
                    crate::runtime::lemma_objects_wf_same_objects(h0, py@);
                    lemma_keys_same_objects(h0, py@, s);
                }
                Some(o)
            },
            None => None,
        }
    }

    /// The exact number of keys still to come.
    pub fn len(&self, py: &Python) -> (n: usize)
        requires
            self.valid_in(py@),
        ensures
            n == self.remaining(py@),
    {
        self.set.len(py).saturating_sub(self.pos)
    }

    /// Lower and upper bound of the keys still to come: both exact.
    pub fn size_hint(&self, py: &Python) -> (r: (usize, Option<usize>))
        requires
            self.valid_in(py@),
        ensures
            r.0 == self.remaining(py@),
            r.1 == Some(r.0),
    {
        let n = self.len(py);
        (n, Some(n))
    }

    /// Gives back the iterator's reference to its set.
    pub fn release(self, py: &mut Python)
        requires
            old(py)@.objects_wf(),
            self.valid_in(old(py)@),
        ensures
            final(py)@.same_objects(old(py)@),
            final(py)@.pending == old(py)@.pending,
            final(py)@.objects_wf(),
            final(py)@.dropped_set(old(py)@, self.set().ptr()),
    {
        self.set.release(py);
    }
}

/// A fresh iterator has exactly as many keys to come as its set holds. Each
/// `next` that returns a key lowers that count by one, and at zero `next`
/// returns `None` and changes nothing, so iteration yields exactly `len` keys.
pub proof fn law_fresh_iterator_yields_len(it: BoundFrozenSetIterator, py: Heap)
    requires
        it.valid_in(py),
        it.pos() == 0,
    ensures
        it.remaining(py) == it.set().keys(py).len(),
        it.remaining(py) == 0 <==> it.pos() == it.set().keys(py).len(),
{
}

/// An iterator over a frozen set that hands out owned references.
pub struct PyFrozenSetIterator(BoundFrozenSetIterator);

impl PyFrozenSetIterator {
    /// The walk underneath.
    pub closed spec fn inner(&self) -> BoundFrozenSetIterator {
        self.0
    }

    pub fn new(it: BoundFrozenSetIterator) -> (r: PyFrozenSetIterator)
        ensures
            r.inner() == it,
    {
        PyFrozenSetIterator(it)
    }

    /// The next key, as [`BoundFrozenSetIterator::next`] gives it.
    pub fn next(&mut self, py: &mut Python) -> (r: Option<PyObject>)
        requires
            old(py)@.wf(),
            old(self).inner().valid_in(old(py)@),
        ensures
            final(py)@.wf(),
            final(self).inner().set() == old(self).inner().set(),
            final(self).inner().valid_in(final(py)@),
            final(self).inner().set().keys(final(py)@) == old(self).inner().set().keys(old(py)@),
            old(self).inner().remaining(old(py)@) == 0 ==> r is None && *final(self) == *old(self) && final(py)@ == old(py)@,
            old(self).inner().remaining(old(py)@) > 0 ==> {
                let e = old(py)@.entries(old(self).inner().set().ptr())[old(self).inner().pos() as int];
                &&& final(self).inner().pos() == old(self).inner().pos() + 1
                &&& final(self).inner().remaining(final(py)@) == old(self).inner().remaining(old(py)@) - 1
                &&& r matches Some(o) && o.ptr() == e
                &&& final(py)@.is_int(e)
                &&& final(py)@.int_of(e) == old(self).inner().set().keys(old(py)@)[old(self).inner().pos() as int]
                &&& final(py)@.recounted(old(py)@, e, inc(old(py)@.refcnt(e)))
            },
    {
        self.0.next(py)
    }

    /// Lower and upper bound of the keys still to come: both exact.
    pub fn size_hint(&self, py: &Python) -> (r: (usize, Option<usize>))
        requires
            self.inner().valid_in(py@),
        ensures
            r.0 == self.inner().remaining(py@),
            r.1 == Some(r.0),
    {
        self.0.size_hint(py)
    }

    /// The exact number of keys still to come.
    pub fn len(&self, py: &Python) -> (n: usize)
        requires
            self.inner().valid_in(py@),
        ensures
            n == self.inner().remaining(py@),
    {
        self.0.len(py)
    }

    /// Gives back the iterator's reference to its set.
    pub fn release(self, py: &mut Python)
        requires
            old(py)@.objects_wf(),
            self.inner().valid_in(old(py)@),
        ensures
            final(py)@.same_objects(old(py)@),
            final(py)@.pending == old(py)@.pending,
            final(py)@.objects_wf(),
            final(py)@.dropped_set(old(py)@, self.inner().set().ptr()),
    {
        self.0.release(py);
    }
}

} // verus!
