//! Iteration over a frozen set through the runtime's generic iteration
//! protocol: it needs no view of the entry table, and so gives no size hint.
use vstd::prelude::*;
use crate::frozenset::PyFrozenSet;
use crate::ownership::PyObject;
use crate::runtime::{
    Heap, IMMORTAL, ObjectView, Python, SlotView, dec, inc, lemma_keys_same_objects, lemma_keys_unchanged,
    lemma_objects_wf_same_objects,
};

verus! {

/// An iterator over a frozen set that owns a generic iterator object.
pub struct BoundFrozenSetIterator {
    it: PyObject,
}

impl BoundFrozenSetIterator {
    /// The generic iterator object.
    pub closed spec fn it(&self) -> PyObject {
        self.it
    }

    pub open spec fn valid_in(&self, py: Heap) -> bool {
        py.is_set_iter(self.it().ptr())
    }

    /// The handle of the set walked.
    pub open spec fn set_in(&self, py: Heap) -> usize {
        py.slots[self.it().ptr() as int].obj->SetIter_0
    }

    /// The number of entries already handed out.
    pub open spec fn position(&self, py: Heap) -> usize {
        py.slots[self.it().ptr() as int].obj->SetIter_1
    }

    /// Asks the set for a generic iterator, then gives back `set`'s reference:
    /// the iterator object holds its own.
    pub fn new(py: &mut Python, set: PyFrozenSet) -> (r: BoundFrozenSetIterator)
        requires
            old(py)@.wf(),
            set.valid_in(old(py)@),
        ensures
            final(py)@.wf(),
            r.valid_in(final(py)@),
            r.set_in(final(py)@) == set.ptr(),
            r.position(final(py)@) == 0,
            set.valid_in(final(py)@),
            set.keys(final(py)@) == set.keys(old(py)@),
            r.it().ptr() == old(py)@.slots.len(),
            final(py)@.slots.len() == old(py)@.slots.len() + 1,
            final(py)@.refcnt(r.it().ptr()) == 1,
            forall|i: int| 0 <= i < old(py)@.slots.len() ==> #[trigger] final(py)@.slots[i].obj == old(py)@.slots[i].obj,
            0 < old(py)@.refcnt(set.ptr()) < IMMORTAL - 1 ==> {
                &&& final(py)@.refcnt(set.ptr()) == old(py)@.refcnt(set.ptr())
                &&& forall|i: int| 0 <= i < old(py)@.slots.len() ==> #[trigger] final(py)@.slots[i] == old(py)@.slots[i]
            },
    {
        let ghost h0 = py@;
        let ghost sp = set.ptr();
        let it = py.object_get_iter(set.as_ptr());
        let ghost h1 = py@;
        proof {
            assert(h1.keeps_objects(h0));
            lemma_keys_same_objects(h0, h1, set.ptr());
            assert(h0.is_set(sp));
            crate::runtime::lemma_entries_distinct(h0, sp);
        }
        set.release(py);
        proof {
            let h2 = py@;
            lemma_keys_same_objects(h1, h2, sp);
            lemma_objects_wf_same_objects(h1, h2);
            assert(h1.refcnt(it) == 1);
            assert(it != sp);
            assert(!h1.entries(sp).contains(it)) by {
                if h1.entries(sp).contains(it) {
                    let q = choose|q: int| 0 <= q < h1.entries(sp).len() && h1.entries(sp)[q] == it;
                    assert(h1.is_int(h1.entries(sp)[q]));
                }
            }
            assert(h2.refcnt(it) == 1);
            if 0 < h0.refcnt(sp) < IMMORTAL - 1 {
                assert(h1.refcnt(sp) == h0.refcnt(sp) + 1);
                assert(h1.refcnt(sp) != 1);
                assert(h2.refcnt(sp) == h0.refcnt(sp));
                assert forall|i: int| 0 <= i < h0.slots.len() implies #[trigger] h2.slots[i] == h0.slots[i] by {
                    assert(h1.slots[i].obj == h0.slots[i].obj);
                    assert(h2.slots[i].obj == h1.slots[i].obj);
                    if i == sp as int {
                        assert(h2.slots[i].refcnt == h0.slots[i].refcnt);
                    } else {
                        assert(h0.valid(i as usize));
                        if h0.entries(sp).contains(i as usize) {
                            let q = choose|q: int| 0 <= q < h0.entries(sp).len() && h0.entries(sp)[q] == i as usize;
                            assert(h2.refcnt(h1.entries(sp)[q]) == h1.refcnt(h1.entries(sp)[q]));
                        } else {
                            assert(h2.refcnt(i as usize) == h1.refcnt(i as usize));
                        }
                        assert(h1.slots[i] == h0.slots[i]);
                        assert(h2.slots[i].refcnt == h1.slots[i].refcnt);
                    }
                }
            }
        }
        BoundFrozenSetIterator { it: PyObject::from_owned_ptr(it) }
    }

    /// The next key as a new owned reference, or `None` once every key was
    /// handed out, and at every call after that.
    pub fn next(&mut self, py: &mut Python) -> (r: Option<PyObject>)
        requires
            old(py)@.wf(),
            old(self).valid_in(old(py)@),
        ensures
            final(py)@.wf(),
            final(self).it() == old(self).it(),
            final(self).valid_in(final(py)@),
            final(self).set_in(final(py)@) == old(self).set_in(old(py)@),
            final(py)@.keys(old(self).set_in(old(py)@)) == old(py)@.keys(old(self).set_in(old(py)@)),
            ({
                let s = old(self).set_in(old(py)@);
                let p = old(self).position(old(py)@);
                &&& p >= old(py)@.keys(s).len() ==> r is None && final(py)@ == old(py)@
                &&& p < old(py)@.keys(s).len() ==> {
                    &&& final(self).position(final(py)@) == p + 1
                    &&& final(py)@.slots == old(py)@.slots
                        .update(old(self).it().ptr() as int, SlotView {
                            obj: ObjectView::SetIter(s, (p + 1) as usize),
                            refcnt: old(py)@.refcnt(old(self).it().ptr()),
                        })
                        .update(old(py)@.entries(s)[p as int] as int, SlotView {
                            obj: old(py)@.slots[old(py)@.entries(s)[p as int] as int].obj,
                            refcnt: inc(old(py)@.refcnt(old(py)@.entries(s)[p as int])),
                        })
                    &&& r matches Some(o) && o.ptr() == old(py)@.entries(s)[p as int]
                    &&& final(py)@.is_int(old(py)@.entries(s)[p as int])
                    &&& final(py)@.int_of(old(py)@.entries(s)[p as int]) == old(py)@.keys(s)[p as int]
                }
            }),
    {
        let ghost h0 = py@;
        let ghost s = self.set_in(h0);
        let r = py.iter_next(self.it.as_ptr());
        let ghost h1 = py@;
        let ghost p = self.position(h0) as int;
        proof {
            assert(h0.is_set(s));
            if p < h0.keys(s).len() {
                let e = h0.entries(s)[p];
                assert(h0.is_int(e));
                assert(e != self.it.ptr());
                assert(h1.slots[self.it.ptr() as int].obj == crate::runtime::ObjectView::SetIter(s, (p + 1) as usize));
            }
            assert forall|i: int| 0 <= i < h0.slots.len() && (h0.slots[i].obj is Int) implies #[trigger] h1.slots[i].obj == h0.slots[i].obj by {
                assert(i != self.it.ptr() as int);
            }
            lemma_keys_unchanged(h0, h1, s);
        }
        match r {
            Some(e) => {
                let o = PyObject::from_owned_ptr(e);
                proof {
                    assert(p < h0.keys(s).len());
                    assert(self.position(h1) == p + 1);
                }
                Some(o)
            },
            None => None,
        }
    }

    /// No bound is known on the keys still to come.
    pub fn size_hint(&self) -> (r: (usize, Option<usize>))
        ensures
            r == (0usize, None::<usize>),
    {
        (0, None)
    }

    /// Gives back the iterator object, which then gives back its set.
    pub fn release(self, py: &mut Python)
        requires
            old(py)@.objects_wf(),
            self.valid_in(old(py)@),
        ensures
            final(py)@.same_objects(old(py)@),
            final(py)@.pending == old(py)@.pending,
            final(py)@.objects_wf(),
            final(py)@.refcnt(self.it().ptr()) == dec(old(py)@.refcnt(self.it().ptr())),
            old(py)@.refcnt(self.it().ptr()) != 1 ==> final(py)@.recounted(old(py)@, self.it().ptr(), dec(old(py)@.refcnt(self.it().ptr()))),
            old(py)@.refcnt(self.it().ptr()) == 1 ==> final(py)@.refcnt(self.set_in(old(py)@)) == dec(old(py)@.refcnt(self.set_in(old(py)@))),
    {
        self.it.release(py);
    }
}

} // verus!
