//! Owned and borrowed references to runtime objects, conversion of host
//! values into runtime objects, and the status-code adapter.
use vstd::prelude::*;
use crate::runtime::{ObjectView, PyErr, Python, dec, inc};

verus! {

/// The result of a call into the runtime.
pub type PyResult<T> = Result<T, PyErr>;

/// An owned reference: it stands for one ownership unit on the object it
/// names, which `release` gives back.
pub struct PyObject {
    ptr: usize,
}

impl PyObject {
    /// The raw handle of the object.
    pub closed spec fn ptr(&self) -> usize {
        self.ptr
    }

    /// Wraps a handle on which the caller holds an ownership unit.
    pub(crate) fn from_owned_ptr(ptr: usize) -> (r: PyObject)
        ensures
            r.ptr() == ptr,
    {
        PyObject { ptr }
    }

    /// The raw handle of the object.
    pub fn as_ptr(&self) -> (r: usize)
        ensures
            r == self.ptr(),
    {
        self.ptr
    }

    /// Takes one more ownership unit on the same object.
    pub fn clone_ref(&self, py: &mut Python) -> (r: PyObject)
        requires
            old(py)@.valid(self.ptr()),
        ensures
            r.ptr() == self.ptr(),
            final(py)@.recounted(old(py)@, self.ptr(), inc(old(py)@.refcnt(self.ptr()))),
    {
        py.incref(self.ptr);
        PyObject { ptr: self.ptr }
    }

    /// Gives the ownership unit back; the object is released at the last one.
    pub fn release(self, py: &mut Python)
        requires
            old(py)@.objects_wf(),
            old(py)@.valid(self.ptr()),
        ensures
            final(py)@.same_objects(old(py)@),
            final(py)@.pending == old(py)@.pending,
            final(py)@.objects_wf(),
            final(py)@.refcnt(self.ptr()) == dec(old(py)@.refcnt(self.ptr())),
            old(py)@.is_set(self.ptr()) ==> final(py)@.dropped_set(old(py)@, self.ptr()),
            !old(py)@.is_set(self.ptr()) && !old(py)@.is_set_iter(self.ptr())
                ==> final(py)@.recounted(old(py)@, self.ptr(), dec(old(py)@.refcnt(self.ptr()))),
            old(py)@.is_set_iter(self.ptr()) && old(py)@.refcnt(self.ptr()) != 1
                ==> final(py)@.recounted(old(py)@, self.ptr(), dec(old(py)@.refcnt(self.ptr()))),
            old(py)@.is_set_iter(self.ptr()) && old(py)@.refcnt(self.ptr()) == 1 ==> ({
                let s = old(py)@.slots[self.ptr() as int].obj->SetIter_0;
                final(py)@.refcnt(s) == dec(old(py)@.refcnt(s))
            }),
    {
        py.decref(self.ptr);
    }

    /// The value of the object when it is an integer; a `TypeError` otherwise.
    pub fn extract_i64(&self, py: &Python) -> (r: PyResult<i64>)
        requires
            py@.valid(self.ptr()),
        ensures
            py@.is_int(self.ptr()) ==> r == Ok::<i64, PyErr>(py@.int_of(self.ptr())),
            !py@.is_int(self.ptr()) ==> r == Err::<i64, PyErr>(PyErr { kind: crate::runtime::ExceptionKind::TypeError }),
    {
        match py.as_int(self.ptr) {
            Some(v) => Ok(v),
            None => Err(PyErr { kind: crate::runtime::ExceptionKind::TypeError }),
        }
    }
}

/// A borrowed reference: it names an object without holding an ownership
/// unit on it, so it must be promoted before it outlives the call that gave it.
pub struct Borrowed {
    ptr: usize,
}

impl Borrowed {
    pub closed spec fn ptr(&self) -> usize {
        self.ptr
    }

    pub(crate) fn from_borrowed_ptr(ptr: usize) -> (r: Borrowed)
        ensures
            r.ptr() == ptr,
    {
        Borrowed { ptr }
    }

    /// Promotes the reference to an owned one by taking an ownership unit.
    pub fn to_owned(self, py: &mut Python) -> (r: PyObject)
        requires
            old(py)@.valid(self.ptr()),
        ensures
            r.ptr() == self.ptr(),
            final(py)@.recounted(old(py)@, self.ptr(), inc(old(py)@.refcnt(self.ptr()))),
    {
        py.incref(self.ptr);
        PyObject::from_owned_ptr(self.ptr)
    }
}

/// Maps a runtime status code to a result: a negative code means failure,
/// and the pending failure is fetched (which clears its slot).
pub fn error_on_minusone(py: &mut Python, code: i32) -> (r: PyResult<()>)
    ensures
        final(py)@.slots == old(py)@.slots,
        code >= 0 ==> r is Ok && final(py)@ == old(py)@,
        code < 0 ==> final(py)@.pending is None && r == Err::<(), PyErr>(match old(py)@.pending {
            Some(p) => p,
            None => PyErr { kind: crate::runtime::ExceptionKind::SystemError },
        }),
{
    if code < 0 {
        Err(py.err_fetch())
    } else {
        Ok(())
    }
}

/// Whether a host value converts into a hashable object.
pub open spec fn is_hashable(v: ObjectView) -> bool {
    v is Int
}

/// A host value that converts into a new runtime object.
pub trait ToPyObject {
    /// The runtime value that this host value converts into.
    spec fn object_view(&self) -> ObjectView;

    /// Allocates the runtime object for this value; the caller owns it.
    fn to_object(&self, py: &mut Python) -> (r: PyObject)
        requires
            old(py)@.objects_wf(),
        ensures
            final(py)@.allocated(old(py)@, r.ptr(), self.object_view()),
            final(py)@.objects_wf(),
            !(self.object_view() is FrozenSet) && !(self.object_view() is SetIter),
    ;
}

impl ToPyObject for i64 {
    open spec fn object_view(&self) -> ObjectView {
        ObjectView::Int(*self)
    }

    fn to_object(&self, py: &mut Python) -> (r: PyObject) {
        PyObject::from_owned_ptr(py.new_int(*self))
    }
}

impl ToPyObject for i32 {
    open spec fn object_view(&self) -> ObjectView {
        ObjectView::Int(*self as i64)
    }

    fn to_object(&self, py: &mut Python) -> (r: PyObject) {
        PyObject::from_owned_ptr(py.new_int(*self as i64))
    }
}

impl ToPyObject for Vec<i64> {
    open spec fn object_view(&self) -> ObjectView {
        ObjectView::List(self@)
    }

    fn to_object(&self, py: &mut Python) -> (r: PyObject) {
        PyObject::from_owned_ptr(py.new_list(self.clone()))
    }
}

impl ToPyObject for Vec<i32> {
    open spec fn object_view(&self) -> ObjectView {
        ObjectView::List(self@.map_values(|x: i32| x as i64))
    }

    fn to_object(&self, py: &mut Python) -> (r: PyObject) {
        let mut items: Vec<i64> = Vec::new();
        let mut j: usize = 0;
        while j < self.len()
            invariant
                j <= self.len(),
                items@ =~= self@.subrange(0, j as int).map_values(|x: i32| x as i64),
            decreases self.len() - j,
        {
            items.push(self[j] as i64);
            j = j + 1;
            assert(items@ =~= self@.subrange(0, j as int).map_values(|x: i32| x as i64));
        }
        assert(self@.subrange(0, self.len() as int) =~= self@);
        PyObject::from_owned_ptr(py.new_list(items))
    }
}

} // verus!
