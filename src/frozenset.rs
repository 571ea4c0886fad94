//! The immutable-set wrapper and its two-phase builder.
use vstd::prelude::*;
use crate::ownership::{PyObject, PyResult, ToPyObject, error_on_minusone, is_hashable};
use crate::entry_iter::{BoundFrozenSetIterator, PyFrozenSetIterator};
use crate::runtime::{
    ExceptionKind, Heap, ObjectView, PyErr, Python, dec, inc, lemma_keys_same_objects, lemma_objects_wf_same_objects,
    lemma_recounted_same_objects,
};

verus! {

/// The keys of `s` in order of first occurrence, each once.
pub open spec fn dedup(s: Seq<i64>) -> Seq<i64>
    decreases s.len(),
{
    if s.len() == 0 {
        Seq::empty()
    } else {
        insert_key(dedup(s.drop_last()), s.last())
    }
}

/// The keys of a set after `v` was added to keys `keys`.
pub open spec fn insert_key(keys: Seq<i64>, v: i64) -> Seq<i64> {
    if keys.contains(v) { keys } else { keys.push(v) }
}

/// The runtime values that a sequence of host values converts into.
pub open spec fn object_views<T: ToPyObject>(s: Seq<T>) -> Seq<ObjectView> {
    s.map_values(|e: T| e.object_view())
}

/// Every value converts into a hashable object.
pub open spec fn all_hashable(s: Seq<ObjectView>) -> bool {
    forall|i: int| 0 <= i < s.len() ==> is_hashable(#[trigger] s[i])
}

/// The integers that a sequence of hashable values stands for.
pub open spec fn int_values(s: Seq<ObjectView>) -> Seq<i64> {
    s.map_values(|v: ObjectView| v->Int_0)
}

/// `new` holds every object of `old` as it was, and maybe more after them.
pub open spec fn extends(new: Heap, old: Heap) -> bool {
    &&& new.slots.len() >= old.slots.len()
    &&& forall|i: int| 0 <= i < old.slots.len() ==> #[trigger] new.slots[i] == old.slots[i]
}

/// Every object allocated after the first `base` has been released.
pub open spec fn released_from(h: Heap, base: nat) -> bool {
    forall|i: usize| base <= i < h.slots.len() ==> #[trigger] h.refcnt(i) == 0
}

/// After `base` objects, `py` holds a new set and then the objects that
/// `vals` convert into, one each, in order, as far as conversion went.
pub open spec fn converted_in_order(py: Heap, base: nat, vals: Seq<ObjectView>) -> bool {
    &&& py.slots.len() >= base + 1
    &&& py.slots.len() - base - 1 <= vals.len()
    &&& forall|j: int| 0 <= j < py.slots.len() - base - 1 ==> py.slots[base + 1 + j].obj == #[trigger] vals[j]
}

/// `vals[k]` is the first value that does not convert into a hashable object.
pub open spec fn stopped_at(vals: Seq<ObjectView>, k: int) -> bool {
    &&& 0 <= k < vals.len()
    &&& !is_hashable(vals[k])
    &&& forall|j: int| 0 <= j < k ==> is_hashable(#[trigger] vals[j])
}

/// A frozen set object, held by an owned reference.
pub struct PyFrozenSet {
    obj: PyObject,
}

impl PyFrozenSet {
    /// The raw handle of the set object.
    pub closed spec fn ptr(&self) -> usize {
        self.obj.ptr()
    }

    /// The set's keys in `py`, in the order of its entry table.
    pub open spec fn keys(&self, py: Heap) -> Seq<i64> {
        py.keys(self.ptr())
    }

    /// The handle names a set object of `py`.
    pub open spec fn valid_in(&self, py: Heap) -> bool {
        py.is_set(self.ptr())
    }

    /// The raw handle of the set object.
    pub fn as_ptr(&self) -> (r: usize)
        ensures
            r == self.ptr(),
    {
        self.obj.as_ptr()
    }

    /// Creates a new empty frozen set.
    pub fn empty(py: &mut Python) -> (r: PyResult<PyFrozenSet>)
        requires
            old(py)@.wf(),
        ensures
            final(py)@.wf(),
            r matches Ok(s) && final(py)@.allocated(old(py)@, s.ptr(), ObjectView::FrozenSet(Seq::empty()))
                && s.keys(final(py)@).len() == 0 && s.valid_in(final(py)@),
    {
        let h = py.frozenset_new();
        let s = PyFrozenSet { obj: PyObject::from_owned_ptr(h) };
        assert(py@.keys(h) =~= Seq::<i64>::empty());
        Ok(s)
    }

    /// Creates a new frozen set holding each of `elements` once. When one of
    /// them is unhashable the call fails with a `TypeError` and every object
    /// it made is released.
    pub fn new<T: ToPyObject>(py: &mut Python, elements: &[T]) -> (r: PyResult<PyFrozenSet>)
        requires
            old(py)@.wf(),
        ensures
            final(py)@.wf(),
            extends(final(py)@, old(py)@),
            r is Ok <==> all_hashable(object_views(elements@)),
            r matches Ok(s) ==> {
                &&& s.valid_in(final(py)@)
                &&& s.ptr() >= old(py)@.slots.len()
                &&& final(py)@.refcnt(s.ptr()) == 1
                &&& s.keys(final(py)@) == dedup(int_values(object_views(elements@)))
            },
            r matches Err(e) ==> e.kind == ExceptionKind::TypeError && released_from(final(py)@, old(py)@.slots.len() as nat),
        converted_in_order(final(py)@, old(py)@.slots.len() as nat, object_views(elements@)),
        r is Ok ==> final(py)@.slots.len() == old(py)@.slots.len() + 1 + elements@.len(),
        r is Err ==> stopped_at(object_views(elements@), final(py)@.slots.len() - old(py)@.slots.len() - 2),
            converted_in_order(final(py)@, old(py)@.slots.len() as nat, object_views(elements@)),
            r is Ok ==> final(py)@.slots.len() == old(py)@.slots.len() + 1 + elements@.len(),
            r is Err ==> stopped_at(object_views(elements@), final(py)@.slots.len() - old(py)@.slots.len() - 2),
    {
        new_from_iter(py, elements)
    }

    /// The number of keys in the set.
    pub fn len(&self, py: &Python) -> (n: usize)
        requires
            self.valid_in(py@),
        ensures
            n == self.keys(py@).len(),
    {
        py.set_size(self.obj.as_ptr())
    }

    /// Whether the set has no keys.
    pub fn is_empty(&self, py: &Python) -> (r: bool)
        requires
            self.valid_in(py@),
        ensures
            r == (self.keys(py@).len() == 0),
    {
        self.len(py) == 0
    }

    /// Whether an object equal to `key` is in the set; a `TypeError` when
    /// `key` is unhashable. The converted key is released before returning.
    pub fn contains<K: ToPyObject>(&self, py: &mut Python, key: K) -> (r: PyResult<bool>)
        requires
            old(py)@.wf(),
            self.valid_in(old(py)@),
        ensures
            final(py)@.wf(),
            extends(final(py)@, old(py)@),
            released_from(final(py)@, old(py)@.slots.len() as nat),
            self.valid_in(final(py)@),
            self.keys(final(py)@) == self.keys(old(py)@),
            is_hashable(key.object_view()) ==> r == Ok::<bool, PyErr>(self.keys(old(py)@).contains(key.object_view()->Int_0)),
            !is_hashable(key.object_view()) ==> r == Err::<bool, PyErr>(PyErr { kind: ExceptionKind::TypeError }),
    {
        let ghost h0 = py@;
        let s = self.obj.as_ptr();
        let k = key.to_object(py);
        let ghost h1 = py@;
        proof { lemma_keys_same_objects(h0, h1, s); }
        let code = py.set_contains(s, k.as_ptr());
        let ghost h2 = py@;
        k.release(py);
        let ghost h3 = py@;
        proof {
            assert(h2.slots[k.ptr() as int].obj == h1.slots[k.ptr() as int].obj);
            lemma_recounted_same_objects(h2, h3, k.ptr(), dec(h2.refcnt(k.ptr())));
            lemma_keys_same_objects(h0, h3, s);
            assert forall|i: int| 0 <= i < h0.slots.len() implies #[trigger] h3.slots[i] == h0.slots[i] by {
                assert(h1.slots[i] == h0.slots[i]);
            }
        }
        if code == 1 {
            Ok(true)
        } else if code == 0 {
            Ok(false)
        } else {
            let e = py.err_fetch();
            proof { lemma_objects_wf_same_objects(h3, py@); }
            Err(e)
        }
    }

    /// A new iterator over the set, with its own reference to it.
    pub fn iter(&self, py: &mut Python) -> (r: PyFrozenSetIterator)
        requires
            old(py)@.wf(),
            self.valid_in(old(py)@),
        ensures
            final(py)@.wf(),
            final(py)@.recounted(old(py)@, self.ptr(), inc(old(py)@.refcnt(self.ptr()))),
            r.inner().set().ptr() == self.ptr(),
            r.inner().pos() == 0,
            r.inner().valid_in(final(py)@),
            r.inner().set().keys(final(py)@) == self.keys(old(py)@),
    {
        let ghost h0 = py@;
        let set = PyFrozenSet { obj: self.obj.clone_ref(py) };
        proof {
            lemma_recounted_same_objects(h0, py@, self.ptr(), inc(h0.refcnt(self.ptr())));
            lemma_objects_wf_same_objects(h0, py@);
            lemma_keys_same_objects(h0, py@, self.ptr());
        }
        PyFrozenSetIterator::new(BoundFrozenSetIterator::new(set))
    }

    /// An iterator over the set that takes over this reference.
    pub fn into_iter(self) -> (r: BoundFrozenSetIterator)
        ensures
            r.set() == self,
            r.pos() == 0,
    {
        BoundFrozenSetIterator::new(self)
    }

    /// The same reference, as a generic object.
    pub fn into_any(self) -> (r: PyObject)
        ensures
            r.ptr() == self.ptr(),
    {
        self.obj
    }

    /// The same reference as a frozen set when the object is one; handed
    /// back unchanged otherwise.
    pub fn downcast(obj: PyObject, py: &Python) -> (r: Result<PyFrozenSet, PyObject>)
        requires
            py@.valid(obj.ptr()),
        ensures
            py@.is_set(obj.ptr()) ==> (r matches Ok(s) && s.ptr() == obj.ptr()),
            !py@.is_set(obj.ptr()) ==> (r matches Err(o) && o == obj),
    {
        if py.is_frozenset(obj.as_ptr()) {
            Ok(PyFrozenSet { obj })
        } else {
            Err(obj)
        }
    }

    /// Gives back the set's ownership unit.
    pub fn release(self, py: &mut Python)
        requires
            old(py)@.objects_wf(),
            self.valid_in(old(py)@),
        ensures
            final(py)@.same_objects(old(py)@),
            final(py)@.pending == old(py)@.pending,
            final(py)@.objects_wf(),
            final(py)@.dropped_set(old(py)@, self.ptr()),
    {
        self.obj.release(py);
    }
}

/// A value is kept by `dedup` exactly when it occurs in the input: a set
/// built from values holds each of them, and nothing else.
pub proof fn law_dedup_membership(s: Seq<i64>, x: i64)
    ensures
        dedup(s).contains(x) <==> s.contains(x),
    decreases s.len(),
{
    if s.len() > 0 {
        let t = s.drop_last();
        law_dedup_membership(t, x);
        law_dedup_membership(t, s.last());
        if t.contains(x) {
            let i = choose|i: int| 0 <= i < t.len() && t[i] == x;
            assert(s[i] == x);
        }
        if s.contains(x) && x != s.last() {
            let i = choose|i: int| 0 <= i < s.len() && s[i] == x;
            assert(t[i] == x);
        }
        if x == s.last() {
            assert(s[s.len() - 1] == x);
            let d = dedup(t);
            if !d.contains(x) {
                assert(d.push(x)[d.len() as int] == x);
            }
        } else {
            let d = dedup(t);
            if !d.contains(s.last()) && d.push(s.last()).contains(x) {
                let i = choose|i: int| 0 <= i < d.len() + 1 && d.push(s.last())[i] == x;
                assert(d[i] == x);
            }
            if d.contains(x) && !d.contains(s.last()) {
                let i = choose|i: int| 0 <= i < d.len() && d[i] == x;
                assert(d.push(s.last())[i] == x);
            }
        }
    }
}

/// After a key is added, the set holds it and every key it held before,
/// and no other; keys stay distinct. So whatever other keys are added before
/// and after, every key that was added is in the set.
pub proof fn law_insert_key(keys: Seq<i64>, v: i64, x: i64)
    ensures
        insert_key(keys, v).contains(x) <==> (keys.contains(x) || x == v),
        keys.no_duplicates() ==> insert_key(keys, v).no_duplicates(),
{
    if !keys.contains(v) {
        let t = keys.push(v);
        assert(t[keys.len() as int] == v);
        if keys.contains(x) {
            let i = choose|i: int| 0 <= i < keys.len() && keys[i] == x;
            assert(t[i] == x);
        }
        if t.contains(x) && x != v {
            let i = choose|i: int| 0 <= i < t.len() && t[i] == x;
            assert(keys[i] == x);
        }
        if keys.no_duplicates() {
            assert forall|a: int, b: int| 0 <= a < b < t.len() implies t[a] != t[b] by {
                if b == keys.len() {
                    assert(keys.contains(keys[a]));
                }
            }
        }
    }
}

/// The order in which two keys are added does not matter: both orders give
/// sets with the same members and the same length.
pub proof fn law_insert_key_commutes(keys: Seq<i64>, a: i64, b: i64)
    requires
        keys.no_duplicates(),
    ensures
        insert_key(insert_key(keys, a), b).to_set() == insert_key(insert_key(keys, b), a).to_set(),
        insert_key(insert_key(keys, a), b).len() == insert_key(insert_key(keys, b), a).len(),
{
    let ab = insert_key(insert_key(keys, a), b);
    let ba = insert_key(insert_key(keys, b), a);
    law_insert_key(keys, a, a);
    law_insert_key(insert_key(keys, a), b, b);
    law_insert_key(keys, b, b);
    law_insert_key(insert_key(keys, b), a, a);
    assert forall|x: i64| ab.to_set().contains(x) <==> ba.to_set().contains(x) by {
        law_insert_key(keys, a, x);
        law_insert_key(insert_key(keys, a), b, x);
        law_insert_key(keys, b, x);
        law_insert_key(insert_key(keys, b), a, x);
    }
    assert(ab.to_set() =~= ba.to_set());
    ab.unique_seq_to_set();
    ba.unique_seq_to_set();
}

/// `dedup` keeps each value once: the size of a set built from values is the
/// number of distinct values among them.
pub proof fn law_dedup_distinct(s: Seq<i64>)
    ensures
        dedup(s).no_duplicates(),
        dedup(s).len() == s.to_set().len(),
    decreases s.len(),
{
    if s.len() > 0 {
        let t = s.drop_last();
        law_dedup_distinct(t);
        let d = dedup(t);
        if !d.contains(s.last()) {
            assert forall|a: int, b: int| 0 <= a < b < d.len() + 1 implies d.push(s.last())[a] != d.push(s.last())[b] by {
                if b == d.len() {
                    assert(d.contains(d[a]));
                }
            }
        }
    }
    let d = dedup(s);
    assert(d.to_set() =~= s.to_set()) by {
        assert forall|x: i64| d.to_set().contains(x) <==> s.to_set().contains(x) by {
            law_dedup_membership(s, x);
        }
    }
    d.unique_seq_to_set();
}

/// Turning a set into a generic object and back, as `into_any` and
/// `downcast` do, names the same object: the same keys, and so the same
/// length and membership.
pub proof fn law_round_trip(py: Heap, s: PyFrozenSet, o: PyObject, t: PyFrozenSet)
    requires
        s.valid_in(py),
        o.ptr() == s.ptr(),
        t.ptr() == o.ptr(),
    ensures
        t.valid_in(py),
        t.keys(py) == s.keys(py),
{
}

/// Builds a frozen set one key at a time; the set is frozen by `finalize`.
pub struct PyFrozenSetBuilder {
    py_frozen_set: PyFrozenSet,
}

impl PyFrozenSetBuilder {
    /// The set being filled.
    pub closed spec fn set(&self) -> PyFrozenSet {
        self.py_frozen_set
    }

    /// Starts with a new empty set.
    pub fn new(py: &mut Python) -> (r: PyResult<PyFrozenSetBuilder>)
        requires
            old(py)@.wf(),
        ensures
            final(py)@.wf(),
            r matches Ok(b) && final(py)@.allocated(old(py)@, b.set().ptr(), ObjectView::FrozenSet(Seq::empty()))
                && b.set().keys(final(py)@).len() == 0 && b.set().valid_in(final(py)@),
    {
        match PyFrozenSet::empty(py) {
            Ok(s) => Ok(PyFrozenSetBuilder { py_frozen_set: s }),
            Err(e) => Err(e),
        }
    }

    /// Adds `key`; a key equal to one already there leaves the set as it is.
    /// An unhashable key fails with a `TypeError` and leaves the set as it is;
    /// the keys added before stay. A set that has been shared (its reference
    /// count is not one) is refused with a `SystemError`. Only the set and
    /// the new object made for `key` change.
    pub fn add<K: ToPyObject>(&mut self, py: &mut Python, key: K) -> (r: PyResult<()>)
        requires
            old(py)@.wf(),
            old(self).set().valid_in(old(py)@),
        ensures
            final(py)@.wf(),
            final(self).set() == old(self).set(),
            final(self).set().valid_in(final(py)@),
            final(py)@.slots.len() == old(py)@.slots.len() + 1,
            forall|i: int| 0 <= i < old(py)@.slots.len() && i != old(self).set().ptr() ==> #[trigger] final(py)@.slots[i] == old(py)@.slots[i],
            final(py)@.refcnt(old(self).set().ptr()) == old(py)@.refcnt(old(self).set().ptr()),
            old(py)@.refcnt(old(self).set().ptr()) != 1 ==> r == Err::<(), PyErr>(PyErr { kind: ExceptionKind::SystemError })
                && final(self).set().keys(final(py)@) == old(self).set().keys(old(py)@),
            old(py)@.refcnt(old(self).set().ptr()) == 1 && is_hashable(key.object_view()) ==> r is Ok
                && final(self).set().keys(final(py)@) == insert_key(old(self).set().keys(old(py)@), key.object_view()->Int_0),
            old(py)@.refcnt(old(self).set().ptr()) == 1 && !is_hashable(key.object_view()) ==> r == Err::<(), PyErr>(PyErr { kind: ExceptionKind::TypeError })
                && final(self).set().keys(final(py)@) == old(self).set().keys(old(py)@),
    {
        let ghost h0 = py@;
        let s = self.py_frozen_set.as_ptr();
        let k = key.to_object(py);
        let ghost h1 = py@;
        proof { lemma_keys_same_objects(h0, h1, s); }
        let code = py.set_add(s, k.as_ptr());
        let ghost h2 = py@;
        proof { assert(h2.is_set(s)); }
        k.release(py);
        let ghost h3 = py@;
        proof {
            assert(h2.slots[k.ptr() as int].obj == h1.slots[k.ptr() as int].obj);
            lemma_recounted_same_objects(h2, h3, k.ptr(), dec(h2.refcnt(k.ptr())));
            lemma_keys_same_objects(h2, h3, s);
        }
        let r = error_on_minusone(py, code);
        proof {
            lemma_objects_wf_same_objects(h3, py@);
            lemma_keys_same_objects(h3, py@, s);
            assert forall|i: int| 0 <= i < h0.slots.len() && i != s implies #[trigger] py@.slots[i] == h0.slots[i] by {
                assert(h1.slots[i] == h0.slots[i]);
                assert(i != k.ptr());
                assert(h2.slots[i] == h1.slots[i]);
                assert(h3.slots[i] == h2.slots[i]);
            }
            assert(h3.slots[s as int] == h2.slots[s as int]);
        }
        r
    }

    /// Ends the building and hands over the set.
    pub fn finalize(self) -> (r: PyFrozenSet)
        ensures
            r == self.set(),
    {
        self.py_frozen_set
    }

    /// Discards the builder, giving back its reference to the set.
    pub fn release(self, py: &mut Python)
        requires
            old(py)@.objects_wf(),
            self.set().valid_in(old(py)@),
        ensures
            final(py)@.same_objects(old(py)@),
            final(py)@.pending == old(py)@.pending,
            final(py)@.objects_wf(),
            final(py)@.dropped_set(old(py)@, self.set().ptr()),
    {
        self.py_frozen_set.release(py);
    }
}

/// Fills a new set with `elements`; on failure the set and every converted
/// element are released before the failure is handed back.
pub(crate) fn new_from_iter<T: ToPyObject>(py: &mut Python, elements: &[T]) -> (r: PyResult<PyFrozenSet>)
    requires
        old(py)@.wf(),
    ensures
        final(py)@.wf(),
        extends(final(py)@, old(py)@),
        r is Ok <==> all_hashable(object_views(elements@)),
        r matches Ok(s) ==> {
            &&& s.valid_in(final(py)@)
            &&& s.ptr() >= old(py)@.slots.len()
            &&& final(py)@.refcnt(s.ptr()) == 1
            &&& s.keys(final(py)@) == dedup(int_values(object_views(elements@)))
        },
        r matches Err(e) ==> e.kind == ExceptionKind::TypeError && released_from(final(py)@, old(py)@.slots.len() as nat),
        converted_in_order(final(py)@, old(py)@.slots.len() as nat, object_views(elements@)),
        r is Ok ==> final(py)@.slots.len() == old(py)@.slots.len() + 1 + elements@.len(),
        r is Err ==> stopped_at(object_views(elements@), final(py)@.slots.len() - old(py)@.slots.len() - 2),
{
    let ghost h0 = py@;
    let ghost base = h0.slots.len() as nat;
    let ghost vals = object_views(elements@);
    let set = PyFrozenSet { obj: PyObject::from_owned_ptr(py.frozenset_new()) };
    let s = set.obj.as_ptr();
    proof {
        assert(py@.keys(s) =~= Seq::<i64>::empty());
        assert(int_values(vals.take(0)) =~= Seq::<i64>::empty());
    }
    let mut j: usize = 0;
    while j < elements.len()
        invariant
            py@.wf(),
            extends(py@, h0),
            s == base,
            base == h0.slots.len(),
            h0 == old(py)@,
            set.ptr() == s,
            py@.is_set(s),
            py@.refcnt(s) == 1,
            j <= elements.len(),
            vals == object_views(elements@),
            forall|k: int| 0 <= k < j ==> is_hashable(#[trigger] vals[k]),
            py@.slots.len() == base + 1 + j,
            forall|q: int| 0 <= q < j ==> py@.slots[base + 1 + q].obj == #[trigger] vals[q],
            py@.keys(s) == dedup(int_values(vals.take(j as int))),
            forall|k: int| 0 <= k < py@.entries(s).len() ==> base < #[trigger] py@.entries(s)[k],
            forall|i: usize| base < i < py@.slots.len() ==> #[trigger] py@.refcnt(i) == (
                if py@.entries(s).contains(i) { 1nat } else { 0nat }),
        decreases elements.len() - j,
    {
        let ghost before = py@;
        let key = elements[j].to_object(py);
        let k = key.as_ptr();
        let ghost h1 = py@;
        proof {
            assert(h1.entries(s) == before.entries(s));
            assert(h1.keys(s) =~= before.keys(s)) by {
                assert forall|q: int| 0 <= q < h1.entries(s).len() implies h1.int_of(h1.entries(s)[q]) == before.int_of(before.entries(s)[q]) by {
                    assert(before.is_int(before.entries(s)[q]));
                }
            }
            assert(!h1.entries(s).contains(k)) by {
                if h1.entries(s).contains(k) {
                    let q = choose|q: int| 0 <= q < h1.entries(s).len() && h1.entries(s)[q] == k;
                    assert(before.is_int(before.entries(s)[q]));
                }
            }
        }
        let code = py.set_add(s, k);
        let ghost h2 = py@;
        proof { assert(h2.objects_wf()); }
        key.release(py);
        let ghost h3 = py@;
        proof {
            assert(h2.slots[k as int].obj == h1.slots[k as int].obj);
            assert(h3.recounted(h2, k, dec(h2.refcnt(k))));
            assert forall|i: int| 0 <= i < h0.slots.len() implies #[trigger] h3.slots[i] == h0.slots[i] by {
                assert(before.slots[i] == h0.slots[i]);
                assert(h1.slots[i] == before.slots[i]);
                assert(i < s as int && (s as int) < k as int);
                if h1.is_int(k) && !h1.keys(s).contains(h1.int_of(k)) {
                    assert(h2.slots[i] == h1.slots[i]);
                }
            }
        }
        let status = error_on_minusone(py, code);
        proof { crate::runtime::lemma_objects_wf_same_objects(h3, py@); }
        match status {
            Ok(()) => {},
            Err(e) => {
                let ghost h4 = py@;
                proof {
                    assert(h2.slots == h1.slots);
                    assert(h4.slots == h3.slots);
                    assert(h4.entries(s) == before.entries(s));
                    crate::runtime::lemma_entries_distinct(h4, s);
                }
                set.release(py);
                proof {
                    let h5 = py@;
                    assert forall|i: int| 0 <= i < h0.slots.len() implies #[trigger] h5.slots[i] == h0.slots[i] by {
                        assert(h3.slots[i] == h0.slots[i]);
                        assert(h5.slots[i].obj == h4.slots[i].obj);
                        assert(0 <= i < s as int);
                        assert(!h4.entries(s).contains(i as usize)) by {
                            if h4.entries(s).contains(i as usize) {
                                let q = choose|q: int| 0 <= q < h4.entries(s).len() && h4.entries(s)[q] == i as usize;
                                assert(before.entries(s)[q] > base);
                            }
                        }
                        assert(h4.valid(i as usize));
                        assert(h5.refcnt(i as usize) == h4.refcnt(i as usize));
                    }
                    assert forall|i: usize| base <= i < h5.slots.len() implies #[trigger] h5.refcnt(i) == 0 by {
                        if i != s {
                            if i != k {
                                assert(before.refcnt(i) == (if before.entries(s).contains(i) { 1nat } else { 0nat }));
                            }
                            if h4.entries(s).contains(i) {
                                let q = choose|q: int| 0 <= q < h4.entries(s).len() && h4.entries(s)[q] == i;
                                assert(h5.refcnt(h4.entries(s)[q]) == dec(h4.refcnt(h4.entries(s)[q])));
                            } else {
                                assert(h4.valid(i));
                            }
                        }
                    }
                    assert(!is_hashable(vals[j as int]));
                }
                return Err(e);
            },
        }
        proof {
            let h4 = py@;
            assert forall|i: int| 0 <= i < h0.slots.len() implies #[trigger] h4.slots[i] == h0.slots[i] by {
                assert(h3.slots[i] == h0.slots[i]);
            }
            assert(is_hashable(vals[j as int]));
            let v = vals[j as int]->Int_0;
            assert(int_values(vals.take(j as int + 1)).drop_last() =~= int_values(vals.take(j as int)));
            assert(int_values(vals.take(j as int + 1)).last() == v);
            if before.keys(s).contains(v) {
                assert(h4.slots =~= before.slots.push(h4.slots[k as int]));
                assert(h4.keys(s) =~= before.keys(s)) by {
                    assert forall|q: int| 0 <= q < h4.entries(s).len() implies h4.int_of(h4.entries(s)[q]) == before.int_of(before.entries(s)[q]) by {
                        assert(before.is_int(before.entries(s)[q]));
                    }
                }
                assert(forall|q: int| 0 <= q < h4.entries(s).len() ==> h4.entries(s)[q] != k);
            } else {
                assert(h4.entries(s) == before.entries(s).push(k));
                assert(h4.keys(s) =~= before.keys(s).push(v)) by {
                    assert forall|q: int| 0 <= q < before.entries(s).len() implies h4.int_of(h4.entries(s)[q]) == before.int_of(before.entries(s)[q]) by {
                        assert(before.is_int(before.entries(s)[q]));
                    }
                }
                assert(h4.entries(s)[before.entries(s).len() as int] == k);
            }
            assert forall|i: usize| base < i < h4.slots.len() implies #[trigger] h4.refcnt(i) == (
                if h4.entries(s).contains(i) { 1nat } else { 0nat }) by {
                if i != k {
                    assert(before.refcnt(i) == (if before.entries(s).contains(i) { 1nat } else { 0nat }));
                    if h4.entries(s).contains(i) {
                        let q = choose|q: int| 0 <= q < h4.entries(s).len() && h4.entries(s)[q] == i;
                        assert(before.entries(s).contains(i)) by { assert(before.entries(s)[q] == i); }
                    }
                    if before.entries(s).contains(i) {
                        let q = choose|q: int| 0 <= q < before.entries(s).len() && before.entries(s)[q] == i;
                        assert(h4.entries(s)[q] == i);
                    }
                } else if !before.keys(s).contains(v) {
                    assert(h4.entries(s).contains(k));
                }
            }
        }
        j = j + 1;
    }
    proof {
        assert(vals.take(elements.len() as int) =~= vals);
    }
    Ok(set)
}

} // verus!
