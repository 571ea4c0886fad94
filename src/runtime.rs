//! The embedded runtime: an append-only heap of reference-counted objects,
//! the pending-failure slot, and the primitive operations on both.
use vstd::prelude::*;

verus! {

/// The class of a failure that the runtime raises.
#[derive(Clone, Copy, Debug, PartialEq, Eq, Structural)]
pub enum ExceptionKind {
    /// An object of the wrong kind was used, such as an unhashable set key.
    TypeError,
    /// A failure was fetched while none was pending.
    SystemError,
}

/// A failure raised by the runtime, as handed back to the host.
#[derive(Clone, Copy, Debug, PartialEq, Eq, Structural)]
pub struct PyErr {
    pub kind: ExceptionKind,
}

/// An object stored in the runtime's heap.
pub enum Object {
    /// A hashable integer.
    Int(i64),
    /// A mutable list of integers; unhashable.
    List(Vec<i64>),
    /// A set: its entry table holds a handle of each distinct key.
    FrozenSet(Vec<usize>),
    /// A generic iterator over a set: the set's handle and the next position.
    SetIter(usize, usize),
}

/// The mathematical value of an [`Object`].
pub enum ObjectView {
    Int(i64),
    List(Seq<i64>),
    FrozenSet(Seq<usize>),
    SetIter(usize, usize),
}

impl View for Object {
    type V = ObjectView;

    open spec fn view(&self) -> ObjectView {
        match self {
            Object::Int(v) => ObjectView::Int(*v),
            Object::List(v) => ObjectView::List(v@),
            Object::FrozenSet(e) => ObjectView::FrozenSet(e@),
            Object::SetIter(s, p) => ObjectView::SetIter(*s, *p),
        }
    }
}

/// A heap cell: an object and the number of ownership units held on it.
pub struct Slot {
    pub object: Object,
    pub refcnt: usize,
}

pub struct SlotView {
    pub obj: ObjectView,
    pub refcnt: nat,
}

impl View for Slot {
    type V = SlotView;

    open spec fn view(&self) -> SlotView {
        SlotView { obj: self.object@, refcnt: self.refcnt as nat }
    }
}

/// A reference count at this value is immortal: it neither grows nor shrinks.
pub const IMMORTAL: usize = usize::MAX;

/// The reference count after one more ownership unit is taken.
pub open spec fn inc(n: nat) -> nat {
    if n >= IMMORTAL as nat { n } else { n + 1 }
}

/// The reference count after one ownership unit is given back.
pub open spec fn dec(n: nat) -> nat {
    if n >= IMMORTAL as nat || n == 0 { n } else { (n - 1) as nat }
}

/// The whole runtime state: every object ever allocated, and the failure slot.
pub struct Heap {
    pub slots: Seq<SlotView>,
    pub pending: Option<PyErr>,
}

impl Heap {
    pub open spec fn valid(self, h: usize) -> bool {
        h < self.slots.len()
    }

    pub open spec fn is_int(self, h: usize) -> bool {
        self.valid(h) && self.slots[h as int].obj is Int
    }

    pub open spec fn is_set(self, h: usize) -> bool {
        self.valid(h) && self.slots[h as int].obj is FrozenSet
    }

    pub open spec fn is_set_iter(self, h: usize) -> bool {
        self.valid(h) && self.slots[h as int].obj is SetIter
    }

    pub open spec fn refcnt(self, h: usize) -> nat {
        self.slots[h as int].refcnt
    }

    pub open spec fn int_of(self, h: usize) -> i64 {
        self.slots[h as int].obj->Int_0
    }

    pub open spec fn entries(self, h: usize) -> Seq<usize> {
        self.slots[h as int].obj->FrozenSet_0
    }

    /// The keys of the set at `h`, in the order of its entry table.
    pub open spec fn keys(self, h: usize) -> Seq<i64> {
        self.entries(h).map_values(|e: usize| self.int_of(e))
    }

    /// Every set entry names an integer object, keys are distinct, and every
    /// generic iterator walks a set.
    pub open spec fn objects_wf(self) -> bool {
        &&& forall|h: usize| #[trigger] self.is_set(h) ==> {
            &&& forall|j: int| 0 <= j < self.entries(h).len() ==> self.is_int(#[trigger] self.entries(h)[j])
            &&& self.keys(h).no_duplicates()
        }
        &&& forall|h: usize| #[trigger] self.is_set_iter(h) ==> self.is_set(self.slots[h as int].obj->SetIter_0)
    }

    /// Well-formed, with no failure pending.
    pub open spec fn wf(self) -> bool {
        self.objects_wf() && self.pending is None
    }

    /// `self` is `old` with one more object, of value `obj` and one ownership unit.
    pub open spec fn allocated(self, old: Heap, h: usize, obj: ObjectView) -> bool {
        &&& h == old.slots.len()
        &&& self.slots == old.slots.push(SlotView { obj, refcnt: 1 })
        &&& self.pending == old.pending
    }

    /// `self` is `old` with only the reference count of `h` changed, to `n`.
    pub open spec fn recounted(self, old: Heap, h: usize, n: nat) -> bool {
        &&& old.valid(h)
        &&& self.slots == old.slots.update(h as int, SlotView { obj: old.slots[h as int].obj, refcnt: n })
        &&& self.pending == old.pending
    }

    /// The set `h` after one ownership unit on it was given back: when that
    /// was the last, each of its entries lost the unit that the set held.
    pub open spec fn dropped_set(self, old: Heap, h: usize) -> bool {
        &&& self.refcnt(h) == dec(old.refcnt(h))
        &&& forall|k: int| 0 <= k < old.entries(h).len() ==> #[trigger] self.refcnt(old.entries(h)[k]) == (
            if old.refcnt(h) == 1 { dec(old.refcnt(old.entries(h)[k])) } else { old.refcnt(old.entries(h)[k]) })
        &&& forall|i: usize| old.valid(i) && i != h && !old.entries(h).contains(i) ==> #[trigger] self.refcnt(i) == old.refcnt(i)
    }

    /// Every object of `old` keeps its value (reference counts may differ);
    /// more may follow.
    pub open spec fn keeps_objects(self, old: Heap) -> bool {
        &&& self.slots.len() >= old.slots.len()
        &&& forall|i: int| 0 <= i < old.slots.len() ==> #[trigger] self.slots[i].obj == old.slots[i].obj
    }

    /// Every object keeps its value (reference counts may differ).
    pub open spec fn same_objects(self, old: Heap) -> bool {
        &&& self.slots.len() == old.slots.len()
        &&& forall|i: int| 0 <= i < self.slots.len() ==> #[trigger] self.slots[i].obj == old.slots[i].obj
    }
}

/// Well-formedness of the objects does not depend on reference counts.
pub proof fn lemma_objects_wf_same_objects(a: Heap, b: Heap)
    requires
        a.objects_wf(),
        b.same_objects(a),
    ensures
        b.objects_wf(),
{
    assert forall|h: usize| #[trigger] b.is_set(h) implies {
        &&& forall|j: int| 0 <= j < b.entries(h).len() ==> b.is_int(#[trigger] b.entries(h)[j])
        &&& b.keys(h).no_duplicates()
    } by {
        assert(a.is_set(h));
        assert forall|j: int| 0 <= j < b.entries(h).len() implies b.is_int(#[trigger] b.entries(h)[j]) by {
            assert(a.is_int(a.entries(h)[j]));
        }
        assert(a.keys(h) =~= b.keys(h));
    }
    assert forall|h: usize| #[trigger] b.is_set_iter(h) implies b.is_set(b.slots[h as int].obj->SetIter_0) by {
        assert(a.is_set_iter(h));
    }
}

/// Replacing the set or iterator at `x` by a well-formed object of the same
/// kind keeps the objects well-formed.
pub proof fn lemma_objects_wf_replace(a: Heap, b: Heap, x: usize)
    requires
        a.objects_wf(),
        a.valid(x),
        b.slots.len() == a.slots.len(),
        forall|i: int| 0 <= i < a.slots.len() && i != x ==> #[trigger] b.slots[i].obj == a.slots[i].obj,
        (a.is_set(x) && b.is_set(x) && b.keys(x).no_duplicates()
            && forall|j: int| 0 <= j < b.entries(x).len() ==> a.is_int(#[trigger] b.entries(x)[j]))
        || (a.is_set_iter(x) && b.is_set_iter(x) && a.is_set(b.slots[x as int].obj->SetIter_0)),
    ensures
        b.objects_wf(),
{
    assert forall|h: usize| #[trigger] b.is_set(h) implies {
        &&& forall|j: int| 0 <= j < b.entries(h).len() ==> b.is_int(#[trigger] b.entries(h)[j])
        &&& b.keys(h).no_duplicates()
    } by {
        if h == x {
            assert forall|j: int| 0 <= j < b.entries(h).len() implies b.is_int(#[trigger] b.entries(h)[j]) by {
                assert(a.is_int(b.entries(x)[j]));
            }
        } else {
            assert(a.is_set(h));
            assert forall|j: int| 0 <= j < b.entries(h).len() implies b.is_int(#[trigger] b.entries(h)[j]) by {
                assert(a.is_int(a.entries(h)[j]));
            }
            lemma_keys_unchanged(a, b, h);
        }
    }
    assert forall|h: usize| #[trigger] b.is_set_iter(h) implies b.is_set(b.slots[h as int].obj->SetIter_0) by {
        if h != x {
            assert(a.is_set_iter(h));
        }
    }
}

/// The keys of a set depend only on its own object and on the integer
/// objects.
pub proof fn lemma_keys_unchanged(a: Heap, b: Heap, h: usize)
    requires
        a.objects_wf(),
        a.is_set(h),
        b.slots.len() >= a.slots.len(),
        b.slots[h as int].obj == a.slots[h as int].obj,
        forall|i: int| 0 <= i < a.slots.len() && (a.slots[i].obj is Int) ==> #[trigger] b.slots[i].obj == a.slots[i].obj,
    ensures
        b.is_set(h),
        b.entries(h) == a.entries(h),
        b.keys(h) == a.keys(h),
{
    assert(b.keys(h) =~= a.keys(h)) by {
        assert forall|j: int| 0 <= j < a.entries(h).len() implies b.int_of(b.entries(h)[j]) == a.int_of(a.entries(h)[j]) by {
            assert(a.is_int(a.entries(h)[j]));
            assert(b.slots[a.entries(h)[j] as int].obj == a.slots[a.entries(h)[j] as int].obj);
        }
    }
}

/// The keys of a set do not depend on reference counts, nor on objects
/// allocated after it.
pub proof fn lemma_keys_same_objects(a: Heap, b: Heap, h: usize)
    requires
        a.objects_wf(),
        a.is_set(h),
        b.keeps_objects(a),
    ensures
        b.is_set(h),
        b.entries(h) == a.entries(h),
        b.keys(h) == a.keys(h),
{
    assert(b.keys(h) =~= a.keys(h)) by {
        assert forall|j: int| 0 <= j < a.entries(h).len() implies b.int_of(b.entries(h)[j]) == a.int_of(a.entries(h)[j]) by {
            assert(a.is_int(a.entries(h)[j]));
        }
    }
}

/// A change of one reference count keeps every object's value.
pub proof fn lemma_recounted_same_objects(a: Heap, b: Heap, h: usize, n: nat)
    requires
        b.recounted(a, h, n),
    ensures
        b.same_objects(a),
{
    assert forall|i: int| 0 <= i < b.slots.len() implies #[trigger] b.slots[i].obj == a.slots[i].obj by {
        if i != h as int {
            assert(b.slots[i] == a.slots[i]);
        }
    }
}

/// Adding an object that is not a set, or an iterator over a set, keeps the
/// objects well-formed.
pub proof fn lemma_objects_wf_push(a: Heap, b: Heap, obj: ObjectView)
    requires
        a.objects_wf(),
        b.slots.len() == a.slots.len() + 1,
        forall|i: int| 0 <= i < a.slots.len() ==> #[trigger] b.slots[i].obj == a.slots[i].obj,
        b.slots[a.slots.len() as int].obj == obj,
        obj is Int || obj is List || obj == ObjectView::FrozenSet(Seq::empty()) || (obj is SetIter && a.is_set(obj->SetIter_0)),
    ensures
        b.objects_wf(),
{
    assert forall|h: usize| #[trigger] b.is_set(h) implies {
        &&& forall|j: int| 0 <= j < b.entries(h).len() ==> b.is_int(#[trigger] b.entries(h)[j])
        &&& b.keys(h).no_duplicates()
    } by {
        if h < a.slots.len() {
            assert(a.is_set(h));
            assert forall|j: int| 0 <= j < b.entries(h).len() implies b.is_int(#[trigger] b.entries(h)[j]) by {
                assert(a.is_int(a.entries(h)[j]));
            }
            assert(a.keys(h) =~= b.keys(h)) by {
                assert forall|j: int| 0 <= j < b.entries(h).len() implies b.int_of(b.entries(h)[j]) == a.int_of(a.entries(h)[j]) by {
                    assert(a.is_int(a.entries(h)[j]));
                }
            }
        } else {
            assert(b.keys(h) =~= Seq::<i64>::empty());
        }
    }
    assert forall|h: usize| #[trigger] b.is_set_iter(h) implies b.is_set(b.slots[h as int].obj->SetIter_0) by {
        if h < a.slots.len() {
            assert(a.is_set_iter(h));
        }
    }
}

/// The entries of a set are distinct handles.
pub proof fn lemma_entries_distinct(hp: Heap, h: usize)
    requires
        hp.objects_wf(),
        hp.is_set(h),
    ensures
        hp.entries(h).no_duplicates(),
        !hp.entries(h).contains(h),
{
    assert(hp.keys(h).no_duplicates());
    assert forall|a: int, b: int| 0 <= a < b < hp.entries(h).len() implies hp.entries(h)[a] != hp.entries(h)[b] by {
        assert(hp.keys(h)[a] != hp.keys(h)[b]);
    }
    if hp.entries(h).contains(h) {
        let k = choose|k: int| 0 <= k < hp.entries(h).len() && hp.entries(h)[k] == h;
        assert(hp.is_int(hp.entries(h)[k]));
    }
}

/// The execution token, which owns the runtime: every call into it needs this value.
pub struct Python {
    objects: Vec<Slot>,
    pending: Option<PyErr>,
}

impl View for Python {
    type V = Heap;

    closed spec fn view(&self) -> Heap {
        Heap { slots: self.objects@.map_values(|s: Slot| s@), pending: self.pending }
    }
}

impl Python {
    /// Starts a runtime with an empty heap.
    pub fn new() -> (py: Python)
        ensures
            py@.wf(),
            py@.slots.len() == 0,
    {
        let py = Python { objects: Vec::new(), pending: None };
        proof {
            assert(py@.slots =~= Seq::<SlotView>::empty());
        }
        py
    }

    fn allocate(&mut self, object: Object) -> (h: usize)
        ensures
            final(self)@.allocated(old(self)@, h, object@),
    {
        let h = self.objects.len();
        self.objects.push(Slot { object, refcnt: 1 });
        proof {
            assert(final(self)@.slots =~= old(self)@.slots.push(SlotView { obj: object@, refcnt: 1 }));
        }
        h
    }

    proof fn lemma_view_slot(&self, h: usize)
        requires
            h < self.objects.len(),
        ensures
            self@.slots[h as int] == self.objects@[h as int]@,
            self@.slots.len() == self.objects@.len(),
    {
    }

    /// Allocates an integer object, with one ownership unit for the caller.
    pub fn new_int(&mut self, v: i64) -> (h: usize)
        ensures
            final(self)@.allocated(old(self)@, h, ObjectView::Int(v)),
            old(self)@.objects_wf() ==> final(self)@.objects_wf(),
    {
        let ghost h0 = self@;
        let h = self.allocate(Object::Int(v));
        proof { if h0.objects_wf() { lemma_objects_wf_push(h0, self@, ObjectView::Int(v)); } }
        h
    }

    /// Allocates a list object, with one ownership unit for the caller.
    pub fn new_list(&mut self, items: Vec<i64>) -> (h: usize)
        ensures
            final(self)@.allocated(old(self)@, h, ObjectView::List(items@)),
            old(self)@.objects_wf() ==> final(self)@.objects_wf(),
    {
        let ghost h0 = self@;
        let ghost v = items@;
        let h = self.allocate(Object::List(items));
        proof { if h0.objects_wf() { lemma_objects_wf_push(h0, self@, ObjectView::List(v)); } }
        h
    }

    /// Allocates an empty set object, with one ownership unit for the caller.
    pub fn frozenset_new(&mut self) -> (h: usize)
        ensures
            final(self)@.allocated(old(self)@, h, ObjectView::FrozenSet(Seq::empty())),
            old(self)@.objects_wf() ==> final(self)@.objects_wf(),
    {
        let ghost h0 = self@;
        let h = self.allocate(Object::FrozenSet(Vec::new()));
        proof {
            assert(self@.slots[h as int].obj == ObjectView::FrozenSet(Seq::empty()));
            if h0.objects_wf() { lemma_objects_wf_push(h0, self@, ObjectView::FrozenSet(Seq::empty())); }
        }
        h
    }

    /// Takes one more ownership unit on `h`.
    pub fn incref(&mut self, h: usize)
        requires
            old(self)@.valid(h),
        ensures
            final(self)@.recounted(old(self)@, h, inc(old(self)@.refcnt(h))),
    {
        proof { self.lemma_view_slot(h); }
        let c = self.objects[h].refcnt;
        if c < IMMORTAL {
            self.objects[h].refcnt = c + 1;
        }
        proof {
            assert(final(self)@.slots =~= old(self)@.slots.update(h as int, SlotView { obj: old(self)@.slots[h as int].obj, refcnt: inc(old(self)@.refcnt(h)) }));
        }
    }

    /// Gives back one ownership unit on `h`, without releasing what it holds.
    fn decref_one(&mut self, h: usize)
        requires
            old(self)@.valid(h),
        ensures
            final(self)@.recounted(old(self)@, h, dec(old(self)@.refcnt(h))),
    {
        proof { self.lemma_view_slot(h); }
        let c = self.objects[h].refcnt;
        if c < IMMORTAL && c > 0 {
            self.objects[h].refcnt = c - 1;
        }
        proof {
            assert(final(self)@.slots =~= old(self)@.slots.update(h as int, SlotView { obj: old(self)@.slots[h as int].obj, refcnt: dec(old(self)@.refcnt(h)) }));
        }
    }


    /// The value of the integer object `h`.
    pub fn int_at(&self, h: usize) -> (v: i64)
        requires
            self@.is_int(h),
        ensures
            v == self@.int_of(h),
    {
        proof { self.lemma_view_slot(h); }
        match &self.objects[h].object {
            Object::Int(v) => *v,
            _ => 0,
        }
    }

    /// The value of `h` when it is an integer object.
    pub fn as_int(&self, h: usize) -> (r: Option<i64>)
        requires
            self@.valid(h),
        ensures
            r == (if self@.is_int(h) { Some(self@.int_of(h)) } else { None::<i64> }),
    {
        proof { self.lemma_view_slot(h); }
        match &self.objects[h].object {
            Object::Int(v) => Some(*v),
            _ => None,
        }
    }

    /// Whether `h` is a set object.
    pub fn is_frozenset(&self, h: usize) -> (r: bool)
        requires
            self@.valid(h),
        ensures
            r == self@.is_set(h),
    {
        proof { self.lemma_view_slot(h); }
        match &self.objects[h].object {
            Object::FrozenSet(_) => true,
            _ => false,
        }
    }

    /// The handle in position `j` of the entry table of set `h`.
    fn entry_at(&self, h: usize, j: usize) -> (e: usize)
        requires
            self@.is_set(h),
            j < self@.entries(h).len(),
        ensures
            e == self@.entries(h)[j as int],
    {
        proof { self.lemma_view_slot(h); }
        match &self.objects[h].object {
            Object::FrozenSet(v) => v[j],
            _ => 0,
        }
    }

    /// The size of the entry table of set `h`.
    pub fn set_size(&self, h: usize) -> (n: usize)
        requires
            self@.is_set(h),
        ensures
            n == self@.entries(h).len(),
            n == self@.keys(h).len(),
    {
        proof { self.lemma_view_slot(h); }
        match &self.objects[h].object {
            Object::FrozenSet(v) => v.len(),
            _ => 0,
        }
    }

    /// The position in the entry table of set `h` whose key is `v`, if any.
    fn find_key(&self, h: usize, v: i64) -> (r: Option<usize>)
        requires
            self@.objects_wf(),
            self@.is_set(h),
        ensures
            r is None <==> !self@.keys(h).contains(v),
            r matches Some(j) ==> j < self@.keys(h).len() && self@.keys(h)[j as int] == v,
    {
        let n = self.set_size(h);
        let mut j: usize = 0;
        while j < n
            invariant
                self@.objects_wf(),
                self@.is_set(h),
                n == self@.keys(h).len(),
                j <= n,
                forall|k: int| 0 <= k < j ==> self@.keys(h)[k] != v,
            decreases n - j,
        {
            let e = self.entry_at(h, j);
            assert(self@.is_int(self@.entries(h)[j as int]));
            if self.int_at(e) == v {
                assert(self@.keys(h)[j as int] == v);
                return Some(j);
            }
            j = j + 1;
        }
        None
    }

    /// Records a failure in the pending slot.
    fn raise(&mut self, kind: ExceptionKind)
        ensures
            final(self)@.slots == old(self)@.slots,
            final(self)@.pending == Some(PyErr { kind }),
    {
        self.pending = Some(PyErr { kind });
    }

    /// Takes the pending failure out of its slot, leaving the slot empty; a
    /// `SystemError` when none was pending.
    pub fn err_fetch(&mut self) -> (e: PyErr)
        ensures
            final(self)@.slots == old(self)@.slots,
            final(self)@.pending is None,
            e == (match old(self)@.pending {
                Some(p) => p,
                None => PyErr { kind: ExceptionKind::SystemError },
            }),
    {
        match self.pending.take() {
            Some(p) => p,
            None => PyErr { kind: ExceptionKind::SystemError },
        }
    }

    /// Inserts `key` into set `h`: `0` on success (also when an equal key is
    /// there, which keeps the table as it is), `-1` with a `TypeError` pending
    /// when `key` is unhashable. A new entry takes an ownership unit on `key`.
    /// A frozen set may be filled only while a single owner holds it: on a
    /// shared one the call fails with a `SystemError` pending.
    pub fn set_add(&mut self, h: usize, key: usize) -> (r: i32)
        requires
            old(self)@.wf(),
            old(self)@.is_set(h),
            old(self)@.valid(key),
        ensures
            old(self)@.refcnt(h) != 1 ==> {
                &&& r == -1
                &&& final(self)@.slots == old(self)@.slots
                &&& final(self)@.pending == Some(PyErr { kind: ExceptionKind::SystemError })
            },
            old(self)@.refcnt(h) == 1 && !old(self)@.is_int(key) ==> {
                &&& r == -1
                &&& final(self)@.slots == old(self)@.slots
                &&& final(self)@.pending == Some(PyErr { kind: ExceptionKind::TypeError })
            },
            old(self)@.refcnt(h) == 1 && old(self)@.is_int(key) && old(self)@.keys(h).contains(old(self)@.int_of(key)) ==> {
                &&& r == 0
                &&& final(self)@ == old(self)@
            },
            old(self)@.refcnt(h) == 1 && old(self)@.is_int(key) && !old(self)@.keys(h).contains(old(self)@.int_of(key)) ==> {
                &&& r == 0
                &&& final(self)@.slots == old(self)@.slots
                    .update(h as int, SlotView { obj: ObjectView::FrozenSet(old(self)@.entries(h).push(key)), refcnt: old(self)@.refcnt(h) })
                    .update(key as int, SlotView { obj: old(self)@.slots[key as int].obj, refcnt: inc(old(self)@.refcnt(key)) })
                &&& final(self)@.pending is None
                &&& final(self)@.keys(h) == old(self)@.keys(h).push(old(self)@.int_of(key))
            },
            final(self)@.objects_wf(),
    {
        if self.refcnt_at(h) != 1 {
            self.raise(ExceptionKind::SystemError);
            proof { lemma_objects_wf_same_objects(old(self)@, self@); }
            return -1;
        }
        let k = match self.as_int(key) {
            Some(k) => k,
            None => {
                self.raise(ExceptionKind::TypeError);
                proof { lemma_objects_wf_same_objects(old(self)@, self@); }
                return -1;
            },
        };
        if self.find_key(h, k).is_some() {
            return 0;
        }
        let ghost h0 = self@;
        proof { self.lemma_view_slot(h); }
        match &mut self.objects[h].object {
            Object::FrozenSet(v) => v.push(key),
            _ => {},
        }
        let ghost h1 = self@;
        proof {
            assert(h1.slots =~= h0.slots.update(h as int, SlotView { obj: ObjectView::FrozenSet(h0.entries(h).push(key)), refcnt: h0.refcnt(h) }));
        }
        proof {
            assert(h1.keys(h) =~= h0.keys(h).push(k)) by {
                assert forall|j: int| 0 <= j < h0.entries(h).len() implies h1.int_of(h1.entries(h)[j]) == h0.int_of(h0.entries(h)[j]) by {
                    assert(h0.is_int(h0.entries(h)[j]));
                }
            }
            assert forall|j: int| 0 <= j < h1.entries(h).len() implies h0.is_int(#[trigger] h1.entries(h)[j]) by {
                if j < h0.entries(h).len() {
                    assert(h0.is_int(h0.entries(h)[j]));
                }
            }
            lemma_objects_wf_replace(h0, h1, h);
        }
        self.incref(key);
        proof {
            lemma_recounted_same_objects(h1, self@, key, inc(h1.refcnt(key)));
            lemma_objects_wf_same_objects(h1, self@);
            lemma_keys_same_objects(h1, self@, h);
        }
        0
    }


    /// Membership of `key` in set `h`: `1` when an equal key is there, `0`
    /// when none is, `-1` with a `TypeError` pending when `key` is unhashable.
    pub fn set_contains(&mut self, h: usize, key: usize) -> (r: i32)
        requires
            old(self)@.wf(),
            old(self)@.is_set(h),
            old(self)@.valid(key),
        ensures
            final(self)@.slots == old(self)@.slots,
            final(self)@.objects_wf(),
            !old(self)@.is_int(key) ==> r == -1 && final(self)@.pending == Some(PyErr { kind: ExceptionKind::TypeError }),
            old(self)@.is_int(key) ==> final(self)@.pending is None && r == (
                if old(self)@.keys(h).contains(old(self)@.int_of(key)) { 1i32 } else { 0i32 }),
    {
        match self.as_int(key) {
            Some(k) => {
                if self.find_key(h, k).is_some() { 1 } else { 0 }
            },
            None => {
                self.raise(ExceptionKind::TypeError);
                proof { lemma_objects_wf_same_objects(old(self)@, self@); }
                -1
            },
        }
    }

    /// Steps through the entry table of set `h` from `*pos`: the entry there,
    /// as a borrowed handle, with `*pos` moved past it; `None` at the end.
    pub fn set_next_entry(&self, h: usize, pos: &mut usize) -> (r: Option<usize>)
        requires
            self@.is_set(h),
        ensures
            *old(pos) < self@.entries(h).len() ==> r == Some(self@.entries(h)[*old(pos) as int]) && *final(pos) == *old(pos) + 1,
            *old(pos) >= self@.entries(h).len() ==> r is None && *final(pos) == *old(pos),
    {
        let n = self.set_size(h);
        if *pos < n {
            let e = self.entry_at(h, *pos);
            *pos = *pos + 1;
            Some(e)
        } else {
            None
        }
    }

    /// The number of objects ever allocated.
    pub fn object_count(&self) -> (n: usize)
        ensures
            n == self@.slots.len(),
    {
        self.objects.len()
    }

    /// The reference count of `h`.
    pub fn refcnt_at(&self, h: usize) -> (c: usize)
        requires
            self@.valid(h),
        ensures
            c == self@.refcnt(h),
    {
        proof { self.lemma_view_slot(h); }
        self.objects[h].refcnt
    }

    /// Gives back the unit that set `h` holds on each of its entries.
    fn release_entries(&mut self, h: usize)
        requires
            old(self)@.objects_wf(),
            old(self)@.is_set(h),
        ensures
            final(self)@.same_objects(old(self)@),
            final(self)@.pending == old(self)@.pending,
            forall|k: int| 0 <= k < old(self)@.entries(h).len() ==> #[trigger] final(self)@.refcnt(old(self)@.entries(h)[k])
                == dec(old(self)@.refcnt(old(self)@.entries(h)[k])),
            forall|i: usize| old(self)@.valid(i) && !old(self)@.entries(h).contains(i) ==> #[trigger] final(self)@.refcnt(i) == old(self)@.refcnt(i),
    {
        let ghost h0 = self@;
        let ghost es = h0.entries(h);
        proof { lemma_entries_distinct(h0, h); }
        let n = self.set_size(h);
        let mut j: usize = 0;
        while j < n
            invariant
                h0.objects_wf(),
                h0.is_set(h),
                es == h0.entries(h),
                es.no_duplicates(),
                n == es.len(),
                j <= n,
                self@.same_objects(h0),
                self@.pending == h0.pending,
                forall|k: int| 0 <= k < j ==> #[trigger] self@.refcnt(es[k]) == dec(h0.refcnt(es[k])),
                forall|k: int| j <= k < n ==> #[trigger] self@.refcnt(es[k]) == h0.refcnt(es[k]),
                forall|i: usize| h0.valid(i) && !es.contains(i) ==> #[trigger] self@.refcnt(i) == h0.refcnt(i),
            decreases n - j,
        {
            let ghost before = self@;
            proof {
                assert(before.entries(h) == es);
                assert(h0.is_int(es[j as int]));
            }
            let e = self.entry_at(h, j);
            self.decref_one(e);
            proof {
                assert(es[j as int] == e);
                assert forall|k: int| 0 <= k < j + 1 implies #[trigger] self@.refcnt(es[k]) == dec(h0.refcnt(es[k])) by {
                    if k < j {
                        assert(before.refcnt(es[k]) == dec(h0.refcnt(es[k])));
                    } else {
                        assert(before.refcnt(es[k]) == h0.refcnt(es[k]));
                    }
                }
                assert forall|k: int| j + 1 <= k < n implies #[trigger] self@.refcnt(es[k]) == h0.refcnt(es[k]) by {
                    assert(before.refcnt(es[k]) == h0.refcnt(es[k]));
                }
                assert forall|i: usize| h0.valid(i) && !es.contains(i) implies #[trigger] self@.refcnt(i) == h0.refcnt(i) by {
                    assert(before.refcnt(i) == h0.refcnt(i));
                }
            }
            j = j + 1;
        }
    }

    /// Gives back one ownership unit on set `h`; at the last one, the set
    /// gives back those it holds on its entries.
    fn decref_set(&mut self, h: usize)
        requires
            old(self)@.objects_wf(),
            old(self)@.is_set(h),
        ensures
            final(self)@.same_objects(old(self)@),
            final(self)@.pending == old(self)@.pending,
            final(self)@.dropped_set(old(self)@, h),
    {
        let ghost h0 = self@;
        proof { lemma_entries_distinct(h0, h); }
        let c = self.refcnt_at(h);
        self.decref_one(h);
        proof { lemma_objects_wf_same_objects(h0, self@); }
        if c == 1 {
            let ghost h1 = self@;
            assert(h1.entries(h) == h0.entries(h));
            self.release_entries(h);
            proof {
                assert forall|k: int| 0 <= k < h0.entries(h).len() implies #[trigger] self@.refcnt(h0.entries(h)[k]) == dec(h0.refcnt(h0.entries(h)[k])) by {
                    assert(h0.entries(h)[k] != h);
                }
            }
        } else {
            proof {
                assert forall|k: int| 0 <= k < h0.entries(h).len() implies #[trigger] self@.refcnt(h0.entries(h)[k]) == h0.refcnt(h0.entries(h)[k]) by {
                    assert(h0.entries(h)[k] != h);
                }
            }
        }
    }


    /// Gives back one ownership unit on `h`; at the last one, the object gives
    /// back the units it holds: a set on its entries, an iterator on its set.
    pub fn decref(&mut self, h: usize)
        requires
            old(self)@.objects_wf(),
            old(self)@.valid(h),
        ensures
            final(self)@.same_objects(old(self)@),
            final(self)@.pending == old(self)@.pending,
            final(self)@.objects_wf(),
            final(self)@.refcnt(h) == dec(old(self)@.refcnt(h)),
            old(self)@.is_set(h) ==> final(self)@.dropped_set(old(self)@, h),
            !old(self)@.is_set(h) && !old(self)@.is_set_iter(h) ==> final(self)@.recounted(old(self)@, h, dec(old(self)@.refcnt(h))),
            old(self)@.is_set_iter(h) && old(self)@.refcnt(h) != 1 ==> final(self)@.recounted(old(self)@, h, dec(old(self)@.refcnt(h))),
            old(self)@.is_set_iter(h) && old(self)@.refcnt(h) == 1 ==> ({
                let s = old(self)@.slots[h as int].obj->SetIter_0;
                final(self)@.refcnt(s) == dec(old(self)@.refcnt(s))
            }),
    {
        let ghost h0 = self@;
        if self.is_frozenset(h) {
            self.decref_set(h);
        } else {
            let c = self.refcnt_at(h);
            let it = self.iter_target(h);
            self.decref_one(h);
            if c == 1 {
                match it {
                    Some(s) => {
                        proof { lemma_objects_wf_same_objects(h0, self@); }
                        self.decref_set(s);
                    },
                    None => {},
                }
            }
        }
        proof { lemma_objects_wf_same_objects(h0, self@); }
    }

    /// The set that `h` walks, when `h` is a generic iterator.
    fn iter_target(&self, h: usize) -> (r: Option<usize>)
        requires
            self@.objects_wf(),
            self@.valid(h),
        ensures
            r is None <==> !self@.is_set_iter(h),
            r matches Some(s) ==> s == self@.slots[h as int].obj->SetIter_0 && self@.is_set(s) && s != h,
    {
        proof { self.lemma_view_slot(h); }
        match &self.objects[h].object {
            Object::SetIter(s, _) => {
                assert(self@.is_set_iter(h));
                Some(*s)
            },
            _ => None,
        }
    }

    /// A new generic iterator over set `h`, positioned at its first entry; it
    /// holds an ownership unit on the set.
    pub fn object_get_iter(&mut self, h: usize) -> (it: usize)
        requires
            old(self)@.wf(),
            old(self)@.is_set(h),
        ensures
            final(self)@.wf(),
            it == old(self)@.slots.len(),
            final(self)@.slots == old(self)@.slots
                .update(h as int, SlotView { obj: old(self)@.slots[h as int].obj, refcnt: inc(old(self)@.refcnt(h)) })
                .push(SlotView { obj: ObjectView::SetIter(h, 0), refcnt: 1 }),
    {
        self.incref(h);
        let ghost h1 = self@;
        proof { lemma_objects_wf_same_objects(old(self)@, h1); }
        let it = self.allocate(Object::SetIter(h, 0));
        proof {
            lemma_objects_wf_push(h1, self@, ObjectView::SetIter(h, 0));
        }
        it
    }

    /// Advances the generic iterator `it`: the entry at its position, as a
    /// new reference, with the position moved past it; `None` at the end.
    pub fn iter_next(&mut self, it: usize) -> (r: Option<usize>)
        requires
            old(self)@.wf(),
            old(self)@.is_set_iter(it),
        ensures
            final(self)@.wf(),
            ({
                let s = old(self)@.slots[it as int].obj->SetIter_0;
                let p = old(self)@.slots[it as int].obj->SetIter_1;
                let es = old(self)@.entries(s);
                &&& p >= es.len() ==> r is None && final(self)@ == old(self)@
                &&& p < es.len() ==> {
                    &&& r == Some(es[p as int])
                    &&& p + 1 <= usize::MAX
                    &&& final(self)@.slots == old(self)@.slots
                        .update(it as int, SlotView { obj: ObjectView::SetIter(s, (p + 1) as usize), refcnt: old(self)@.refcnt(it) })
                        .update(es[p as int] as int, SlotView { obj: old(self)@.slots[es[p as int] as int].obj, refcnt: inc(old(self)@.refcnt(es[p as int])) })
                }
            }),
    {
        let ghost h0 = self@;
        proof { self.lemma_view_slot(it); }
        let (s, p) = match &self.objects[it].object {
            Object::SetIter(s, p) => (*s, *p),
            _ => (0, 0),
        };
        let mut pos = p;
        match self.set_next_entry(s, &mut pos) {
            Some(e) => {
                proof { assert(h0.is_int(h0.entries(s)[p as int])); }
                self.objects[it].object = Object::SetIter(s, pos);
                let ghost h1 = self@;
                proof {
                    assert(h1.slots =~= h0.slots.update(it as int, SlotView { obj: ObjectView::SetIter(s, pos), refcnt: h0.refcnt(it) }));
                    lemma_objects_wf_replace(h0, h1, it);
                }
                self.incref(e);
                proof { lemma_objects_wf_same_objects(h1, self@); }
                Some(e)
            },
            None => None,
        }
    }

} // impl Python

} // verus!
