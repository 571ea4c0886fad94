use frozenset_bridge::entry_iter::BoundFrozenSetIterator;
use frozenset_bridge::frozenset::{PyFrozenSet, PyFrozenSetBuilder};
use frozenset_bridge::ownership::error_on_minusone;
use frozenset_bridge::protocol_iter;
use frozenset_bridge::runtime::{ExceptionKind, Python};

#[test]
fn test_frozenset_new_and_len() {
    let mut py = Python::new();
    let set = PyFrozenSet::new(&mut py, &[1]).unwrap();
    assert_eq!(1, set.len(&py));

    let v = vec![1];
    assert!(PyFrozenSet::new(&mut py, &[v]).is_err());
}

#[test]
fn test_frozenset_empty() {
    let mut py = Python::new();
    let set = PyFrozenSet::empty(&mut py).unwrap();
    assert_eq!(0, set.len(&py));
    assert!(set.is_empty(&py));
}

#[test]
fn test_frozenset_contains() {
    let mut py = Python::new();
    let set = PyFrozenSet::new(&mut py, &[1]).unwrap();
    assert!(set.contains(&mut py, 1).unwrap());
}

#[test]
fn test_frozenset_iter() {
    let mut py = Python::new();
    let set = PyFrozenSet::new(&mut py, &[1]).unwrap();

    // iter method
    let mut it = set.iter(&mut py);
    while let Some(el) = it.next(&mut py) {
        assert_eq!(1i64, el.extract_i64(&py).unwrap());
    }

    // iteration that takes over the set
    let mut it = set.into_iter();
    while let Some(el) = it.next(&mut py) {
        assert_eq!(1i64, el.extract_i64(&py).unwrap());
    }
}

#[test]
fn test_frozenset_iter_size_hint() {
    let mut py = Python::new();
    let set = PyFrozenSet::new(&mut py, &[1]).unwrap();
    let mut iter = set.iter(&mut py);

    // Exact size
    assert_eq!(iter.len(&py), 1);
    assert_eq!(iter.size_hint(&py), (1, Some(1)));
    iter.next(&mut py);
    assert_eq!(iter.len(&py), 0);
    assert_eq!(iter.size_hint(&py), (0, Some(0)));
}

#[test]
fn frozenset_test_frozenset_iter_size_hint() {
    let mut py = Python::new();
    let set = PyFrozenSet::new(&mut py, &[1]).unwrap();
    let iter = protocol_iter::BoundFrozenSetIterator::new(&mut py, set);

    // No known bounds
    assert_eq!(iter.size_hint(), (0, None));
}

#[test]
fn test_frozenset_builder() {
    let mut py = Python::new();
    let mut builder = PyFrozenSetBuilder::new(&mut py).unwrap();

    // add an item
    builder.add(&mut py, 1).unwrap();
    builder.add(&mut py, 2).unwrap();
    builder.add(&mut py, 2).unwrap();

    // finalize it
    let set = builder.finalize();

    assert!(set.contains(&mut py, 1).unwrap());
    assert!(set.contains(&mut py, 2).unwrap());
    assert!(!set.contains(&mut py, 3).unwrap());
}

#[test]
fn duplicates_coalesce_in_new() {
    let mut py = Python::new();
    let set = PyFrozenSet::new(&mut py, &[3i64, 1, 3, 2, 1, 3]).unwrap();
    assert_eq!(3, set.len(&py));
    assert!(!set.is_empty(&py));
    let mut keys = Vec::new();
    let mut it = set.iter(&mut py);
    while let Some(el) = it.next(&mut py) {
        keys.push(el.extract_i64(&py).unwrap());
    }
    assert_eq!(keys, vec![3, 1, 2]);
}

#[test]
fn empty_input_gives_empty_set() {
    let mut py = Python::new();
    let none: [i32; 0] = [];
    let set = PyFrozenSet::new(&mut py, &none).unwrap();
    assert!(set.is_empty(&py));
}

#[test]
fn membership_of_inserted_and_absent_keys() {
    let mut py = Python::new();
    let set = PyFrozenSet::new(&mut py, &[10i64, -4, 7]).unwrap();
    for k in [10i64, -4, 7] {
        assert!(set.contains(&mut py, k).unwrap());
    }
    for k in [0i64, 4, -10, i64::MAX, i64::MIN] {
        assert!(!set.contains(&mut py, k).unwrap());
    }
}

#[test]
fn contains_of_unhashable_key_fails() {
    let mut py = Python::new();
    let set = PyFrozenSet::new(&mut py, &[1]).unwrap();
    let e = set.contains(&mut py, vec![1i64]).unwrap_err();
    assert_eq!(e.kind, ExceptionKind::TypeError);
    // the failure was fetched: the next call is not affected by it
    assert!(set.contains(&mut py, 1).unwrap());
}

#[test]
fn contains_releases_the_converted_key() {
    let mut py = Python::new();
    let set = PyFrozenSet::new(&mut py, &[1]).unwrap();
    let before = py.object_count();
    assert!(!set.contains(&mut py, 5).unwrap());
    assert_eq!(py.object_count(), before + 1);
    assert_eq!(py.refcnt_at(before), 0);
}

#[test]
fn iteration_counts_down_and_stays_exhausted() {
    let mut py = Python::new();
    let set = PyFrozenSet::new(&mut py, &[5, 6, 7, 8]).unwrap();
    let mut it = set.iter(&mut py);
    let mut seen = 0;
    assert_eq!(it.len(&py), 4);
    while let Some(el) = it.next(&mut py) {
        seen += 1;
        assert_eq!(it.len(&py), 4 - seen);
        assert_eq!(py.refcnt_at(el.as_ptr()), 2);
    }
    assert_eq!(seen, 4);
    for _ in 0..3 {
        assert!(it.next(&mut py).is_none());
        assert_eq!(it.size_hint(&py), (0, Some(0)));
    }
}

#[test]
fn generic_iteration_yields_every_key_once() {
    let mut py = Python::new();
    let set = PyFrozenSet::new(&mut py, &[9, 8, 9, 7]).unwrap();
    let mut it = protocol_iter::BoundFrozenSetIterator::new(&mut py, set);
    let mut keys = Vec::new();
    while let Some(el) = it.next(&mut py) {
        keys.push(el.extract_i64(&py).unwrap());
    }
    assert_eq!(keys, vec![9, 8, 7]);
    assert!(it.next(&mut py).is_none());
    assert_eq!(it.size_hint(), (0, None));
}

#[test]
fn independent_iterators_over_one_set() {
    let mut py = Python::new();
    let set = PyFrozenSet::new(&mut py, &[1, 2]).unwrap();
    let mut a = set.iter(&mut py);
    let mut b = set.iter(&mut py);
    assert_eq!(a.next(&mut py).unwrap().extract_i64(&py).unwrap(), 1);
    assert_eq!(b.next(&mut py).unwrap().extract_i64(&py).unwrap(), 1);
    assert_eq!(a.next(&mut py).unwrap().extract_i64(&py).unwrap(), 2);
    assert_eq!(a.len(&py), 0);
    assert_eq!(b.len(&py), 1);
    assert_eq!(py.refcnt_at(set.as_ptr()), 3);
}

#[test]
fn builder_coalesces_and_keeps_keys_after_failure() {
    let mut py = Python::new();
    let mut builder = PyFrozenSetBuilder::new(&mut py).unwrap();
    builder.add(&mut py, 1).unwrap();
    let e = builder.add(&mut py, vec![2i32]).unwrap_err();
    assert_eq!(e.kind, ExceptionKind::TypeError);
    builder.add(&mut py, 2).unwrap();
    builder.add(&mut py, 2).unwrap();
    let set = builder.finalize();
    assert_eq!(set.len(&py), 2);
    assert!(set.contains(&mut py, 1).unwrap());
    assert!(set.contains(&mut py, 2).unwrap());
    assert!(!set.contains(&mut py, 3).unwrap());
}

#[test]
fn failed_new_releases_everything_it_made() {
    let mut py = Python::new();
    let before = py.object_count();
    let e = PyFrozenSet::new(&mut py, &[vec![1i64], vec![2]]).err().unwrap();
    assert_eq!(e.kind, ExceptionKind::TypeError);
    assert!(py.object_count() > before);
    for h in before..py.object_count() {
        assert_eq!(py.refcnt_at(h), 0);
    }
}

#[test]
fn failed_new_after_some_keys_releases_them() {
    let mut py = Python::new();
    let keep = PyFrozenSet::new(&mut py, &[100]).unwrap();
    let before = py.object_count();
    let r = PyFrozenSet::new(&mut py, &[vec![1i32], vec![2], vec![]]);
    assert!(r.is_err());
    let r = PyFrozenSet::new(&mut py, &[1i64, 2, 3]);
    let set = r.unwrap();
    set.release(&mut py);
    for h in before..py.object_count() {
        assert_eq!(py.refcnt_at(h), 0);
    }
    assert_eq!(py.refcnt_at(keep.as_ptr()), 1);
}

#[test]
fn round_trip_through_generic_object() {
    let mut py = Python::new();
    let set = PyFrozenSet::new(&mut py, &[4, 5]).unwrap();
    let any = set.into_any();
    let back = PyFrozenSet::downcast(any, &py).ok().unwrap();
    assert_eq!(back.len(&py), 2);
    assert!(back.contains(&mut py, 4).unwrap());
    assert!(back.contains(&mut py, 5).unwrap());
    assert!(!back.contains(&mut py, 6).unwrap());
}

#[test]
fn downcast_of_other_object_fails() {
    let mut py = Python::new();
    let set = PyFrozenSet::new(&mut py, &[4]).unwrap();
    let mut it = set.iter(&mut py);
    let key = it.next(&mut py).unwrap();
    let ptr = key.as_ptr();
    let back = PyFrozenSet::downcast(key, &py).err().unwrap();
    assert_eq!(back.as_ptr(), ptr);
}

#[test]
fn status_codes_map_to_results() {
    let mut py = Python::new();
    assert!(error_on_minusone(&mut py, 0).is_ok());
    assert!(error_on_minusone(&mut py, 1).is_ok());
    let e = error_on_minusone(&mut py, -1).unwrap_err();
    assert_eq!(e.kind, ExceptionKind::SystemError);
}

#[test]
fn releasing_an_iterator_releases_its_set_reference() {
    let mut py = Python::new();
    let set = PyFrozenSet::new(&mut py, &[1]).unwrap();
    let it = set.iter(&mut py);
    assert_eq!(py.refcnt_at(set.as_ptr()), 2);
    it.release(&mut py);
    assert_eq!(py.refcnt_at(set.as_ptr()), 1);
    let key_ptr = {
        let mut it2 = set.iter(&mut py);
        let k = it2.next(&mut py).unwrap();
        let p = k.as_ptr();
        k.release(&mut py);
        it2.release(&mut py);
        p
    };
    assert_eq!(py.refcnt_at(key_ptr), 1);
    set.release(&mut py);
    assert_eq!(py.refcnt_at(key_ptr), 0);
}

#[test]
fn fast_iterator_from_owned_set() {
    let mut py = Python::new();
    let set = PyFrozenSet::new(&mut py, &[2, 2]).unwrap();
    let mut it = BoundFrozenSetIterator::new(set);
    assert_eq!(it.size_hint(&py), (1, Some(1)));
    assert_eq!(it.next(&mut py).unwrap().extract_i64(&py).unwrap(), 2);
    assert!(it.next(&mut py).is_none());
}

#[test]
fn adding_to_a_shared_set_is_refused() {
    let mut py = Python::new();
    let set = PyFrozenSet::new(&mut py, &[1]).unwrap();
    let it = set.iter(&mut py);
    let key = py.new_int(2);
    assert_eq!(py.set_add(set.as_ptr(), key), -1);
    let e = py.err_fetch();
    assert_eq!(e.kind, ExceptionKind::SystemError);
    assert_eq!(set.len(&py), 1);
    it.release(&mut py);
    assert_eq!(py.set_add(set.as_ptr(), key), 0);
    assert_eq!(set.len(&py), 2);
}

#[test]
fn generic_iterator_holds_the_set_and_gives_it_back() {
    let mut py = Python::new();
    let set = PyFrozenSet::new(&mut py, &[1, 2]).unwrap();
    let sp = set.as_ptr();
    let extra = PyFrozenSet::new(&mut py, &[0]).unwrap();
    let _ = extra;
    let it = protocol_iter::BoundFrozenSetIterator::new(&mut py, set);
    assert_eq!(py.refcnt_at(sp), 1);
    it.release(&mut py);
    assert_eq!(py.refcnt_at(sp), 0);
}

#[test]
fn failed_new_stops_at_first_unhashable_element() {
    let mut py = Python::new();
    let before = py.object_count();
    let r = PyFrozenSet::new(&mut py, &[vec![1i64], vec![2], vec![3]]);
    assert!(r.is_err());
    // the set and the first element only
    assert_eq!(py.object_count(), before + 2);
    let ok = PyFrozenSet::new(&mut py, &[1i64, 1, 2]).unwrap();
    assert_eq!(py.object_count(), before + 2 + 4);
    assert_eq!(ok.len(&py), 2);
}
