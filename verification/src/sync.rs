//! The shared cells and locks that the eviction policies are built on.
//!
//! Nothing here is proved: each item states what is taken on trust of the
//! crate that it names. What another thread may have stored in a cell, or
//! left behind a lock, is unknown to the caller, so none of these items
//! promises anything about a value that it hands out.
use crate::function::eviction_set::EvictionSet;
use crossbeam::atomic::AtomicCell;
use parking_lot::lock_api::Mutex;
use parking_lot::{MutexGuard, RawMutex};
use vstd::prelude::*;

verus! {

/// `crossbeam::atomic::AtomicCell`, a cell that threads share and whose value
/// they load and store whole.
#[verifier::external_type_specification]
#[verifier::external_body]
#[verifier::reject_recursive_types(T)]
pub struct ExAtomicCell<T>(AtomicCell<T>);

/// `AtomicCell::new` makes a cell; nothing is claimed of it.
pub assume_specification<T>[ AtomicCell::<T>::new ](val: T) -> (cell: AtomicCell<T>)
;

/// `AtomicCell::store` returns; what the cell holds afterwards is up to the
/// threads that store into it.
pub assume_specification<T>[ AtomicCell::<T>::store ](cell: &AtomicCell<T>, val: T)
;

/// `AtomicCell::load` returns the value that some thread stored last; to the
/// caller it is any value.
pub assume_specification<T: Copy>[ AtomicCell::<T>::load ](cell: &AtomicCell<T>) -> (val: T)
;

/// `parking_lot::RawMutex`, the lock inside a `parking_lot::Mutex`.
#[verifier::external_type_specification]
#[verifier::external_body]
pub struct ExRawMutex(RawMutex);

/// `lock_api::Mutex`, of which `parking_lot::Mutex` is an instance: a value
/// that is reached only through the guard of a held lock.
#[verifier::external_type_specification]
#[verifier::external_body]
#[verifier::reject_recursive_types(R)]
#[verifier::reject_recursive_types(T)]
pub struct ExMutex<R, T: ?Sized>(Mutex<R, T>);

/// `Mutex::new` makes an unlocked mutex around `set`.
#[verifier::external_body]
pub(crate) fn new_set_mutex(set: EvictionSet) -> (mutex: Mutex<RawMutex, EvictionSet>) {
    Mutex::new(set)
}

/// The guard of a held lock on an eviction set, `parking_lot::MutexGuard`.
/// The lock is released when the guard goes out of scope.
#[verifier::external_body]
pub(crate) struct LockedSet<'a> {
    guard: MutexGuard<'a, EvictionSet>,
}

/// `Mutex::lock` blocks until the lock is free and takes it. It returns
/// unless the calling thread holds the lock already; the callers in this
/// crate release the lock before they return and call nothing of the client
/// while they hold it.
#[verifier::external_body]
pub(crate) fn lock_set<'a>(mutex: &'a Mutex<RawMutex, EvictionSet>) -> (locked: LockedSet<'a>) {
    LockedSet { guard: mutex.lock() }
}

/// `MutexGuard::deref_mut` gives access to the set behind the held lock, as
/// the last holder of the lock left it.
#[verifier::external_body]
pub(crate) fn locked_set<'a, 'b>(locked: &'a mut LockedSet<'b>) -> (set: &'a mut EvictionSet) {
    &mut *locked.guard
}

} // verus!
