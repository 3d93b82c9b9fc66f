//! The lock that a page table shares with its clones, from the crate `spin`.
use vstd::prelude::*;

verus! {

/// `spin::mutex::Mutex`: a lock around a value.
#[verifier::external_type_specification]
#[verifier::external_body]
#[verifier::reject_recursive_types(T)]
#[verifier::reject_recursive_types(R)]
pub struct ExMutex<T: ?Sized, R>(spin::mutex::Mutex<T, R>);

/// `spin::mutex::MutexGuard`: the right to the value while the lock is held.
#[verifier::external_type_specification]
#[verifier::external_body]
#[verifier::reject_recursive_types(T)]
pub struct ExMutexGuard<'a, T: 'a + ?Sized>(spin::mutex::MutexGuard<'a, T>);

/// `spin::relax::Spin`: how a lock of `spin` waits.
#[verifier::external_type_specification]
#[verifier::external_body]
pub struct ExSpin(spin::relax::Spin);

/// `spin::mutex::Mutex::new` makes a lock that nobody holds. Nothing is claimed of the lock: it
/// guards no value, and whether it is held is up to those who share it.
#[verifier::external_body]
pub(crate) fn new_lock() -> (lock: spin::mutex::Mutex<(), spin::relax::Spin>) {
    spin::mutex::Mutex::new(())
}

/// `spin::mutex::Mutex::lock` waits until nobody holds the lock and then holds it, until the
/// guard is dropped. Nothing is claimed of the guard. The call does not return while the lock is
/// held; no function of this library calls it with the lock held, or keeps the guard.
#[verifier::external_body]
pub(crate) fn hold<'a>(lock: &'a spin::mutex::Mutex<(), spin::relax::Spin>) -> (guard:
    spin::mutex::MutexGuard<'a, ()>)
{
    lock.lock()
}

} // verus!
