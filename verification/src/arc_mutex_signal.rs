//! A shared mutable cell: a value behind an `Arc<Mutex<_>>`, cloneable so
//! that several tasks can observe and overwrite it. What a read returns
//! depends on the other holders, so the contracts promise nothing about
//! the values; the cell only moves data.
use std::sync::Mutex;
use vstd::prelude::*;

verus! {

#[verifier::external_type_specification]
#[verifier::external_body]
#[verifier::reject_recursive_types(T)]
pub struct ExMutex<T: ?Sized>(Mutex<T>);

/// Relies on std::sync::Mutex::new: wraps the value in a fresh lock.
#[verifier::external_body]
fn mutex_new<T>(val: T) -> (r: Mutex<T>)
{
    Mutex::new(val)
}

/// Relies on std::sync::Mutex::lock: reads the current value under the
/// lock. A poisoned lock still yields the stored value.
#[verifier::external_body]
fn mutex_get<T: Copy>(m: &Mutex<T>) -> (r: T)
{
    match m.lock() {
        Ok(g) => *g,
        Err(p) => *p.into_inner(),
    }
}

/// Relies on std::sync::Mutex::lock: clones the current value under the
/// lock. A poisoned lock still yields the stored value.
#[verifier::external_body]
fn mutex_get_cloned<T: Clone>(m: &Mutex<T>) -> (r: T)
{
    match m.lock() {
        Ok(g) => g.clone(),
        Err(p) => p.into_inner().clone(),
    }
}

/// Relies on std::sync::Mutex::lock: overwrites the value under the lock.
/// A poisoned lock is still written through.
#[verifier::external_body]
fn mutex_set<T>(m: &Mutex<T>, new: T)
{
    match m.lock() {
        Ok(mut g) => {
            *g = new;
        },
        Err(p) => {
            *p.into_inner() = new;
        },
    }
}

/// A value in an `Arc<Mutex<_>>`: every clone is a handle onto the same
/// cell.
#[verifier::reject_recursive_types(T)]
pub struct AMSignal<T> {
    inner: std::sync::Arc<Mutex<T>>,
}

impl<T> AMSignal<T> {
    pub fn new(val: T) -> (r: AMSignal<T>) {
        AMSignal { inner: std::sync::Arc::new(mutex_new(val)) }
    }

    /// The value most recently stored by any holder of the cell.
    pub fn get(&self) -> T where T: Copy {
        mutex_get(&self.inner)
    }

    /// A clone of the value most recently stored by any holder.
    pub fn get_cloned(&self) -> T where T: Clone {
        mutex_get_cloned(&self.inner)
    }

    /// Overwrites the cell for every holder.
    pub fn set(&self, new: T) {
        mutex_set(&self.inner, new);
    }

    /// Another handle onto the same cell.
    pub fn clone(&self) -> (r: AMSignal<T>) {
        AMSignal { inner: self.inner.clone() }
    }
}

} // verus!
