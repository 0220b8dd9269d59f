//! A small extension for results whose failure must undo earlier steps.
//!
//! Constructors of low-level resources proceed in stages; when a later
//! stage fails, the stages already done must be wound back by hand, since
//! no finished value exists yet to be dropped. `cleanup` runs the undo
//! action exactly when the result is a failure and hands the result on.

use vstd::prelude::*;

verus! {

pub trait ResultExt<T, E>: Sized {
    /// Whether this value is the failure case.
    spec fn is_failure(&self) -> bool;

    /// Runs `clean` when the result is a failure; the result itself is
    /// handed back unchanged either way.
    fn cleanup<F: FnOnce() -> R, R>(self, clean: F) -> (r: Self)
        requires
            call_requires(clean, ()),
        ensures
            r == self,
            self.is_failure() ==> exists|rr: R| call_ensures(clean, (), rr),
    ;
}

impl<T, E> ResultExt<T, E> for Result<T, E> {
    open spec fn is_failure(&self) -> bool {
        self is Err
    }

    fn cleanup<F: FnOnce() -> R, R>(self, clean: F) -> (r: Self) {
        match &self {
            Err(_) => {
                let rr = clean();
                proof {
                    assert(call_ensures(clean, (), rr));
                }
            },
            _ => {},
        }
        self
    }
}

} // verus!
