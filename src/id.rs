//! Typed row ids: an integer tagged with the kind of row it names.

use core::marker::PhantomData;
use vstd::prelude::*;

verus! {

/// The id of a row of kind `T`.
#[derive(Debug)]
pub struct Id<T>(pub i32, pub PhantomData<T>);

impl<T> Id<T> {
    pub fn new(id: i32) -> (r: Id<T>)
        ensures
            r.0 == id,
    {
        Id(id, PhantomData)
    }

    pub fn get(self) -> (r: i32)
        ensures
            r == self.0,
    {
        self.0
    }
}

impl<T> Clone for Id<T> {
    fn clone(&self) -> (r: Id<T>)
        ensures
            r.0 == self.0,
    {
        Id(self.0, PhantomData)
    }
}

impl<T> Copy for Id<T> {

}

} // verus!
