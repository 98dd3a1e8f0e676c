//! Lists that documents write as `null` when empty, as the lone item when
//! there is one, and as a list otherwise.

use vstd::prelude::*;

verus! {

/// How a document writes a list.
#[derive(Debug, Clone, PartialEq, Eq)]
pub enum OneOrMany<T> {
    Null,
    One(T),
    Many(Vec<T>),
}

/// The items a written list holds.
pub open spec fn items_of<T>(r: OneOrMany<T>) -> Seq<T> {
    match r {
        OneOrMany::Null => Seq::empty(),
        OneOrMany::One(x) => seq![x],
        OneOrMany::Many(v) => v@,
    }
}

/// The written form of `r` as `to_written` gives it: a list of fewer than two
/// items becomes `null` or the lone item.
pub open spec fn normalized<T>(r: OneOrMany<T>) -> OneOrMany<T> {
    match r {
        OneOrMany::Many(v) => if v@.len() == 0 {
            OneOrMany::Null
        } else if v@.len() == 1 {
            OneOrMany::One(v@[0])
        } else {
            r
        },
        _ => r,
    }
}

/// The items of a written list, in order.
pub fn into_items<T>(r: OneOrMany<T>) -> (v: Vec<T>)
    ensures
        v@ == items_of(r),
{
    match r {
        OneOrMany::Null => Vec::new(),
        OneOrMany::One(x) => {
            let mut v = Vec::new();
            v.push(x);
            assert(v@ =~= seq![x]);
            v
        },
        OneOrMany::Many(v) => v,
    }
}

/// How a list is written: `null` when empty, the item alone when there is one,
/// a list otherwise.
pub fn to_written<T>(v: Vec<T>) -> (r: OneOrMany<T>)
    ensures
        items_of(r) == v@,
        v@.len() == 0 ==> r is Null,
        v@.len() == 1 ==> r is One,
        v@.len() >= 2 ==> r is Many,
        normalized(r) == r,
{
    if v.len() >= 2 {
        return OneOrMany::Many(v);
    }
    let mut v = v;
    match v.pop() {
        None => OneOrMany::Null,
        Some(x) => {
            OneOrMany::One(x)
        },
    }
}

/// Reading a written list and writing its items again gives its normalized
/// form, which holds the same items and is its own normalized form.
pub proof fn lemma_normalized_same_items<T>(r: OneOrMany<T>)
    ensures
        items_of(normalized(r)) == items_of(r),
        normalized(normalized(r)) == normalized(r),
{
    if let OneOrMany::Many(x) = r {
        if x@.len() == 1 {
            assert(seq![x@[0]] =~= x@);
        } else if x@.len() == 0 {
            assert(x@ =~= Seq::<T>::empty());
        }
    }
}

} // verus!
