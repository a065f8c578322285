//! The working horse of the crate: the path operations as methods, so a
//! caller just brings the trait into scope and uses them on a tree value.

use vstd::prelude::*;

use crate::basic;
use crate::error::Error;
use crate::model::spec_nav;
use crate::model::spec_set;
use crate::model::spec_upsert;
use crate::path::spec_segments;
use crate::path::PathSeparator;
use crate::value::SpecValue;
use crate::value::Value;

verus! {

/// Path-addressed access as methods of the tree value itself.
pub trait DataPathExt: View<V = SpecValue> + Sized {
    /// A shared reference to the node at `path` inside `self`, or `None`
    /// where the path resolves to nothing.
    fn path<'a>(&'a self, path: &str, sep: &PathSeparator) -> (r: Option<&'a Self>)
        ensures
            ({
                let target = spec_nav(self@, spec_segments(path@, sep@));
                &&& r is Some <==> target is Some
                &&& r is Some ==> r.unwrap()@ == target.unwrap()
            }),
    ;

    /// An exclusive reference to the node at `path` inside `self`, or
    /// `None` where the path resolves to nothing, in which case `self` is
    /// left as it was.
    fn path_mut<'a>(&'a mut self, path: &str, sep: &PathSeparator) -> (r: Option<&'a mut Self>)
        ensures
            ({
                let target = spec_nav(old(self)@, spec_segments(path@, sep@));
                &&& r is Some <==> target is Some
                &&& target is None ==> final(self)@ == old(self)@
                &&& target is Some ==> (*r.unwrap())@ == target.unwrap() && final(self)@
                    == spec_set(
                    old(self)@,
                    spec_segments(path@, sep@),
                    (*final(r.unwrap()))@,
                )
            }),
    ;

    /// Update the node at `path` inside `self` with `value`, or create the
    /// path if it does not exist and place `value` there.
    fn update_or_create(&mut self, path: &str, value: Self, sep: &PathSeparator) -> (r: Result<
        (),
        Error,
    >)
        ensures
            ({
                let target = spec_upsert(old(self)@, spec_segments(path@, sep@), value@);
                &&& r is Ok <==> target is Some
                &&& r is Ok ==> final(self)@ == target.unwrap()
                &&& r is Err ==> final(self)@ == old(self)@ && (r matches Err(
                    Error::InvalidDataPath(p),
                ) && p@ == path@)
            }),
    ;
}

impl DataPathExt for Value {
    fn path<'a>(&'a self, path: &str, sep: &PathSeparator) -> (r: Option<&'a Value>) {
        basic::get(self, path, sep)
    }

    fn path_mut<'a>(&'a mut self, path: &str, sep: &PathSeparator) -> (r: Option<&'a mut Value>) {
        basic::get_mut(self, path, sep)
    }

    fn update_or_create(&mut self, path: &str, value: Value, sep: &PathSeparator) -> (r: Result<
        (),
        Error,
    >) {
        basic::update_or_create(self, path, value, sep)
    }
}

} // verus!
