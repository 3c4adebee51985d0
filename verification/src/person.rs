//! A person record: a name and an age, usable as a hash-map key.

use vstd::prelude::*;

verus! {

/// A named person of a given age.
#[derive(Debug, PartialEq, Eq, Hash)]
pub struct Person {
    pub name: String,
    pub age: u8,
}

impl Person {
    /// A person with exactly the given name and age.
    pub fn new(name: String, age: u8) -> (p: Person)
        ensures
            p.name@ == name@,
            p.age == age,
    {
        Person { name, age }
    }
}

} // verus!
