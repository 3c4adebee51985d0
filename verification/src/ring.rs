//! Ring assignment: the pure mapping from an agent id to its two contended
//! resource ids, `left = id mod r` and `right = (id + 1) mod r`, together
//! with the ascending reordering that the deadlock-avoidance protocol uses.

use vstd::prelude::*;

verus! {

/// Why a simulation cannot be configured.
#[derive(Clone, Copy, Debug, PartialEq, Eq, Structural)]
pub enum ConfigError {
    /// The resource count was zero: the ring assignment would divide by zero.
    NoResources,
}

impl ConfigError {
    /// A human-readable description of the fault.
    pub fn describe(&self) -> (msg: &'static str)
        ensures
            msg@ == "the resource count must be at least 1"@,
    {
        match self {
            ConfigError::NoResources => "the resource count must be at least 1",
        }
    }
}

/// The two ring-assigned resource ids of one agent, both as assigned
/// (`left`/`right`) and reordered for acquisition (`first <= second`).
#[derive(Clone, Copy, Debug, PartialEq, Eq, Structural)]
pub struct Assignment {
    pub left: usize,
    pub right: usize,
    pub first: usize,
    pub second: usize,
}

/// Maps an agent id to its two neighbouring resources on the ring of `r`
/// resources. Fails exactly when `r == 0`; otherwise the result carries
/// `left = id % r`, `right = (id + 1) % r`, and the same pair reordered so
/// that `first <= second < r`.
pub fn assign(id: usize, r: usize) -> (res: Result<Assignment, ConfigError>)
    requires
        id < usize::MAX,
    ensures
        r == 0 <==> res is Err,
        res matches Err(e) ==> e == ConfigError::NoResources,
        res matches Ok(a) ==> {
            &&& a.left == id as int % r as int
            &&& a.right == (id + 1) % r as int
            &&& (a.first == a.left || a.first == a.right)
            &&& (a.second == a.left || a.second == a.right)
            &&& a.first <= a.second < r
            &&& (a.left != a.right ==> a.first < a.second && a.first != a.second)
        },
{
    if r == 0 {
        return Err(ConfigError::NoResources);
    }
    let left = id % r;
    let right = (id + 1) % r;
    let (first, second) = if left < right { (left, right) } else { (right, left) };
    Ok(Assignment { left, right, first, second })
}

} // verus!
