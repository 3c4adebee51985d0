//! A deadlock-free resource-arbitration engine: a fixed population of agents
//! contends for exclusive access to a ring of shared resources, acquiring
//! always in ascending id order so that no circular wait can form.
//!
//! The library models each resource's coordinator (availability flag plus a
//! FIFO wait queue), the agents' acquire-hold-release cycle, and a
//! deterministic round-robin simulation of the whole system, together with
//! proofs of mutual exclusion, FIFO fairness, exactly-once cycling, and
//! deadlock freedom. A small collection of standalone verified utilities
//! (greedy coin change, list insertion, a salad shuffler) lives alongside.

pub mod agent;
pub mod change;
pub mod fruit;
pub mod list;
pub mod person;
pub mod resource;
pub mod ring;
pub mod sim;
