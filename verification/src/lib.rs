//! A profile-to-process binding engine.
//!
//! The engine keeps a live mapping from logical application profiles (small
//! integers) to the OS process currently believed to run that profile, under
//! periodic polling of the process table.  It debounces missed detections,
//! assigns freshly launched profiles to unlabeled worker processes in FIFO
//! order, and fences a background reconciler away from profiles that a
//! foreground stop operation owns.
//!
//! All process I/O (enumeration, spawning, signalling) lives outside this
//! crate; the engine works on plain snapshots of the process table.

pub mod assoc;
pub mod dump;
pub mod engine;
pub mod extract;
pub mod laws;
pub mod model;
pub mod procs;
pub mod strutil;

use vstd::prelude::*;

verus! {

/// The greeting demo command.
pub fn greet(name: &str) -> (r: String)
    ensures
        r@ == "Hello, "@ + name@ + "! You've been greeted from Rust!"@,
{
    let mut r = String::from_str("Hello, ");
    r.append(name);
    r.append("! You've been greeted from Rust!");
    r
}

} // verus!
