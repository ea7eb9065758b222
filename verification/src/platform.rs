//! The platform that the program runs on.
use vstd::prelude::*;

verus! {

/// The platform of a desktop operating system, with its file system and
/// network.
pub struct DefaultPlatform {}

impl DefaultPlatform {
    pub fn init() -> (p: DefaultPlatform)
        ensures
            p == (DefaultPlatform {}),
    {
        DefaultPlatform {}
    }
}

} // verus!
