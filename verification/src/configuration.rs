//! The settings of the watcher.
use vstd::prelude::*;

verus! {

/// The names of the items that are worth a notification.
pub struct Configuration {
    pub loot_list: Vec<String>,
}

impl Configuration {
    /// The settings with the given wish list.
    pub fn new(loot_list: Vec<String>) -> (c: Self)
        ensures
            c.loot_list@ == loot_list@,
    {
        Configuration { loot_list }
    }
}

} // verus!
