//! One loot message found in memory, told apart from others by its checksum.
use std::cmp::Ordering;
use vstd::prelude::*;

verus! {

/// A message read out of memory: its text, and the checksum of the bytes
/// around it by which the same message is recognised in a later read.
#[derive(Debug, Clone)]
pub struct Message {
    pub content: String,
    pub magic_number: u32,
}

impl Message {
    /// The message with the given text and checksum.
    pub fn from(content: &str, magic_number: u32) -> (m: Self)
        ensures
            m.content@ == content@,
            m.magic_number == magic_number,
    {
        Self { content: content.to_owned(), magic_number }
    }
}

/// Two messages are the same message when their checksums agree, whatever
/// their text.
impl PartialEq for Message {
    fn eq(&self, other: &Message) -> (r: bool) {
        self.magic_number == other.magic_number
    }
}

impl vstd::std_specs::cmp::PartialEqSpecImpl for Message {
    open spec fn obeys_eq_spec() -> bool {
        true
    }

    open spec fn eq_spec(&self, other: &Message) -> bool {
        self.magic_number == other.magic_number
    }
}

impl Eq for Message {}

/// Messages are ordered by their checksums.
impl PartialOrd for Message {
    fn partial_cmp(&self, other: &Message) -> (r: Option<Ordering>) {
        if self.magic_number < other.magic_number {
            Some(Ordering::Less)
        } else if self.magic_number == other.magic_number {
            Some(Ordering::Equal)
        } else {
            Some(Ordering::Greater)
        }
    }
}

impl vstd::std_specs::cmp::PartialOrdSpecImpl for Message {
    open spec fn obeys_partial_cmp_spec() -> bool {
        true
    }

    open spec fn partial_cmp_spec(&self, other: &Message) -> Option<Ordering> {
        if self.magic_number < other.magic_number {
            Some(Ordering::Less)
        } else if self.magic_number == other.magic_number {
            Some(Ordering::Equal)
        } else {
            Some(Ordering::Greater)
        }
    }
}

} // verus!
