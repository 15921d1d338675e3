//! Shared state of one search run: the found flag that workers poll, and the
//! write-once slot that keeps the key of the run's single winner.
use std::sync::atomic::{AtomicBool, Ordering};
use vstd::prelude::*;

verus! {

/// Set once some worker has found a key; read before every candidate.
pub struct FoundFlag {
    flag: AtomicBool,
}

impl FoundFlag {
    /// A flag that no worker has set yet.
    pub fn new() -> (r: FoundFlag) {
        FoundFlag { flag: AtomicBool::new(false) }
    }

    /// A relaxed read of the flag.
    pub fn is_found(&self) -> (r: bool) {
        self.flag.load(Ordering::Relaxed)
    }

    /// Sets the flag; `true` only for the call that turned it from unset to set.
    pub fn claim(&self) -> (won: bool) {
        let was_set = self.flag.swap(true, Ordering::AcqRel);
        !was_set
    }
}

/// Holds at most one key; once filled it never changes.
pub struct ResultSlot {
    key: Option<Vec<u8>>,
}

impl View for ResultSlot {
    type V = Option<Seq<u8>>;

    closed spec fn view(&self) -> Option<Seq<u8>> {
        match self.key {
            Some(k) => Some(k@),
            None => None,
        }
    }
}

impl ResultSlot {
    /// An empty slot.
    pub fn new() -> (r: ResultSlot)
        ensures
            r@ is None,
    {
        ResultSlot { key: None }
    }

    /// Writes `key` into an empty slot and returns `true`; a filled slot stays
    /// as it was and `false` comes back.
    pub fn fill(&mut self, key: Vec<u8>) -> (written: bool)
        ensures
            written == (old(self)@ is None),
            old(self)@ is None ==> final(self)@ == Some(key@),
            old(self)@ is Some ==> final(self)@ == old(self)@,
    {
        if self.key.is_some() {
            false
        } else {
            self.key = Some(key);
            true
        }
    }

    /// The key held, if any.
    pub fn key(&self) -> (r: Option<Vec<u8>>)
        ensures
            match r {
                Some(k) => self@ == Some(k@),
                None => self@ is None,
            },
    {
        match &self.key {
            Some(k) => Some(k.clone()),
            None => None,
        }
    }
}

} // verus!
