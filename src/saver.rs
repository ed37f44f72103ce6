use vstd::prelude::*;

use crate::read::Read;
use crate::store::{fresh_reads, numbered, DBError, MemStore};

verus! {

/// The inbox that reader sessions hand their reads to. Each drain writes what
/// gathered in one transaction and says whether the sightings processor is to
/// be woken.
pub struct ReadSaver {
    pub inbox: Vec<Read>,
}

impl ReadSaver {
    pub fn new() -> (s: ReadSaver)
        ensures
            s.inbox@.len() == 0,
    {
        ReadSaver { inbox: Vec::new() }
    }

    /// Queues a read for the next drain.
    pub fn push(&mut self, r: Read)
        ensures
            final(self).inbox@ == old(self).inbox@.push(r),
    {
        self.inbox.push(r);
    }

    /// Saves the queued reads in one transaction and empties the inbox.
    /// Returns whether any read was stored, that is, whether the sightings
    /// processor is to be notified. On failure the reads stay queued.
    pub fn drain(&mut self, store: &mut MemStore) -> (r: Result<bool, DBError>)
        requires
            old(store).reads_wf(),
        ensures
            final(store).reads_wf(),
            old(store).next_id as int + old(self).inbox@.len() <= u64::MAX ==> r is Ok,
            r is Err ==> final(self).inbox == old(self).inbox && final(store).reads == old(store).reads,
            r matches Ok(notify) ==> {
                let f = fresh_reads(old(store).reads@, old(self).inbox@);
                &&& final(self).inbox@.len() == 0
                &&& final(store).reads@ == old(store).reads@ + numbered(f, old(store).next_id)
                &&& notify == (f.len() > 0)
            },
    {
        match store.save_reads(&self.inbox) {
            Ok(n) => {
                self.inbox = Vec::new();
                Ok(n > 0)
            },
            Err(e) => Err(e),
        }
    }
}

} // verus!
