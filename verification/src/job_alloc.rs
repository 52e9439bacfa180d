use vstd::prelude::*;

verus! {

/// Issues job identities: each one larger than every identity issued before.
pub struct JobAlloc {
    last_id: u32,
}

impl JobAlloc {
    /// The largest identity issued so far; 0 when none was issued.
    pub closed spec fn last(&self) -> nat {
        self.last_id as nat
    }

    /// No identity lies above the largest that the identity space holds.
    pub proof fn lemma_last_bound(&self)
        ensures
            self.last() <= u32::MAX,
    {
    }

    pub fn new() -> (ja: JobAlloc)
        ensures
            ja.last() == 0,
    {
        JobAlloc { last_id: 0 }
    }

    /// An allocator that goes on behind the identity `last`.
    pub fn from_last(last: u32) -> (ja: JobAlloc)
        ensures
            ja.last() == last,
    {
        JobAlloc { last_id: last }
    }

    /// Hands out the next identity, or `None` once the identity space is used up.
    pub fn alloc_id(&mut self) -> (id: Option<u32>)
        ensures
            old(self).last() < u32::MAX ==> id == Some((old(self).last() + 1) as u32)
                && final(self).last() == old(self).last() + 1,
            old(self).last() >= u32::MAX ==> id.is_none() && final(self).last() == old(self).last(),
    {
        if self.last_id < u32::MAX {
            self.last_id = self.last_id + 1;
            Some(self.last_id)
        } else {
            None
        }
    }
}

} // verus!
