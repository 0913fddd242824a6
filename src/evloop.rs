use vstd::prelude::*;

verus! {

/// One readiness event: the event bits and the token of the watcher.
#[derive(Debug, Clone, Copy)]
pub struct Event {
    pub events: u32,
    pub data: u64,
}

/// Hands out watcher tokens: a released token is reused first, the most
/// recently released one first; otherwise a new token follows the last one.
pub struct TokenFactory {
    recycled: Vec<u64>,
    next_new: u64,
}

impl TokenFactory {
    /// The released tokens waiting for reuse, the next one to reuse last.
    pub closed spec fn recycled(&self) -> Seq<u64> {
        self.recycled@
    }

    /// The last new token handed out, 0 before the first.
    pub closed spec fn last_new(&self) -> u64 {
        self.next_new
    }

    /// A factory that has handed out nothing.
    pub fn new() -> (r: TokenFactory)
        ensures
            r.recycled() == Seq::<u64>::empty(),
            r.last_new() == 0,
    {
        TokenFactory { recycled: Vec::new(), next_new: 0 }
    }

    /// The most recently released token, or else a new one, one past the last.
    pub fn acquire(&mut self) -> (r: u64)
        requires
            old(self).recycled().len() > 0 || old(self).last_new() < u64::MAX,
        ensures
            old(self).recycled().len() > 0 ==> r == old(self).recycled().last()
                && final(self).recycled() == old(self).recycled().drop_last()
                && final(self).last_new() == old(self).last_new(),
            old(self).recycled().len() == 0 ==> r == old(self).last_new() + 1
                && final(self).recycled() == old(self).recycled()
                && final(self).last_new() == r,
    {
        match self.recycled.pop() {
            Some(t) => t,
            None => {
                self.next_new = self.next_new + 1;
                self.next_new
            },
        }
    }

    /// Puts `token` back for reuse.
    pub fn release(&mut self, token: u64)
        ensures
            final(self).recycled() == old(self).recycled().push(token),
            final(self).last_new() == old(self).last_new(),
    {
        self.recycled.push(token);
    }
}

} // verus!
