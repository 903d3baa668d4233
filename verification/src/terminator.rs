//! When the program ends for want of clients.

use vstd::prelude::*;

verus! {

/// How many sessions there are, and how many there have been. Both counts wrap around.
#[derive(Debug, PartialEq, Eq, Clone, Copy, Structural)]
pub struct SessionCounts {
    pub live: u32,
    pub total: u32,
}

impl SessionCounts {
    /// No session has begun.
    pub fn new() -> (r: SessionCounts)
        ensures
            r == (SessionCounts { live: 0, total: 0 }),
    {
        SessionCounts { live: 0, total: 0 }
    }

    /// The counts when one more session has begun.
    pub open spec fn begun(self) -> SessionCounts {
        SessionCounts { live: self.live.wrapping_add(1), total: self.total.wrapping_add(1) }
    }

    /// A session begins.
    pub fn begin(&mut self)
        ensures
            *final(self) == old(self).begun(),
    {
        self.live = self.live.wrapping_add(1);
        self.total = self.total.wrapping_add(1);
    }

    /// A session ends. If it was the last one, it is handed how many sessions there have been: if
    /// there are no more when some time has gone by, the program ends.
    pub fn end(&mut self) -> (r: Option<u32>)
        ensures
            *final(self) == (SessionCounts { live: old(self).live.wrapping_sub(1), ..*old(self) }),
            r == if old(self).live == 1 {
                Some(old(self).total)
            } else {
                None::<u32>
            },
    {
        let last = self.live == 1;
        self.live = self.live.wrapping_sub(1);
        if last {
            Some(self.total)
        } else {
            None
        }
    }

    /// Whether the program ends, as no session has begun since there were `saved` of them.
    pub fn should_exit(&self, saved: u32) -> (r: bool)
        ensures
            r == (self.total == saved),
    {
        self.total == saved
    }
}

/// The counts when `n` more sessions have begun.
pub open spec fn begun_times(c: SessionCounts, n: nat) -> SessionCounts
    decreases n,
{
    if n == 0 {
        c
    } else {
        begun_times(c, (n - 1) as nat).begun()
    }
}

/// The program does not end when some sessions have begun since, as long as there were not as many of
/// them as can be counted. (When exactly 2 to the 32 have begun, the count is what it was.)
pub proof fn law_new_sessions_are_noticed(c: SessionCounts, n: nat)
    requires
        0 < n <= u32::MAX,
    ensures
        begun_times(c, n).total != c.total,
{
    lemma_total(c, n);
}

proof fn lemma_total(c: SessionCounts, n: nat)
    requires
        n <= u32::MAX,
    ensures
        begun_times(c, n).total == if c.total + n <= u32::MAX {
            c.total + n
        } else {
            c.total + n - 0x1_0000_0000
        },
    decreases n,
{
    if n > 0 {
        lemma_total(c, (n - 1) as nat);
    }
}

/// Every session that begins is counted once, among those that live and among those that have been.
pub proof fn law_sessions_are_counted(c: SessionCounts, n: nat)
    requires
        c.live + n <= u32::MAX,
        c.total + n <= u32::MAX,
    ensures
        begun_times(c, n).live == c.live + n,
        begun_times(c, n).total == c.total + n,
    decreases n,
{
    if n > 0 {
        law_sessions_are_counted(c, (n - 1) as nat);
    }
}

} // verus!
