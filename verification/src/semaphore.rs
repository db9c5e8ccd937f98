//! The budget of memory for image contents that have been received but not yet served.

use vstd::prelude::*;

verus! {

/// The number of bytes in a megabyte.
pub const MB: usize = 1048576;

/// The mathematical state of a [`Semaphore`].
pub struct SemaphoreView {
    /// How much is free.
    pub count: int,
    /// How much was free at the beginning.
    pub start_val: int,
}

impl SemaphoreView {
    /// Whether `want` can be taken.
    pub open spec fn grants(self, want: int) -> bool {
        self.count >= want
    }

    /// The state after `want` has been taken.
    pub open spec fn acquired(self, want: int) -> SemaphoreView {
        SemaphoreView { count: self.count - want, ..self }
    }

    /// The state after `n` has been given back: never more is free than at the beginning.
    pub open spec fn released(self, n: int) -> SemaphoreView {
        SemaphoreView {
            count: if self.count + n <= self.start_val {
                self.count + n
            } else {
                self.start_val
            },
            ..self
        }
    }
}

/// A counting semaphore.
///
/// Threads that share one have to guard it with a lock, and to wait for a release whenever
/// [`acquire`](Self::acquire) does not grant what they want.
#[derive(Debug)]
pub struct Semaphore {
    count: isize,
    start_val: isize,
}

impl View for Semaphore {
    type V = SemaphoreView;

    closed spec fn view(&self) -> SemaphoreView {
        SemaphoreView { count: self.count as int, start_val: self.start_val as int }
    }
}

impl Semaphore {
    /// A semaphore of which `count` is free.
    pub fn new(count: isize) -> (s: Semaphore)
        ensures
            s@ == (SemaphoreView { count: count as int, start_val: count as int }),
    {
        Semaphore { count, start_val: count }
    }

    /// How much is free.
    pub fn available(&self) -> (count: isize)
        ensures
            count == self@.count,
    {
        self.count
    }

    /// Takes `want` if that much is free; otherwise takes nothing and says so.
    pub fn acquire(&mut self, want: isize) -> (granted: bool)
        requires
            old(self)@.grants(want as int) ==> old(self)@.count - want <= isize::MAX,
        ensures
            granted == old(self)@.grants(want as int),
            granted <==> want <= old(self)@.count,
            final(self)@ == if granted {
                old(self)@.acquired(want as int)
            } else {
                old(self)@
            },
    {
        if self.count < want {
            return false;
        }
        self.count = self.count - want;
        true
    }

    /// Gives back `to_release`, as far as no more is free then than at the beginning.
    pub fn release(&mut self, to_release: isize)
        requires
            old(self)@.count + to_release <= isize::MAX,
            to_release < 0 ==> isize::MIN <= old(self)@.count + to_release,
        ensures
            final(self)@ == old(self)@.released(to_release as int),
    {
        let count: isize = self.count + to_release;
        self.count = if count <= self.start_val {
            count
        } else {
            self.start_val
        };
    }
}

/// The memory budget in bytes: `memory_limit` megabytes, or else all whole megabytes of a
/// machine that has `ram_total` bytes of memory.
pub fn memory_budget(memory_limit: Option<usize>, ram_total: u64) -> (budget: isize)
    requires
        ram_total <= isize::MAX,
        memory_limit matches Some(limit) ==> limit * MB <= isize::MAX,
    ensures
        budget == match memory_limit {
            Some(limit) => limit * MB,
            None => ram_total as int - ram_total as int % MB as int,
        },
        memory_limit matches Some(limit) ==> budget == limit * 1048576,
        memory_limit is None ==> budget <= ram_total < budget + 1048576 && budget as int % 1048576
            == 0,
{
    match memory_limit {
        Some(limit) => (limit * MB) as isize,
        None => {
            let limit: isize = ram_total as isize / MB as isize;
            limit * MB as isize
        },
    }
}

/// What happens to a semaphore.
pub enum Use {
    /// Someone took this much.
    Acquire(int),
    /// Someone gave this much back.
    Release(int),
}

/// The state of a semaphore of `limit` after all of `uses`.
pub open spec fn state_after(limit: int, uses: Seq<Use>) -> SemaphoreView
    decreases uses.len(),
{
    if uses.len() == 0 {
        SemaphoreView { count: limit, start_val: limit }
    } else {
        match uses.last() {
            Use::Acquire(n) => state_after(limit, uses.drop_last()).acquired(n),
            Use::Release(n) => state_after(limit, uses.drop_last()).released(n),
        }
    }
}

/// How much was taken and not given back in the course of `uses`.
pub open spec fn in_use(uses: Seq<Use>) -> int
    decreases uses.len(),
{
    if uses.len() == 0 {
        0
    } else {
        match uses.last() {
            Use::Acquire(n) => in_use(uses.drop_last()) + n,
            Use::Release(n) => in_use(uses.drop_last()) - n,
        }
    }
}

/// Whether only what was granted was taken, and only what was in use was given back.
pub open spec fn orderly(limit: int, uses: Seq<Use>) -> bool
    decreases uses.len(),
{
    uses.len() > 0 ==> {
        let before = uses.drop_last();
        &&& orderly(limit, before)
        &&& match uses.last() {
            Use::Acquire(n) => 0 <= n && state_after(limit, before).grants(n),
            Use::Release(n) => 0 <= n <= in_use(before),
        }
    }
}

/// Memory use stays within the budget: as long as only memory that was granted is given back,
/// what is in use and what is free add up to the limit, so that no more than the limit is ever
/// in use.
pub proof fn law_memory_stays_within_budget(limit: int, uses: Seq<Use>)
    requires
        0 <= limit,
        orderly(limit, uses),
    ensures
        state_after(limit, uses).count == limit - in_use(uses),
        0 <= in_use(uses) <= limit,
    decreases uses.len(),
{
    if uses.len() > 0 {
        law_memory_stays_within_budget(limit, uses.drop_last());
        lemma_start_val(limit, uses.drop_last());
    }
}

/// Whether only what was granted was taken, whatever was given back.
pub open spec fn granted(limit: int, uses: Seq<Use>) -> bool
    decreases uses.len(),
{
    uses.len() > 0 ==> {
        let before = uses.drop_last();
        &&& granted(limit, before)
        &&& match uses.last() {
            Use::Acquire(n) => 0 <= n && state_after(limit, before).grants(n),
            Use::Release(n) => 0 <= n,
        }
    }
}

/// Even where memory is given back that had not been taken, as happens with small files, no more
/// is taken than the limit and all that has been given back.
pub proof fn law_memory_taken_is_bounded(limit: int, uses: Seq<Use>)
    requires
        0 <= limit,
        granted(limit, uses),
    ensures
        0 <= state_after(limit, uses).count <= limit - in_use(uses),
        in_use(uses) <= limit,
    decreases uses.len(),
{
    if uses.len() > 0 {
        law_memory_taken_is_bounded(limit, uses.drop_last());
        lemma_start_val(limit, uses.drop_last());
    }
}

/// The limit itself never changes.
proof fn lemma_start_val(limit: int, uses: Seq<Use>)
    ensures
        state_after(limit, uses).start_val == limit,
    decreases uses.len(),
{
    if uses.len() > 0 {
        lemma_start_val(limit, uses.drop_last());
    }
}

/// Giving back what was taken restores the semaphore.
pub proof fn law_release_undoes_acquire(s: SemaphoreView, want: int)
    requires
        s.count <= s.start_val,
    ensures
        s.acquired(want).released(want) == s,
{
}

/// However much is taken and given back, never more is free than at the beginning.
pub proof fn law_never_more_than_at_the_beginning(limit: int, uses: Seq<Use>)
    requires
        forall|i: int|
            #![trigger uses[i]]
            0 <= i < uses.len() ==> (uses[i] matches Use::Acquire(n) ==> 0 <= n),
    ensures
        state_after(limit, uses).count <= limit,
    decreases uses.len(),
{
    if uses.len() > 0 {
        let before = uses.drop_last();
        assert forall|i: int| #![trigger before[i]]
            0 <= i < before.len() implies (before[i] matches Use::Acquire(n) ==> 0 <= n) by {
            assert(before[i] == uses[i]);
        }
        law_never_more_than_at_the_beginning(limit, before);
        lemma_start_val(limit, before);
        assert(uses[uses.len() - 1] == uses.last());
    }
}

/// Whatever is free can be taken, all of it at once too, and nothing more can: what is wanted is granted
/// exactly if it is not more than what is free. Afterwards exactly that much less is free.
pub proof fn law_what_is_free_is_granted(s: SemaphoreView, want: int)
    ensures
        s.grants(want) <==> want <= s.count,
        s.acquired(want).count == s.count - want,
        s.acquired(want).start_val == s.start_val,
{
}

/// As long as nothing is in use, everything up to the limit is granted; and after any orderly use, all
/// of the limit that is not in use is.
pub proof fn law_the_whole_limit_can_be_used(limit: int, uses: Seq<Use>, want: int)
    requires
        0 <= limit,
        orderly(limit, uses),
    ensures
        state_after(limit, uses).grants(want) <==> want + in_use(uses) <= limit,
{
    law_memory_stays_within_budget(limit, uses);
}

/// What is given back is free afterwards, up to the limit, and no more than the limit is.
pub proof fn law_release_frees_up_to_the_limit(s: SemaphoreView, n: int, want: int)
    ensures
        s.released(n).start_val == s.start_val,
        s.released(n).grants(want) <==> want <= s.count + n && want <= s.start_val,
{
}

} // verus!
