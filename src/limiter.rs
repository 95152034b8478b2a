use vstd::prelude::*;

verus! {

/// The admission state of a load limiter: how many permits are out, and how
/// many may be out at once.
pub struct PermitCounter {
    outstanding: usize,
    limit: usize,
}

impl PermitCounter {
    /// Permits currently held.
    pub closed spec fn outstanding_view(&self) -> nat {
        self.outstanding as nat
    }

    /// The largest number of permits that may be held at once.
    pub closed spec fn limit_view(&self) -> nat {
        self.limit as nat
    }

    /// The limit is positive and never exceeded.
    pub open spec fn wf(&self) -> bool {
        &&& self.limit_view() > 0
        &&& self.outstanding_view() <= self.limit_view()
    }

    /// `next` is this counter with one more permit out.
    pub open spec fn took_permit(&self, next: &PermitCounter) -> bool {
        &&& next.limit_view() == self.limit_view()
        &&& next.outstanding_view() == self.outstanding_view() + 1
    }

    /// `next` is this counter with one permit returned.
    pub open spec fn returned_permit(&self, next: &PermitCounter) -> bool {
        &&& next.limit_view() == self.limit_view()
        &&& next.outstanding_view() + 1 == self.outstanding_view()
    }

    /// A counter with no permit out; `None` when `limit` is zero.
    pub fn new(limit: usize) -> (r: Option<PermitCounter>)
        ensures
            limit == 0 <==> r.is_none(),
            r matches Some(c) ==> c.wf() && c.limit_view() == limit && c.outstanding_view() == 0,
    {
        if limit == 0 {
            None
        } else {
            Some(PermitCounter { outstanding: 0, limit })
        }
    }

    pub fn outstanding(&self) -> (r: usize)
        ensures
            r == self.outstanding_view(),
    {
        self.outstanding
    }

    pub fn limit(&self) -> (r: usize)
        ensures
            r == self.limit_view(),
    {
        self.limit
    }

    /// Takes a permit if fewer than `limit` are out; reports whether it did.
    pub fn try_acquire(&mut self) -> (r: bool)
        requires
            old(self).wf(),
        ensures
            final(self).wf(),
            r == (old(self).outstanding_view() < old(self).limit_view()),
            r ==> old(self).took_permit(&*final(self)),
            !r ==> *final(self) == *old(self),
    {
        if self.outstanding < self.limit {
            self.outstanding = self.outstanding + 1;
            true
        } else {
            false
        }
    }

    /// Returns a permit that was taken.
    pub fn release(&mut self)
        requires
            old(self).wf(),
            old(self).outstanding_view() > 0,
        ensures
            final(self).wf(),
            old(self).returned_permit(&*final(self)),
    {
        self.outstanding = self.outstanding - 1;
    }
}

/// Whatever sequence of acquisitions and releases has run, a well-formed
/// counter never has more permits out than its limit.
pub proof fn lemma_permits_within_limit(c: PermitCounter)
    requires
        c.wf(),
    ensures
        c.outstanding_view() <= c.limit_view(),
{
}

/// A successful acquisition followed by its release leaves the counter as it
/// was, so the same permit can be taken again.
pub proof fn lemma_release_restores(c0: PermitCounter, c1: PermitCounter, c2: PermitCounter)
    requires
        c0.wf(),
        c0.took_permit(&c1),
        c1.wf(),
        c1.returned_permit(&c2),
    ensures
        c2.outstanding_view() == c0.outstanding_view(),
        c2.limit_view() == c0.limit_view(),
        c2.outstanding_view() < c2.limit_view(),
{
}

} // verus!
