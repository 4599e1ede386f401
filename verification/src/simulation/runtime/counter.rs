use vstd::prelude::*;

verus! {

/// A monotonically increasing source of identifiers.
pub struct Counter {
    count: u64,
}

impl View for Counter {
    type V = nat;

    /// The identifier that the next call of `next` hands out.
    closed spec fn view(&self) -> nat {
        self.count as nat
    }
}

impl Counter {
    pub fn new() -> (c: Self)
        ensures
            c@ == 0,
    {
        Self { count: 0 }
    }

    /// The counter after handing out one identifier.
    pub closed spec fn advanced(&self) -> Counter {
        Counter { count: (self.count + 1) as u64 }
    }

    /// Advancing adds one to the next identifier.
    pub proof fn lemma_advanced(&self)
        requires
            self.can_advance(),
        ensures
            self.advanced()@ == self@ + 1,
    {
    }

    /// Whether another identifier can be handed out without overflowing.
    pub open spec fn can_advance(&self) -> bool {
        self@ < u64::MAX
    }

    /// Hands out the current identifier and advances by one.
    /// Running out of identifiers is a fault, so the counter must not be exhausted.
    #[allow(clippy::should_implement_trait)]
    pub fn next(&mut self) -> (id: u64)
        requires
            old(self).can_advance(),
        ensures
            id == old(self)@,
            final(self)@ == old(self)@ + 1,
            *final(self) == old(self).advanced(),
    {
        let id = self.count;
        self.count = self.count + 1;
        id
    }

    /// Whether `next` may be called.
    pub fn has_next(&self) -> (b: bool)
        ensures
            b == self.can_advance(),
    {
        self.count < u64::MAX
    }
}

impl Default for Counter {
    fn default() -> (c: Self)
        ensures
            c@ == 0,
    {
        Self::new()
    }
}

/// Identifiers never repeat: ids handed out by successive calls of `next`,
/// each one more than the one before, ascend strictly.
pub proof fn lemma_ids_distinct(ids: Seq<u64>)
    requires
        forall|i: int| 0 <= i < ids.len() - 1 ==> #[trigger] ids[i + 1] == ids[i] + 1,
    ensures
        forall|i: int, j: int| 0 <= i < j < ids.len() ==> ids[i] < ids[j],
    decreases ids.len(),
{
    if ids.len() > 1 {
        let s = ids.drop_last();
        lemma_ids_distinct(s);
        assert forall|i: int, j: int| 0 <= i < j < ids.len() implies ids[i] < ids[j] by {
            if j < ids.len() - 1 {
                assert(s[i] < s[j]);
            } else {
                let k = j - 1;
                assert(ids[k + 1] == ids[k] + 1);
                if i < k {
                    assert(s[i] < s[k]);
                }
            }
        }
    }
}

} // verus!
