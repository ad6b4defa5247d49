//! Counters for the per-character child lookups performed while a trie is
//! built. A lookup that finds an existing child is a hit; one that has to
//! create the child is a miss. The counts are informational only: they never
//! affect the structure of a trie or the result of a query.

use vstd::prelude::*;

verus! {

/// Hit/miss counters for child-by-letter lookups.
///
/// A single counter object is created by the caller, threaded through one or
/// more trie builds, and read on demand; `reset` starts a new measurement.
#[derive(Debug, Clone, Copy)]
pub struct CharGetCounter {
    pub hit_count: usize,
    pub miss_count: usize,
}

impl CharGetCounter {
    /// Create a counter with nothing recorded yet.
    pub fn new() -> (c: Self)
        ensures
            c.hit_count == 0,
            c.miss_count == 0,
    {
        CharGetCounter { hit_count: 0, miss_count: 0 }
    }

    /// Set both counts back to zero.
    pub fn reset(&mut self)
        ensures
            final(self).hit_count == 0,
            final(self).miss_count == 0,
    {
        self.hit_count = 0;
        self.miss_count = 0;
    }

    /// Record one child lookup: a hit if the child existed, a miss otherwise.
    pub fn record(&mut self, is_hit: bool)
        requires
            old(self).hit_count + old(self).miss_count < usize::MAX,
        ensures
            final(self).hit_count == old(self).hit_count + (if is_hit { 1int } else { 0int }),
            final(self).miss_count == old(self).miss_count + (if is_hit { 0int } else { 1int }),
    {
        if is_hit {
            self.hit_count = self.hit_count + 1;
        } else {
            self.miss_count = self.miss_count + 1;
        }
    }

    /// The counts, but only if any activity occurred: `Some((hits, misses))`
    /// when at least one lookup was recorded, `None` otherwise. Reading the
    /// counts changes nothing, so the query is idempotent.
    pub fn print_optional(&self) -> (r: Option<(usize, usize)>)
        ensures
            r == (if self.hit_count + self.miss_count > 0 {
                Some((self.hit_count, self.miss_count))
            } else {
                None::<(usize, usize)>
            }),
    {
        if self.hit_count > 0 || self.miss_count > 0 {
            Some((self.hit_count, self.miss_count))
        } else {
            None
        }
    }
}

} // verus!
