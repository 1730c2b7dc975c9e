//! The session badge on the application's dock icon: per-window counts of active sessions,
//! summed into one number. Broadcasting it is the frontend's job.

use std::collections::HashMap;

use vstd::prelude::*;

verus! {

broadcast use vstd::std_specs::hash::group_hash_axioms;

/// The sum of the counts of every window.
pub open spec fn map_total(m: Map<usize, u32>) -> int
    decreases m.dom().len(),
    when m.dom().finite()
{
    if m.dom().len() == 0 {
        0
    } else {
        let k = m.dom().choose();
        m[k] + map_total(m.remove(k))
    }
}

/// The badge value for some counts: their sum, when it fits in 32 bits.
pub open spec fn badge_total(m: Map<usize, u32>) -> Option<u32> {
    if map_total(m) <= u32::MAX {
        Some(map_total(m) as u32)
    } else {
        None
    }
}

/// The sum does not depend on which window is taken out first.
pub proof fn lemma_total_remove(m: Map<usize, u32>, k: usize)
    requires
        m.dom().finite(),
        m.dom().contains(k),
    ensures
        map_total(m) == m[k] + map_total(m.remove(k)),
    decreases m.dom().len(),
{
    let c = m.dom().choose();
    if c != k {
        let mc = m.remove(c);
        let mk = m.remove(k);
        assert(mc.dom() =~= m.dom().remove(c));
        assert(mk.dom() =~= m.dom().remove(k));
        lemma_total_remove(mc, k);
        lemma_total_remove(mk, c);
        assert(mc.remove(k) =~= mk.remove(c));
    }
}

pub proof fn lemma_total_nonnegative(m: Map<usize, u32>)
    requires
        m.dom().finite(),
    ensures
        map_total(m) >= 0,
    decreases m.dom().len(),
{
    if m.dom().len() > 0 {
        let k = m.dom().choose();
        assert(m.remove(k).dom() =~= m.dom().remove(k));
        lemma_total_nonnegative(m.remove(k));
    }
}

/// Setting one window's count changes the sum by the difference.
pub proof fn lemma_total_insert(m: Map<usize, u32>, k: usize, v: u32)
    requires
        m.dom().finite(),
    ensures
        map_total(m.insert(k, v)) == map_total(m.remove(k)) + v,
{
    let n = m.insert(k, v);
    lemma_total_remove(n, k);
    assert(n.remove(k) =~= m.remove(k));
}

/// Active-session counts of each open window.
pub struct SessionCounts {
    counts: HashMap<usize, u32>,
    total: u128,
}

impl View for SessionCounts {
    type V = Map<usize, u32>;

    closed spec fn view(&self) -> Map<usize, u32> {
        self.counts@
    }
}

impl SessionCounts {
    #[verifier::type_invariant]
    closed spec fn total_is_sum(&self) -> bool {
        &&& self.total == map_total(self.counts@)
        &&& self.counts@.dom().len() <= usize::MAX
    }

    pub fn new() -> (s: SessionCounts)
        ensures
            s@ == Map::<usize, u32>::empty(),
    {
        let counts: HashMap<usize, u32> = HashMap::new();
        proof {
            assert(counts@.dom().len() == 0);
        }
        SessionCounts { counts, total: 0 }
    }

    /// The sum of every window's count, when it fits in 32 bits.
    pub fn total(&self) -> (t: Option<u32>)
        ensures
            t == badge_total(self@),
    {
        proof {
            use_type_invariant(self);
        }
        if self.total <= u32::MAX as u128 {
            Some(self.total as u32)
        } else {
            None
        }
    }

    /// Records that window `window_id` has `count` active sessions, and returns the new badge
    /// value (`None` when the sum no longer fits in 32 bits).
    pub fn report(&mut self, window_id: usize, count: u32) -> (t: Option<u32>)
        ensures
            final(self)@ == old(self)@.insert(window_id, count),
            t == badge_total(final(self)@),
    {
        proof {
            use_type_invariant(&*self);
        }
        let mut taken = SessionCounts::new();
        std::mem::swap(self, &mut taken);
        let SessionCounts { mut counts, total } = taken;
        let ghost old_map = counts@;
        let old_count = counts.insert(window_id, count);
        // A map in memory holds at most `usize::MAX` windows.
        let windows = counts.len();
        proof {
            assert(windows == counts@.dom().len());
            lemma_total_insert(old_map, window_id, count);
            lemma_total_nonnegative(old_map.remove(window_id));
            if old_map.dom().contains(window_id) {
                lemma_total_remove(old_map, window_id);
            } else {
                assert(old_map.remove(window_id) =~= old_map);
                assert(counts@.dom() =~= old_map.dom().insert(window_id));
            }
            assert(map_total(old_map.remove(window_id)) + count <= (usize::MAX as int + 1) * 0x1_0000_0000) by {
                lemma_total_bound(old_map.remove(window_id));
                assert(old_map.remove(window_id).dom().len() <= old_map.dom().len());
            }
        }
        let base: u128 = match old_count {
            Some(c) => total - c as u128,
            None => total,
        };
        *self = SessionCounts { counts, total: base + count as u128 };
        self.total()
    }

    /// Drops the counts of a closed window, and returns the new badge value.
    pub fn forget(&mut self, window_id: usize) -> (t: Option<u32>)
        ensures
            final(self)@ == old(self)@.remove(window_id),
            t == badge_total(final(self)@),
    {
        proof {
            use_type_invariant(&*self);
        }
        let mut taken = SessionCounts::new();
        std::mem::swap(self, &mut taken);
        let SessionCounts { mut counts, total } = taken;
        let ghost old_map = counts@;
        let old_count = counts.remove(&window_id);
        proof {
            if old_map.dom().contains(window_id) {
                lemma_total_remove(old_map, window_id);
                lemma_total_nonnegative(old_map.remove(window_id));
            } else {
                assert(old_map.remove(window_id) =~= old_map);
            }
        }
        let rest: u128 = match old_count {
            Some(c) => total - c as u128,
            None => total,
        };
        *self = SessionCounts { counts, total: rest };
        self.total()
    }
}

/// The sum is at most the number of windows times the largest count.
pub proof fn lemma_total_bound(m: Map<usize, u32>)
    requires
        m.dom().finite(),
    ensures
        map_total(m) <= m.dom().len() * 0x1_0000_0000,
    decreases m.dom().len(),
{
    if m.dom().len() > 0 {
        let k = m.dom().choose();
        assert(m.remove(k).dom() =~= m.dom().remove(k));
        lemma_total_bound(m.remove(k));
    }
}

// ----------------------------------------------------------------------------------------------
// Laws
// ----------------------------------------------------------------------------------------------

/// A window's latest report is what counts: reporting twice is reporting the second value.
pub proof fn law_report_replaces(m: Map<usize, u32>, id: usize, first: u32, second: u32)
    ensures
        m.insert(id, first).insert(id, second) == m.insert(id, second),
{
    assert(m.insert(id, first).insert(id, second) =~= m.insert(id, second));
}

/// The badge counts every window once: after a report the sum is the other windows' sum plus
/// the reported count, and forgetting a window takes exactly its count away.
pub proof fn law_total_after_report_and_forget(m: Map<usize, u32>, id: usize, count: u32)
    requires
        m.dom().finite(),
    ensures
        map_total(m.insert(id, count)) == map_total(m.remove(id)) + count,
        map_total(m.insert(id, count).remove(id)) == map_total(m.remove(id)),
        m.dom().contains(id) ==> map_total(m.remove(id)) == map_total(m) - m[id],
{
    lemma_total_insert(m, id, count);
    assert(m.insert(id, count).remove(id) =~= m.remove(id));
    if m.dom().contains(id) {
        lemma_total_remove(m, id);
    }
}

} // verus!
