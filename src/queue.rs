//! A min-priority queue of payloads keyed by an integer priority, kept as a
//! binary heap in a vector.
//!
//! Entries are never re-prioritised: a caller that finds a better priority
//! for a payload pushes a fresh entry and discards the outdated one when it
//! comes out (lazy deletion).

use vstd::multiset::Multiset;
use vstd::prelude::*;

verus! {

broadcast use {vstd::seq_lib::group_to_multiset_ensures, vstd::multiset::group_multiset_axioms};

/// Each entry's priority is at least that of its parent at `(i - 1) / 2`.
pub open spec fn heap_ordered<V>(s: Seq<(u128, V)>) -> bool {
    forall|i: int| 0 < i < s.len() ==> s[(i - 1) / 2].0 <= #[trigger] s[i].0
}

/// In a heap-ordered sequence the first entry has the least priority.
pub proof fn lemma_root_least<V>(s: Seq<(u128, V)>, i: int)
    requires
        heap_ordered(s),
        0 <= i < s.len(),
    ensures
        s[0].0 <= s[i].0,
    decreases i,
{
    if i > 0 {
        lemma_root_least(s, (i - 1) / 2);
    }
}

/// A queue of `(priority, payload)` entries from which an entry with the
/// smallest priority is taken first. Among equal priorities the order in
/// which entries come out is unspecified.
pub struct MinQueue<V> {
    entries: Vec<(u128, V)>,
}

impl<V> View for MinQueue<V> {
    type V = Multiset<(u128, V)>;

    /// The entries held, with their multiplicities.
    closed spec fn view(&self) -> Multiset<(u128, V)> {
        self.entries@.to_multiset()
    }
}

impl<V> MinQueue<V> {
    #[verifier::type_invariant]
    spec fn inv(&self) -> bool {
        heap_ordered(self.entries@)
    }
}

impl<V: Copy> MinQueue<V> {
    /// An empty queue.
    pub fn new() -> (q: Self)
        ensures
            q@ =~= Multiset::empty(),
    {
        MinQueue { entries: Vec::new() }
    }

    /// Whether the queue holds no entry.
    pub fn is_empty(&self) -> (r: bool)
        ensures
            r == (self@.len() == 0),
    {
        self.entries.len() == 0
    }

    /// Exchanges the entries at positions `i` and `j`.
    fn swap_entries(entries: &mut Vec<(u128, V)>, i: usize, j: usize)
        requires
            i < old(entries)@.len(),
            j < old(entries)@.len(),
            i != j,
        ensures
            final(entries)@ == old(entries)@.update(i as int, old(entries)@[j as int]).update(
                j as int,
                old(entries)@[i as int],
            ),
            final(entries)@.to_multiset() =~= old(entries)@.to_multiset(),
    {
        let a = entries[i];
        let b = entries[j];
        entries.set(i, b);
        entries.set(j, a);
    }

    /// Adds one entry.
    pub fn push(&mut self, priority: u128, payload: V)
        ensures
            final(self)@ =~= old(self)@.insert((priority, payload)),
    {
        proof {
            use_type_invariant(&*self);
        }
        let mut entries = Vec::new();
        std::mem::swap(&mut entries, &mut self.entries);
        entries.push((priority, payload));
        let mut j: usize = entries.len() - 1;
        while j > 0 && entries[(j - 1) / 2].0 > entries[j].0
            invariant
                0 <= j < entries@.len(),
                entries@.to_multiset() =~= old(self)@.insert((priority, payload)),
                forall|i: int|
                    0 < i < entries@.len() && i != j ==> entries@[(i - 1) / 2].0
                        <= #[trigger] entries@[i].0,
                j > 0 ==> forall|c: int|
                    0 < c < entries@.len() && (c - 1) / 2 == j ==> entries@[(j - 1) / 2].0
                        <= #[trigger] entries@[c].0,
            decreases j,
        {
            let p = (j - 1) / 2;
            let ghost before = entries@;
            Self::swap_entries(&mut entries, p, j);
            proof {
                assert forall|i: int|
                    0 < i < entries@.len() && i != p implies entries@[(i - 1) / 2].0
                    <= #[trigger] entries@[i].0 by {
                    if (i - 1) / 2 == p && i != j {
                        assert(before[(i - 1) / 2].0 <= before[i].0);
                    }
                    if (i - 1) / 2 == j {
                        assert(before[(j - 1) / 2].0 <= before[i].0);
                    }
                    if (i - 1) / 2 != p && (i - 1) / 2 != j && i != j {
                        assert(before[(i - 1) / 2].0 <= before[i].0);
                    }
                }
                if p > 0 {
                    assert(before[(p - 1) / 2].0 <= before[p as int].0);
                    assert forall|c: int|
                        0 < c < entries@.len() && (c - 1) / 2 == p implies entries@[(p - 1)
                        / 2].0 <= #[trigger] entries@[c].0 by {
                        if c != j {
                            assert(before[p as int].0 <= before[c].0);
                        }
                    }
                }
            }
            j = p;
        }
        self.entries = entries;
    }

    /// Removes and returns an entry of least priority, or `None` when the
    /// queue is empty.
    pub fn pop_min(&mut self) -> (r: Option<(u128, V)>)
        ensures
            old(self)@.len() == 0 ==> r is None && final(self)@ =~= old(self)@,
            old(self)@.len() > 0 ==> (r matches Some(e) && {
                &&& old(self)@.count(e) > 0
                &&& final(self)@ =~= old(self)@.remove(e)
                &&& forall|o: (u128, V)| old(self)@.count(o) > 0 ==> e.0 <= o.0
            }),
    {
        proof {
            use_type_invariant(&*self);
        }
        let n = self.entries.len();
        if n == 0 {
            return None;
        }
        let mut entries = Vec::new();
        std::mem::swap(&mut entries, &mut self.entries);
        let ghost start = entries@;
        let top = entries[0];
        proof {
            assert forall|o: (u128, V)| start.to_multiset().count(o) > 0 implies top.0 <= o.0 by {
                assert(start.contains(o));
                let i = choose|i: int| 0 <= i < start.len() && start[i] == o;
                lemma_root_least(start, i);
            }
            assert(start.contains(top));
        }
        let last = entries.pop().unwrap();
        proof {
            assert(start.remove(n - 1) =~= entries@);
        }
        if entries.len() > 0 {
            entries.set(0, last);
            let len = entries.len();
            let mut j: usize = 0;
            loop
                invariant
                    len == entries@.len(),
                    j < len,
                    entries@.to_multiset() =~= start.to_multiset().remove(top),
                    forall|i: int|
                        0 < i < len && (i - 1) / 2 != j ==> entries@[(i - 1) / 2].0
                            <= #[trigger] entries@[i].0,
                    j > 0 ==> forall|c: int|
                        0 < c < len && (c - 1) / 2 == j ==> entries@[(j - 1) / 2].0
                            <= #[trigger] entries@[c].0,
                ensures
                    len == entries@.len(),
                    entries@.to_multiset() =~= start.to_multiset().remove(top),
                    heap_ordered(entries@),
                decreases len - j,
            {
                if j > (len - 1) / 2 {
                    break;
                }
                let l = 2 * j + 1;
                if l >= len {
                    break;
                }
                let r = l + 1;
                let m = if r < len && entries[r].0 < entries[l].0 {
                    r
                } else {
                    l
                };
                if entries[j].0 <= entries[m].0 {
                    break;
                }
                let ghost before = entries@;
                Self::swap_entries(&mut entries, j, m);
                proof {
                    assert forall|i: int|
                        0 < i < len && (i - 1) / 2 != m implies entries@[(i - 1) / 2].0
                        <= #[trigger] entries@[i].0 by {
                        if i == m {
                        } else if (i - 1) / 2 == j {
                            assert(i == l || i == r);
                        } else if i == j {
                            assert(before[(j - 1) / 2].0 <= before[m as int].0);
                        } else {
                            assert(before[(i - 1) / 2].0 <= before[i].0);
                        }
                    }
                    assert forall|c: int|
                        0 < c < len && (c - 1) / 2 == m implies entries@[(m - 1) / 2].0
                        <= #[trigger] entries@[c].0 by {
                        assert(before[m as int].0 <= before[c].0);
                    }
                }
                j = m;
            }
        }
        self.entries = entries;
        Some(top)
    }
}

} // verus!
