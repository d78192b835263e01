//! The in-process concurrency gate: how many invocations of each binding are in flight.
use vstd::prelude::*;
use crate::binding::BindingId;

verus! {

/// In-flight invocation counts, one entry per binding with a positive count.
#[derive(Debug)]
pub struct ConcurrencyGate {
    active: Vec<(BindingId, u32)>,
}

/// Some entry of `entries` is for `id`.
pub open spec fn gate_has(entries: Seq<(BindingId, u32)>, id: Seq<char>) -> bool {
    exists|i: int| 0 <= i < entries.len() && (#[trigger] entries[i]).0@ == id
}

/// The entry index for `id`, when there is one.
pub open spec fn gate_index(entries: Seq<(BindingId, u32)>, id: Seq<char>) -> int {
    choose|i: int| 0 <= i < entries.len() && (#[trigger] entries[i]).0@ == id
}

/// The count recorded for `id` (0 when there is no entry).
pub open spec fn gate_count(entries: Seq<(BindingId, u32)>, id: Seq<char>) -> u32 {
    if gate_has(entries, id) { entries[gate_index(entries, id)].1 } else { 0 }
}

/// Entries name different bindings and hold positive counts.
pub open spec fn gate_wf(entries: Seq<(BindingId, u32)>) -> bool {
    &&& forall|i: int, j: int| 0 <= i < j < entries.len() ==> (#[trigger] entries[i]).0@ != (#[trigger] entries[j]).0@
    &&& forall|i: int| 0 <= i < entries.len() ==> (#[trigger] entries[i]).1 > 0
}

/// In well-formed entries, the entry at `i` is the one counted for its binding.
proof fn lemma_gate_index(entries: Seq<(BindingId, u32)>, i: int)
    requires
        gate_wf(entries),
        0 <= i < entries.len(),
    ensures
        gate_has(entries, entries[i].0@),
        gate_count(entries, entries[i].0@) == entries[i].1,
{
    assert(entries[i].0@ == entries[i].0@);
    let k = gate_index(entries, entries[i].0@);
    if k != i {
        if k < i {
            assert(entries[k].0@ != entries[i].0@);
        } else {
            assert(entries[i].0@ != entries[k].0@);
        }
    }
}

/// `after` is `before` once an invocation of `id` was admitted (`granted`) or turned away
/// under the limit `limit`.
pub open spec fn acquire_effect(before: ConcurrencyGate, id: Seq<char>, limit: u32, after: ConcurrencyGate, granted: bool) -> bool {
    &&& granted == (before.count_of(id) < limit)
    &&& after.count_of(id) == if granted { (before.count_of(id) + 1) as u32 } else { before.count_of(id) }
    &&& forall|k: Seq<char>| k != id ==> #[trigger] after.count_of(k) == before.count_of(k)
}

/// `after` is `before` once an invocation of `id` finished.
pub open spec fn release_effect(before: ConcurrencyGate, id: Seq<char>, after: ConcurrencyGate) -> bool {
    &&& after.count_of(id) == if before.count_of(id) > 0 { (before.count_of(id) - 1) as u32 } else { 0 }
    &&& forall|k: Seq<char>| k != id ==> #[trigger] after.count_of(k) == before.count_of(k)
}

impl ConcurrencyGate {
    /// The number of invocations of `id` in flight.
    pub closed spec fn count_of(self, id: Seq<char>) -> u32 {
        gate_count(self.active@, id)
    }

    /// The entries are well formed.
    pub closed spec fn wf(self) -> bool {
        gate_wf(self.active@)
    }

    /// A gate with nothing in flight.
    pub fn new() -> (g: ConcurrencyGate)
        ensures
            g.wf(),
            forall|k: Seq<char>| #[trigger] g.count_of(k) == 0,
    {
        ConcurrencyGate { active: Vec::new() }
    }

    /// The index of the entry for `id`, if any.
    fn find(&self, id: &BindingId) -> (res: Option<usize>)
        requires
            self.wf(),
        ensures
            match res {
                Some(i) => i < self.active@.len() && self.active@[i as int].0@ == id@,
                None => !gate_has(self.active@, id@),
            },
    {
        let mut i: usize = 0;
        while i < self.active.len()
            invariant
                i <= self.active@.len(),
                forall|j: int| 0 <= j < i ==> (#[trigger] self.active@[j]).0@ != id@,
            decreases self.active.len() - i,
        {
            if self.active[i].0.same_as(id) {
                return Some(i);
            }
            i = i + 1;
        }
        None
    }

    /// The number of invocations of `id` in flight.
    pub fn count(&self, id: &BindingId) -> (n: u32)
        requires
            self.wf(),
        ensures
            n == self.count_of(id@),
    {
        match self.find(id) {
            Some(i) => {
                proof {
                    lemma_gate_index(self.active@, i as int);
                }
                self.active[i].1
            },
            None => 0,
        }
    }

    /// Admits one more invocation of `id` when fewer than `limit` are in flight.
    pub fn try_acquire(&mut self, id: &BindingId, limit: u32) -> (granted: bool)
        requires
            old(self).wf(),
        ensures
            final(self).wf(),
            acquire_effect(*old(self), id@, limit, *final(self), granted),
    {
        let ghost before = self.active@;
        match self.find(id) {
            Some(i) => {
                proof {
                    lemma_gate_index(before, i as int);
                }
                let current = self.active[i].1;
                if current >= limit {
                    return false;
                }
                let entry = (id.clone(), current + 1);
                self.active.set(i, entry);
                proof {
                    let after = self.active@;
                    assert(gate_wf(after)) by {
                        assert forall|a: int, b: int| 0 <= a < b < after.len() implies
                            (#[trigger] after[a]).0@ != (#[trigger] after[b]).0@ by {
                            assert(before[a].0@ != before[b].0@);
                        }
                    }
                    lemma_gate_index(after, i as int);
                    assert forall|k: Seq<char>| k != id@ implies #[trigger] gate_count(after, k) == gate_count(before, k) by {
                        if gate_has(before, k) {
                            let j = gate_index(before, k);
                            lemma_gate_index(before, j);
                            assert(after[j] == before[j]);
                            lemma_gate_index(after, j);
                        } else {
                            assert forall|j: int| 0 <= j < after.len() implies (#[trigger] after[j]).0@ != k by {
                                if j != i {
                                    assert(after[j] == before[j]);
                                }
                            }
                        }
                    }
                }
                true
            },
            None => {
                if limit == 0 {
                    return false;
                }
                self.active.push((id.clone(), 1));
                proof {
                    let after = self.active@;
                    let n = before.len() as int;
                    assert(gate_wf(after)) by {
                        assert forall|a: int, b: int| 0 <= a < b < after.len() implies
                            (#[trigger] after[a]).0@ != (#[trigger] after[b]).0@ by {
                            if b == n {
                                assert(after[a] == before[a]);
                            }
                        }
                    }
                    lemma_gate_index(after, n);
                    assert forall|k: Seq<char>| k != id@ implies #[trigger] gate_count(after, k) == gate_count(before, k) by {
                        if gate_has(before, k) {
                            let j = gate_index(before, k);
                            lemma_gate_index(before, j);
                            assert(after[j] == before[j]);
                            lemma_gate_index(after, j);
                        } else {
                            assert forall|j: int| 0 <= j < after.len() implies (#[trigger] after[j]).0@ != k by {
                                if j < n {
                                    assert(after[j] == before[j]);
                                }
                            }
                        }
                    }
                }
                true
            },
        }
    }

    /// Records that one invocation of `id` finished; the entry goes once its count reaches zero.
    pub fn release(&mut self, id: &BindingId)
        requires
            old(self).wf(),
        ensures
            final(self).wf(),
            release_effect(*old(self), id@, *final(self)),
    {
        let ghost before = self.active@;
        match self.find(id) {
            Some(i) => {
                proof {
                    lemma_gate_index(before, i as int);
                }
                let current = self.active[i].1;
                if current <= 1 {
                    self.active.remove(i);
                    proof {
                        let after = self.active@;
                        assert(gate_wf(after)) by {
                            assert forall|a: int, b: int| 0 <= a < b < after.len() implies
                                (#[trigger] after[a]).0@ != (#[trigger] after[b]).0@ by {
                                let a2 = if a < i { a } else { a + 1 };
                                let b2 = if b < i { b } else { b + 1 };
                                assert(after[a] == before[a2] && after[b] == before[b2]);
                            }
                            assert forall|a: int| 0 <= a < after.len() implies (#[trigger] after[a]).1 > 0 by {
                                let a2 = if a < i { a } else { a + 1 };
                                assert(after[a] == before[a2]);
                            }
                        }
                        assert forall|j: int| 0 <= j < after.len() implies (#[trigger] after[j]).0@ != id@ by {
                            let j2 = if j < i { j } else { j + 1 };
                            assert(after[j] == before[j2]);
                            assert(before[j2].0@ != before[i as int].0@);
                        }
                        assert forall|k: Seq<char>| k != id@ implies #[trigger] gate_count(after, k) == gate_count(before, k) by {
                            if gate_has(before, k) {
                                let j = gate_index(before, k);
                                lemma_gate_index(before, j);
                                let j2 = if j < i { j } else { j - 1 };
                                assert(after[j2] == before[j]);
                                lemma_gate_index(after, j2);
                            } else {
                                assert forall|j: int| 0 <= j < after.len() implies (#[trigger] after[j]).0@ != k by {
                                    let j2 = if j < i { j } else { j + 1 };
                                    assert(after[j] == before[j2]);
                                }
                            }
                        }
                    }
                } else {
                    let entry = (id.clone(), current - 1);
                    self.active.set(i, entry);
                    proof {
                        let after = self.active@;
                        assert(gate_wf(after)) by {
                            assert forall|a: int, b: int| 0 <= a < b < after.len() implies
                                (#[trigger] after[a]).0@ != (#[trigger] after[b]).0@ by {
                                assert(before[a].0@ != before[b].0@);
                            }
                        }
                        lemma_gate_index(after, i as int);
                        assert forall|k: Seq<char>| k != id@ implies #[trigger] gate_count(after, k) == gate_count(before, k) by {
                            if gate_has(before, k) {
                                let j = gate_index(before, k);
                                lemma_gate_index(before, j);
                                assert(after[j] == before[j]);
                                lemma_gate_index(after, j);
                            } else {
                                assert forall|j: int| 0 <= j < after.len() implies (#[trigger] after[j]).0@ != k by {
                                    if j != i {
                                        assert(after[j] == before[j]);
                                    }
                                }
                            }
                        }
                    }
                }
            },
            None => {},
        }
    }
}

/// An admitted invocation that then finishes leaves every count as it was before:
/// releasing undoes acquiring.
pub proof fn lemma_release_undoes_acquire(
    g0: ConcurrencyGate,
    g1: ConcurrencyGate,
    g2: ConcurrencyGate,
    id: Seq<char>,
    limit: u32,
)
    requires
        acquire_effect(g0, id, limit, g1, true),
        release_effect(g1, id, g2),
    ensures
        forall|k: Seq<char>| #[trigger] g2.count_of(k) == g0.count_of(k),
{
    assert forall|k: Seq<char>| #[trigger] g2.count_of(k) == g0.count_of(k) by {
        if k != id {
            assert(g1.count_of(k) == g0.count_of(k));
        }
    }
}

/// Admission never lets the count of a binding exceed its limit.
pub proof fn lemma_acquire_respects_limit(
    g0: ConcurrencyGate,
    g1: ConcurrencyGate,
    id: Seq<char>,
    limit: u32,
    granted: bool,
)
    requires
        acquire_effect(g0, id, limit, g1, granted),
        g0.count_of(id) <= limit,
    ensures
        g1.count_of(id) <= limit,
        granted ==> g1.count_of(id) == g0.count_of(id) + 1,
{
}

} // verus!
