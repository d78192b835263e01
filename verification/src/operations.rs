//! The operation map of an executable binding: logical operation names mapped to
//! component operations, kept sorted by name as a `BTreeMap<String, _>` keeps them.
use vstd::prelude::*;
use crate::binding::ExecutableOperationV1;
use crate::json::JsonModel;
use crate::order::{chars_lt, compare_chars, KeyOrder, lemma_chars_lt_asymmetric, lemma_chars_lt_transitive};
use crate::text::chars_of;

verus! {

/// The operation that `entries` maps `key` to, if any.
pub open spec fn lookup(entries: Seq<(String, ExecutableOperationV1)>, key: Seq<char>) -> Option<ExecutableOperationV1> {
    if has_key(entries, key) {
        Some(entries[key_index(entries, key)].1)
    } else {
        None
    }
}

/// Some entry of `entries` has the key `key`.
pub open spec fn has_key(entries: Seq<(String, ExecutableOperationV1)>, key: Seq<char>) -> bool {
    exists|i: int| 0 <= i < entries.len() && (#[trigger] entries[i]).0@ == key
}

/// An index of `entries` whose key is `key`, when there is one.
pub open spec fn key_index(entries: Seq<(String, ExecutableOperationV1)>, key: Seq<char>) -> int {
    choose|i: int| 0 <= i < entries.len() && (#[trigger] entries[i]).0@ == key
}

/// The keys of `entries` are strictly increasing.
pub open spec fn keys_sorted(entries: Seq<(String, ExecutableOperationV1)>) -> bool {
    forall|i: int, j: int| 0 <= i < j < entries.len() ==> chars_lt((#[trigger] entries[i]).0@, (#[trigger] entries[j]).0@)
}

/// The content of `entries`: each key with its operation's content.
pub open spec fn entries_model(entries: Seq<(String, ExecutableOperationV1)>) -> Seq<(Seq<char>, (Seq<char>, JsonModel, JsonModel))> {
    entries.map_values(|e: (String, ExecutableOperationV1)| (e.0@, e.1.model()))
}

/// The names of `ops` are strictly increasing.
pub open spec fn model_sorted(ops: Seq<(Seq<char>, (Seq<char>, JsonModel, JsonModel))>) -> bool {
    forall|i: int, j: int| 0 <= i < j < ops.len() ==> chars_lt((#[trigger] ops[i]).0, (#[trigger] ops[j]).0)
}

/// Logical operations, sorted by name, each name present once.
#[derive(Debug, PartialEq, Eq)]
pub struct OperationMap {
    entries: Vec<(String, ExecutableOperationV1)>,
}

impl OperationMap {
    #[verifier::type_invariant]
    spec fn sorted(self) -> bool {
        keys_sorted(self.entries@)
    }

    /// The entries in key order.
    pub closed spec fn entries(self) -> Seq<(String, ExecutableOperationV1)> {
        self.entries@
    }

    /// The content of the map, in key order.
    pub open spec fn model(self) -> Seq<(Seq<char>, (Seq<char>, JsonModel, JsonModel))> {
        entries_model(self.entries())
    }

    /// An empty map.
    pub fn new() -> (m: OperationMap)
        ensures
            m.entries() == Seq::<(String, ExecutableOperationV1)>::empty(),
            keys_sorted(m.entries()),
    {
        OperationMap { entries: Vec::new() }
    }

    /// The number of operations.
    pub fn len(&self) -> (n: usize)
        ensures
            n == self.entries().len(),
            keys_sorted(self.entries()),
    {
        proof {
            use_type_invariant(self);
        }
        self.entries.len()
    }

    /// Whether there is no operation.
    pub fn is_empty(&self) -> (b: bool)
        ensures
            b == (self.entries().len() == 0),
    {
        self.entries.len() == 0
    }

    /// The `i`-th entry in key order.
    pub fn entry(&self, i: usize) -> (e: &(String, ExecutableOperationV1))
        requires
            i < self.entries().len(),
        ensures
            *e == self.entries()[i as int],
    {
        &self.entries[i]
    }

    /// The operation mapped to `key`.
    pub fn get(&self, key: &str) -> (res: Option<&ExecutableOperationV1>)
        ensures
            match res {
                Some(op) => lookup(self.entries(), key@) == Some(*op),
                None => lookup(self.entries(), key@) is None,
            },
    {
        proof {
            use_type_invariant(self);
        }
        let wanted = chars_of(key);
        let mut i: usize = 0;
        while i < self.entries.len()
            invariant
                wanted@ == key@,
                keys_sorted(self.entries@),
                forall|j: int| 0 <= j < i ==> (#[trigger] self.entries@[j]).0@ != key@,
            decreases self.entries.len() - i,
        {
            let name = chars_of(self.entries[i].0.as_str());
            if compare_chars(&name, &wanted) == KeyOrder::Same {
                proof {
                    lemma_lookup_index(self.entries@, key@, i as int);
                }
                return Some(&self.entries[i].1);
            }
            i = i + 1;
        }
        None
    }

    /// Appends `key` mapped to `op` when `key` comes after every key of the map; leaves the
    /// map as it is otherwise.
    pub fn push_last(&mut self, key: String, op: ExecutableOperationV1) -> (ok: bool)
        ensures
            ok == (old(self).entries().len() == 0 || chars_lt(old(self).entries().last().0@, key@)),
            ok ==> final(self).entries() == old(self).entries().push((key, op)),
            !ok ==> final(self).entries() == old(self).entries(),
            keys_sorted(final(self).entries()),
    {
        proof {
            use_type_invariant(&*self);
        }
        let n = self.entries.len();
        if n > 0 {
            let last = chars_of(self.entries[n - 1].0.as_str());
            let wanted = chars_of(key.as_str());
            if compare_chars(&last, &wanted) != KeyOrder::Before {
                return false;
            }
        }
        let mut entries: Vec<(String, ExecutableOperationV1)> = Vec::new();
        std::mem::swap(&mut entries, &mut self.entries);
        let ghost before = entries@;
        entries.push((key, op));
        proof {
            assert forall|i: int, j: int| 0 <= i < j < entries@.len() implies chars_lt(
                (#[trigger] entries@[i]).0@,
                (#[trigger] entries@[j]).0@,
            ) by {
                if j == before.len() && i < before.len() - 1 {
                    lemma_chars_lt_transitive(before[i].0@, before[before.len() - 1].0@, entries@[j].0@);
                }
            }
        }
        self.entries = entries;
        true
    }

    /// Maps `key` to `op`, returning the operation it was mapped to before.
    pub fn insert(&mut self, key: String, op: ExecutableOperationV1) -> (res: Option<ExecutableOperationV1>)
        ensures
            res == lookup(old(self).entries(), key@),
            final(self).entries().len() == old(self).entries().len() + (if res is None { 1int } else { 0int }),
            forall|k: Seq<char>| #[trigger] lookup(final(self).entries(), k)
                == if k == key@ { Some(op) } else { lookup(old(self).entries(), k) },
            keys_sorted(final(self).entries()),
    {
        proof {
            use_type_invariant(&*self);
        }
        let wanted = chars_of(key.as_str());
        let ghost before = self.entries@;
        let mut i: usize = 0;
        let mut found = false;
        while i < self.entries.len()
            invariant
                wanted@ == key@,
                self.entries@ == before,
                keys_sorted(before),
                i <= before.len(),
                forall|j: int| 0 <= j < i ==> chars_lt((#[trigger] before[j]).0@, key@),
                found ==> i < before.len() && before[i as int].0@ == key@,
                !found && i < before.len() ==> chars_lt(key@, before[i as int].0@) || i < before.len(),
            ensures
                found ==> i < before.len() && before[i as int].0@ == key@,
                !found ==> i == before.len() || chars_lt(key@, before[i as int].0@),
                forall|j: int| 0 <= j < i ==> chars_lt((#[trigger] before[j]).0@, key@),
            decreases before.len() - i,
        {
            let name = chars_of(self.entries[i].0.as_str());
            let order = compare_chars(&name, &wanted);
            if order == KeyOrder::Same {
                found = true;
                break;
            }
            if order == KeyOrder::After {
                break;
            }
            i = i + 1;
        }
        let mut entries: Vec<(String, ExecutableOperationV1)> = Vec::new();
        std::mem::swap(&mut entries, &mut self.entries);
        if found {
            let old_entry = entries.remove(i);
            proof {
                lemma_lookup_index(before, key@, i as int);
            }
            entries.insert(i, (key, op));
            proof {
                let after = entries@;
                assert(after =~= before.update(i as int, after[i as int]));
                lemma_sorted_replace(before, i as int, after[i as int]);
                lemma_lookup_replace(before, i as int, after[i as int]);
            }
            self.entries = entries;
            Some(old_entry.1)
        } else {
            proof {
                lemma_lookup_absent(before, key@, i as int);
            }
            entries.insert(i, (key, op));
            proof {
                let after = entries@;
                assert(after == before.insert(i as int, after[i as int]));
                lemma_sorted_insert(before, i as int, after[i as int]);
                lemma_lookup_insert(before, i as int, after[i as int]);
            }
            self.entries = entries;
            None
        }
    }
}

/// In sorted entries, the entry at `i` is the one `lookup` finds for its key.
pub proof fn lemma_lookup_index(entries: Seq<(String, ExecutableOperationV1)>, key: Seq<char>, i: int)
    requires
        keys_sorted(entries),
        0 <= i < entries.len(),
        entries[i].0@ == key,
    ensures
        lookup(entries, key) == Some(entries[i].1),
{
    assert(0 <= i < entries.len() && entries[i].0@ == key);
    assert(has_key(entries, key));
    let k = key_index(entries, key);
    if k != i {
        if k < i {
            assert(chars_lt(entries[k].0@, entries[i].0@));
            lemma_chars_lt_asymmetric(entries[k].0@, entries[i].0@);
        } else {
            assert(chars_lt(entries[i].0@, entries[k].0@));
            lemma_chars_lt_asymmetric(entries[i].0@, entries[k].0@);
        }
    }
}

/// When every key before `i` sorts before `key` and every key from `i` on sorts after it,
/// `key` is absent.
proof fn lemma_lookup_absent(entries: Seq<(String, ExecutableOperationV1)>, key: Seq<char>, i: int)
    requires
        keys_sorted(entries),
        0 <= i <= entries.len(),
        forall|j: int| 0 <= j < i ==> chars_lt((#[trigger] entries[j]).0@, key),
        i == entries.len() || chars_lt(key, entries[i].0@),
    ensures
        lookup(entries, key) is None,
        forall|j: int| i <= j < entries.len() ==> chars_lt(key, (#[trigger] entries[j]).0@),
{
    assert forall|j: int| i <= j < entries.len() implies chars_lt(key, (#[trigger] entries[j]).0@) by {
        if j > i {
            lemma_chars_lt_transitive(key, entries[i].0@, entries[j].0@);
        }
    }
    assert forall|j: int| 0 <= j < entries.len() implies (#[trigger] entries[j]).0@ != key by {
        if j < i {
            lemma_chars_lt_asymmetric(entries[j].0@, key);
        } else {
            lemma_chars_lt_asymmetric(key, entries[j].0@);
        }
    }
}

/// Replacing the entry at `i` by one with the same key keeps the entries sorted.
proof fn lemma_sorted_replace(entries: Seq<(String, ExecutableOperationV1)>, i: int, e: (String, ExecutableOperationV1))
    requires
        keys_sorted(entries),
        0 <= i < entries.len(),
        e.0@ == entries[i].0@,
    ensures
        keys_sorted(entries.update(i, e)),
{
    let after = entries.update(i, e);
    assert forall|a: int, b: int| 0 <= a < b < after.len() implies
        chars_lt((#[trigger] after[a]).0@, (#[trigger] after[b]).0@) by {
        assert(after[a].0@ == entries[a].0@);
        assert(after[b].0@ == entries[b].0@);
    }
}

/// Replacing the entry at `i` by one with the same key changes what that key maps to, and nothing else.
proof fn lemma_lookup_replace(entries: Seq<(String, ExecutableOperationV1)>, i: int, e: (String, ExecutableOperationV1))
    requires
        keys_sorted(entries),
        0 <= i < entries.len(),
        e.0@ == entries[i].0@,
    ensures
        forall|k: Seq<char>| #[trigger] lookup(entries.update(i, e), k)
            == if k == e.0@ { Some(e.1) } else { lookup(entries, k) },
{
    let after = entries.update(i, e);
    lemma_sorted_replace(entries, i, e);
    assert forall|k: Seq<char>| #[trigger] lookup(after, k)
        == if k == e.0@ { Some(e.1) } else { lookup(entries, k) } by {
        if k == e.0@ {
            lemma_lookup_index(after, k, i);
        } else if exists|j: int| 0 <= j < entries.len() && (#[trigger] entries[j]).0@ == k {
            let j = choose|j: int| 0 <= j < entries.len() && (#[trigger] entries[j]).0@ == k;
            lemma_lookup_index(entries, k, j);
            lemma_lookup_index(after, k, j);
        } else {
            assert forall|j: int| 0 <= j < after.len() implies (#[trigger] after[j]).0@ != k by {
                assert(after[j].0@ == entries[j].0@);
            }
        }
    }
}

/// Inserting at `i` an entry whose key sorts between its neighbours keeps the entries sorted.
proof fn lemma_sorted_insert(entries: Seq<(String, ExecutableOperationV1)>, i: int, e: (String, ExecutableOperationV1))
    requires
        keys_sorted(entries),
        0 <= i <= entries.len(),
        forall|j: int| 0 <= j < i ==> chars_lt((#[trigger] entries[j]).0@, e.0@),
        forall|j: int| i <= j < entries.len() ==> chars_lt(e.0@, (#[trigger] entries[j]).0@),
    ensures
        keys_sorted(entries.insert(i, e)),
{
    let after = entries.insert(i, e);
    assert forall|a: int, b: int| 0 <= a < b < after.len() implies
        chars_lt((#[trigger] after[a]).0@, (#[trigger] after[b]).0@) by {
        if a < i && b < i {
            assert(after[a] == entries[a] && after[b] == entries[b]);
        } else if a < i && b == i {
            assert(after[a] == entries[a]);
        } else if a < i {
            assert(after[a] == entries[a] && after[b] == entries[b - 1]);
        } else if a == i {
            assert(after[b] == entries[b - 1]);
        } else {
            assert(after[a] == entries[a - 1] && after[b] == entries[b - 1]);
        }
    }
}

/// Inserting a new key at its sorted position maps it and leaves every other key as it was.
proof fn lemma_lookup_insert(entries: Seq<(String, ExecutableOperationV1)>, i: int, e: (String, ExecutableOperationV1))
    requires
        keys_sorted(entries),
        0 <= i <= entries.len(),
        forall|j: int| 0 <= j < i ==> chars_lt((#[trigger] entries[j]).0@, e.0@),
        forall|j: int| i <= j < entries.len() ==> chars_lt(e.0@, (#[trigger] entries[j]).0@),
    ensures
        forall|k: Seq<char>| #[trigger] lookup(entries.insert(i, e), k)
            == if k == e.0@ { Some(e.1) } else { lookup(entries, k) },
{
    let after = entries.insert(i, e);
    lemma_sorted_insert(entries, i, e);
    assert forall|k: Seq<char>| #[trigger] lookup(after, k)
        == if k == e.0@ { Some(e.1) } else { lookup(entries, k) } by {
        if k == e.0@ {
            lemma_lookup_index(after, k, i);
        } else if exists|j: int| 0 <= j < entries.len() && (#[trigger] entries[j]).0@ == k {
            let j = choose|j: int| 0 <= j < entries.len() && (#[trigger] entries[j]).0@ == k;
            lemma_lookup_index(entries, k, j);
            if j < i {
                assert(after[j] == entries[j]);
                lemma_lookup_index(after, k, j);
            } else {
                assert(after[j + 1] == entries[j]);
                lemma_lookup_index(after, k, j + 1);
            }
        } else {
            assert forall|j: int| 0 <= j < after.len() implies (#[trigger] after[j]).0@ != k by {
                if j < i {
                    assert(after[j] == entries[j]);
                } else if j > i {
                    assert(after[j] == entries[j - 1]);
                }
            }
        }
    }
}

impl Clone for OperationMap {
    fn clone(&self) -> (res: Self)
        ensures
            res.model() == self.model(),
    {
        proof {
            use_type_invariant(self);
        }
        let mut out: Vec<(String, ExecutableOperationV1)> = Vec::new();
        let mut i: usize = 0;
        while i < self.entries.len()
            invariant
                i <= self.entries.len(),
                keys_sorted(self.entries@),
                out@.len() == i,
                forall|j: int| 0 <= j < i ==> (#[trigger] out@[j]).0@ == self.entries@[j].0@
                    && out@[j].1.model() == self.entries@[j].1.model(),
            decreases self.entries.len() - i,
        {
            let k = self.entries[i].0.clone();
            let v = self.entries[i].1.clone();
            out.push((k, v));
            i = i + 1;
        }
        proof {
            assert(entries_model(out@) =~= entries_model(self.entries@));
            assert forall|a: int, b: int| 0 <= a < b < out@.len() implies
                chars_lt((#[trigger] out@[a]).0@, (#[trigger] out@[b]).0@) by {
                assert(self.entries@[a].0@ == out@[a].0@);
                assert(self.entries@[b].0@ == out@[b].0@);
            }
        }
        OperationMap { entries: out }
    }
}

} // verus!
