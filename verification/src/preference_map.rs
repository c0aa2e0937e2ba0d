//! An ordered map from preference numbers to what the voter marked with them.
//!
//! A voter may write the same number in two boxes; the box that comes later
//! on the paper then replaces the earlier one. What comes out of the map is
//! ordered by number, lowest first.

use vstd::prelude::*;

verus! {

/// The keys of `m` below `bound`, in ascending order.
pub open spec fn keys_below<V>(m: Map<u32, V>, bound: nat) -> Seq<u32>
    recommends
        bound <= 0x1_0000_0000,
    decreases bound,
{
    if bound == 0 {
        Seq::empty()
    } else {
        let lower = keys_below(m, (bound - 1) as nat);
        let key = (bound - 1) as u32;
        if m.dom().contains(key) {
            lower.push(key)
        } else {
            lower
        }
    }
}

/// All keys of `m`, in ascending order.
pub open spec fn keys_in_order<V>(m: Map<u32, V>) -> Seq<u32> {
    keys_below(m, 0x1_0000_0000)
}

/// All values of `m`, in ascending order of key.
pub open spec fn values_in_key_order<V>(m: Map<u32, V>) -> Seq<V> {
    keys_in_order(m).map_values(|key: u32| m[key])
}

/// The keys below a bound are keys of the map, stand in strictly ascending
/// order, and none is left out.
pub proof fn lemma_keys_below<V>(m: Map<u32, V>, bound: nat)
    requires
        bound <= 0x1_0000_0000,
    ensures
        forall|i: int|
            0 <= i < keys_below(m, bound).len() ==> m.dom().contains(
                #[trigger] keys_below(m, bound)[i],
            ) && keys_below(m, bound)[i] < bound,
        forall|i: int, j: int|
            0 <= i < j < keys_below(m, bound).len() ==> keys_below(m, bound)[i] < keys_below(
                m,
                bound,
            )[j],
        forall|key: u32|
            key < bound && m.dom().contains(key) ==> #[trigger] keys_below(m, bound).contains(key),
    decreases bound,
{
    if bound > 0 {
        let lower = keys_below(m, (bound - 1) as nat);
        let top = (bound - 1) as u32;
        lemma_keys_below(m, (bound - 1) as nat);
        let keys = keys_below(m, bound);
        assert forall|key: u32| key < bound && m.dom().contains(key) implies #[trigger] keys.contains(
            key,
        ) by {
            if key == top {
                assert(keys[keys.len() - 1] == key);
            } else {
                assert(lower.contains(key));
                let i = choose|i: int| 0 <= i < lower.len() && lower[i] == key;
                assert(keys[i] == key);
            }
        }
    }
}

/// Mapping the values of a map leaves its keys as they are.
pub proof fn lemma_keys_of_mapped<V, W>(m: Map<u32, V>, f: spec_fn(V) -> W, bound: nat)
    ensures
        keys_below(m.map_values(f), bound) == keys_below(m, bound),
    decreases bound,
{
    if bound > 0 {
        lemma_keys_of_mapped(m, f, (bound - 1) as nat);
    }
}

/// Mapping the values of a map and reading them in key order comes to the
/// same as reading them in key order and mapping them.
pub proof fn lemma_values_of_mapped<V, W>(m: Map<u32, V>, f: spec_fn(V) -> W)
    ensures
        values_in_key_order(m.map_values(f)) == values_in_key_order(m).map_values(f),
{
    lemma_keys_of_mapped(m, f, 0x1_0000_0000);
    lemma_keys_below(m, 0x1_0000_0000);
}

/// Whether the keys of `entries` are strictly ascending.
pub open spec fn ascending<V>(entries: Seq<(u32, V)>) -> bool {
    forall|i: int, j: int| 0 <= i < j < entries.len() ==> entries[i].0 < entries[j].0
}

/// Whether `i` is a place in `entries` that holds `key`.
pub open spec fn holds_at<V>(entries: Seq<(u32, V)>, i: int, key: u32) -> bool {
    0 <= i < entries.len() && entries[i].0 == key
}

/// The map that a list of key-value pairs stands for.
pub open spec fn map_of<V>(entries: Seq<(u32, V)>) -> Map<u32, V> {
    Map::new(
        |key: u32| exists|i: int| holds_at(entries, i, key),
        |key: u32| entries[choose|i: int| holds_at(entries, i, key)].1,
    )
}

/// Each pair of an ascending list is an entry of its map.
pub proof fn lemma_map_of_entry<V>(entries: Seq<(u32, V)>, i: int)
    requires
        ascending(entries),
        0 <= i < entries.len(),
    ensures
        map_of(entries).dom().contains(entries[i].0),
        map_of(entries)[entries[i].0] == entries[i].1,
{
    let key = entries[i].0;
    assert(holds_at(entries, i, key));
    let found = choose|j: int| holds_at(entries, j, key);
    assert(found == i) by {
        if found != i {
            assert(entries[found].0 != entries[i].0);
        }
    }
}

/// The keys below `bound` are the keys of the leading pairs, as many as
/// have such a key; the result is their count.
proof fn lemma_keys_below_prefix<V>(entries: Seq<(u32, V)>, bound: nat) -> (count: int)
    requires
        ascending(entries),
        bound <= 0x1_0000_0000,
    ensures
        0 <= count <= entries.len(),
        forall|i: int| 0 <= i < count ==> (#[trigger] entries[i]).0 < bound,
        forall|i: int| count <= i < entries.len() ==> (#[trigger] entries[i]).0 >= bound,
        keys_below(map_of(entries), bound) == entries.take(count).map_values(|e: (u32, V)| e.0),
    decreases bound,
{
    let key_of = |e: (u32, V)| e.0;
    if bound == 0 {
        0
    } else {
        let count = lemma_keys_below_prefix(entries, (bound - 1) as nat);
        let key = (bound - 1) as u32;
        if map_of(entries).dom().contains(key) {
            let at = choose|i: int| holds_at(entries, i, key);
            assert(at == count) by {
                if count < at {
                    assert(entries[count].0 >= bound - 1);
                }
            }
            assert(entries.take(count + 1).map_values(key_of) =~= entries.take(count).map_values(
                key_of,
            ).push(key));
            count + 1
        } else {
            assert forall|i: int| count <= i < entries.len() implies (#[trigger] entries[i]).0
                >= bound by {
                if entries[i].0 == key {
                    assert(holds_at(entries, i, key));
                }
            }
            count
        }
    }
}

/// In key order, the map of an ascending list gives the list's values as
/// they stand.
pub proof fn lemma_values_of_ascending<V>(entries: Seq<(u32, V)>)
    requires
        ascending(entries),
    ensures
        keys_in_order(map_of(entries)) == entries.map_values(|e: (u32, V)| e.0),
        values_in_key_order(map_of(entries)) == entries.map_values(|e: (u32, V)| e.1),
{
    let count = lemma_keys_below_prefix(entries, 0x1_0000_0000);
    assert(count == entries.len()) by {
        if count < entries.len() {
            assert(entries[count].0 >= 0x1_0000_0000);
        }
    }
    assert forall|i: int| 0 <= i < entries.len() implies map_of(entries)[entries[i].0]
        == entries[i].1 by {
        lemma_map_of_entry(entries, i);
    }
}

/// A map from preference numbers to values that gives its values out in
/// ascending order of number.
pub struct PreferenceMap<V> {
    entries: Vec<(u32, V)>,
}

impl<V> View for PreferenceMap<V> {
    type V = Map<u32, V>;

    closed spec fn view(&self) -> Map<u32, V> {
        map_of(self.entries@)
    }
}

impl<V> PreferenceMap<V> {
    #[verifier::type_invariant]
    spec fn well_formed(self) -> bool {
        ascending(self.entries@)
    }
}

impl<V: Copy> PreferenceMap<V> {
    /// A map without entries.
    pub fn new() -> (m: Self)
        ensures
            m@ == Map::<u32, V>::empty(),
    {
        PreferenceMap { entries: Vec::new() }
    }

    /// Marks `preference` with `value`. An earlier value marked with the
    /// same number is replaced.
    pub fn insert(&mut self, preference: u32, value: V)
        ensures
            final(self)@ == old(self)@.insert(preference, value),
    {
        proof {
            use_type_invariant(&*self);
        }
        let ghost before = self.entries@;
        let mut entries: Vec<(u32, V)> = Vec::new();
        std::mem::swap(&mut self.entries, &mut entries);
        let mut at: usize = 0;
        while at < entries.len() && entries[at].0 < preference
            invariant
                entries@ == before,
                0 <= at <= before.len(),
                forall|i: int| 0 <= i < at ==> (#[trigger] before[i]).0 < preference,
            decreases before.len() - at,
        {
            at += 1;
        }
        if at < entries.len() && entries[at].0 == preference {
            entries.set(at, (preference, value));
        } else {
            entries.insert(at, (preference, value));
        }
        proof {
            lemma_insert(before, entries@, at as int, preference, value);
        }
        self.entries = entries;
    }

    /// The values of the map, in ascending order of preference number.
    pub fn values(&self) -> (values: Vec<V>)
        ensures
            values@ == values_in_key_order(self@),
    {
        proof {
            use_type_invariant(self);
            lemma_values_of_ascending(self.entries@);
        }
        let mut values: Vec<V> = Vec::new();
        let mut i: usize = 0;
        while i < self.entries.len()
            invariant
                0 <= i <= self.entries.len(),
                values@ == self.entries@.take(i as int).map_values(|e: (u32, V)| e.1),
            decreases self.entries.len() - i,
        {
            values.push(self.entries[i].1);
            i += 1;
        }
        values
    }
}

/// Putting a pair into an ascending list at its place, in place of the pair
/// with the same key if there is one, inserts it into the list's map.
proof fn lemma_insert<V>(
    before: Seq<(u32, V)>,
    after: Seq<(u32, V)>,
    at: int,
    key: u32,
    value: V,
)
    requires
        ascending(before),
        ascending(after),
        0 <= at <= before.len(),
        if at < before.len() && before[at].0 == key {
            after == before.update(at, (key, value))
        } else {
            after == before.insert(at, (key, value))
        },
    ensures
        map_of(after) == map_of(before).insert(key, value),
{
    let replaced = at < before.len() && before[at].0 == key;
    let wanted = map_of(before).insert(key, value);
    assert forall|k: u32| map_of(after).dom().contains(k) <==> wanted.dom().contains(k) by {
        if map_of(after).dom().contains(k) {
            let i = choose|i: int| holds_at(after, i, k);
            if k != key {
                if replaced {
                    assert(holds_at(before, i, k));
                } else if i < at {
                    assert(holds_at(before, i, k));
                } else {
                    assert(holds_at(before, i - 1, k));
                }
            }
        }
        if wanted.dom().contains(k) {
            if k == key {
                assert(holds_at(after, at, k));
            } else {
                let i = choose|i: int| holds_at(before, i, k);
                if replaced || i < at {
                    assert(holds_at(after, i, k));
                } else {
                    assert(holds_at(after, i + 1, k));
                }
            }
        }
    }
    assert forall|k: u32| map_of(after).dom().contains(k) implies map_of(after)[k] == wanted[k] by {
        let i = choose|i: int| holds_at(after, i, k);
        lemma_map_of_entry(after, i);
        if k != key {
            let j = if replaced || i < at {
                i
            } else {
                i - 1
            };
            lemma_map_of_entry(before, j);
        } else {
            lemma_map_of_entry(after, at);
        }
    }
}

} // verus!
