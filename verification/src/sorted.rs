//! Lists of entries kept in increasing order of their `u64` keys, each key
//! at most once: ordered maps as the inspector walks them.
//!
//! The inspector reads its maps by position: the first entry, the entry
//! after or before a given key, the index of a key among all of them. vstd
//! specifies `BTreeMap`'s `insert`, `get`, `remove` and in-order `iter`, but
//! not `first_key_value`, `get_mut`, `entry` or a walk in reverse, so the
//! maps are kept here as sorted lists whose order is part of their
//! contracts.
use vstd::prelude::*;

verus! {

/// The keys of `s` strictly increase.
pub open spec fn keys_sorted<V>(s: Seq<(u64, V)>) -> bool {
    forall|i: int, j: int| 0 <= i < j < s.len() ==> #[trigger] s[i].0 < #[trigger] s[j].0
}

/// `i` is where key `k` stands or would be inserted in `s`: every entry
/// before it has a smaller key, and the entry at it, if any, does not.
pub open spec fn is_slot<V>(s: Seq<(u64, V)>, k: u64, i: int) -> bool {
    &&& 0 <= i <= s.len()
    &&& forall|j: int| 0 <= j < i ==> #[trigger] s[j].0 < k
    &&& i < s.len() ==> s[i].0 >= k
}

/// Where key `k` stands or would be inserted in `s`.
pub open spec fn slot<V>(s: Seq<(u64, V)>, k: u64) -> int {
    choose|i: int| is_slot(s, k, i)
}

/// `s` has an entry with key `k`.
pub open spec fn has_key<V>(s: Seq<(u64, V)>, k: u64) -> bool {
    slot(s, k) < s.len() && s[slot(s, k)].0 == k
}

/// `s` with the entry of key `k` set to `v`: replaced where `k` stands,
/// inserted in order otherwise.
pub open spec fn upsert<V>(s: Seq<(u64, V)>, k: u64, v: V) -> Seq<(u64, V)> {
    if has_key(s, k) {
        s.update(slot(s, k), (k, v))
    } else {
        s.insert(slot(s, k), (k, v))
    }
}

/// In a sorted list the place of a key is unique, and it holds the key
/// exactly when some entry has it.
pub proof fn lemma_slot<V>(s: Seq<(u64, V)>, k: u64, i: int)
    requires
        keys_sorted(s),
        is_slot(s, k, i),
    ensures
        slot(s, k) == i,
        has_key(s, k) <==> exists|j: int| 0 <= j < s.len() && s[j].0 == k,
{
    let c = slot(s, k);
    assert(is_slot(s, k, c));
    if c < i {
        assert(s[c].0 < k);
    } else if i < c {
        assert(s[i].0 < k);
    }
    if exists|j: int| 0 <= j < s.len() && s[j].0 == k {
        let j = choose|j: int| 0 <= j < s.len() && s[j].0 == k;
        if j < i {
            assert(s[j].0 < k);
        } else if i < j {
            assert(s[i].0 < s[j].0);
        }
    }
}

/// Setting an entry keeps a sorted list sorted.
pub proof fn lemma_upsert_sorted<V>(s: Seq<(u64, V)>, k: u64, v: V)
    requires
        keys_sorted(s),
        is_slot(s, k, slot(s, k)),
    ensures
        keys_sorted(upsert(s, k, v)),
        upsert(s, k, v)[slot(s, k)] == (k, v),
{
    let i = slot(s, k);
    let t = upsert(s, k, v);
    if has_key(s, k) {
        assert forall|a: int, b: int| 0 <= a < b < t.len() implies #[trigger] t[a].0
            < #[trigger] t[b].0 by {
            assert(s[a].0 < s[b].0);
        }
    } else {
        assert forall|a: int, b: int| 0 <= a < b < t.len() implies #[trigger] t[a].0
            < #[trigger] t[b].0 by {
            if b < i {
                assert(s[a].0 < s[b].0);
            } else if b == i {
                assert(s[a].0 < k);
            } else if a < i {
                assert(s[a].0 < k);
                assert(s[i].0 >= k);
                assert(s[i].0 <= s[b - 1].0 || i == b - 1);
                if i < b - 1 {
                    assert(s[i].0 < s[b - 1].0);
                }
            } else if a == i {
                assert(s[i].0 > k);
                if i < b - 1 {
                    assert(s[i].0 < s[b - 1].0);
                }
            } else {
                assert(s[a - 1].0 < s[b - 1].0);
            }
        }
    }
}

/// Where key `k` stands or would be inserted in `s`, and whether it stands
/// there.
pub fn find_slot<V>(s: &Vec<(u64, V)>, k: u64) -> (r: (usize, bool))
    requires
        keys_sorted(s@),
    ensures
        r.0 == slot(s@, k),
        is_slot(s@, k, r.0 as int),
        r.1 == has_key(s@, k),
{
    let mut i: usize = 0;
    while i < s.len() && s[i].0 < k
        invariant
            i <= s@.len(),
            forall|j: int| 0 <= j < i ==> #[trigger] s@[j].0 < k,
        decreases s@.len() - i,
    {
        i = i + 1;
    }
    proof {
        lemma_slot(s@, k, i as int);
    }
    (i, i < s.len() && s[i].0 == k)
}

/// A place for key `k` in a sorted list.
pub proof fn slot_witness<V>(s: Seq<(u64, V)>, k: u64) -> (i: int)
    requires
        keys_sorted(s),
    ensures
        is_slot(s, k, i),
    decreases s.len(),
{
    if s.len() == 0 {
        0
    } else if s.last().0 < k {
        s.len() as int
    } else {
        let t = s.drop_last();
        assert(keys_sorted(t)) by {
            assert forall|x: int, y: int| 0 <= x < y < t.len() implies #[trigger] t[x].0
                < #[trigger] t[y].0 by {
                assert(s[x].0 < s[y].0);
            }
        }
        let j = slot_witness(t, k);
        assert forall|x: int| 0 <= x < j implies #[trigger] s[x].0 < k by {
            assert(s[x] == t[x]);
        }
        if j < t.len() {
            assert(s[j] == t[j]);
        }
        j
    }
}

} // verus!
