use vstd::prelude::*;

verus! {

/// Index of the entry with key `k` in `s`, searching from the most recent end;
/// -1 when no entry has that key.
pub open spec fn position_of(s: Seq<(i32, i32)>, k: i32) -> int
    decreases s.len(),
{
    if s.len() == 0 {
        -1
    } else if s.last().0 == k {
        s.len() - 1
    } else {
        position_of(s.drop_last(), k)
    }
}

/// Some entry of `s` has key `k`.
pub open spec fn has_key(s: Seq<(i32, i32)>, k: i32) -> bool {
    exists|i: int| 0 <= i < s.len() && #[trigger] s[i].0 == k
}

/// No two entries of `s` share a key.
pub open spec fn distinct_keys(s: Seq<(i32, i32)>) -> bool {
    forall|i: int, j: int|
        0 <= i < s.len() && 0 <= j < s.len() && #[trigger] s[i].0 == #[trigger] s[j].0 ==> i == j
}

/// The value stored under `k`, if any.
pub open spec fn lookup(s: Seq<(i32, i32)>, k: i32) -> Option<i32> {
    let i = position_of(s, k);
    if i >= 0 {
        Some(s[i].1)
    } else {
        None
    }
}

/// The entries after a lookup of `k`: a found entry moves, unchanged, to the
/// most recent end; a miss changes nothing.
pub open spec fn after_get(s: Seq<(i32, i32)>, k: i32) -> Seq<(i32, i32)> {
    let i = position_of(s, k);
    if i >= 0 {
        s.remove(i).push(s[i])
    } else {
        s
    }
}

/// The entries after storing `(k, v)` in a cache of capacity `cap`.
/// A capacity of zero stores nothing. An entry with key `k` is replaced by the
/// new one at the most recent end. Otherwise a full cache first drops its
/// least recent entry, and the new entry goes to the most recent end.
pub open spec fn after_put(s: Seq<(i32, i32)>, cap: nat, k: i32, v: i32) -> Seq<(i32, i32)> {
    let i = position_of(s, k);
    if cap == 0 {
        s
    } else if i >= 0 {
        s.remove(i).push((k, v))
    } else if s.len() >= cap {
        s.drop_first().push((k, v))
    } else {
        s.push((k, v))
    }
}

/// `position_of` finds an entry with the key exactly when there is one; with
/// distinct keys it finds the only one.
pub proof fn lemma_position_of(s: Seq<(i32, i32)>, k: i32)
    ensures
        -1 <= position_of(s, k) < s.len(),
        position_of(s, k) >= 0 ==> s[position_of(s, k)].0 == k,
        position_of(s, k) < 0 <==> !has_key(s, k),
        distinct_keys(s) ==> forall|i: int| 0 <= i < s.len() && s[i].0 == k ==> position_of(s, k) == i,
    decreases s.len(),
{
    if s.len() > 0 && s.last().0 != k {
        let t = s.drop_last();
        lemma_position_of(t, k);
        if has_key(s, k) {
            let i = choose|i: int| 0 <= i < s.len() && #[trigger] s[i].0 == k;
            assert(t[i].0 == k);
        }
        if has_key(t, k) {
            let i = choose|i: int| 0 <= i < t.len() && #[trigger] t[i].0 == k;
            assert(s[i].0 == k);
        }
        if distinct_keys(s) {
            assert(distinct_keys(t)) by {
                assert forall|i: int, j: int|
                    0 <= i < t.len() && 0 <= j < t.len() && #[trigger] t[i].0 == #[trigger] t[j].0 implies i == j by {
                    assert(s[i].0 == s[j].0);
                }
            }
        }
    } else if s.len() > 0 {
        assert(s[s.len() - 1].0 == k);
    }
}

} // verus!
