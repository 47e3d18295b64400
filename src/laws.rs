use vstd::prelude::*;

use crate::model::{after_get, after_put, distinct_keys, has_key, lemma_position_of, lookup, position_of};

verus! {

/// The entries after storing each pair of `ps` in turn, starting from `s`.
pub open spec fn put_all(s: Seq<(i32, i32)>, cap: nat, ps: Seq<(i32, i32)>) -> Seq<(i32, i32)>
    decreases ps.len(),
{
    if ps.len() == 0 {
        s
    } else {
        after_put(put_all(s, cap, ps.drop_last()), cap, ps.last().0, ps.last().1)
    }
}

/// A `put` never leaves more entries than the capacity, and keeps keys distinct.
pub proof fn lemma_put_within_capacity(s: Seq<(i32, i32)>, cap: nat, k: i32, v: i32)
    requires
        distinct_keys(s),
        s.len() <= cap,
    ensures
        after_put(s, cap, k, v).len() <= cap,
        distinct_keys(after_put(s, cap, k, v)),
{
    lemma_position_of(s, k);
    let r = after_put(s, cap, k, v);
    let i = position_of(s, k);
    if cap > 0 {
        let t = if i >= 0 {
            s.remove(i)
        } else if s.len() >= cap {
            s.drop_first()
        } else {
            s
        };
        assert(r == t.push((k, v)));
        assert(forall|x: int| 0 <= x < t.len() ==> #[trigger] t[x].0 != k) by {
            assert forall|x: int| 0 <= x < t.len() implies #[trigger] t[x].0 != k by {
                if i >= 0 {
                    let y = if x < i { x } else { x + 1 };
                    assert(t[x] == s[y]);
                } else if s.len() >= cap {
                    assert(t[x] == s[x + 1]);
                } else {
                    assert(t[x] == s[x]);
                }
            }
        }
        assert forall|x: int, y: int|
            0 <= x < r.len() && 0 <= y < r.len() && #[trigger] r[x].0 == #[trigger] r[y].0 implies x == y by {
            if x < t.len() && y < t.len() {
                let x0 = if i >= 0 { if x < i { x } else { x + 1 } } else if s.len() >= cap { x + 1 } else { x };
                let y0 = if i >= 0 { if y < i { y } else { y + 1 } } else if s.len() >= cap { y + 1 } else { y };
                assert(r[x] == s[x0]);
                assert(r[y] == s[y0]);
            } else if x < t.len() {
                assert(r[x] == t[x]);
            } else if y < t.len() {
                assert(r[y] == t[y]);
            }
        }
    }
}

/// However many `put`s follow one another, the entries never outnumber the
/// capacity, and their keys stay distinct.
pub proof fn lemma_put_all_within_capacity(s: Seq<(i32, i32)>, cap: nat, ps: Seq<(i32, i32)>)
    requires
        distinct_keys(s),
        s.len() <= cap,
    ensures
        put_all(s, cap, ps).len() <= cap,
        distinct_keys(put_all(s, cap, ps)),
    decreases ps.len(),
{
    if ps.len() > 0 {
        lemma_put_all_within_capacity(s, cap, ps.drop_last());
        lemma_put_within_capacity(put_all(s, cap, ps.drop_last()), cap, ps.last().0, ps.last().1);
    }
}

/// A `get` never changes the number of entries, and keeps keys distinct.
pub proof fn lemma_get_keeps_size(s: Seq<(i32, i32)>, k: i32)
    requires
        distinct_keys(s),
    ensures
        after_get(s, k).len() == s.len(),
        distinct_keys(after_get(s, k)),
{
    lemma_position_of(s, k);
    let i = position_of(s, k);
    if i >= 0 {
        let r = after_get(s, k);
        assert forall|x: int, y: int|
            0 <= x < r.len() && 0 <= y < r.len() && #[trigger] r[x].0 == #[trigger] r[y].0 implies x == y by {
            let x0 = if x == s.len() - 1 { i } else if x < i { x } else { x + 1 };
            let y0 = if y == s.len() - 1 { i } else if y < i { y } else { y + 1 };
            assert(r[x] == s[x0]);
            assert(r[y] == s[y0]);
        }
    }
}

/// After `put(a, _)`, `put(b, _)` and `get(a)`, the entry of `a` is the most
/// recently used and that of `b` comes right before it; so the next `put` of a
/// new key into a full cache keeps `a`, and in a cache of two it evicts `b`.
pub proof fn lemma_get_refreshes(
    s: Seq<(i32, i32)>,
    cap: nat,
    a: i32,
    va: i32,
    b: i32,
    vb: i32,
    c: i32,
    vc: i32,
)
    requires
        distinct_keys(s),
        s.len() <= cap,
        cap >= 2,
        a != b,
        !has_key(after_get(after_put(after_put(s, cap, a, va), cap, b, vb), a), c),
    ensures
        ({
            let s3 = after_get(after_put(after_put(s, cap, a, va), cap, b, vb), a);
            &&& position_of(s3, a) == s3.len() - 1
            &&& position_of(s3, b) == s3.len() - 2
            &&& lookup(s3, a) == Some(va)
            &&& has_key(after_put(s3, cap, c, vc), a)
            &&& cap == 2 ==> !has_key(after_put(s3, cap, c, vc), b)
        }),
{
    let s1 = after_put(s, cap, a, va);
    lemma_position_of(s, a);
    lemma_put_within_capacity(s, cap, a, va);
    assert(s1.last() == (a, va));
    assert(s1.len() >= 1);
    let s2 = after_put(s1, cap, b, vb);
    lemma_position_of(s1, b);
    lemma_put_within_capacity(s1, cap, b, vb);
    let t = if position_of(s1, b) >= 0 {
        s1.remove(position_of(s1, b))
    } else if s1.len() >= cap {
        s1.drop_first()
    } else {
        s1
    };
    assert(s2 == t.push((b, vb)));
    // `a` was last in `s1` and survives into `t`, where it is still last.
    assert(position_of(s1, b) != s1.len() - 1);
    assert(t.len() >= 1 && t.last() == (a, va)) by {
        if position_of(s1, b) < 0 && s1.len() >= cap {
            assert(s1.len() >= 2);
            assert(t[t.len() - 1] == s1[s1.len() - 1]);
        } else if position_of(s1, b) >= 0 {
            assert(s1.len() >= 2);
            assert(t[t.len() - 1] == s1[s1.len() - 1]);
        }
    }
    assert(s2[s2.len() - 2] == (a, va));
    lemma_position_of(s2, a);
    assert(position_of(s2, a) == s2.len() - 2);
    let s3 = after_get(s2, a);
    lemma_get_keeps_size(s2, a);
    assert(s3 == s2.remove(s2.len() - 2).push(s2[s2.len() - 2]));
    assert(s3[s3.len() - 1] == (a, va));
    assert(s3[s3.len() - 2] == s2[s2.len() - 1]);
    lemma_position_of(s3, a);
    lemma_position_of(s3, b);
    lemma_position_of(s3, c);
    let s4 = after_put(s3, cap, c, vc);
    assert(s4[s4.len() - 2] == (a, va)) by {
        if s3.len() >= cap {
            assert(s4 == s3.drop_first().push((c, vc)));
        } else {
            assert(s4 == s3.push((c, vc)));
        }
    }
    assert(s4[s4.len() - 2].0 == a);
    if cap == 2 {
        assert(s3.len() == 2);
        assert(s4 == s3.drop_first().push((c, vc)));
        assert forall|x: int| 0 <= x < s4.len() implies #[trigger] s4[x].0 != b by {
            if x == 0 {
                assert(s4[0] == s3[1]);
            }
        }
    }
}

/// Storing `v1` and then `v2` under `k` leaves `v2` to be read back, and the
/// second store does not change the number of entries.
pub proof fn lemma_overwrite(s: Seq<(i32, i32)>, cap: nat, k: i32, v1: i32, v2: i32)
    requires
        distinct_keys(s),
        s.len() <= cap,
        cap >= 1,
    ensures
        lookup(after_put(after_put(s, cap, k, v1), cap, k, v2), k) == Some(v2),
        after_put(after_put(s, cap, k, v1), cap, k, v2).len() == after_put(s, cap, k, v1).len(),
{
    let s1 = after_put(s, cap, k, v1);
    lemma_position_of(s, k);
    lemma_put_within_capacity(s, cap, k, v1);
    assert(s1[s1.len() - 1].0 == k);
    lemma_position_of(s1, k);
    let s2 = after_put(s1, cap, k, v2);
    lemma_put_within_capacity(s1, cap, k, v2);
    lemma_position_of(s2, k);
    assert(s2[s2.len() - 1] == (k, v2));
}

/// A lookup of a key that no entry has finds nothing and changes nothing, so
/// repeating it gives the same answer.
pub proof fn lemma_miss_changes_nothing(s: Seq<(i32, i32)>, k: i32)
    requires
        !has_key(s, k),
    ensures
        lookup(s, k) is None,
        after_get(s, k) == s,
        lookup(after_get(s, k), k) is None,
        after_get(after_get(s, k), k) == s,
{
    lemma_position_of(s, k);
}

/// Storing distinct keys, no more than the capacity, into an empty cache keeps
/// them all, in the order stored.
pub proof fn lemma_fill(cap: nat, ps: Seq<(i32, i32)>)
    requires
        distinct_keys(ps),
        ps.len() <= cap,
    ensures
        put_all(Seq::empty(), cap, ps) == ps,
    decreases ps.len(),
{
    if ps.len() > 0 {
        let q = ps.drop_last();
        assert(distinct_keys(q)) by {
            assert forall|x: int, y: int|
                0 <= x < q.len() && 0 <= y < q.len() && #[trigger] q[x].0 == #[trigger] q[y].0 implies x == y by {
                assert(ps[x] == q[x] && ps[y] == q[y]);
            }
        }
        lemma_fill(cap, q);
        lemma_position_of(q, ps.last().0);
        assert(!has_key(q, ps.last().0)) by {
            assert forall|x: int| 0 <= x < q.len() implies #[trigger] q[x].0 != ps.last().0 by {
                assert(ps[x] == q[x]);
            }
        }
        assert(q.push(ps.last()) =~= ps);
    }
}

/// With capacity `cap`, storing `cap + 1` distinct keys into an empty cache
/// evicts exactly the first one stored.
pub proof fn lemma_evicts_first(cap: nat, ps: Seq<(i32, i32)>)
    requires
        distinct_keys(ps),
        ps.len() == cap + 1,
        cap >= 1,
    ensures
        put_all(Seq::empty(), cap, ps) == ps.drop_first(),
        !has_key(put_all(Seq::empty(), cap, ps), ps[0].0),
{
    let q = ps.drop_last();
    assert(distinct_keys(q)) by {
        assert forall|x: int, y: int|
            0 <= x < q.len() && 0 <= y < q.len() && #[trigger] q[x].0 == #[trigger] q[y].0 implies x == y by {
            assert(ps[x] == q[x] && ps[y] == q[y]);
        }
    }
    lemma_fill(cap, q);
    lemma_position_of(q, ps.last().0);
    assert(!has_key(q, ps.last().0)) by {
        assert forall|x: int| 0 <= x < q.len() implies #[trigger] q[x].0 != ps.last().0 by {
            assert(ps[x] == q[x]);
        }
    }
    let r = put_all(Seq::empty(), cap, ps);
    assert(r == q.drop_first().push(ps.last()));
    assert(r =~= ps.drop_first());
    assert forall|x: int| 0 <= x < r.len() implies #[trigger] r[x].0 != ps[0].0 by {
        assert(r[x] == ps[x + 1]);
    }
}

} // verus!
