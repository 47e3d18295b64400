use std::collections::HashMap;
use vstd::prelude::*;

use crate::model::{after_get, after_put, distinct_keys, lemma_position_of, lookup, position_of};

verus! {

broadcast use vstd::std_specs::hash::group_hash_axioms;

/// One entry of the cache and its links to its neighbours in recency order,
/// as slot numbers of the arena.
#[derive(Clone, Copy)]
struct ListNode {
    key: i32,
    value: i32,
    prev: Option<usize>,
    next: Option<usize>,
}

impl ListNode {
    fn new(k: i32, v: i32) -> (r: ListNode)
        ensures
            r.key == k,
            r.value == v,
            r.prev is None,
            r.next is None,
    {
        ListNode { key: k, value: v, prev: None, next: None }
    }

    /// The node that `new` returns.
    spec fn new_spec(k: i32, v: i32) -> ListNode {
        ListNode { key: k, value: v, prev: None, next: None }
    }
}

/// A least-recently-used cache holding at most `capacity` entries.
pub struct LRUCache {
    map: HashMap<i32, usize>,
    nodes: Vec<ListNode>,
    capacity: usize,
    head: Option<usize>,
    tail: Option<usize>,
    /// The slots of the chain, from the least recent entry to the most recent.
    order: Ghost<Seq<usize>>,
}

/// Two arenas hold the same keys and values slot by slot.
spec fn same_entries(a: Seq<ListNode>, b: Seq<ListNode>) -> bool {
    &&& a.len() == b.len()
    &&& forall|s: int| 0 <= s < a.len() ==> #[trigger] a[s].key == b[s].key && a[s].value == b[s].value
}

/// `o` lists distinct slots of `n`.
spec fn slots_ok(o: Seq<usize>, n: Seq<ListNode>) -> bool {
    &&& forall|a: int, b: int| 0 <= a < b < o.len() ==> #[trigger] o[a] != #[trigger] o[b]
    &&& forall|a: int| 0 <= a < o.len() ==> #[trigger] o[a] < n.len()
}

/// `o` lists distinct slots of `n`, each linked to its neighbours in `o`,
/// with `head` and `tail` at its two ends.
#[verifier::opaque]
spec fn chain_ok(o: Seq<usize>, n: Seq<ListNode>, head: Option<usize>, tail: Option<usize>) -> bool {
    &&& forall|a: int, b: int| 0 <= a < b < o.len() ==> #[trigger] o[a] != #[trigger] o[b]
    &&& forall|a: int| 0 <= a < o.len() ==> #[trigger] o[a] < n.len()
    &&& head == if o.len() == 0 { None } else { Some(o[0]) }
    &&& tail == if o.len() == 0 { None } else { Some(o.last()) }
    &&& forall|a: int|
        #![trigger o[a]]
        0 <= a < o.len() ==> n[o[a] as int].prev == if a == 0 { None } else { Some(o[a - 1]) }
    &&& forall|a: int|
        #![trigger o[a]]
        0 <= a < o.len() ==> n[o[a] as int].next == if a == o.len() - 1 { None } else { Some(o[a + 1]) }
}

/// `n` is `n0` with the neighbours of position `i` of `o` linked to each other.
spec fn unlinked(o: Seq<usize>, n0: Seq<ListNode>, n: Seq<ListNode>, i: int) -> bool {
    let before: Option<usize> = if i > 0 { Some(o[i - 1]) } else { None };
    let after: Option<usize> = if i + 1 < o.len() { Some(o[i + 1]) } else { None };
    &&& n.len() == n0.len()
    &&& forall|a: int|
        #![trigger o[a]]
        0 <= a < o.len() && a != i - 1 && a != i + 1 ==> n[o[a] as int].prev == n0[o[a] as int].prev
            && n[o[a] as int].next == n0[o[a] as int].next
    &&& i > 0 ==> n[o[i - 1] as int].prev == n0[o[i - 1] as int].prev && n[o[i - 1] as int].next == after
    &&& i + 1 < o.len() ==> n[o[i + 1] as int].next == n0[o[i + 1] as int].next && n[o[i + 1] as int].prev == before
}

/// Linking the neighbours of position `i` to each other leaves a correct chain
/// without that position.
proof fn lemma_unlink(
    o: Seq<usize>,
    n0: Seq<ListNode>,
    n: Seq<ListNode>,
    i: int,
    head: Option<usize>,
    tail: Option<usize>,
)
    requires
        chain_ok(o, n0, head, tail),
        0 <= i < o.len(),
        unlinked(o, n0, n, i),
    ensures
        chain_ok(
            o.remove(i),
            n,
            if i == 0 { if o.len() > 1 { Some(o[1]) } else { None } } else { head },
            if i == o.len() - 1 { if i > 0 { Some(o[i - 1]) } else { None } } else { tail },
        ),
        slots_ok(o.remove(i), n),
{
    reveal(chain_ok);
    let o2 = o.remove(i);
    assert forall|a: int| 0 <= a < o2.len() implies #[trigger] o2[a] == if a < i { o[a] } else { o[a + 1] } by {}
    assert forall|a: int, b: int| 0 <= a < b < o2.len() implies #[trigger] o2[a] != #[trigger] o2[b] by {
        let a0 = if a < i { a } else { a + 1 };
        let b0 = if b < i { b } else { b + 1 };
        assert(o[a0] != o[b0]);
    }
    assert forall|a: int| 0 <= a < o2.len() implies #[trigger] o2[a] < n.len() by {
        let a0 = if a < i { a } else { a + 1 };
        assert(o[a0] < n.len());
    }
    assert forall|a: int|
        #![trigger o2[a]]
        0 <= a < o2.len() implies n[o2[a] as int].prev == (if a == 0 { None } else { Some(o2[a - 1]) }) && n[o2[a] as int].next == (if a == o2.len() - 1 { None } else { Some(o2[a + 1]) }) by {
        let a0 = if a < i { a } else { a + 1 };
        assert(o[a0] == o2[a]);
        if a0 > 0 && a0 - 1 != i {
            assert(o[a0 - 1] == o2[if a0 - 1 < i { a0 - 1 } else { a0 - 2 }]);
        }
        if a0 < o.len() - 1 && a0 + 1 != i {
            assert(o[a0 + 1] == o2[if a0 + 1 < i { a0 + 1 } else { a0 }]);
        }
    }
}

/// `n0` with the node at `next` pointing back to `prev` and the node at
/// `prev` pointing on to `next`, where present.
spec fn relink(n0: Seq<ListNode>, prev: Option<usize>, next: Option<usize>) -> Seq<ListNode> {
    let n1 = match next {
        Some(x) => n0.update(x as int, ListNode { prev: prev, ..n0[x as int] }),
        None => n0,
    };
    match prev {
        Some(p) => n1.update(p as int, ListNode { next: next, ..n1[p as int] }),
        None => n1,
    }
}

/// Relinking the neighbours of position `i` of a correct chain leaves a
/// correct chain without that position.
proof fn lemma_relink(o: Seq<usize>, n0: Seq<ListNode>, i: int, head: Option<usize>, tail: Option<usize>)
    requires
        chain_ok(o, n0, head, tail),
        0 <= i < o.len(),
    ensures
        chain_ok(
            o.remove(i),
            relink(n0, n0[o[i] as int].prev, n0[o[i] as int].next),
            if i == 0 { n0[o[i] as int].next } else { head },
            if i == o.len() - 1 { n0[o[i] as int].prev } else { tail },
        ),
        same_entries(relink(n0, n0[o[i] as int].prev, n0[o[i] as int].next), n0),
        slots_ok(o.remove(i), relink(n0, n0[o[i] as int].prev, n0[o[i] as int].next)),
        n0[o[i] as int].prev is None <==> i == 0,
        n0[o[i] as int].next is None <==> i == o.len() - 1,
        n0[o[i] as int].prev matches Some(p) ==> p < n0.len(),
        n0[o[i] as int].next matches Some(x) ==> x < n0.len(),
{
    reveal(chain_ok);
    let pv = n0[o[i] as int].prev;
    let nx = n0[o[i] as int].next;
    let n = relink(n0, pv, nx);
    assert forall|a: int|
        #![trigger o[a]]
        0 <= a < o.len() && a != i - 1 && a != i + 1 implies n[o[a] as int].prev == n0[o[a] as int].prev
            && n[o[a] as int].next == n0[o[a] as int].next by {
        if i > 0 { assert(o[a] != o[i - 1] || a == i - 1); }
        if i + 1 < o.len() { assert(o[a] != o[i + 1] || a == i + 1); }
    }
    if i > 0 && i + 1 < o.len() {
        assert(o[i - 1] != o[i + 1]);
    }
    assert(unlinked(o, n0, n, i));
    lemma_unlink(o, n0, n, i, head, tail);
}

/// The index relation over the chain `o`: each entry's key maps to its slot,
/// and every key of the index maps to a slot of the chain holding that key.
#[verifier::opaque]
spec fn index_pred(o: Seq<usize>, n: Seq<ListNode>, m: Map<i32, usize>) -> bool {
    &&& forall|a: int|
        #![trigger o[a]]
        0 <= a < o.len() ==> m.contains_key(n[o[a] as int].key) && m[n[o[a] as int].key] == o[a]
    &&& forall|k: i32|
        #[trigger] m.contains_key(k) ==> m[k] < n.len() && n[m[k] as int].key == k && o.contains(m[k])
}

/// Dropping position `i` from the chain and its key from the index keeps
/// the index relation.
proof fn lemma_index_remove(o: Seq<usize>, n0: Seq<ListNode>, n: Seq<ListNode>, m: Map<i32, usize>, i: int)
    requires
        index_pred(o, n0, m),
        forall|a: int, b: int| 0 <= a < b < o.len() ==> #[trigger] o[a] != #[trigger] o[b],
        same_entries(n, n0),
        0 <= i < o.len(),
    ensures
        index_pred(o.remove(i), n, m.remove(n0[o[i] as int].key)),
{
    reveal(index_pred);
    let o2 = o.remove(i);
    let m2 = m.remove(n0[o[i] as int].key);
    assert forall|a: int|
        #![trigger o2[a]]
        0 <= a < o2.len() implies m2.contains_key(n[o2[a] as int].key) && m2[n[o2[a] as int].key] == o2[a] by {
        let a0 = if a < i { a } else { a + 1 };
        assert(o[a0] == o2[a]);
        if a0 < i { assert(o[a0] != o[i]); } else { assert(o[i] != o[a0]); }
        assert(m[n0[o[a0] as int].key] == o[a0]);
        assert(n[o2[a] as int].key == n0[o[a0] as int].key);
    }
    assert forall|k: i32| #[trigger] m2.contains_key(k) implies m2[k] < n.len() && n[m2[k] as int].key == k && o2.contains(m2[k]) by {
        let s = m[k];
        assert(o.contains(s));
        let a0 = choose|a0: int| 0 <= a0 < o.len() && o[a0] == s;
        assert(a0 != i);
        let a = if a0 < i { a0 } else { a0 - 1 };
        assert(o2[a] == s);
        assert(n[s as int].key == n0[s as int].key);
    }
}

/// `n0` with the node at `j` placed after `tail`.
spec fn appended(n0: Seq<ListNode>, tail: Option<usize>, j: usize) -> Seq<ListNode> {
    let n1 = match tail {
        Some(t) => n0.update(t as int, ListNode { next: Some(j), ..n0[t as int] }),
        None => n0,
    };
    n1.update(j as int, ListNode { prev: tail, next: None, ..n1[j as int] })
}

/// Linking a slot outside a correct chain after its tail gives a correct
/// chain one longer.
proof fn lemma_append(o: Seq<usize>, n0: Seq<ListNode>, j: usize, head: Option<usize>, tail: Option<usize>)
    requires
        chain_ok(o, n0, head, tail),
        j < n0.len(),
        forall|a: int| 0 <= a < o.len() ==> #[trigger] o[a] != j,
    ensures
        chain_ok(o.push(j), appended(n0, tail, j), if o.len() == 0 { Some(j) } else { head }, Some(j)),
        same_entries(appended(n0, tail, j), n0),
        slots_ok(o.push(j), appended(n0, tail, j)),
        tail matches Some(t) ==> t < n0.len(),
        tail is None <==> o.len() == 0,
{
    reveal(chain_ok);
    let o2 = o.push(j);
    let n = appended(n0, tail, j);
    assert forall|a: int, b: int| 0 <= a < b < o2.len() implies #[trigger] o2[a] != #[trigger] o2[b] by {
        if b < o.len() {
            assert(o[a] != o[b]);
        } else {
            assert(o[a] != j);
        }
    }
    assert forall|a: int|
        #![trigger o2[a]]
        0 <= a < o2.len() implies o2[a] < n.len() && n[o2[a] as int].prev == (if a == 0 { None } else { Some(o2[a - 1]) }) && n[o2[a] as int].next == (if a == o2.len() - 1 { None } else { Some(o2[a + 1]) }) by {
        if a < o.len() {
            assert(o[a] == o2[a]);
            assert(o[a] != j);
            if a < o.len() - 1 {
                assert(o[a] != o[o.len() - 1]);
                assert(o[a + 1] == o2[a + 1]);
            }
            if a > 0 {
                assert(o[a - 1] == o2[a - 1]);
            }
        } else if a > 0 {
            assert(o2[a - 1] == o[o.len() - 1]);
        }
    }
}

/// Adding a slot outside the chain, under a key outside the index, keeps
/// the index relation.
proof fn lemma_index_push(o: Seq<usize>, n0: Seq<ListNode>, n: Seq<ListNode>, m: Map<i32, usize>, j: usize)
    requires
        index_pred(o, n0, m),
        same_entries(n, n0),
        j < n0.len(),
        forall|a: int| 0 <= a < o.len() ==> #[trigger] o[a] != j,
        !m.contains_key(n0[j as int].key),
    ensures
        index_pred(o.push(j), n, m.insert(n0[j as int].key, j)),
{
    reveal(index_pred);
    let o2 = o.push(j);
    let m2 = m.insert(n0[j as int].key, j);
    assert forall|a: int|
        #![trigger o2[a]]
        0 <= a < o2.len() implies m2.contains_key(n[o2[a] as int].key) && m2[n[o2[a] as int].key] == o2[a] by {
        if a < o.len() {
            assert(o[a] == o2[a]);
            assert(m.contains_key(n0[o[a] as int].key));
            assert(n[o2[a] as int].key == n0[o[a] as int].key);
        }
    }
    assert forall|k: i32| #[trigger] m2.contains_key(k) implies m2[k] < n.len() && n[m2[k] as int].key == k && o2.contains(m2[k]) by {
        if k == n0[j as int].key {
            assert(o2[o.len() as int] == j);
        } else {
            let s = m[k];
            assert(o.contains(s));
            let a0 = choose|a0: int| 0 <= a0 < o.len() && o[a0] == s;
            assert(o2[a0] == s);
            assert(n[s as int].key == n0[s as int].key);
        }
    }
}

/// The `(key, value)` pairs of the slots `o` of `n`, in order.
spec fn entries(o: Seq<usize>, n: Seq<ListNode>) -> Seq<(i32, i32)> {
    Seq::new(o.len(), |i: int| (n[o[i] as int].key, n[o[i] as int].value))
}

/// Moving position `a` of the chain to its end, where the slot now at the end
/// may hold a new entry, moves that entry in the pairs.
proof fn lemma_entries_move(o: Seq<usize>, n0: Seq<ListNode>, n: Seq<ListNode>, a: int, j: usize)
    requires
        slots_ok(o, n0),
        0 <= a < o.len(),
        o[a] == j,
        n.len() == n0.len(),
        forall|s: int|
            #![trigger n[s]]
            0 <= s < n.len() && s != j ==> n[s].key == n0[s].key && n[s].value == n0[s].value,
    ensures
        entries(o.remove(a).push(j), n) == entries(o, n0).remove(a).push((n[j as int].key, n[j as int].value)),
{
    let o2 = o.remove(a).push(j);
    assert forall|b: int| 0 <= b < o.len() && b != a implies #[trigger] o[b] != j by {
        if b < a { assert(o[b] != o[a]); } else { assert(o[a] != o[b]); }
    }
    let lhs = entries(o2, n);
    let rhs = entries(o, n0).remove(a).push((n[j as int].key, n[j as int].value));
    assert forall|b: int| 0 <= b < lhs.len() implies #[trigger] lhs[b] == rhs[b] by {
        if b < a {
            assert(o2[b] == o[b]);
        } else if b < o.len() - 1 {
            assert(o2[b] == o[b + 1]);
        }
    }
    assert(lhs =~= rhs);
}

/// Adding slot `j` at the end of the chain adds its entry at the end of the pairs.
proof fn lemma_entries_push(o: Seq<usize>, n0: Seq<ListNode>, n: Seq<ListNode>, j: usize)
    requires
        forall|b: int|
            #![trigger o[b]]
            0 <= b < o.len() ==> n[o[b] as int].key == n0[o[b] as int].key && n[o[b] as int].value
                == n0[o[b] as int].value,
    ensures
        entries(o.push(j), n) == entries(o, n0).push((n[j as int].key, n[j as int].value)),
{
    let o2 = o.push(j);
    let lhs = entries(o2, n);
    let rhs = entries(o, n0).push((n[j as int].key, n[j as int].value));
    assert forall|b: int| 0 <= b < lhs.len() implies #[trigger] lhs[b] == rhs[b] by {
        if b < o.len() {
            assert(o2[b] == o[b]);
        }
    }
    assert(lhs =~= rhs);
}

impl View for LRUCache {
    type V = Seq<(i32, i32)>;

    /// The entries from the least recently used to the most recently used.
    closed spec fn view(&self) -> Seq<(i32, i32)> {
        entries(self.order@, self.nodes@)
    }
}

impl LRUCache {
    /// The most entries the cache holds.
    pub closed spec fn cap(&self) -> nat {
        self.capacity as nat
    }

    /// The chain through `order` is linked correctly, from `head` to `tail`.
    closed spec fn links_ok(&self) -> bool {
        chain_ok(self.order@, self.nodes@, self.head, self.tail) && slots_ok(self.order@, self.nodes@)
    }

    /// The index maps the key of each entry of the chain to its slot, and no other key.
    closed spec fn index_ok(&self) -> bool {
        index_pred(self.order@, self.nodes@, self.map@)
    }

    /// Well-formedness: a correct chain of every slot, a matching index, and
    /// no more entries than the capacity.
    pub closed spec fn wf(&self) -> bool {
        &&& self.links_ok()
        &&& self.index_ok()
        &&& self.order@.len() == self.nodes@.len()
        &&& self.nodes@.len() <= self.capacity
    }

    /// Sets the `prev` link of the node in slot `s`.
    fn set_prev(&mut self, s: usize, p: Option<usize>)
        requires
            s < old(self).nodes@.len(),
        ensures
            final(self).nodes@ == old(self).nodes@.update(s as int, ListNode { prev: p, ..old(self).nodes@[s as int] }),
            final(self).map == old(self).map,
            final(self).capacity == old(self).capacity,
            final(self).head == old(self).head,
            final(self).tail == old(self).tail,
            final(self).order == old(self).order,
    {
        let mut nd = self.nodes[s];
        nd.prev = p;
        self.nodes.set(s, nd);
    }

    /// Sets the `next` link of the node in slot `s`.
    fn set_next(&mut self, s: usize, x: Option<usize>)
        requires
            s < old(self).nodes@.len(),
        ensures
            final(self).nodes@ == old(self).nodes@.update(s as int, ListNode { next: x, ..old(self).nodes@[s as int] }),
            final(self).map == old(self).map,
            final(self).capacity == old(self).capacity,
            final(self).head == old(self).head,
            final(self).tail == old(self).tail,
            final(self).order == old(self).order,
    {
        let mut nd = self.nodes[s];
        nd.next = x;
        self.nodes.set(s, nd);
    }

    /// Unlinks the node in slot `j`, at position `i` of the chain, relinking its
    /// neighbours, and removes its key from the index. The slot stays in the
    /// arena with its key and value.
    fn detach(&mut self, j: usize, Ghost(i): Ghost<int>)
        requires
            old(self).links_ok(),
            old(self).index_ok(),
            0 <= i < old(self).order@.len(),
            old(self).order@[i] == j,
        ensures
            final(self).links_ok(),
            final(self).index_ok(),
            final(self).order@ == old(self).order@.remove(i),
            forall|b: int| 0 <= b < final(self).order@.len() ==> #[trigger] final(self).order@[b] != j,
            final(self).map@ == old(self).map@.remove(old(self).nodes@[j as int].key),
            same_entries(final(self).nodes@, old(self).nodes@),
            final(self).capacity == old(self).capacity,
    {
        let ghost o = self.order@;
        let ghost n0 = self.nodes@;
        let node = self.nodes[j];
        proof {
            lemma_relink(o, n0, i, self.head, self.tail);
        }
        match (node.prev, node.next) {
            (None, None) => {
                self.head = None;
                self.tail = None;
            },
            (None, Some(next)) => {
                self.head = Some(next);
                self.set_prev(next, None);
            },
            (Some(prev), None) => {
                self.tail = Some(prev);
                self.set_next(prev, None);
            },
            (Some(prev), Some(next)) => {
                self.set_prev(next, Some(prev));
                self.set_next(prev, Some(next));
            },
        }
        assert(self.nodes@ == relink(n0, node.prev, node.next));
        self.order = Ghost(o.remove(i));
        let key = node.key;
        self.map.remove(&key);
        proof {
            lemma_index_remove(o, n0, self.nodes@, old(self).map@, i);
            assert forall|b: int| 0 <= b < self.order@.len() implies #[trigger] self.order@[b] != j by {
                let b0 = if b < i { b } else { b + 1 };
                assert(o[b0] == self.order@[b]);
                if b0 < i { assert(o[b0] != o[i]); } else { assert(o[i] != o[b0]); }
            }
        }
    }

    /// Sets both links of the node in slot `s`.
    fn set_links(&mut self, s: usize, p: Option<usize>, x: Option<usize>)
        requires
            s < old(self).nodes@.len(),
        ensures
            final(self).nodes@ == old(self).nodes@.update(s as int, ListNode { prev: p, next: x, ..old(self).nodes@[s as int] }),
            final(self).map == old(self).map,
            final(self).capacity == old(self).capacity,
            final(self).head == old(self).head,
            final(self).tail == old(self).tail,
            final(self).order == old(self).order,
    {
        let mut nd = self.nodes[s];
        nd.prev = p;
        nd.next = x;
        self.nodes.set(s, nd);
    }

    /// Links the node in slot `j`, which is outside the chain, as the most
    /// recent entry, and maps its key to `j` in the index.
    fn attach_most_recent(&mut self, j: usize)
        requires
            old(self).links_ok(),
            old(self).index_ok(),
            j < old(self).nodes@.len(),
            forall|a: int| 0 <= a < old(self).order@.len() ==> #[trigger] old(self).order@[a] != j,
            !old(self).map@.contains_key(old(self).nodes@[j as int].key),
        ensures
            final(self).links_ok(),
            final(self).index_ok(),
            final(self).order@ == old(self).order@.push(j),
            final(self).map@ == old(self).map@.insert(old(self).nodes@[j as int].key, j),
            same_entries(final(self).nodes@, old(self).nodes@),
            final(self).capacity == old(self).capacity,
    {
        let ghost o = self.order@;
        let ghost n0 = self.nodes@;
        proof {
            lemma_append(o, n0, j, self.head, self.tail);
        }
        match self.tail {
            Some(t) => {
                self.set_next(t, Some(j));
                self.set_links(j, Some(t), None);
                self.tail = Some(j);
            },
            None => {
                self.set_links(j, None, None);
                self.head = Some(j);
                self.tail = Some(j);
            },
        }
        assert(self.nodes@ == appended(n0, old(self).tail, j));
        self.order = Ghost(o.push(j));
        let key = self.nodes[j].key;
        self.map.insert(key, j);
        proof {
            lemma_index_push(o, n0, self.nodes@, old(self).map@, j);
        }
    }

    /// Where `key` stands in the chain: with the key in the index, its slot
    /// is at the position that `position_of` gives in the view; without it,
    /// the view has no entry with that key.
    proof fn lemma_locate(&self, key: i32) -> (a: int)
        requires
            self.wf(),
        ensures
            self.map@.contains_key(key) ==> 0 <= a < self.order@.len() && self.order@[a] == self.map@[key]
                && self.map@[key] < self.nodes@.len() && self.nodes@[self.map@[key] as int].key == key
                && position_of(self@, key) == a,
            !self.map@.contains_key(key) ==> position_of(self@, key) == -1,
    {
        reveal(index_pred);
        self.lemma_wf();
        lemma_position_of(self@, key);
        let o = self.order@;
        if self.map@.contains_key(key) {
            let j = self.map@[key];
            assert(o.contains(j));
            let a = choose|a: int| 0 <= a < o.len() && o[a] == j;
            assert(self@[a].0 == key);
            a
        } else {
            -1
        }
    }

    /// Creates an empty cache holding at most `capacity` entries; a capacity
    /// of zero or less gives a cache that holds nothing.
    pub fn new(capacity: i32) -> (r: LRUCache)
        ensures
            r.wf(),
            r@ == Seq::<(i32, i32)>::empty(),
            r.cap() == if capacity > 0 { capacity as nat } else { 0 },
    {
        let cap: usize = if capacity > 0 { capacity as usize } else { 0 };
        let r = LRUCache {
            map: HashMap::new(),
            nodes: Vec::new(),
            capacity: cap,
            head: None,
            tail: None,
            order: Ghost(Seq::empty()),
        };
        assert(r@ =~= Seq::<(i32, i32)>::empty());
        proof {
            reveal(chain_ok);
            reveal(index_pred);
        }
        r
    }

    /// Unlinks the least recent entry and removes its key from the index,
    /// returning its slot, which stays in the arena outside the chain.
    fn remove_first(&mut self) -> (j: usize)
        requires
            old(self).links_ok(),
            old(self).index_ok(),
            old(self).order@.len() > 0,
        ensures
            j == old(self).order@[0],
            final(self).links_ok(),
            final(self).index_ok(),
            final(self).order@ == old(self).order@.remove(0),
            forall|b: int| 0 <= b < final(self).order@.len() ==> #[trigger] final(self).order@[b] != j,
            final(self).map@ == old(self).map@.remove(old(self).nodes@[j as int].key),
            same_entries(final(self).nodes@, old(self).nodes@),
            final(self).capacity == old(self).capacity,
    {
        proof {
            reveal(chain_ok);
        }
        let j = self.head.unwrap();
        self.detach(j, Ghost(0));
        j
    }

    /// Writes a fresh entry into slot `j`, which is outside the chain, under a
    /// key outside the index.
    fn write_slot(&mut self, j: usize, key: i32, value: i32)
        requires
            old(self).links_ok(),
            old(self).index_ok(),
            j < old(self).nodes@.len(),
            forall|a: int| 0 <= a < old(self).order@.len() ==> #[trigger] old(self).order@[a] != j,
            !old(self).map@.contains_key(key),
        ensures
            final(self).links_ok(),
            final(self).index_ok(),
            final(self).nodes@ == old(self).nodes@.update(j as int, ListNode::new_spec(key, value)),
            final(self).order == old(self).order,
            final(self).map == old(self).map,
            final(self).capacity == old(self).capacity,
    {
        self.nodes.set(j, ListNode::new(key, value));
        proof {
            reveal(chain_ok);
            reveal(index_pred);
            let o = self.order@;
            let n = self.nodes@;
            let m = self.map@;
            assert forall|k: i32| #[trigger] m.contains_key(k) implies m[k] < n.len() && n[m[k] as int].key == k && o.contains(m[k]) by {
                assert(o.contains(m[k]));
                assert(m[k] != j);
            }
        }
    }

    /// Adds a fresh entry in a new slot at the end of the arena, outside the
    /// chain, and returns that slot.
    fn push_slot(&mut self, key: i32, value: i32) -> (j: usize)
        requires
            old(self).links_ok(),
            old(self).index_ok(),
            old(self).nodes@.len() < usize::MAX,
        ensures
            final(self).links_ok(),
            final(self).index_ok(),
            j == old(self).nodes@.len(),
            final(self).nodes@ == old(self).nodes@.push(ListNode::new_spec(key, value)),
            forall|a: int| 0 <= a < final(self).order@.len() ==> #[trigger] final(self).order@[a] != j,
            final(self).order == old(self).order,
            final(self).map == old(self).map,
            final(self).capacity == old(self).capacity,
    {
        let j = self.nodes.len();
        self.nodes.push(ListNode::new(key, value));
        proof {
            reveal(chain_ok);
            reveal(index_pred);
            let o = self.order@;
            let n = self.nodes@;
            let m = self.map@;
            assert forall|a: int| 0 <= a < o.len() implies #[trigger] o[a] != j by {}
            assert forall|k: i32| #[trigger] m.contains_key(k) implies m[k] < n.len() && n[m[k] as int].key == k && o.contains(m[k]) by {
                assert(old(self).nodes@[m[k] as int] == n[m[k] as int]);
            }
        }
        j
    }

    /// Looks up `key`. A found entry becomes the most recently used and its
    /// value is returned; a miss returns `None` and changes nothing.
    pub fn try_get(&mut self, key: i32) -> (r: Option<i32>)
        requires
            old(self).wf(),
        ensures
            final(self).wf(),
            r == lookup(old(self)@, key),
            final(self)@ == after_get(old(self)@, key),
            final(self).cap() == old(self).cap(),
    {
        let ghost a = self.lemma_locate(key);
        match self.map.get(&key) {
            Some(j) => {
                let j = *j;
                let ghost o = self.order@;
                let ghost n0 = self.nodes@;
                self.detach(j, Ghost(a));
                let ghost n1 = self.nodes@;
                self.attach_most_recent(j);
                proof {
                    let n = self.nodes@;
                    assert forall|s: int|
                    #![trigger n[s]]
                    0 <= s < n.len() && s != j implies n[s].key == n0[s].key && n[s].value == n0[s].value by {
                        assert(n[s].key == n1[s].key);
                    }
                    lemma_entries_move(o, n0, n, a, j);
                }
                Some(self.nodes[j].value)
            },
            None => None,
        }
    }

    /// Looks up `key` as `try_get` does, answering -1 for a missing key.
    pub fn get(&mut self, key: i32) -> (r: i32)
        requires
            old(self).wf(),
        ensures
            final(self).wf(),
            r == match lookup(old(self)@, key) {
                Some(v) => v as int,
                None => -1,
            },
            final(self)@ == after_get(old(self)@, key),
            final(self).cap() == old(self).cap(),
    {
        match self.try_get(key) {
            Some(v) => v,
            None => -1,
        }
    }

    /// Stores `value` under `key` as the most recently used entry. An entry
    /// with that key is replaced; otherwise, in a full cache, the least
    /// recently used entry is evicted first. A cache of capacity zero ignores
    /// the call.
    pub fn put(&mut self, key: i32, value: i32)
        requires
            old(self).wf(),
        ensures
            final(self).wf(),
            final(self)@ == after_put(old(self)@, old(self).cap(), key, value),
            final(self)@.len() <= final(self).cap(),
            final(self).cap() == old(self).cap(),
    {
        if self.capacity == 0 {
            return;
        }
        let ghost a = self.lemma_locate(key);
        let ghost o = self.order@;
        let ghost n0 = self.nodes@;
        let slot: usize;
        if self.map.contains_key(&key) {
            let j = *self.map.get(&key).unwrap();
            self.detach(j, Ghost(a));
            let ghost n1 = self.nodes@;
            self.write_slot(j, key, value);
            slot = j;
            proof {
                let n = self.nodes@;
                assert forall|s: int|
                    #![trigger n[s]]
                    0 <= s < n.len() && s != j implies n[s].key == n0[s].key && n[s].value == n0[s].value by {
                    assert(n[s].key == n1[s].key);
                }
                lemma_entries_move(o, n0, n, a, slot);
            }
        } else if self.nodes.len() == self.capacity {
            let j = self.remove_first();
            let ghost n1 = self.nodes@;
            self.write_slot(j, key, value);
            slot = j;
            proof {
                let n = self.nodes@;
                assert forall|s: int|
                    #![trigger n[s]]
                    0 <= s < n.len() && s != j implies n[s].key == n0[s].key && n[s].value == n0[s].value by {
                    assert(n[s].key == n1[s].key);
                }
                lemma_entries_move(o, n0, n, 0, slot);
                assert(old(self)@.remove(0) =~= old(self)@.drop_first());
            }
        } else {
            slot = self.push_slot(key, value);
            proof {
                lemma_entries_push(o, n0, self.nodes@, slot);
            }
        }
        let ghost n1 = self.nodes@;
        self.attach_most_recent(slot);
        proof {
            assert(entries(self.order@, self.nodes@) == entries(self.order@, n1)) by {
                assert(entries(self.order@, self.nodes@) =~= entries(self.order@, n1));
            }
            self.lemma_wf();
        }
    }

    /// The number of entries held.
    pub fn len(&self) -> (r: usize)
        requires
            self.wf(),
        ensures
            r == self@.len(),
    {
        self.nodes.len()
    }

    /// The most entries the cache holds.
    pub fn capacity(&self) -> (r: usize)
        ensures
            r == self.cap(),
    {
        self.capacity
    }

    /// A well-formed cache has distinct keys and respects its capacity.
    pub proof fn lemma_wf(&self)
        requires
            self.wf(),
        ensures
            distinct_keys(self@),
            self@.len() <= self.cap(),
    {
        reveal(chain_ok);
        reveal(index_pred);
        let s = self@;
        let o = self.order@;
        assert forall|i: int, j: int|
            0 <= i < s.len() && 0 <= j < s.len() && #[trigger] s[i].0 == #[trigger] s[j].0 implies i == j by {
            assert(o[i] == self.map@[s[i].0]);
            assert(o[j] == self.map@[s[j].0]);
            if i < j {
                assert(o[i] != o[j]);
            } else if j < i {
                assert(o[j] != o[i]);
            }
        }
    }
}

} // verus!
