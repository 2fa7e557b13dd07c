//! Walking a hash map in an order that does not depend on its hasher.
use std::collections::HashMap;
use vstd::prelude::*;
use vstd::std_specs::iter::IteratorSpec;

verus! {

broadcast use vstd::std_specs::hash::group_hash_axioms;

/// Each element is less than the next.
pub open spec fn strictly_ascending(s: Seq<u32>) -> bool {
    forall|i: int, j: int| 0 <= i < j < s.len() ==> s[i] < s[j]
}

/// `q` lists exactly the members of `members`, each once, in ascending order.
pub open spec fn lists_ascending(members: Set<u32>, q: Seq<u32>) -> bool {
    &&& strictly_ascending(q)
    &&& forall|k: u32| q.contains(k) <==> members.contains(k)
}

/// The members of a finite set in ascending order.
pub open spec fn ascending(members: Set<u32>) -> Seq<u32> {
    choose|q: Seq<u32>| lists_ascending(members, q)
}

/// `before` never holds both ways round, nor of a value and itself.
pub open spec fn is_asymmetric(before: spec_fn(u32, u32) -> bool) -> bool {
    forall|a: u32, b: u32| !(#[trigger] before(a, b) && before(b, a))
}

/// Each element of `q` stands before all later ones.
pub open spec fn is_sorted_by(q: Seq<u32>, before: spec_fn(u32, u32) -> bool) -> bool {
    forall|i: int, j: int| 0 <= i < j < q.len() ==> before(q[i], q[j])
}

/// Two sequences that are sorted by one asymmetric relation and have the same
/// elements are the same sequence.
pub proof fn lemma_sorted_is_unique(a: Seq<u32>, b: Seq<u32>, before: spec_fn(u32, u32) -> bool)
    requires
        is_asymmetric(before),
        is_sorted_by(a, before),
        is_sorted_by(b, before),
        forall|k: u32| a.contains(k) <==> b.contains(k),
    ensures
        a == b,
    decreases a.len(),
{
    if a.len() == 0 {
        if b.len() > 0 {
            assert(b.contains(b[0]));
        }
        assert(a =~= b);
    } else {
        assert(a.contains(a[0]));
        let k = choose|k: int| 0 <= k < b.len() && b[k] == a[0];
        assert(b.contains(b[0]));
        let m = choose|m: int| 0 <= m < a.len() && a[m] == b[0];
        if k > 0 {
            assert(before(b[0], b[k]));
            if m > 0 {
                assert(before(a[0], a[m]));
            }
            assert(before(a[0], a[0]) && before(a[0], a[0]));
        }
        let ta = a.skip(1);
        let tb = b.skip(1);
        assert forall|x: u32| ta.contains(x) <==> tb.contains(x) by {
            if ta.contains(x) {
                let i = choose|i: int| 0 <= i < ta.len() && ta[i] == x;
                assert(a[i + 1] == x);
                assert(before(a[0], a[i + 1]));
                assert(a.contains(x));
                let j = choose|j: int| 0 <= j < b.len() && b[j] == x;
                if j == 0 {
                    assert(before(a[0], a[0]) && before(a[0], a[0]));
                }
                assert(tb[j - 1] == x);
            }
            if tb.contains(x) {
                let i = choose|i: int| 0 <= i < tb.len() && tb[i] == x;
                assert(b[i + 1] == x);
                assert(before(b[0], b[i + 1]));
                assert(b.contains(x));
                let j = choose|j: int| 0 <= j < a.len() && a[j] == x;
                if j == 0 {
                    assert(before(b[0], b[0]) && before(b[0], b[0]));
                }
                assert(ta[j - 1] == x);
            }
        }
        assert forall|i: int, j: int| 0 <= i < j < ta.len() implies before(ta[i], ta[j]) by {
            assert(before(a[i + 1], a[j + 1]));
        }
        assert forall|i: int, j: int| 0 <= i < j < tb.len() implies before(tb[i], tb[j]) by {
            assert(before(b[i + 1], b[j + 1]));
        }
        lemma_sorted_is_unique(ta, tb, before);
        assert(a =~= seq![a[0]] + ta);
        assert(b =~= seq![b[0]] + tb);
    }
}

/// A sequence that lists the members of a set in ascending order is the one
/// that [`ascending`] names.
pub proof fn lemma_ascending_is(members: Set<u32>, q: Seq<u32>)
    requires
        lists_ascending(members, q),
    ensures
        q == ascending(members),
{
    let other = ascending(members);
    assert(lists_ascending(members, other));
    let before = |a: u32, b: u32| a < b;
    assert(is_sorted_by(q, before));
    assert(is_sorted_by(other, before));
    lemma_sorted_is_unique(q, other, before);
}

/// Puts `key` into `keys` at its place in the order.
fn insert_ascending(keys: &mut Vec<u32>, key: u32)
    requires
        strictly_ascending(old(keys)@),
        !old(keys)@.contains(key),
    ensures
        strictly_ascending(final(keys)@),
        forall|x: u32| final(keys)@.contains(x) <==> (old(keys)@.contains(x) || x == key),
        final(keys)@.len() == old(keys)@.len() + 1,
{
    let mut pos: usize = 0;
    while pos < keys.len() && keys[pos] < key
        invariant
            pos <= keys.len(),
            *keys == *old(keys),
            forall|i: int| 0 <= i < pos ==> keys@[i] < key,
        decreases keys.len() - pos,
    {
        pos += 1;
    }
    let ghost before = keys@;
    keys.insert(pos, key);
    proof {
        let after = keys@;
        assert(after == before.insert(pos as int, key));
        assert forall|i: int, j: int| 0 <= i < j < after.len() implies after[i] < after[j] by {
            if j == pos {
            } else if i == pos {
                assert(before[pos as int] >= key);
                assert(before.contains(before[j - 1]));
                assert(before.contains(before[pos as int]));
            } else if i < pos && j > pos {
                assert(before.contains(before[j - 1]));
            } else {
            }
        }
        assert forall|x: u32| after.contains(x) <==> (before.contains(x) || x == key) by {
            if after.contains(x) {
                let i = choose|i: int| 0 <= i < after.len() && after[i] == x;
                if i < pos {
                    assert(before[i] == x);
                } else if i > pos {
                    assert(before[i - 1] == x);
                }
            }
            if before.contains(x) {
                let i = choose|i: int| 0 <= i < before.len() && before[i] == x;
                if i < pos {
                    assert(after[i] == x);
                } else {
                    assert(after[i + 1] == x);
                }
            }
            if x == key {
                assert(after[pos as int] == x);
            }
        }
    }
}

/// The keys of `m` in ascending order.
pub fn sorted_keys<V>(m: &HashMap<u32, V>) -> (keys: Vec<u32>)
    ensures
        strictly_ascending(keys@),
        forall|k: u32| keys@.contains(k) <==> m@.contains_key(k),
        keys@.len() == m@.dom().len(),
        keys@ == ascending(m@.dom()),
{
    let mut keys: Vec<u32> = Vec::new();
    let ghost all = m.keys().remaining();
    for k in it: m.keys()
        invariant
            strictly_ascending(keys@),
            it.seq() == all,
            all.no_duplicates(),
            all.unref().to_set() == m@.dom(),
            all.len() == m@.dom().len(),
            keys@.len() == it.index(),
            forall|x: u32| keys@.contains(x) <==> exists|i: int| 0 <= i < keys@.len() && *all[i] == x,
    {
        let key: u32 = *k;
        proof {
            if keys@.contains(key) {
                let i = choose|i: int| 0 <= i < keys@.len() && *all[i] == key;
                assert(all[i] == all[it.index()]);
            }
        }
        let ghost before = keys@;
        insert_ascending(&mut keys, key);
        proof {
            assert forall|x: u32| keys@.contains(x) <==> exists|i: int| 0 <= i < keys@.len() && *all[i] == x by {
                if keys@.contains(x) {
                    if before.contains(x) {
                        let i = choose|i: int| 0 <= i < before.len() && *all[i] == x;
                        assert(0 <= i < keys@.len() && *all[i] == x);
                    } else {
                        assert(*all[before.len() as int] == x);
                    }
                }
                if exists|i: int| 0 <= i < keys@.len() && *all[i] == x {
                    let i = choose|i: int| 0 <= i < keys@.len() && *all[i] == x;
                    if i < before.len() {
                        assert(before.contains(x));
                    }
                }
            }
        }
    }
    proof {
        assert(keys@.len() == all.len());
        assert forall|k: u32| keys@.contains(k) <==> m@.contains_key(k) by {
            if keys@.contains(k) {
                let i = choose|i: int| 0 <= i < all.len() && *all[i] == k;
                assert(all.unref()[i] == k);
                assert(all.unref().to_set().contains(k));
            }
            if m@.contains_key(k) {
                assert(all.unref().to_set().contains(k));
                let i = choose|i: int| 0 <= i < all.unref().len() && all.unref()[i] == k;
                assert(*all[i] == k);
            }
        }
        lemma_ascending_is(m@.dom(), keys@);
    }
    keys
}

/// Among the numbers up to `bound` of which `holds` is true there is a
/// greatest, if there is any.
pub proof fn lemma_greatest_exists(holds: spec_fn(u32) -> bool, bound: u32)
    requires
        exists|x: u32| x <= bound && #[trigger] holds(x),
    ensures
        exists|g: u32|
            g <= bound && #[trigger] holds(g) && forall|other: u32|
                other <= bound && #[trigger] holds(other) ==> other <= g,
    decreases bound,
{
    if holds(bound) {
        assert(forall|other: u32| other <= bound && #[trigger] holds(other) ==> other <= bound);
    } else {
        let x = choose|x: u32| x <= bound && #[trigger] holds(x);
        assert(x < bound);
        let lower = (bound - 1) as u32;
        assert(x <= lower && holds(x));
        lemma_greatest_exists(holds, lower);
        let g = choose|g: u32|
            g <= lower && #[trigger] holds(g) && forall|other: u32|
                other <= lower && #[trigger] holds(other) ==> other <= g;
        assert(holds(g));
        assert(forall|other: u32| other <= bound && #[trigger] holds(other) ==> other <= g);
    }
}

/// Among the indices below `n` of which `holds` is true there is a last, if
/// there is any.
pub proof fn lemma_last_exists(holds: spec_fn(int) -> bool, n: int)
    requires
        exists|i: int| 0 <= i < n && #[trigger] holds(i),
    ensures
        exists|last: int|
            0 <= last < n && #[trigger] holds(last) && forall|j: int|
                last < j < n ==> !#[trigger] holds(j),
    decreases n,
{
    let i = choose|i: int| 0 <= i < n && #[trigger] holds(i);
    if holds(n - 1) {
        let last = n - 1;
        assert(holds(last));
        assert(forall|j: int| last < j < n ==> !#[trigger] holds(j));
    } else {
        assert(0 <= i < n - 1 && holds(i));
        lemma_last_exists(holds, n - 1);
        let last = choose|last: int|
            0 <= last < n - 1 && #[trigger] holds(last) && forall|j: int|
                last < j < n - 1 ==> !#[trigger] holds(j);
        assert(holds(last));
        assert(forall|j: int| last < j < n ==> !#[trigger] holds(j));
    }
}

} // verus!
