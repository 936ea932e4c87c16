//! The keys of a number-keyed map, in ascending order: the order in which every
//! encoding lists them.

use std::collections::HashMap;

use vstd::prelude::*;
use vstd::std_specs::hash::*;
use vstd::std_specs::iter::IteratorSpec;

verus! {

broadcast use group_hash_axioms;

/// Whether `s` lists the set `d` in strictly ascending order.
pub open spec fn lists_32(s: Seq<u32>, d: Set<u32>) -> bool {
    &&& forall|i: int, j: int| 0 <= i < j < s.len() ==> #[trigger] s[i] < #[trigger] s[j]
    &&& forall|k: u32| #[trigger] d.contains(k) == s.contains(k)
}

/// The elements of `d` in ascending order.
pub open spec fn order_32(d: Set<u32>) -> Seq<u32> {
    choose|s: Seq<u32>| lists_32(s, d)
}

/// A set is listed in just one way.
pub proof fn lemma_order_32(s: Seq<u32>, d: Set<u32>)
    requires
        lists_32(s, d),
    ensures
        order_32(d) == s,
{
    let t = order_32(d);
    assert(lists_32(t, d));
    lemma_same_list_32(s, t, d);
}

proof fn lemma_same_list_32(s: Seq<u32>, t: Seq<u32>, d: Set<u32>)
    requires
        lists_32(s, d),
        lists_32(t, d),
    ensures
        s == t,
    decreases s.len(),
{
    if s.len() == 0 {
        if t.len() > 0 {
            assert(t.contains(t[0]));
            assert(d.contains(t[0]));
        }
        assert(s =~= t);
    } else {
        let a = s.last();
        assert(s.contains(a) && d.contains(a));
        assert(t.contains(a));
        let i = choose|i: int| 0 <= i < t.len() && t[i] == a;
        let b = t.last();
        assert(t.contains(b) && d.contains(b));
        assert(s.contains(b));
        let j = choose|j: int| 0 <= j < s.len() && s[j] == b;
        assert(a == b);
        let s1 = s.drop_last();
        let t1 = t.drop_last();
        assert forall|k: u32| #[trigger] d.remove(a).contains(k) == s1.contains(k) by {
            if s1.contains(k) {
                let x = choose|x: int| 0 <= x < s1.len() && s1[x] == k;
                assert(s[x] == k && s[x] < s[s.len() - 1]);
                assert(s.contains(k));
            }
            if d.remove(a).contains(k) {
                assert(s.contains(k));
                let x = choose|x: int| 0 <= x < s.len() && s[x] == k;
                assert(s1[x] == k);
            }
        }
        assert forall|k: u32| #[trigger] d.remove(a).contains(k) == t1.contains(k) by {
            if t1.contains(k) {
                let x = choose|x: int| 0 <= x < t1.len() && t1[x] == k;
                assert(t[x] == k && t[x] < t[t.len() - 1]);
                assert(t.contains(k));
            }
            if d.remove(a).contains(k) {
                assert(t.contains(k));
                let x = choose|x: int| 0 <= x < t.len() && t[x] == k;
                assert(t1[x] == k);
            }
        }
        lemma_same_list_32(s1, t1, d.remove(a));
        assert(s =~= s1.push(a));
        assert(t =~= t1.push(a));
    }
}

/// A finite set can be listed, in as many steps as it has elements.
pub proof fn lemma_listed_32(d: Set<u32>)
    requires
        d.finite(),
    ensures
        lists_32(order_32(d), d),
        order_32(d).len() == d.len(),
    decreases d.len(),
{
    if d.len() == 0 {
        let s = Seq::<u32>::empty();
        assert(lists_32(s, d));
        lemma_order_32(s, d);
    } else {
        let a = lemma_greatest_32(d);
        let r = d.remove(a);
        lemma_listed_32(r);
        let h = order_32(r);
        let s = h.push(a);
        assert forall|i: int, j: int| 0 <= i < j < s.len()
            implies #[trigger] s[i] < #[trigger] s[j] by {
            if j == h.len() {
                assert(h.contains(h[i]));
                assert(r.contains(h[i]));
            }
        }
        assert forall|k: u32| #[trigger] d.contains(k) == s.contains(k) by {
            if s.contains(k) {
                let x = choose|x: int| 0 <= x < s.len() && s[x] == k;
                if x < h.len() {
                    assert(h[x] == k);
                    assert(r.contains(k));
                }
            }
            if d.contains(k) {
                if k == a {
                    assert(s[h.len() as int] == k);
                } else {
                    assert(r.contains(k));
                    assert(h.contains(k));
                    let x = choose|x: int| 0 <= x < h.len() && h[x] == k;
                    assert(s[x] == k);
                }
            }
        }
        lemma_order_32(s, d);
    }
}

proof fn lemma_greatest_32(d: Set<u32>) -> (a: u32)
    requires
        d.finite(),
        d.len() > 0,
    ensures
        d.contains(a),
        forall|k: u32| #[trigger] d.contains(k) ==> k <= a,
    decreases d.len(),
{
    let x = d.choose();
    if d.len() == 1 {
        assert forall|k: u32| #[trigger] d.contains(k) implies k <= x by {
            if k != x {
                assert(d.remove(x).contains(k));
                assert(d.remove(x).len() == 0);
            }
        }
        x
    } else {
        let y = lemma_greatest_32(d.remove(x));
        let a = if x < y { y } else { x };
        assert forall|k: u32| #[trigger] d.contains(k) implies k <= a by {
            if k != x {
                assert(d.remove(x).contains(k));
            }
        }
        a
    }
}

/// Put `k` into an ascending list that does not hold it.
fn place_32(s: &mut Vec<u32>, k: u32)
    requires
        forall|i: int, j: int|
            0 <= i < j < old(s)@.len() ==> #[trigger] old(s)@[i] < #[trigger] old(s)@[j],
        !old(s)@.contains(k),
    ensures
        forall|i: int, j: int|
            0 <= i < j < final(s)@.len() ==> #[trigger] final(s)@[i] < #[trigger] final(s)@[j],
        forall|x: u32| #[trigger] final(s)@.contains(x) == (old(s)@.contains(x) || x == k),
{
    let mut at: usize = s.len();
    while at > 0 && s[at - 1] > k
        invariant
            at <= s@.len(),
            s@ == old(s)@,
            forall|i: int| at <= i < s@.len() ==> #[trigger] s@[i] > k,
        decreases at,
    {
        at -= 1;
    }
    let ghost was = s@;
    proof {
        if at > 0 {
            assert(was[at - 1] != k) by {
                if was[at - 1] == k {
                    assert(was.contains(k));
                }
            }
        }
    }
    s.insert(at, k);
    proof {
        let now = was.insert(at as int, k);
        assert(s@ == now);
        assert forall|i: int| 0 <= i < at implies was[i] < k by {
            if i < at - 1 {
                assert(was[i] < was[at - 1]);
            }
        }
        assert forall|i: int, j: int| 0 <= i < j < now.len()
            implies #[trigger] now[i] < #[trigger] now[j] by {
            let a = if i < at { i } else { i - 1 };
            let b = if j < at { j } else { j - 1 };
            if i != at && j != at {
                assert(now[i] == was[a] && now[j] == was[b]);
            } else if i == at {
                assert(now[j] == was[b] && b >= at);
            } else {
                assert(now[i] == was[i]);
            }
        }
        assert forall|x: u32| #[trigger] now.contains(x) == (was.contains(x) || x == k) by {
            if was.contains(x) {
                let i = choose|i: int| 0 <= i < was.len() && was[i] == x;
                if i < at {
                    assert(now[i] == x);
                } else {
                    assert(now[i + 1] == x);
                }
            }
            if x == k {
                assert(now[at as int] == x);
            }
            if now.contains(x) && x != k {
                let i = choose|i: int| 0 <= i < now.len() && now[i] == x;
                if i < at {
                    assert(was[i] == x);
                } else {
                    assert(was[i - 1] == x);
                }
            }
        }
    }
}

/// The keys of `m` in ascending order.
pub fn keys_32<V>(m: &HashMap<u32, V>) -> (r: Vec<u32>)
    ensures
        r@ == order_32(m@.dom()),
        lists_32(r@, m@.dom()),
        r@.len() == m@.dom().len(),
        m@.dom().finite(),
{
    let mut r: Vec<u32> = Vec::new();
    let ghost all = spec_keys_iter(m).remaining().unref();
    for k in it: m.keys()
        invariant
            it.seq().unref() == all,
            all.to_set() == m@.dom(),
            it.seq().no_duplicates(),
            forall|i: int, j: int| 0 <= i < j < r@.len() ==> #[trigger] r@[i] < #[trigger] r@[j],
            forall|x: u32| #[trigger] r@.contains(x) == all.take(it.index() as int).contains(x),
    {
        let ghost n = it.index() as int;
        proof {
            assert(*k == all[n]);
            assert(!all.take(n).contains(*k)) by {
                if all.take(n).contains(*k) {
                    let i = choose|i: int| 0 <= i < n && all.take(n)[i] == *k;
                    assert(*it.seq()[i] == *it.seq()[n]);
                    assert(it.seq()[i] == it.seq()[n]);
                }
            }
            assert forall|x: u32| #[trigger]
                all.take(n + 1).contains(x) == (all.take(n).contains(x) || x == *k) by {
                let a = all.take(n + 1);
                if a.contains(x) {
                    let i = choose|i: int| 0 <= i < a.len() && a[i] == x;
                    if i < n {
                        assert(all.take(n)[i] == x);
                    }
                }
                if all.take(n).contains(x) {
                    let i = choose|i: int| 0 <= i < n && all.take(n)[i] == x;
                    assert(a[i] == x);
                }
                if x == *k {
                    assert(a[n] == x);
                }
            }
        }
        place_32(&mut r, *k);
    }
    proof {
        assert(all.take(all.len() as int) =~= all);
        assert forall|x: u32| #[trigger] m@.dom().contains(x) == r@.contains(x) by {
            assert(all.to_set().contains(x) == all.contains(x));
        }
        lemma_order_32(r@, m@.dom());
        lemma_listed_32(m@.dom());
    }
    r
}

/// Whether `s` lists the set `d` in strictly ascending order.
pub open spec fn lists_64(s: Seq<u64>, d: Set<u64>) -> bool {
    &&& forall|i: int, j: int| 0 <= i < j < s.len() ==> #[trigger] s[i] < #[trigger] s[j]
    &&& forall|k: u64| #[trigger] d.contains(k) == s.contains(k)
}

/// The elements of `d` in ascending order.
pub open spec fn order_64(d: Set<u64>) -> Seq<u64> {
    choose|s: Seq<u64>| lists_64(s, d)
}

/// A set is listed in just one way.
pub proof fn lemma_order_64(s: Seq<u64>, d: Set<u64>)
    requires
        lists_64(s, d),
    ensures
        order_64(d) == s,
{
    let t = order_64(d);
    assert(lists_64(t, d));
    lemma_same_list_64(s, t, d);
}

proof fn lemma_same_list_64(s: Seq<u64>, t: Seq<u64>, d: Set<u64>)
    requires
        lists_64(s, d),
        lists_64(t, d),
    ensures
        s == t,
    decreases s.len(),
{
    if s.len() == 0 {
        if t.len() > 0 {
            assert(t.contains(t[0]));
            assert(d.contains(t[0]));
        }
        assert(s =~= t);
    } else {
        let a = s.last();
        assert(s.contains(a) && d.contains(a));
        assert(t.contains(a));
        let i = choose|i: int| 0 <= i < t.len() && t[i] == a;
        let b = t.last();
        assert(t.contains(b) && d.contains(b));
        assert(s.contains(b));
        let j = choose|j: int| 0 <= j < s.len() && s[j] == b;
        assert(a == b);
        let s1 = s.drop_last();
        let t1 = t.drop_last();
        assert forall|k: u64| #[trigger] d.remove(a).contains(k) == s1.contains(k) by {
            if s1.contains(k) {
                let x = choose|x: int| 0 <= x < s1.len() && s1[x] == k;
                assert(s[x] == k && s[x] < s[s.len() - 1]);
                assert(s.contains(k));
            }
            if d.remove(a).contains(k) {
                assert(s.contains(k));
                let x = choose|x: int| 0 <= x < s.len() && s[x] == k;
                assert(s1[x] == k);
            }
        }
        assert forall|k: u64| #[trigger] d.remove(a).contains(k) == t1.contains(k) by {
            if t1.contains(k) {
                let x = choose|x: int| 0 <= x < t1.len() && t1[x] == k;
                assert(t[x] == k && t[x] < t[t.len() - 1]);
                assert(t.contains(k));
            }
            if d.remove(a).contains(k) {
                assert(t.contains(k));
                let x = choose|x: int| 0 <= x < t.len() && t[x] == k;
                assert(t1[x] == k);
            }
        }
        lemma_same_list_64(s1, t1, d.remove(a));
        assert(s =~= s1.push(a));
        assert(t =~= t1.push(a));
    }
}

/// A finite set can be listed, in as many steps as it has elements.
pub proof fn lemma_listed_64(d: Set<u64>)
    requires
        d.finite(),
    ensures
        lists_64(order_64(d), d),
        order_64(d).len() == d.len(),
    decreases d.len(),
{
    if d.len() == 0 {
        let s = Seq::<u64>::empty();
        assert(lists_64(s, d));
        lemma_order_64(s, d);
    } else {
        let a = lemma_greatest_64(d);
        let r = d.remove(a);
        lemma_listed_64(r);
        let h = order_64(r);
        let s = h.push(a);
        assert forall|i: int, j: int| 0 <= i < j < s.len()
            implies #[trigger] s[i] < #[trigger] s[j] by {
            if j == h.len() {
                assert(h.contains(h[i]));
                assert(r.contains(h[i]));
            }
        }
        assert forall|k: u64| #[trigger] d.contains(k) == s.contains(k) by {
            if s.contains(k) {
                let x = choose|x: int| 0 <= x < s.len() && s[x] == k;
                if x < h.len() {
                    assert(h[x] == k);
                    assert(r.contains(k));
                }
            }
            if d.contains(k) {
                if k == a {
                    assert(s[h.len() as int] == k);
                } else {
                    assert(r.contains(k));
                    assert(h.contains(k));
                    let x = choose|x: int| 0 <= x < h.len() && h[x] == k;
                    assert(s[x] == k);
                }
            }
        }
        lemma_order_64(s, d);
    }
}

proof fn lemma_greatest_64(d: Set<u64>) -> (a: u64)
    requires
        d.finite(),
        d.len() > 0,
    ensures
        d.contains(a),
        forall|k: u64| #[trigger] d.contains(k) ==> k <= a,
    decreases d.len(),
{
    let x = d.choose();
    if d.len() == 1 {
        assert forall|k: u64| #[trigger] d.contains(k) implies k <= x by {
            if k != x {
                assert(d.remove(x).contains(k));
                assert(d.remove(x).len() == 0);
            }
        }
        x
    } else {
        let y = lemma_greatest_64(d.remove(x));
        let a = if x < y { y } else { x };
        assert forall|k: u64| #[trigger] d.contains(k) implies k <= a by {
            if k != x {
                assert(d.remove(x).contains(k));
            }
        }
        a
    }
}

/// Put `k` into an ascending list that does not hold it.
fn place_64(s: &mut Vec<u64>, k: u64)
    requires
        forall|i: int, j: int|
            0 <= i < j < old(s)@.len() ==> #[trigger] old(s)@[i] < #[trigger] old(s)@[j],
        !old(s)@.contains(k),
    ensures
        forall|i: int, j: int|
            0 <= i < j < final(s)@.len() ==> #[trigger] final(s)@[i] < #[trigger] final(s)@[j],
        forall|x: u64| #[trigger] final(s)@.contains(x) == (old(s)@.contains(x) || x == k),
{
    let mut at: usize = s.len();
    while at > 0 && s[at - 1] > k
        invariant
            at <= s@.len(),
            s@ == old(s)@,
            forall|i: int| at <= i < s@.len() ==> #[trigger] s@[i] > k,
        decreases at,
    {
        at -= 1;
    }
    let ghost was = s@;
    proof {
        if at > 0 {
            assert(was[at - 1] != k) by {
                if was[at - 1] == k {
                    assert(was.contains(k));
                }
            }
        }
    }
    s.insert(at, k);
    proof {
        let now = was.insert(at as int, k);
        assert(s@ == now);
        assert forall|i: int| 0 <= i < at implies was[i] < k by {
            if i < at - 1 {
                assert(was[i] < was[at - 1]);
            }
        }
        assert forall|i: int, j: int| 0 <= i < j < now.len()
            implies #[trigger] now[i] < #[trigger] now[j] by {
            let a = if i < at { i } else { i - 1 };
            let b = if j < at { j } else { j - 1 };
            if i != at && j != at {
                assert(now[i] == was[a] && now[j] == was[b]);
            } else if i == at {
                assert(now[j] == was[b] && b >= at);
            } else {
                assert(now[i] == was[i]);
            }
        }
        assert forall|x: u64| #[trigger] now.contains(x) == (was.contains(x) || x == k) by {
            if was.contains(x) {
                let i = choose|i: int| 0 <= i < was.len() && was[i] == x;
                if i < at {
                    assert(now[i] == x);
                } else {
                    assert(now[i + 1] == x);
                }
            }
            if x == k {
                assert(now[at as int] == x);
            }
            if now.contains(x) && x != k {
                let i = choose|i: int| 0 <= i < now.len() && now[i] == x;
                if i < at {
                    assert(was[i] == x);
                } else {
                    assert(was[i - 1] == x);
                }
            }
        }
    }
}

/// The keys of `m` in ascending order.
pub fn keys_64<V>(m: &HashMap<u64, V>) -> (r: Vec<u64>)
    ensures
        r@ == order_64(m@.dom()),
        lists_64(r@, m@.dom()),
        r@.len() == m@.dom().len(),
        m@.dom().finite(),
{
    let mut r: Vec<u64> = Vec::new();
    let ghost all = spec_keys_iter(m).remaining().unref();
    for k in it: m.keys()
        invariant
            it.seq().unref() == all,
            all.to_set() == m@.dom(),
            it.seq().no_duplicates(),
            forall|i: int, j: int| 0 <= i < j < r@.len() ==> #[trigger] r@[i] < #[trigger] r@[j],
            forall|x: u64| #[trigger] r@.contains(x) == all.take(it.index() as int).contains(x),
    {
        let ghost n = it.index() as int;
        proof {
            assert(*k == all[n]);
            assert(!all.take(n).contains(*k)) by {
                if all.take(n).contains(*k) {
                    let i = choose|i: int| 0 <= i < n && all.take(n)[i] == *k;
                    assert(*it.seq()[i] == *it.seq()[n]);
                    assert(it.seq()[i] == it.seq()[n]);
                }
            }
            assert forall|x: u64| #[trigger]
                all.take(n + 1).contains(x) == (all.take(n).contains(x) || x == *k) by {
                let a = all.take(n + 1);
                if a.contains(x) {
                    let i = choose|i: int| 0 <= i < a.len() && a[i] == x;
                    if i < n {
                        assert(all.take(n)[i] == x);
                    }
                }
                if all.take(n).contains(x) {
                    let i = choose|i: int| 0 <= i < n && all.take(n)[i] == x;
                    assert(a[i] == x);
                }
                if x == *k {
                    assert(a[n] == x);
                }
            }
        }
        place_64(&mut r, *k);
    }
    proof {
        assert(all.take(all.len() as int) =~= all);
        assert forall|x: u64| #[trigger] m@.dom().contains(x) == r@.contains(x) by {
            assert(all.to_set().contains(x) == all.contains(x));
        }
        lemma_order_64(r@, m@.dom());
        lemma_listed_64(m@.dom());
    }
    r
}

} // verus!
