//! Strictly ascending vectors of timestamps, used as ordered sets.

use vstd::prelude::*;

verus! {

/// Every element is smaller than each element after it.
pub open spec fn strictly_ascending(s: Seq<u64>) -> bool {
    forall|i: int, j: int| 0 <= i < j < s.len() ==> s[i] < s[j]
}

/// Every element is at most each element after it.
pub open spec fn ascending(s: Seq<u64>) -> bool {
    forall|i: int, j: int| 0 <= i < j < s.len() ==> s[i] <= s[j]
}

/// A strictly ascending sequence is determined by the set of its elements.
pub proof fn lemma_ascending_unique(a: Seq<u64>, b: Seq<u64>)
    requires
        strictly_ascending(a),
        strictly_ascending(b),
        a.to_set() == b.to_set(),
    ensures
        a == b,
    decreases a.len(),
{
    if a.len() == 0 {
        if b.len() > 0 {
            assert(b.contains(b[0]));
            assert(b.to_set().contains(b[0]));
            assert(a.to_set().contains(b[0]));
            assert(a.contains(b[0]));
        }
        assert(a =~= b);
    } else {
        assert(a.contains(a[0]));
        assert(a.to_set().contains(a[0]));
        assert(b.contains(a[0]));
        let ib = choose|i: int| 0 <= i < b.len() && b[i] == a[0];
        assert(b.contains(b[0]));
        assert(b.to_set().contains(b[0]));
        assert(a.contains(b[0]));
        let ia = choose|i: int| 0 <= i < a.len() && a[i] == b[0];
        assert(a[0] == b[0]) by {
            if ib > 0 {
                assert(b[0] < b[ib]);
            }
            if ia > 0 {
                assert(a[0] < a[ia]);
            }
        }
        let a1 = a.drop_first();
        let b1 = b.drop_first();
        assert forall|x: u64| a1.to_set().contains(x) == b1.to_set().contains(x) by {
            if a1.contains(x) {
                let i = choose|i: int| 0 <= i < a1.len() && a1[i] == x;
                assert(a[i + 1] == x);
                assert(a[0] < a[i + 1]);
                assert(a.contains(x));
                assert(a.to_set().contains(x));
                assert(b.contains(x));
                let j = choose|j: int| 0 <= j < b.len() && b[j] == x;
                assert(j > 0);
                assert(b1[j - 1] == x);
                assert(b1.contains(x));
            }
            if b1.contains(x) {
                let i = choose|i: int| 0 <= i < b1.len() && b1[i] == x;
                assert(b[i + 1] == x);
                assert(b[0] < b[i + 1]);
                assert(b.contains(x));
                assert(b.to_set().contains(x));
                assert(a.contains(x));
                let j = choose|j: int| 0 <= j < a.len() && a[j] == x;
                assert(j > 0);
                assert(a1[j - 1] == x);
                assert(a1.contains(x));
            }
        }
        assert(a1.to_set() =~= b1.to_set());
        assert(strictly_ascending(a1)) by {
            assert forall|i: int, j: int| 0 <= i < j < a1.len() implies a1[i] < a1[j] by {
                assert(a[i + 1] < a[j + 1]);
            }
        }
        assert(strictly_ascending(b1)) by {
            assert forall|i: int, j: int| 0 <= i < j < b1.len() implies b1[i] < b1[j] by {
                assert(b[i + 1] < b[j + 1]);
            }
        }
        lemma_ascending_unique(a1, b1);
        assert(a =~= seq![a[0]] + a1);
        assert(b =~= seq![b[0]] + b1);
    }
}

/// The elements of a finite set of timestamps, in ascending order.
pub open spec fn ascending_seq(s: Set<u64>) -> Seq<u64> {
    choose|q: Seq<u64>| strictly_ascending(q) && q.to_set() == s
}

/// A strictly ascending sequence is the ascending sequence of its own
/// elements.
pub proof fn lemma_ascending_seq(q: Seq<u64>)
    requires
        strictly_ascending(q),
    ensures
        ascending_seq(q.to_set()) == q,
{
    let r = ascending_seq(q.to_set());
    assert(strictly_ascending(r) && r.to_set() == q.to_set());
    lemma_ascending_unique(r, q);
}

/// Whether `t` occurs in the ascending vector `v`.
pub fn ordered_contains(v: &Vec<u64>, t: u64) -> (found: bool)
    ensures
        found == v@.contains(t),
{
    let mut i: usize = 0;
    while i < v.len()
        invariant
            i <= v.len(),
            forall|k: int| 0 <= k < i ==> v@[k] != t,
        decreases v.len() - i,
    {
        if v[i] == t {
            return true;
        }
        i += 1;
    }
    false
}

/// Puts `t` into the ordered set `v`, at its place in the order. A value that
/// is already there is not added a second time.
pub fn ordered_insert(v: &mut Vec<u64>, t: u64)
    requires
        strictly_ascending(old(v)@),
    ensures
        strictly_ascending(final(v)@),
        final(v)@.to_set() == old(v)@.to_set().insert(t),
{
    let mut i: usize = 0;
    while i < v.len() && v[i] < t
        invariant
            i <= v.len(),
            v@ == old(v)@,
            forall|k: int| 0 <= k < i ==> v@[k] < t,
        decreases v.len() - i,
    {
        i += 1;
    }
    if i < v.len() && v[i] == t {
        proof {
            assert(v@.contains(t));
            assert(v@.to_set().insert(t) =~= v@.to_set());
        }
    } else {
        let ghost before = v@;
        v.insert(i, t);
        proof {
            let after = v@;
            assert(after == before.insert(i as int, t));
            assert forall|a: int, b: int| 0 <= a < b < after.len() implies after[a] < after[b] by {
                if b < i {
                    assert(after[a] == before[a] && after[b] == before[b]);
                } else if b == i {
                    assert(after[a] == before[a]);
                } else if a < i {
                    assert(after[a] == before[a] && after[b] == before[b - 1]);
                    assert(i as int <= b - 1);
                    if (i as int) < b - 1 {
                        assert(before[i as int] < before[b - 1]);
                    }
                } else if a == i {
                    assert(after[b] == before[b - 1]);
                    if (i as int) < b - 1 {
                        assert(before[i as int] < before[b - 1]);
                    }
                } else {
                    assert(after[a] == before[a - 1] && after[b] == before[b - 1]);
                }
            }
            assert forall|x: u64| after.to_set().contains(x) == before.to_set().insert(t).contains(x) by {
                if after.contains(x) {
                    let k = choose|k: int| 0 <= k < after.len() && after[k] == x;
                    if k < i {
                        assert(before[k] == x);
                    } else if k > i {
                        assert(before[k - 1] == x);
                    }
                }
                if before.contains(x) {
                    let k = choose|k: int| 0 <= k < before.len() && before[k] == x;
                    if k < i {
                        assert(after[k] == x);
                    } else {
                        assert(after[k + 1] == x);
                    }
                }
                if x == t {
                    assert(after[i as int] == t);
                }
            }
            assert(after.to_set() =~= before.to_set().insert(t));
        }
    }
}

/// Takes `t` out of the ordered set `v`, if it is there.
pub fn ordered_remove(v: &mut Vec<u64>, t: u64)
    requires
        strictly_ascending(old(v)@),
    ensures
        strictly_ascending(final(v)@),
        final(v)@.to_set() == old(v)@.to_set().remove(t),
{
    let mut i: usize = 0;
    while i < v.len() && v[i] != t
        invariant
            i <= v.len(),
            v@ == old(v)@,
            forall|k: int| 0 <= k < i ==> v@[k] != t,
        decreases v.len() - i,
    {
        i += 1;
    }
    if i < v.len() {
        let ghost before = v@;
        v.remove(i);
        proof {
            let after = v@;
            assert(after == before.remove(i as int));
            assert forall|a: int, b: int| 0 <= a < b < after.len() implies after[a] < after[b] by {
                let a0 = if a < i { a } else { a + 1 };
                let b0 = if b < i { b } else { b + 1 };
                assert(after[a] == before[a0] && after[b] == before[b0]);
            }
            assert forall|x: u64| after.to_set().contains(x) == before.to_set().remove(t).contains(x) by {
                if after.contains(x) {
                    let k = choose|k: int| 0 <= k < after.len() && after[k] == x;
                    let k0 = if k < i { k } else { k + 1 };
                    assert(before[k0] == x);
                    if k0 < i {
                        assert(before[k0] < before[i as int]);
                    } else {
                        assert(before[i as int] < before[k0]);
                    }
                }
                if before.contains(x) && x != t {
                    let k = choose|k: int| 0 <= k < before.len() && before[k] == x;
                    if k < i {
                        assert(after[k] == x);
                    } else {
                        assert(after[k - 1] == x);
                    }
                }
            }
            assert(after.to_set() =~= before.to_set().remove(t));
        }
    } else {
        proof {
            assert(!v@.contains(t));
            assert(v@.to_set().remove(t) =~= v@.to_set());
        }
    }
}

} // verus!
