//! Finite sets of numbers written in ascending order.

use vstd::prelude::*;

verus! {

/// Every number is larger than the one before it.
pub open spec fn ascending(s: Seq<u32>) -> bool {
    forall|i: int, j: int| 0 <= i < j < s.len() ==> s[i] < s[j]
}

/// The numbers of `set` in ascending order.
pub open spec fn in_order(set: Set<u32>) -> Seq<u32> {
    choose|s: Seq<u32>| ascending(s) && s.to_set() == set
}

/// A set has only one ascending sequence.
pub(crate) proof fn lemma_ascending_unique(a: Seq<u32>, b: Seq<u32>)
    requires
        ascending(a),
        ascending(b),
        a.to_set() == b.to_set(),
    ensures
        a == b,
    decreases a.len(),
{
    if a.len() == 0 {
        if b.len() > 0 {
            assert(b.to_set().contains(b[0]));
            assert(a.to_set().contains(b[0]));
        }
        assert(a =~= b);
    } else if b.len() == 0 {
        assert(a.to_set().contains(a[0]));
        assert(b.to_set().contains(a[0]));
    } else {
        // The last numbers are the two maxima.
        let x = a.last();
        let y = b.last();
        assert(a.to_set().contains(x) && b.to_set().contains(y));
        assert(b.to_set().contains(x) && a.to_set().contains(y));
        let i = choose|i: int| 0 <= i < b.len() && b[i] == x;
        let j = choose|j: int| 0 <= j < a.len() && a[j] == y;
        assert(x == y);
        let a0 = a.drop_last();
        let b0 = b.drop_last();
        assert forall|v: u32| a0.to_set().contains(v) <==> b0.to_set().contains(v) by {
            if a0.contains(v) {
                let k = choose|k: int| 0 <= k < a0.len() && a0[k] == v;
                assert(a[k] == v);
                assert(a.to_set().contains(v));
                assert(b.to_set().contains(v));
                let l = choose|l: int| 0 <= l < b.len() && b[l] == v;
                assert(l < b.len() - 1);
                assert(b0[l] == v);
            }
            if b0.contains(v) {
                let k = choose|k: int| 0 <= k < b0.len() && b0[k] == v;
                assert(b[k] == v);
                assert(b.to_set().contains(v));
                assert(a.to_set().contains(v));
                let l = choose|l: int| 0 <= l < a.len() && a[l] == v;
                assert(l < a.len() - 1);
                assert(a0[l] == v);
            }
        }
        assert(a0.to_set() =~= b0.to_set());
        lemma_ascending_unique(a0, b0);
        assert(a =~= a0.push(x));
        assert(b =~= b0.push(y));
    }
}

/// What `in_order` is, given an ascending sequence with the same numbers.
pub(crate) proof fn lemma_in_order(s: Seq<u32>, set: Set<u32>)
    requires
        ascending(s),
        s.to_set() == set,
    ensures
        in_order(set) == s,
{
    lemma_ascending_unique(s, in_order(set));
}

/// An ascending sequence has room for one more number.
proof fn lemma_room_for(s: Seq<u32>, x: u32) -> (r: Seq<u32>)
    requires
        ascending(s),
        !s.contains(x),
    ensures
        ascending(r),
        r.to_set() == s.to_set().insert(x),
    decreases s.len(),
{
    if s.len() == 0 || s.last() < x {
        let r = s.push(x);
        s.lemma_push_to_set_commute(x);
        assert(ascending(r)) by {
            assert forall|i: int, j: int| 0 <= i < j < r.len() implies r[i] < r[j] by {
                if j == s.len() && i < s.len() - 1 {
                    assert(s[i] < s[s.len() - 1]);
                }
            }
        }
        r
    } else {
        let last = s.last();
        let fewer = s.drop_last();
        assert(s =~= fewer.push(last));
        assert(s[s.len() - 1] == last);
        assert(!fewer.contains(x)) by {
            if fewer.contains(x) {
                let k = choose|k: int| 0 <= k < fewer.len() && fewer[k] == x;
                assert(s[k] == x);
            }
        }
        let inner = lemma_room_for(fewer, x);
        let r = inner.push(last);
        inner.lemma_push_to_set_commute(last);
        fewer.lemma_push_to_set_commute(last);
        assert(r.to_set() =~= s.to_set().insert(x));
        assert(ascending(r)) by {
            assert forall|i: int, j: int| 0 <= i < j < r.len() implies r[i] < r[j] by {
                if j == inner.len() {
                    assert(inner.to_set().contains(inner[i]));
                    if inner[i] != x {
                        let k = choose|k: int| 0 <= k < fewer.len() && fewer[k] == inner[i];
                        assert(s[k] < s[s.len() - 1]);
                    }
                }
            }
        }
        r
    }
}

/// Every finite set of numbers can be put in order.
pub(crate) proof fn lemma_in_order_exists(set: Set<u32>)
    requires
        set.finite(),
    ensures
        ascending(in_order(set)),
        in_order(set).to_set() == set,
    decreases set.len(),
{
    let s: Seq<u32> = if set.len() == 0 {
        assert(Seq::<u32>::empty().to_set() =~= set);
        Seq::empty()
    } else {
        let x = set.choose();
        let fewer = set.remove(x);
        lemma_in_order_exists(fewer);
        assert(!in_order(fewer).contains(x)) by {
            assert(in_order(fewer).to_set().contains(x) <==> in_order(fewer).contains(x));
        }
        let r = lemma_room_for(in_order(fewer), x);
        assert(r.to_set() =~= set);
        r
    };
    assert(ascending(s) && s.to_set() == set);
}

/// Puts `x` where it belongs in an ascending vector, unless it is there already.
pub fn insert_ascending(v: &mut Vec<u32>, x: u32)
    requires
        ascending(old(v)@),
    ensures
        ascending(final(v)@),
        final(v)@.to_set() == old(v)@.to_set().insert(x),
{
    let ghost before = v@;
    let mut i: usize = 0;
    while i < v.len() && v[i] < x
        invariant
            i <= v.len(),
            v@ == before,
            forall|k: int| 0 <= k < i ==> v@[k] < x,
        decreases v.len() - i,
    {
        i = i + 1;
    }
    if i < v.len() && v[i] == x {
        proof {
            assert(before.contains(x));
            assert(before.to_set().insert(x) =~= before.to_set());
        }
    } else {
        v.insert(i, x);
        proof {
            assert(v@ =~= before.subrange(0, i as int).push(x) + before.subrange(
                i as int,
                before.len() as int,
            ));
            assert forall|y: u32| v@.to_set().contains(y) <==> before.to_set().insert(x).contains(
                y,
            ) by {
                if v@.contains(y) {
                    let k = choose|k: int| 0 <= k < v@.len() && v@[k] == y;
                    if k < i {
                        assert(before[k] == y);
                    } else if k > i {
                        assert(before[k - 1] == y);
                    }
                }
                if before.contains(y) {
                    let k = choose|k: int| 0 <= k < before.len() && before[k] == y;
                    if k < i {
                        assert(v@[k] == y);
                    } else {
                        assert(v@[k + 1] == y);
                    }
                }
                if y == x {
                    assert(v@[i as int] == y);
                }
            }
            assert(v@.to_set() =~= before.to_set().insert(x));
        }
    }
}

/// The distinct numbers of `v`, ascending.
pub fn sort_distinct(v: &Vec<u32>) -> (r: Vec<u32>)
    ensures
        ascending(r@),
        r@.to_set() == v@.to_set(),
        r@ == in_order(v@.to_set()),
{
    let mut r: Vec<u32> = Vec::new();
    let mut i: usize = 0;
    proof {
        assert(v@.subrange(0, 0).to_set() =~= Set::empty());
        assert(r@.to_set() =~= Set::empty());
    }
    while i < v.len()
        invariant
            i <= v.len(),
            ascending(r@),
            r@.to_set() == v@.subrange(0, i as int).to_set(),
        decreases v.len() - i,
    {
        let x: u32 = v[i];
        insert_ascending(&mut r, x);
        proof {
            let part = v@.subrange(0, i as int);
            let next = v@.subrange(0, i + 1);
            assert(next =~= part.push(x));
            assert forall|y: u32| next.to_set().contains(y) <==> part.to_set().insert(x).contains(
                y,
            ) by {
                if part.contains(y) {
                    let k = choose|k: int| 0 <= k < part.len() && part[k] == y;
                    assert(next[k] == y);
                }
                if y == x {
                    assert(next[i as int] == y);
                }
            }
            assert(next.to_set() =~= part.to_set().insert(x));
        }
        i = i + 1;
    }
    proof {
        assert(v@.subrange(0, i as int) =~= v@);
        lemma_in_order(r@, v@.to_set());
    }
    r
}

/// Whether `x` occurs in `v`.
pub fn contains(v: &Vec<u32>, x: u32) -> (r: bool)
    ensures
        r == v@.contains(x),
{
    let mut i: usize = 0;
    while i < v.len()
        invariant
            i <= v.len(),
            forall|k: int| 0 <= k < i ==> v@[k] != x,
        decreases v.len() - i,
    {
        if v[i] == x {
            return true;
        }
        i = i + 1;
    }
    false
}

} // verus!
