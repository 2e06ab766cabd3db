//! Strict orders and the ascending listing of a finite set.
//!
//! A set has at most one listing in ascending order without repetition; the report relies
//! on this to lay out surface forms, page numbers and keys in a reproducible way.

use vstd::prelude::*;

verus! {

/// `less` is irreflexive, transitive and compares any two distinct values.
pub open spec fn strict_total_order<A>(less: spec_fn(A, A) -> bool) -> bool {
    &&& forall|a: A| !#[trigger] less(a, a)
    &&& forall|a: A, b: A, c: A| #[trigger] less(a, b) && #[trigger] less(b, c) ==> less(a, c)
    &&& forall|a: A, b: A| a != b ==> #[trigger] less(a, b) || less(b, a)
}

/// Every element of `s` is `less` than every later one; in particular nothing occurs twice.
pub open spec fn ascending<A>(s: Seq<A>, less: spec_fn(A, A) -> bool) -> bool {
    forall|i: int, j: int| #![trigger s[i], s[j]] 0 <= i < j < s.len() ==> less(s[i], s[j])
}

/// `s` lists exactly the elements of `members`, in ascending order.
pub open spec fn lists<A>(s: Seq<A>, members: Set<A>, less: spec_fn(A, A) -> bool) -> bool {
    &&& ascending(s, less)
    &&& forall|a: A|
        #![trigger s.contains(a)]
        #![trigger members.contains(a)]
        s.contains(a) <==> members.contains(a)
}

/// The ascending listing of `members`. Under a strict total order every finite set has one
/// (`lemma_finite_set_has_listing`) and none has two (`lemma_listing_is_unique`).
pub open spec fn listing<A>(members: Set<A>, less: spec_fn(A, A) -> bool) -> Seq<A> {
    choose|s: Seq<A>| lists(s, members, less)
}

/// The position at which `a` belongs in the ascending sequence `s`: everything before it
/// is less than `a`, nothing from it on is.
pub open spec fn is_slot<A>(s: Seq<A>, a: A, at: int, less: spec_fn(A, A) -> bool) -> bool {
    &&& 0 <= at <= s.len()
    &&& forall|i: int| 0 <= i < at ==> less(#[trigger] s[i], a)
    &&& forall|i: int| at <= i < s.len() ==> !less(#[trigger] s[i], a)
}

/// In an ascending sequence each element is found at its own position and nowhere else.
pub proof fn lemma_ascending_index_of<A>(s: Seq<A>, less: spec_fn(A, A) -> bool, at: int)
    requires
        strict_total_order(less),
        ascending(s, less),
        0 <= at < s.len(),
    ensures
        s.contains(s[at]),
        s.index_of(s[at]) == at,
{
    let found = s.index_of(s[at]);
    assert(0 <= found < s.len() && s[found] == s[at]);
    if found < at {
        assert(less(s[found], s[at]));
    } else if found > at {
        assert(less(s[at], s[found]));
    }
}

/// An element of an ascending sequence stands at its slot, and nothing else does that is
/// equal to it.
pub proof fn lemma_slot_finds<A>(s: Seq<A>, a: A, at: int, less: spec_fn(A, A) -> bool)
    requires
        strict_total_order(less),
        ascending(s, less),
        is_slot(s, a, at, less),
    ensures
        s.contains(a) <==> at < s.len() && s[at] == a,
{
    if s.contains(a) {
        let i = choose|i: int| 0 <= i < s.len() && s[i] == a;
        if i < at {
            assert(less(s[i], a));
        } else if i > at {
            assert(less(s[at], s[i]));
        }
    }
}

/// Putting a new element into its slot keeps the sequence ascending and adds that element
/// and no other.
pub proof fn lemma_insert_at_slot<A>(s: Seq<A>, a: A, at: int, less: spec_fn(A, A) -> bool)
    requires
        strict_total_order(less),
        ascending(s, less),
        is_slot(s, a, at, less),
        !s.contains(a),
    ensures
        ascending(s.insert(at, a), less),
        forall|x: A| #[trigger] s.insert(at, a).contains(x) <==> s.contains(x) || x == a,
{
    let t = s.insert(at, a);
    assert forall|i: int, j: int| 0 <= i < j < t.len() implies less(t[i], t[j]) by {
        let before_i = if i < at { i } else { i - 1 };
        let before_j = if j < at { j } else { j - 1 };
        if i == at {
            assert(!less(s[before_j], a));
            assert(s.contains(s[before_j]));
        } else if j == at {
            assert(less(s[before_i], a));
        } else {
            assert(less(s[before_i], s[before_j]));
        }
    }
    assert forall|x: A| #[trigger] t.contains(x) <==> s.contains(x) || x == a by {
        if s.contains(x) {
            let i = choose|i: int| 0 <= i < s.len() && s[i] == x;
            assert(t[if i < at { i } else { i + 1 }] == x);
        }
        if x == a {
            assert(t[at] == x);
        }
        if t.contains(x) {
            let i = choose|i: int| 0 <= i < t.len() && t[i] == x;
            if i != at {
                assert(s[if i < at { i } else { i - 1 }] == x);
            }
        }
    }
}

/// Every value has a slot in every ascending sequence.
pub proof fn lemma_slot_exists<A>(s: Seq<A>, a: A, less: spec_fn(A, A) -> bool) -> (at: int)
    requires
        strict_total_order(less),
        ascending(s, less),
    ensures
        is_slot(s, a, at, less),
    decreases s.len(),
{
    if s.len() == 0 {
        0
    } else if less(s.last(), a) {
        assert forall|i: int| 0 <= i < s.len() implies less(#[trigger] s[i], a) by {
            if i < s.len() - 1 {
                assert(less(s[i], s[s.len() - 1]));
            }
        }
        s.len() as int
    } else {
        let front = s.drop_last();
        assert forall|i: int, j: int| 0 <= i < j < front.len() implies less(
            front[i],
            front[j],
        ) by {
            assert(less(s[i], s[j]));
        }
        let at = lemma_slot_exists(front, a, less);
        assert forall|i: int| 0 <= i < at implies less(#[trigger] s[i], a) by {
            assert(s[i] == front[i]);
        }
        assert forall|i: int| at <= i < s.len() implies !less(#[trigger] s[i], a) by {
            if i < front.len() {
                assert(s[i] == front[i]);
            }
        }
        at
    }
}

/// Every finite set has an ascending listing.
pub proof fn lemma_finite_set_has_listing<A>(members: Set<A>, less: spec_fn(A, A) -> bool)
    requires
        strict_total_order(less),
        members.finite(),
    ensures
        lists(listing(members, less), members, less),
    decreases members.len(),
{
    if members.len() == 0 {
        assert(lists(Seq::<A>::empty(), members, less));
    } else {
        let a = members.choose();
        let rest = members.remove(a);
        lemma_finite_set_has_listing(rest, less);
        let s = listing(rest, less);
        let at = lemma_slot_exists(s, a, less);
        lemma_insert_at_slot(s, a, at, less);
        assert(lists(s.insert(at, a), members, less));
    }
}

/// A listing is as long as the set it lists is large.
pub proof fn lemma_listing_counts<A>(s: Seq<A>, members: Set<A>, less: spec_fn(A, A) -> bool)
    requires
        strict_total_order(less),
        lists(s, members, less),
    ensures
        members.finite(),
        members.len() == s.len(),
{
    assert(s.no_duplicates()) by {
        assert forall|i: int, j: int| 0 <= i < s.len() && 0 <= j < s.len() && i != j implies s[i]
            != s[j] by {
            if i < j {
                assert(less(s[i], s[j]));
            } else {
                assert(less(s[j], s[i]));
            }
        }
    }
    s.unique_seq_to_set();
    vstd::seq_lib::seq_to_set_is_finite(s);
    assert(s.to_set() =~= members);
}

/// Of two ascending sequences with the same elements, the second holds before its last
/// position whatever the first holds before its own.
proof fn lemma_front_is_shared<A>(a: Seq<A>, b: Seq<A>, less: spec_fn(A, A) -> bool, z: A)
    requires
        strict_total_order(less),
        ascending(a, less),
        ascending(b, less),
        forall|x: A|
            #![trigger a.contains(x)]
            #![trigger b.contains(x)]
            a.contains(x) <==> b.contains(x),
        a.len() > 0,
        a.drop_last().contains(z),
    ensures
        b.len() > 0,
        b.drop_last().contains(z),
{
    let k = choose|k: int| 0 <= k < a.drop_last().len() && a.drop_last()[k] == z;
    assert(a[k] == z);
    assert(less(a[k], a[a.len() - 1]));
    assert(a.contains(z));
    assert(a.contains(a.last()));
    assert(b.contains(z));
    let m = choose|m: int| 0 <= m < b.len() && b[m] == z;
    let n = choose|n: int| 0 <= n < b.len() && b[n] == a.last();
    if m >= n {
        if m > n {
            assert(less(b[n], b[m]));
        }
        assert(less(z, z));
    }
    assert(b.drop_last()[m] == z);
}

/// Two ascending sequences with the same elements are the same sequence.
pub proof fn lemma_ascending_is_unique<A>(a: Seq<A>, b: Seq<A>, less: spec_fn(A, A) -> bool)
    requires
        strict_total_order(less),
        ascending(a, less),
        ascending(b, less),
        forall|x: A|
            #![trigger a.contains(x)]
            #![trigger b.contains(x)]
            a.contains(x) <==> b.contains(x),
    ensures
        a == b,
    decreases a.len(),
{
    if a.len() == 0 || b.len() == 0 {
        if b.len() > 0 {
            assert(b.contains(b[0]));
        }
        if a.len() > 0 {
            assert(a.contains(a[0]));
        }
        assert(a =~= b);
    } else {
        let a0 = a.drop_last();
        let b0 = b.drop_last();
        assert forall|z: A|
            #![trigger a0.contains(z)]
            #![trigger b0.contains(z)]
            a0.contains(z) <==> b0.contains(z) by {
            if a0.contains(z) {
                lemma_front_is_shared(a, b, less, z);
            }
            if b0.contains(z) {
                lemma_front_is_shared(b, a, less, z);
            }
        }
        assert forall|p: int, q: int| 0 <= p < q < a0.len() implies less(a0[p], a0[q]) by {
            assert(less(a[p], a[q]));
        }
        assert forall|p: int, q: int| 0 <= p < q < b0.len() implies less(b0[p], b0[q]) by {
            assert(less(b[p], b[q]));
        }
        lemma_ascending_is_unique(a0, b0, less);
        assert(a.contains(a.last()));
        assert(b.contains(b.last()));
        if a.last() != b.last() {
            let i = choose|i: int| 0 <= i < a.len() && a[i] == b.last();
            assert(a0[i] == b.last());
            assert(b0.contains(b.last()));
            let k = choose|k: int| 0 <= k < b0.len() && b0[k] == b.last();
            assert(less(b[k], b[b.len() - 1]));
        }
        assert(a =~= a0.push(a.last()));
        assert(b =~= b0.push(b.last()));
    }
}

/// A set has one ascending listing at most: whatever lists it is `listing` of it.
pub proof fn lemma_listing_is_unique<A>(s: Seq<A>, members: Set<A>, less: spec_fn(A, A) -> bool)
    requires
        strict_total_order(less),
        lists(s, members, less),
    ensures
        s == listing(members, less),
{
    let t = listing(members, less);
    assert(lists(t, members, less));
    assert forall|x: A|
        #![trigger s.contains(x)]
        #![trigger t.contains(x)]
        s.contains(x) <==> t.contains(x) by {
        assert(s.contains(x) <==> members.contains(x));
        assert(t.contains(x) <==> members.contains(x));
    }
    lemma_ascending_is_unique(s, t, less);
}

} // verus!
