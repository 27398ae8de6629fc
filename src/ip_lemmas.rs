//! Facts about sequences of map operations, stated over the entries that the
//! operations' contracts describe.

use crate::ip::{
    all_wf, covered, disjoint, has_key, insert_entry, key_lt, lookup_address, normalized_from,
    sorted_strict, Address, IpAddrBlock,
};
use vstd::prelude::*;

verus! {

/// The entries of a map that starts empty and receives `pairs`, in that
/// order, through [`crate::ip::IpAddrBlockMap::insert`].
pub open spec fn insert_all<A: Address, T>(pairs: Seq<(IpAddrBlock<A>, T)>) -> Seq<(IpAddrBlock<A>, T)>
    decreases pairs.len(),
{
    if pairs.len() == 0 {
        Seq::empty()
    } else {
        insert_entry(insert_all(pairs.drop_last()), pairs.last().0, pairs.last().1)
    }
}

/// Two well-formed blocks of disjoint entries never share a span.
proof fn lemma_disjoint_keys<A: Address, T>(s: Seq<(IpAddrBlock<A>, T)>, i: int, j: int)
    requires
        all_wf(s),
        disjoint(s),
        0 <= i < s.len(),
        0 <= j < s.len(),
        s[i].0@ == s[j].0@,
    ensures
        i == j,
{
    if i != j {
        assert(s[i].0.wf());
        assert(s[i].0@.1 < s[j].0@.0 || s[j].0@.1 < s[i].0@.0);
    }
}

/// Strictly sorted entries, each taken from disjoint entries, are disjoint.
proof fn lemma_disjoint_subset<A: Address, T>(s: Seq<(IpAddrBlock<A>, T)>, n: Seq<(IpAddrBlock<A>, T)>)
    requires
        disjoint(s),
        sorted_strict(n),
        forall|j: int| 0 <= j < n.len() ==> s.contains(#[trigger] n[j]),
    ensures
        disjoint(n),
{
    assert forall|p: int, q: int| 0 <= p < n.len() && 0 <= q < n.len() && p != q implies #[trigger] n[p].0@.1
        < #[trigger] n[q].0@.0 || n[q].0@.1 < n[p].0@.0 by {
        assert(s.contains(n[p]));
        assert(s.contains(n[q]));
        let pp = choose|x: int| 0 <= x < s.len() && s[x] == n[p];
        let qq = choose|x: int| 0 <= x < s.len() && s[x] == n[q];
        if p < q {
            assert(key_lt(n[p].0@, n[q].0@));
        } else {
            assert(key_lt(n[q].0@, n[p].0@));
        }
        assert(pp != qq);
    }
}

/// What normalizing disjoint entries gives holds exactly the entries it was
/// given.
proof fn lemma_normalized_same_entries<A: Address, T>(
    s: Seq<(IpAddrBlock<A>, T)>,
    n: Seq<(IpAddrBlock<A>, T)>,
)
    requires
        all_wf(s),
        disjoint(s),
        normalized_from(s, n),
    ensures
        forall|e: (IpAddrBlock<A>, T)| n.contains(e) <==> s.contains(e),
{
    assert forall|e: (IpAddrBlock<A>, T)| s.contains(e) implies n.contains(e) by {
        let i = choose|i: int| 0 <= i < s.len() && s[i] == e;
        assert(has_key(n, s[i].0@));
        let j = choose|j: int| 0 <= j < n.len() && (#[trigger] n[j]).0@ == s[i].0@;
        assert(s.contains(n[j]));
        let k = choose|k: int| 0 <= k < s.len() && s[k] == n[j];
        lemma_disjoint_keys(s, i, k);
    }
    assert forall|e: (IpAddrBlock<A>, T)| n.contains(e) implies s.contains(e) by {
        let j = choose|j: int| 0 <= j < n.len() && n[j] == e;
        assert(s.contains(n[j]));
    }
}

/// Two strictly sorted sequences of entries with the same elements are equal.
proof fn lemma_sorted_unique<A: Address, T>(a: Seq<(IpAddrBlock<A>, T)>, b: Seq<(IpAddrBlock<A>, T)>)
    requires
        sorted_strict(a),
        sorted_strict(b),
        forall|e: (IpAddrBlock<A>, T)| a.contains(e) <==> b.contains(e),
    ensures
        a == b,
    decreases a.len(),
{
    if a.len() == 0 {
        if b.len() > 0 {
            assert(b.contains(b[0]));
        }
        assert(a =~= b);
    } else {
        assert(a.contains(a[0]));
        assert(b.contains(a[0]));
        assert(b.len() > 0);
        assert(b.contains(b[0]));
        assert(a.contains(b[0]));
        let i = choose|i: int| 0 <= i < a.len() && a[i] == b[0];
        let j = choose|j: int| 0 <= j < b.len() && b[j] == a[0];
        if i > 0 {
            assert(key_lt(a[0].0@, a[i].0@));
            if j > 0 {
                assert(key_lt(b[0].0@, b[j].0@));
            }
            assert(false);
        }
        let a1 = a.drop_first();
        let b1 = b.drop_first();
        assert forall|p: int, q: int| 0 <= p < q < a1.len() implies key_lt(
            #[trigger] a1[p].0@,
            #[trigger] a1[q].0@,
        ) by {
            assert(key_lt(a[p + 1].0@, a[q + 1].0@));
        }
        assert forall|p: int, q: int| 0 <= p < q < b1.len() implies key_lt(
            #[trigger] b1[p].0@,
            #[trigger] b1[q].0@,
        ) by {
            assert(key_lt(b[p + 1].0@, b[q + 1].0@));
        }
        assert forall|e: (IpAddrBlock<A>, T)| a1.contains(e) implies b1.contains(e) by {
            let p = choose|p: int| 0 <= p < a1.len() && a1[p] == e;
            assert(a[p + 1] == e);
            assert(key_lt(a[0].0@, a[p + 1].0@));
            assert(a.contains(e));
            let q = choose|q: int| 0 <= q < b.len() && b[q] == e;
            assert(q != 0);
            assert(b1[q - 1] == e);
        }
        assert forall|e: (IpAddrBlock<A>, T)| b1.contains(e) implies a1.contains(e) by {
            let q = choose|q: int| 0 <= q < b1.len() && b1[q] == e;
            assert(b[q + 1] == e);
            assert(key_lt(b[0].0@, b[q + 1].0@));
            assert(b.contains(e));
            let p = choose|p: int| 0 <= p < a.len() && a[p] == e;
            assert(p != 0);
            assert(a1[p - 1] == e);
        }
        lemma_sorted_unique(a1, b1);
        assert(a[0] == b[0]);
        assert forall|k: int| 0 <= k < a.len() implies a[k] == b[k] by {
            if k > 0 {
                assert(a[k] == a1[k - 1] && b[k] == b1[k - 1]);
            }
        }
        assert(a =~= b);
    }
}

/// Inserting entries one at a time, in any order, into an empty map gives
/// strictly sorted entries that are exactly the inserted ones, provided the
/// blocks are well formed and no two of them overlap.
proof fn lemma_insert_all_entries<A: Address, T>(pairs: Seq<(IpAddrBlock<A>, T)>)
    requires
        all_wf(pairs),
        disjoint(pairs),
    ensures
        sorted_strict(insert_all(pairs)),
        all_wf(insert_all(pairs)),
        forall|e: (IpAddrBlock<A>, T)| insert_all(pairs).contains(e) <==> pairs.contains(e),
    decreases pairs.len(),
{
    if pairs.len() > 0 {
        let init = pairs.drop_last();
        let n = pairs.len() - 1;
        let (b, v) = pairs.last();
        assert forall|i: int| 0 <= i < init.len() implies (#[trigger] init[i]).0.wf() by {
            assert(init[i] == pairs[i]);
        }
        assert forall|i: int, j: int| 0 <= i < init.len() && 0 <= j < init.len() && i != j implies #[trigger] init[i].0@.1
            < #[trigger] init[j].0@.0 || init[j].0@.1 < init[i].0@.0 by {
            assert(init[i] == pairs[i] && init[j] == pairs[j]);
        }
        lemma_insert_all_entries(init);
        let s = insert_all(init);
        assert(pairs[n] == (b, v));
        assert(!has_key(s, b@)) by {
            if has_key(s, b@) {
                let j = choose|j: int| 0 <= j < s.len() && (#[trigger] s[j]).0@ == b@;
                assert(s.contains(s[j]));
                assert(init.contains(s[j]));
                let k = choose|k: int| 0 <= k < init.len() && init[k] == s[j];
                assert(pairs[k] == init[k]);
                lemma_disjoint_keys(pairs, k, n);
            }
        }
        crate::ip::lemma_insert_entry_sorted(s, b, v);
        crate::ip::lemma_lower_bound_bounds(s, b@);
        let i = crate::ip::lower_bound(s, b@) as int;
        if i < s.len() {
            assert(s[i].0@ != b@);
        }
        let r = insert_all(pairs);
        assert(r == s.insert(i, (b, v)));
        assert forall|e: (IpAddrBlock<A>, T)| r.contains(e) <==> pairs.contains(e) by {
            if r.contains(e) {
                let p = choose|p: int| 0 <= p < r.len() && r[p] == e;
                if p < i {
                    assert(s[p] == e);
                    assert(s.contains(e));
                    assert(init.contains(e));
                    let q = choose|q: int| 0 <= q < init.len() && init[q] == e;
                    assert(pairs[q] == e);
                } else if p > i {
                    assert(s[p - 1] == e);
                    assert(s.contains(e));
                    assert(init.contains(e));
                    let q = choose|q: int| 0 <= q < init.len() && init[q] == e;
                    assert(pairs[q] == e);
                } else {
                    assert(pairs[n] == e);
                }
            }
            if pairs.contains(e) {
                let q = choose|q: int| 0 <= q < pairs.len() && pairs[q] == e;
                if q == n {
                    assert(r[i] == e);
                } else {
                    assert(init[q] == e);
                    assert(init.contains(e));
                    assert(s.contains(e));
                    let p = choose|p: int| 0 <= p < s.len() && s[p] == e;
                    if p < i {
                        assert(r[p] == e);
                    } else {
                        assert(r[p + 1] == e);
                    }
                }
            }
        }
    }
}

/// Blocks that do not overlap, inserted one at a time in any order into an
/// empty map, are answered exactly by point lookups afterwards: an address
/// inside one of the blocks gets that block's value, and an address inside
/// none of them gets nothing.
pub proof fn lemma_sorted_inserts_answer_lookups<A: Address, T>(pairs: Seq<(IpAddrBlock<A>, T)>, a: int)
    requires
        all_wf(pairs),
        disjoint(pairs),
    ensures
        sorted_strict(insert_all(pairs)),
        disjoint(insert_all(pairs)),
        forall|i: int|
            0 <= i < pairs.len() && (#[trigger] pairs[i]).0.covers(a) ==> lookup_address(insert_all(pairs), a)
                == Some(pairs[i].1),
        !covered(pairs, a) ==> lookup_address(insert_all(pairs), a) is None,
{
    lemma_insert_all_entries(pairs);
    let s = insert_all(pairs);
    assert forall|j: int| 0 <= j < s.len() implies pairs.contains(#[trigger] s[j]) by {
        assert(s.contains(s[j]));
    }
    lemma_disjoint_subset(pairs, s);
    assert forall|i: int| 0 <= i < pairs.len() && (#[trigger] pairs[i]).0.covers(a) implies lookup_address(s, a)
        == Some(pairs[i].1) by {
        assert(pairs.contains(pairs[i]));
        assert(s.contains(pairs[i]));
        let j = choose|j: int| 0 <= j < s.len() && s[j] == pairs[i];
        crate::ip::lemma_single_cover(s, a, j);
    }
    if !covered(pairs, a) {
        assert forall|j: int| 0 <= j < s.len() implies !(#[trigger] s[j]).0.covers(a) by {
            assert(pairs.contains(s[j]));
            let k = choose|k: int| 0 <= k < pairs.len() && pairs[k] == s[j];
        }
    }
}

/// Appending non-overlapping entries and normalizing once gives the same
/// entries as inserting them one at a time in order: `n` is any result that
/// [`crate::ip::IpAddrBlockMap::normalize`] may give on the appended entries.
pub proof fn lemma_bulk_load_matches_sorted_inserts<A: Address, T>(
    pairs: Seq<(IpAddrBlock<A>, T)>,
    n: Seq<(IpAddrBlock<A>, T)>,
)
    requires
        all_wf(pairs),
        disjoint(pairs),
        normalized_from(pairs, n),
    ensures
        n.to_set() == insert_all(pairs).to_set(),
        n == insert_all(pairs),
{
    lemma_insert_all_entries(pairs);
    lemma_normalized_same_entries(pairs, n);
    lemma_sorted_unique(n, insert_all(pairs));
}

/// Normalizing twice gives the entries that normalizing once gives.
pub proof fn lemma_normalize_idempotent<A: Address, T>(
    s: Seq<(IpAddrBlock<A>, T)>,
    n1: Seq<(IpAddrBlock<A>, T)>,
    n2: Seq<(IpAddrBlock<A>, T)>,
)
    requires
        normalized_from(s, n1),
        normalized_from(n1, n2),
    ensures
        n2 == n1,
{
    assert forall|e: (IpAddrBlock<A>, T)| n1.contains(e) <==> n2.contains(e) by {
        if n1.contains(e) {
            let i = choose|i: int| 0 <= i < n1.len() && n1[i] == e;
            assert(has_key(n2, n1[i].0@));
            let j = choose|j: int| 0 <= j < n2.len() && (#[trigger] n2[j]).0@ == n1[i].0@;
            assert(n1.contains(n2[j]));
            let k = choose|k: int| 0 <= k < n1.len() && n1[k] == n2[j];
            if k < i {
                assert(key_lt(n1[k].0@, n1[i].0@));
            } else if i < k {
                assert(key_lt(n1[i].0@, n1[k].0@));
            }
            assert(n2[j] == e);
        }
        if n2.contains(e) {
            let j = choose|j: int| 0 <= j < n2.len() && n2[j] == e;
            assert(n1.contains(n2[j]));
        }
    }
    lemma_sorted_unique(n1, n2);
}

/// After normalizing, exactly one entry holds each span that the entries had,
/// however many entries had it before.
pub proof fn lemma_normalize_keeps_one_per_span<A: Address, T>(
    s: Seq<(IpAddrBlock<A>, T)>,
    n: Seq<(IpAddrBlock<A>, T)>,
    k: (int, int),
)
    requires
        normalized_from(s, n),
        has_key(s, k),
    ensures
        has_key(n, k),
        forall|i: int, j: int|
            0 <= i < n.len() && 0 <= j < n.len() && (#[trigger] n[i]).0@ == k && (#[trigger] n[j]).0@ == k
                ==> i == j,
{
    let i = choose|i: int| 0 <= i < s.len() && (#[trigger] s[i]).0@ == k;
    assert(has_key(n, s[i].0@));
    assert forall|p: int, q: int|
        0 <= p < n.len() && 0 <= q < n.len() && (#[trigger] n[p]).0@ == k && (#[trigger] n[q]).0@ == k implies p
        == q by {
        if p < q {
            assert(key_lt(n[p].0@, n[q].0@));
        } else if q < p {
            assert(key_lt(n[q].0@, n[p].0@));
        }
    }
}

} // verus!
