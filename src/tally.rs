//! Grouping the blocks of two maps by the country they are assigned to.

use crate::filter::MaybeCountry;
use crate::ip::{Address, IpAddrBlock, Ipv4AddrBlock, Ipv6AddrBlock};
use vstd::prelude::*;

verus! {

/// The two values stand for the same country: equal records, or equal codes
/// of missing countries.
pub open spec fn same_country(a: MaybeCountry, b: MaybeCountry) -> bool {
    match (a, b) {
        (MaybeCountry::Present(x), MaybeCountry::Present(y)) => x.same(&y),
        (MaybeCountry::Missing(x), MaybeCountry::Missing(y)) => x.letters() == y.letters(),
        _ => false,
    }
}

/// Returns whether the two values stand for the same country.
pub fn is_same_country(a: &MaybeCountry, b: &MaybeCountry) -> (r: bool)
    ensures
        r == same_country(*a, *b),
{
    match (a, b) {
        (MaybeCountry::Present(x), MaybeCountry::Present(y)) => *x == *y,
        (MaybeCountry::Missing(x), MaybeCountry::Missing(y)) => x.same_as(y),
        _ => false,
    }
}

/// The blocks of the entries assigned to the country `c`, in order.
pub open spec fn blocks_of<A: Address>(entries: Seq<(&IpAddrBlock<A>, &MaybeCountry)>, c: MaybeCountry) -> Seq<
    IpAddrBlock<A>,
>
    decreases entries.len(),
{
    if entries.len() == 0 {
        Seq::empty()
    } else {
        let rest = blocks_of(entries.drop_last(), c);
        if same_country(*entries.last().1, c) {
            rest.push(*entries.last().0)
        } else {
            rest
        }
    }
}

/// A country and the blocks of each map assigned to it.
#[derive(Clone, Debug)]
pub struct CountryGroup {
    /// The country.
    pub country: MaybeCountry,
    /// Its IPv4 blocks, in map order.
    pub ipv4: Vec<Ipv4AddrBlock>,
    /// Its IPv6 blocks, in map order.
    pub ipv6: Vec<Ipv6AddrBlock>,
}

/// The groups hold different countries.
pub open spec fn distinct_groups(g: Seq<CountryGroup>) -> bool {
    forall|i: int, j: int|
        0 <= i < g.len() && 0 <= j < g.len() && i != j ==> !same_country(
            (#[trigger] g[i]).country,
            (#[trigger] g[j]).country,
        )
}

/// Every group's blocks are exactly those of the entries assigned to its
/// country.
pub open spec fn groups_match(
    g: Seq<CountryGroup>,
    v4: Seq<(&Ipv4AddrBlock, &MaybeCountry)>,
    v6: Seq<(&Ipv6AddrBlock, &MaybeCountry)>,
) -> bool {
    forall|k: int|
        0 <= k < g.len() ==> (#[trigger] g[k]).ipv4@ == blocks_of(v4, g[k].country) && g[k].ipv6@
            == blocks_of(v6, g[k].country)
}

/// Some group holds the country `c`.
pub open spec fn has_group(g: Seq<CountryGroup>, c: MaybeCountry) -> bool {
    exists|k: int| 0 <= k < g.len() && same_country((#[trigger] g[k]).country, c)
}

/// Every entry's country has a group.
pub open spec fn groups_cover<A: Address>(g: Seq<CountryGroup>, entries: Seq<(&IpAddrBlock<A>, &MaybeCountry)>) -> bool {
    forall|i: int| 0 <= i < entries.len() ==> has_group(g, *(#[trigger] entries[i]).1)
}

/// Same country is symmetric and transitive.
proof fn lemma_same_country(a: MaybeCountry, b: MaybeCountry, c: MaybeCountry)
    ensures
        same_country(a, b) ==> same_country(b, a),
        same_country(a, b) && same_country(b, c) ==> same_country(a, c),
        same_country(a, a),
{
}

/// Entries of another country leave a country's blocks alone, and entries of
/// its own country are the only ones added.
proof fn lemma_blocks_of_step<A: Address>(
    entries: Seq<(&IpAddrBlock<A>, &MaybeCountry)>,
    i: int,
    c: MaybeCountry,
)
    requires
        0 <= i < entries.len(),
    ensures
        blocks_of(entries.take(i + 1), c) == if same_country(*entries[i].1, c) {
            blocks_of(entries.take(i), c).push(*entries[i].0)
        } else {
            blocks_of(entries.take(i), c)
        },
{
    assert(entries.take(i + 1).drop_last() =~= entries.take(i));
}

/// Blocks grouped by country for one map: each country with its blocks.
pub open spec fn in_grouping<A: Address>(g: Seq<(MaybeCountry, Vec<IpAddrBlock<A>>)>, c: MaybeCountry) -> bool {
    exists|k: int| 0 <= k < g.len() && same_country((#[trigger] g[k]).0, c)
}

/// No two groups of one map hold the same country.
pub open spec fn grouping_distinct<A: Address>(g: Seq<(MaybeCountry, Vec<IpAddrBlock<A>>)>) -> bool {
    forall|p: int, q: int|
        0 <= p < g.len() && 0 <= q < g.len() && p != q ==> !same_country((#[trigger] g[p]).0, (#[trigger] g[q]).0)
}

/// A country with no entries has no blocks.
proof fn lemma_blocks_of_none<A: Address>(entries: Seq<(&IpAddrBlock<A>, &MaybeCountry)>, c: MaybeCountry)
    requires
        forall|i: int| 0 <= i < entries.len() ==> !same_country(*(#[trigger] entries[i]).1, c),
    ensures
        blocks_of(entries, c) == Seq::<IpAddrBlock<A>>::empty(),
    decreases entries.len(),
{
    if entries.len() > 0 {
        let init = entries.drop_last();
        assert forall|i: int| 0 <= i < init.len() implies !same_country(*(#[trigger] init[i]).1, c) by {
            assert(init[i] == entries[i]);
        }
        lemma_blocks_of_none(init, c);
        assert(!same_country(*entries[entries.len() - 1].1, c));
    }
}

/// Two values for the same country have the same blocks.
proof fn lemma_blocks_of_same<A: Address>(entries: Seq<(&IpAddrBlock<A>, &MaybeCountry)>, a: MaybeCountry, b: MaybeCountry)
    requires
        same_country(a, b),
    ensures
        blocks_of(entries, a) == blocks_of(entries, b),
    decreases entries.len(),
{
    if entries.len() > 0 {
        lemma_blocks_of_same(entries.drop_last(), a, b);
        let e = *entries.last().1;
        lemma_same_country(e, a, b);
        lemma_same_country(e, b, a);
        lemma_same_country(a, b, a);
    }
}

/// A country that no group holds has no blocks, when every entry's country
/// has a group.
proof fn lemma_ungrouped_empty<A: Address>(
    entries: Seq<(&IpAddrBlock<A>, &MaybeCountry)>,
    g: Seq<(MaybeCountry, Vec<IpAddrBlock<A>>)>,
    c: MaybeCountry,
)
    requires
        forall|i: int| 0 <= i < entries.len() ==> in_grouping(g, *(#[trigger] entries[i]).1),
        !in_grouping(g, c),
    ensures
        blocks_of(entries, c) == Seq::<IpAddrBlock<A>>::empty(),
{
    assert forall|i: int| 0 <= i < entries.len() implies !same_country(*(#[trigger] entries[i]).1, c) by {
        let k = choose|k: int| 0 <= k < g.len() && same_country((#[trigger] g[k]).0, *entries[i].1);
        lemma_same_country(g[k].0, *entries[i].1, c);
    }
    lemma_blocks_of_none(entries, c);
}

/// Returns the index of the group that holds the country `c`, or the number
/// of groups when none does.
fn find_group<A: Address>(g: &Vec<(MaybeCountry, Vec<IpAddrBlock<A>>)>, c: &MaybeCountry) -> (r: usize)
    ensures
        r <= g@.len(),
        r < g@.len() ==> same_country(g@[r as int].0, *c),
        r == g@.len() ==> !in_grouping(g@, *c),
{
    let mut k: usize = 0;
    while k < g.len()
        invariant
            k <= g@.len(),
            forall|j: int| 0 <= j < k ==> !same_country((#[trigger] g@[j]).0, *c),
        decreases g@.len() - k,
    {
        if is_same_country(&g[k].0, c) {
            return k;
        }
        k += 1;
    }
    k
}

/// Returns a copy of the blocks.
fn copy_blocks<A: Address>(v: &Vec<IpAddrBlock<A>>) -> (r: Vec<IpAddrBlock<A>>)
    ensures
        r@ == v@,
{
    let mut r: Vec<IpAddrBlock<A>> = Vec::with_capacity(v.len());
    let mut i: usize = 0;
    while i < v.len()
        invariant
            i <= v@.len(),
            r@ == v@.take(i as int),
        decreases v@.len() - i,
    {
        r.push(v[i]);
        i += 1;
        assert(r@ =~= v@.take(i as int));
    }
    assert(v@.take(i as int) =~= v@);
    r
}

/// Groups one map's entries by country, in the order in which the countries
/// first appear.
fn group_entries<A: Address>(entries: &[(&IpAddrBlock<A>, &MaybeCountry)]) -> (r: Vec<
    (MaybeCountry, Vec<IpAddrBlock<A>>),
>)
    ensures
        grouping_distinct(r@),
        forall|k: int| 0 <= k < r@.len() ==> (#[trigger] r@[k]).1@ == blocks_of(entries@, r@[k].0),
        forall|i: int| 0 <= i < entries@.len() ==> in_grouping(r@, *(#[trigger] entries@[i]).1),
{
    let mut g: Vec<(MaybeCountry, Vec<IpAddrBlock<A>>)> = Vec::new();
    let mut i: usize = 0;
    while i < entries.len()
        invariant
            i <= entries@.len(),
            grouping_distinct(g@),
            forall|k: int| 0 <= k < g@.len() ==> (#[trigger] g@[k]).1@ == blocks_of(entries@.take(i as int), g@[k].0),
            forall|p: int| 0 <= p < i ==> in_grouping(g@, *(#[trigger] entries@.take(i as int)[p]).1),
        decreases entries@.len() - i,
    {
        let (block, country) = entries[i];
        let ghost g0 = g@;
        let ghost pre = entries@.take(i as int);
        let ghost post = entries@.take(i + 1);
        proof {
            assert forall|c: MaybeCountry| true implies blocks_of(post, c) == if same_country(*country, c) {
                blocks_of(pre, c).push(*block)
            } else {
                blocks_of(pre, c)
            } by {
                lemma_blocks_of_step(entries@, i as int, c);
            }
            assert forall|p: int| 0 <= p < i implies #[trigger] post[p] == pre[p] by {}
            assert(post[i as int].1 == country);
        }
        let k = find_group(&g, country);
        if k < g.len() {
            let mut e = g.remove(k);
            e.1.push(*block);
            g.insert(k, e);
            proof {
                assert(g@ =~= g0.update(k as int, g@[k as int]));
                assert forall|j: int| 0 <= j < g@.len() implies (#[trigger] g@[j]).1@ == blocks_of(post, g@[j].0) by {
                    lemma_same_country(*country, g0[k as int].0, g0[j].0);
                    lemma_same_country(g0[k as int].0, *country, g0[j].0);
                    lemma_same_country(g0[j].0, g0[k as int].0, *country);
                }
                assert forall|p: int| 0 <= p < i + 1 implies in_grouping(g@, *(#[trigger] post[p]).1) by {
                    if p < i {
                        assert(in_grouping(g0, *pre[p].1));
                        let q = choose|q: int| 0 <= q < g0.len() && same_country((#[trigger] g0[q]).0, *pre[p].1);
                        assert(g@[q].0 == g0[q].0);
                    } else {
                        assert(g@[k as int].0 == g0[k as int].0);
                    }
                }
            }
        } else {
            let mut blocks: Vec<IpAddrBlock<A>> = Vec::new();
            blocks.push(*block);
            g.push((copy_country(country), blocks));
            proof {
                let n = g0.len() as int;
                lemma_same_country(*country, *country, *country);
                lemma_ungrouped_empty(pre, g0, *country);
                assert(g@[n].1@ =~= seq![*block]);
                assert forall|j: int| 0 <= j < g@.len() implies (#[trigger] g@[j]).1@ == blocks_of(post, g@[j].0) by {
                    if j < n {
                        assert(g@[j] == g0[j]);
                        lemma_same_country(g0[j].0, *country, *country);
                    }
                }
                assert forall|p: int, q: int|
                    0 <= p < g@.len() && 0 <= q < g@.len() && p != q implies !same_country(
                    (#[trigger] g@[p]).0,
                    (#[trigger] g@[q]).0,
                ) by {
                    if p < n && q < n {
                        assert(g@[p] == g0[p] && g@[q] == g0[q]);
                    } else if p == n {
                        assert(g@[q] == g0[q]);
                        lemma_same_country(g0[q].0, *country, *country);
                    } else {
                        assert(g@[p] == g0[p]);
                    }
                }
                assert forall|p: int| 0 <= p < i + 1 implies in_grouping(g@, *(#[trigger] post[p]).1) by {
                    if p < i {
                        assert(in_grouping(g0, *pre[p].1));
                        let q = choose|q: int| 0 <= q < g0.len() && same_country((#[trigger] g0[q]).0, *pre[p].1);
                        assert(g@[q] == g0[q]);
                    } else {
                        assert(g@[n].0 == *country);
                    }
                }
            }
        }
        i += 1;
    }
    assert(entries@.take(i as int) =~= entries@);
    g
}

/// Groups the blocks of an IPv4 map's entries and an IPv6 map's entries by
/// country. Each country that an entry has gets one group: first the
/// countries of IPv4 entries, in the order in which they first appear, then
/// those only IPv6 entries have.
pub fn group_by_country(
    v4: &[(&Ipv4AddrBlock, &MaybeCountry)],
    v6: &[(&Ipv6AddrBlock, &MaybeCountry)],
) -> (r: Vec<CountryGroup>)
    ensures
        distinct_groups(r@),
        groups_match(r@, v4@, v6@),
        groups_cover(r@, v4@),
        groups_cover(r@, v6@),
{
    let g4 = group_entries(v4);
    let g6 = group_entries(v6);
    let mut out: Vec<CountryGroup> = Vec::new();
    let mut i: usize = 0;
    while i < g4.len()
        invariant
            i <= g4@.len(),
            out@.len() == i,
            grouping_distinct(g4@),
            grouping_distinct(g6@),
            forall|k: int| 0 <= k < g4@.len() ==> (#[trigger] g4@[k]).1@ == blocks_of(v4@, g4@[k].0),
            forall|k: int| 0 <= k < g6@.len() ==> (#[trigger] g6@[k]).1@ == blocks_of(v6@, g6@[k].0),
            forall|p: int| 0 <= p < v6@.len() ==> in_grouping(g6@, *(#[trigger] v6@[p]).1),
            forall|k: int| 0 <= k < i ==> (#[trigger] out@[k]).country == g4@[k].0,
            groups_match(out@, v4@, v6@),
        decreases g4@.len() - i,
    {
        let country = copy_country(&g4[i].0);
        let ipv4 = copy_blocks(&g4[i].1);
        let j = find_group(&g6, &country);
        let ipv6 = if j < g6.len() {
            copy_blocks(&g6[j].1)
        } else {
            Vec::new()
        };
        proof {
            if j < g6@.len() {
                lemma_blocks_of_same(v6@, g6@[j as int].0, country);
            } else {
                lemma_ungrouped_empty(v6@, g6@, country);
            }
        }
        out.push(CountryGroup { country, ipv4, ipv6 });
        proof {
            assert(out@[i as int].ipv6@ == blocks_of(v6@, country));
        }
        i += 1;
    }
    let n4 = g4.len();
    let ghost mut from6: Seq<int> = Seq::empty();
    let mut j: usize = 0;
    while j < g6.len()
        invariant
            n4 == g4@.len(),
            j <= g6@.len(),
            out@.len() == n4 + from6.len(),
            grouping_distinct(g4@),
            grouping_distinct(g6@),
            forall|k: int| 0 <= k < g4@.len() ==> (#[trigger] g4@[k]).1@ == blocks_of(v4@, g4@[k].0),
            forall|k: int| 0 <= k < g6@.len() ==> (#[trigger] g6@[k]).1@ == blocks_of(v6@, g6@[k].0),
            forall|p: int| 0 <= p < v4@.len() ==> in_grouping(g4@, *(#[trigger] v4@[p]).1),
            forall|k: int| 0 <= k < n4 ==> (#[trigger] out@[k]).country == g4@[k].0,
            forall|k: int| 0 <= k < from6.len() ==> 0 <= #[trigger] from6[k] < j,
            forall|k: int| 0 <= k < from6.len() ==> out@[n4 + k].country == g6@[#[trigger] from6[k]].0,
            forall|k: int| 0 <= k < from6.len() ==> !in_grouping(g4@, g6@[#[trigger] from6[k]].0),
            forall|p: int, q: int| 0 <= p < q < from6.len() ==> #[trigger] from6[p] < #[trigger] from6[q],
            forall|q: int|
                0 <= q < j ==> in_grouping(g4@, (#[trigger] g6@[q]).0) || exists|k: int|
                    0 <= k < from6.len() && #[trigger] from6[k] == q,
            groups_match(out@, v4@, v6@),
        decreases g6@.len() - j,
    {
        let k = find_group(&g4, &g6[j].0);
        if k == g4.len() {
            let country = copy_country(&g6[j].0);
            let ipv6 = copy_blocks(&g6[j].1);
            proof {
                lemma_ungrouped_empty(v4@, g4@, country);
            }
            out.push(CountryGroup { country, ipv4: Vec::new(), ipv6 });
            proof {
                let old_from6 = from6;
                from6 = from6.push(j as int);
                assert(out@[n4 + from6.len() - 1].country == g6@[j as int].0);
                assert forall|q: int| 0 <= q < j + 1 implies in_grouping(g4@, (#[trigger] g6@[q]).0) || exists|k: int|
                    0 <= k < from6.len() && #[trigger] from6[k] == q by {
                    if q < j && !in_grouping(g4@, g6@[q].0) {
                        let k = choose|k: int| 0 <= k < old_from6.len() && #[trigger] old_from6[k] == q;
                        assert(from6[k] == q);
                    } else if q == j {
                        assert(from6[from6.len() - 1] == q);
                    }
                }
            }
        } else {
            proof {
                assert forall|q: int| 0 <= q < j + 1 implies in_grouping(g4@, (#[trigger] g6@[q]).0) || exists|k: int|
                    0 <= k < from6.len() && #[trigger] from6[k] == q by {
                    if q == j {
                        assert(in_grouping(g4@, g6@[q].0)) by {
                            lemma_same_country(g4@[k as int].0, g6@[q].0, g6@[q].0);
                        }
                    }
                }
            }
        }
        j += 1;
    }
    proof {
        let r = out@;
        assert forall|p: int, q: int|
            0 <= p < r.len() && 0 <= q < r.len() && p != q implies !same_country(
            (#[trigger] r[p]).country,
            (#[trigger] r[q]).country,
        ) by {
            if p < n4 && q < n4 {
            } else if p >= n4 && q >= n4 {
                let a = from6[p - n4];
                let b = from6[q - n4];
                if p < q {
                    assert(a < b);
                } else {
                    assert(b < a);
                }
            } else if p < n4 {
                let b = from6[q - n4];
                if same_country(r[p].country, r[q].country) {
                    lemma_same_country(g4@[p].0, g6@[b].0, g6@[b].0);
                    assert(in_grouping(g4@, g6@[b].0));
                }
            } else {
                let a = from6[p - n4];
                if same_country(r[p].country, r[q].country) {
                    lemma_same_country(g6@[a].0, g4@[q].0, g4@[q].0);
                    assert(same_country(g4@[q].0, g6@[a].0));
                    assert(in_grouping(g4@, g6@[a].0));
                }
            }
        }
        assert forall|p: int| 0 <= p < v4@.len() implies has_group(r, *(#[trigger] v4@[p]).1) by {
            assert(in_grouping(g4@, *v4@[p].1));
            let k = choose|k: int| 0 <= k < g4@.len() && same_country((#[trigger] g4@[k]).0, *v4@[p].1);
            assert(r[k].country == g4@[k].0);
        }
        assert forall|p: int| 0 <= p < v6@.len() implies has_group(r, *(#[trigger] v6@[p]).1) by {
            assert(in_grouping(g6@, *v6@[p].1));
            let q = choose|q: int| 0 <= q < g6@.len() && same_country((#[trigger] g6@[q]).0, *v6@[p].1);
            if in_grouping(g4@, g6@[q].0) {
                let k = choose|k: int| 0 <= k < g4@.len() && same_country((#[trigger] g4@[k]).0, g6@[q].0);
                lemma_same_country(g4@[k].0, g6@[q].0, *v6@[p].1);
                assert(r[k].country == g4@[k].0);
            } else {
                let k = choose|k: int| 0 <= k < from6.len() && #[trigger] from6[k] == q;
                assert(r[n4 + k].country == g6@[q].0);
            }
        }
    }
    out
}

/// Returns an equal copy of the country.
fn copy_country(c: &MaybeCountry) -> (r: MaybeCountry)
    ensures
        r == *c,
{
    match c {
        MaybeCountry::Present(x) => MaybeCountry::Present(x.cloned()),
        MaybeCountry::Missing(code) => MaybeCountry::Missing(*code),
    }
}

} // verus!
