//! Address blocks and the sorted map that assigns values to them.

use std::cmp::Ordering;
use vstd::prelude::*;

verus! {

/// A type that can stand at either end of an [`IpAddrBlock`]: a fixed-width
/// unsigned address, ordered by its numeric value.
pub trait Address: Copy {
    /// The numeric value of the address.
    spec fn spec_bits(&self) -> int;

    /// Returns the numeric value of the address.
    fn bits(&self) -> (r: u128)
        ensures
            r as int == self.spec_bits(),
    ;
}

impl Address for u32 {
    open spec fn spec_bits(&self) -> int {
        *self as int
    }

    fn bits(&self) -> (r: u128) {
        *self as u128
    }
}

impl Address for u128 {
    open spec fn spec_bits(&self) -> int {
        *self as int
    }

    fn bits(&self) -> (r: u128) {
        *self
    }
}

/// A block of IPv4 addresses, each held as its 32-bit value.
pub type Ipv4AddrBlock = IpAddrBlock<u32>;

/// A block of IPv6 addresses, each held as its 128-bit value.
pub type Ipv6AddrBlock = IpAddrBlock<u128>;

/// A map from blocks of IPv4 addresses to values.
pub type Ipv4AddrBlockMap<T> = IpAddrBlockMap<u32, T>;

/// A map from blocks of IPv6 addresses to values.
pub type Ipv6AddrBlockMap<T> = IpAddrBlockMap<u128, T>;

/// The error returned when a block would start after it ends.
#[derive(Clone, Copy, Debug, Hash, PartialEq, Eq)]
pub struct EmptyBlockError;

impl EmptyBlockError {
    /// A human-readable description of the error.
    pub fn message(&self) -> (r: String)
        ensures
            r@ == "the given range is empty or overlapping"@,
    {
        String::from_str("the given range is empty or overlapping")
    }
}

/// An inclusive block of addresses, `start ..= end`.
#[derive(Clone, Copy, Debug, Hash, PartialEq, Eq, PartialOrd, Ord)]
pub struct IpAddrBlock<A: Address>(A, A);

/// The order of blocks: by start, then by end.
pub open spec fn key_lt(a: (int, int), b: (int, int)) -> bool {
    a.0 < b.0 || (a.0 == b.0 && a.1 < b.1)
}

/// `a` comes before `b` or is the same span.
pub open spec fn key_le(a: (int, int), b: (int, int)) -> bool {
    key_lt(a, b) || a == b
}

impl<A: Address> View for IpAddrBlock<A> {
    type V = (int, int);

    /// The numeric values of the start and the end.
    closed spec fn view(&self) -> (int, int) {
        (self.0.spec_bits(), self.1.spec_bits())
    }
}

impl<A: Address> IpAddrBlock<A> {
    /// The start address.
    pub closed spec fn spec_start(&self) -> A {
        self.0
    }

    /// The end address.
    pub closed spec fn spec_end(&self) -> A {
        self.1
    }

    /// The block starts no later than it ends.
    pub open spec fn wf(&self) -> bool {
        self@.0 <= self@.1
    }

    /// The block covers the address `a`.
    pub open spec fn covers(&self, a: int) -> bool {
        self@.0 <= a <= self@.1
    }

    /// Creates a block from two addresses that the caller knows to be in order.
    pub fn new(start: A, end: A) -> (r: Self)
        requires
            start.spec_bits() <= end.spec_bits(),
        ensures
            r.spec_start() == start,
            r.spec_end() == end,
            r@ == (start.spec_bits(), end.spec_bits()),
            r.wf(),
    {
        IpAddrBlock(start, end)
    }

    /// Creates a block, or fails when `start` comes after `end`.
    pub fn try_new(start: A, end: A) -> (r: Result<Self, EmptyBlockError>)
        ensures
            r is Ok <==> start.spec_bits() <= end.spec_bits(),
            r matches Ok(b) ==> b.spec_start() == start && b.spec_end() == end && b@ == (
            start.spec_bits(),
            end.spec_bits(),
            ) && b.wf(),
    {
        if start.bits() <= end.bits() {
            Ok(IpAddrBlock(start, end))
        } else {
            Err(EmptyBlockError)
        }
    }

    /// Creates the block that holds the single address `a`.
    pub fn from_address(a: A) -> (r: Self)
        ensures
            r.spec_start() == a,
            r.spec_end() == a,
            r@ == (a.spec_bits(), a.spec_bits()),
            r.wf(),
    {
        IpAddrBlock(a, a)
    }

    /// Returns the start address.
    pub fn start(&self) -> (r: A)
        ensures
            r == self.spec_start(),
            r.spec_bits() == self@.0,
    {
        self.0
    }

    /// Returns the end address.
    pub fn end(&self) -> (r: A)
        ensures
            r == self.spec_end(),
            r.spec_bits() == self@.1,
    {
        self.1
    }

    /// Returns the two ends as a pair.
    pub fn range(&self) -> (r: (A, A))
        ensures
            r == (self.spec_start(), self.spec_end()),
    {
        (self.0, self.1)
    }

    /// Returns whether the block covers `address`.
    pub fn contains(&self, address: A) -> (r: bool)
        ensures
            r == self.covers(address.spec_bits()),
    {
        self.0.bits() <= address.bits() && address.bits() <= self.1.bits()
    }

    /// Compares a single address with the block: `Less` when the address lies
    /// below the block's start, `Greater` when it lies above the block's end,
    /// and `Equal` when the block covers it.
    pub fn compare_to_point(&self, address: A) -> (r: Ordering)
        requires
            self.wf(),
        ensures
            (r == Ordering::Equal) <==> self.covers(address.spec_bits()),
            (r == Ordering::Less) <==> address.spec_bits() < self@.0,
            (r == Ordering::Greater) <==> self@.1 < address.spec_bits(),
    {
        let a = address.bits();
        if a < self.0.bits() {
            Ordering::Less
        } else if self.1.bits() < a {
            Ordering::Greater
        } else {
            Ordering::Equal
        }
    }

    /// Compares two blocks: by start, then by end.
    pub fn compare(&self, other: &Self) -> (r: Ordering)
        ensures
            (r == Ordering::Less) <==> key_lt(self@, other@),
            (r == Ordering::Equal) <==> self@ == other@,
            (r == Ordering::Greater) <==> key_lt(other@, self@),
    {
        let (s0, s1) = (self.0.bits(), self.1.bits());
        let (o0, o1) = (other.0.bits(), other.1.bits());
        if s0 < o0 || (s0 == o0 && s1 < o1) {
            Ordering::Less
        } else if s0 == o0 && s1 == o1 {
            Ordering::Equal
        } else {
            Ordering::Greater
        }
    }
}


/// Entries ordered strictly by their blocks: sorted, and no span twice.
pub open spec fn sorted_strict<A: Address, T>(s: Seq<(IpAddrBlock<A>, T)>) -> bool {
    forall|i: int, j: int| 0 <= i < j < s.len() ==> key_lt(#[trigger] s[i].0@, #[trigger] s[j].0@)
}

/// Every block of the entries starts no later than it ends.
pub open spec fn all_wf<A: Address, T>(s: Seq<(IpAddrBlock<A>, T)>) -> bool {
    forall|i: int| 0 <= i < s.len() ==> (#[trigger] s[i]).0.wf()
}

/// No address is covered by the blocks of two different entries.
pub open spec fn disjoint<A: Address, T>(s: Seq<(IpAddrBlock<A>, T)>) -> bool {
    forall|i: int, j: int|
        0 <= i < s.len() && 0 <= j < s.len() && i != j ==> #[trigger] s[i].0@.1 < #[trigger] s[j].0@.0
            || s[j].0@.1 < s[i].0@.0
}

/// Some entry's block covers the address `a`.
pub open spec fn covered<A: Address, T>(s: Seq<(IpAddrBlock<A>, T)>, a: int) -> bool {
    exists|i: int| 0 <= i < s.len() && (#[trigger] s[i]).0.covers(a)
}

/// Some entry's block is the span `k`.
pub open spec fn has_key<A: Address, T>(s: Seq<(IpAddrBlock<A>, T)>, k: (int, int)) -> bool {
    exists|i: int| 0 <= i < s.len() && (#[trigger] s[i]).0@ == k
}

/// The value stored for the span `k`, if an entry has it.
pub open spec fn lookup_block<A: Address, T>(s: Seq<(IpAddrBlock<A>, T)>, k: (int, int)) -> Option<T> {
    if has_key(s, k) {
        Some(s[choose|i: int| 0 <= i < s.len() && (#[trigger] s[i]).0@ == k].1)
    } else {
        None
    }
}

/// The value stored for the block that covers the address `a`, if one does.
pub open spec fn lookup_address<A: Address, T>(s: Seq<(IpAddrBlock<A>, T)>, a: int) -> Option<T> {
    if covered(s, a) {
        Some(s[choose|i: int| 0 <= i < s.len() && (#[trigger] s[i]).0.covers(a)].1)
    } else {
        None
    }
}

/// The number of leading entries whose blocks come before the span `k`: in
/// sorted entries, the place where `k` stands or would stand.
pub open spec fn lower_bound<A: Address, T>(s: Seq<(IpAddrBlock<A>, T)>, k: (int, int)) -> nat
    decreases s.len(),
{
    if s.len() == 0 {
        0
    } else if key_lt(s[0].0@, k) {
        1 + lower_bound(s.drop_first(), k)
    } else {
        0
    }
}

/// The entries after a sorted insertion of `(b, v)`: the entry with `b`'s span
/// is replaced, or the new entry is put in its place in the order.
pub open spec fn insert_entry<A: Address, T>(s: Seq<(IpAddrBlock<A>, T)>, b: IpAddrBlock<A>, v: T) -> Seq<
    (IpAddrBlock<A>, T),
> {
    let i = lower_bound(s, b@) as int;
    if i < s.len() && s[i].0@ == b@ {
        s.update(i, (b, v))
    } else {
        s.insert(i, (b, v))
    }
}

/// The entries after an ordered removal of the span `k`.
pub open spec fn remove_entry<A: Address, T>(s: Seq<(IpAddrBlock<A>, T)>, k: (int, int)) -> Seq<
    (IpAddrBlock<A>, T),
> {
    let i = lower_bound(s, k) as int;
    if i < s.len() && s[i].0@ == k {
        s.remove(i)
    } else {
        s
    }
}

/// The entries after an unordered removal at `i`: the last entry takes its place.
pub open spec fn swap_out<A: Address, T>(s: Seq<(IpAddrBlock<A>, T)>, i: int) -> Seq<(IpAddrBlock<A>, T)> {
    s.update(i, s.last()).drop_last()
}

/// `n` is what normalizing `s` may give: sorted with no span twice, made of
/// entries of `s`, and holding every span of `s`.
pub open spec fn normalized_from<A: Address, T>(s: Seq<(IpAddrBlock<A>, T)>, n: Seq<(IpAddrBlock<A>, T)>) -> bool {
    &&& sorted_strict(n)
    &&& forall|j: int| 0 <= j < n.len() ==> s.contains(#[trigger] n[j])
    &&& forall|i: int| 0 <= i < s.len() ==> has_key(n, (#[trigger] s[i]).0@)
}

/// In sorted entries, a position before which every block comes before `k`
/// and from which none does is the lower bound of `k`.
proof fn lemma_lower_bound<A: Address, T>(s: Seq<(IpAddrBlock<A>, T)>, k: (int, int), i: int)
    requires
        0 <= i <= s.len(),
        forall|j: int| 0 <= j < i ==> key_lt((#[trigger] s[j]).0@, k),
        i < s.len() ==> !key_lt(s[i].0@, k),
    ensures
        lower_bound(s, k) == i,
    decreases s.len(),
{
    if s.len() > 0 && i > 0 {
        assert(key_lt(s[0].0@, k));
        let t = s.drop_first();
        assert forall|j: int| 0 <= j < i - 1 implies key_lt((#[trigger] t[j]).0@, k) by {
            assert(t[j] == s[j + 1]);
        }
        lemma_lower_bound(t, k, i - 1);
    }
}

/// In disjoint entries, an entry that covers `a` is the one that
/// [`lookup_address`] picks.
pub(crate) proof fn lemma_single_cover<A: Address, T>(s: Seq<(IpAddrBlock<A>, T)>, a: int, i: int)
    requires
        0 <= i < s.len(),
        s[i].0.covers(a),
    ensures
        covered(s, a),
        disjoint(s) ==> lookup_address(s, a) == Some(s[i].1),
{
    assert(covered(s, a));
    if disjoint(s) {
        let j = choose|j: int| 0 <= j < s.len() && (#[trigger] s[j]).0.covers(a);
        if i != j {
            assert(s[i].0@.1 < s[j].0@.0 || s[j].0@.1 < s[i].0@.0);
        }
    }
}

/// In strictly sorted entries, an entry with the span `k` is the one that
/// [`lookup_block`] picks.
proof fn lemma_single_key<A: Address, T>(s: Seq<(IpAddrBlock<A>, T)>, k: (int, int), i: int)
    requires
        sorted_strict(s),
        0 <= i < s.len(),
        s[i].0@ == k,
    ensures
        has_key(s, k),
        lookup_block(s, k) == Some(s[i].1),
{
    assert(has_key(s, k));
    let j = choose|j: int| 0 <= j < s.len() && (#[trigger] s[j]).0@ == k;
    if i < j {
        assert(key_lt(s[i].0@, s[j].0@));
    } else if j < i {
        assert(key_lt(s[j].0@, s[i].0@));
    }
}

/// Relies on `slice::sort_unstable_by_key`: the entries end up ordered by
/// the key `(start, end)` of their blocks, as a permutation of what they were.
#[verifier::external_body]
fn sort_entries<A: Address, T>(v: &mut Vec<(IpAddrBlock<A>, T)>)
    ensures
        final(v)@.to_multiset() == old(v)@.to_multiset(),
        forall|i: int, j: int|
            0 <= i < j < final(v)@.len() ==> key_le(#[trigger] final(v)@[i].0@, #[trigger] final(v)@[j].0@),
{
    v.sort_unstable_by_key(|e| (e.0.0.bits(), e.0.1.bits()));
}

/// Relies on `Vec::shrink_to_fit`: it releases spare capacity and keeps the
/// elements.
#[verifier::external_body]
fn shrink_entries<A: Address, T>(v: &mut Vec<(IpAddrBlock<A>, T)>)
    ensures
        final(v)@ == old(v)@,
{
    v.shrink_to_fit();
}

/// Keeps the first entry of each run of entries with the same span.
fn dedup_sorted<A: Address, T>(v: &mut Vec<(IpAddrBlock<A>, T)>)
    requires
        forall|i: int, j: int|
            0 <= i < j < old(v)@.len() ==> key_le(#[trigger] old(v)@[i].0@, #[trigger] old(v)@[j].0@),
    ensures
        normalized_from(old(v)@, final(v)@),
{
    let ghost s0 = v@;
    let mut rev: Vec<(IpAddrBlock<A>, T)> = Vec::new();
    while v.len() > 0
        invariant
            v@ == s0.take(v@.len() as int),
            v@.len() <= s0.len(),
            forall|i: int, j: int| 0 <= i < j < s0.len() ==> key_le(#[trigger] s0[i].0@, #[trigger] s0[j].0@),
            forall|i: int, j: int| 0 <= i < j < rev@.len() ==> key_lt(#[trigger] rev@[j].0@, #[trigger] rev@[i].0@),
            forall|j: int| 0 <= j < rev@.len() ==> s0.contains(#[trigger] rev@[j]),
            forall|i: int| v@.len() <= i < s0.len() ==> has_key(rev@, (#[trigger] s0[i]).0@),
            rev@.len() == 0 <==> v@.len() == s0.len(),
            rev@.len() > 0 ==> rev@.last().0@ == s0[v@.len() as int].0@,
        decreases v@.len(),
    {
        let ghost n = v@.len() as int;
        let ghost r0 = rev@;
        let e = v.pop().unwrap();
        assert(e == s0[n - 1]);
        let same = rev.len() > 0 && matches!(rev[rev.len() - 1].0.compare(&e.0), Ordering::Equal);
        if same {
            rev.pop();
        } else if rev.len() > 0 {
            assert(key_lt(e.0@, r0.last().0@));
        }
        rev.push(e);
        proof {
            let r1 = rev@;
            assert(r1.last() == e);
            assert forall|i: int, j: int| 0 <= i < j < r1.len() implies key_lt(
                #[trigger] r1[j].0@,
                #[trigger] r1[i].0@,
            ) by {
                if j == r1.len() - 1 && !same {
                    assert(key_lt(r0[j - 1].0@, r0[i].0@) || i == j - 1);
                }
                if j < r1.len() - 1 {
                    assert(r1[i] == r0[i] && r1[j] == r0[j]);
                }
                if j == r1.len() - 1 && same && i < j {
                    assert(key_lt(r0[j].0@, r0[i].0@));
                }
            }
            assert forall|j: int| 0 <= j < r1.len() implies s0.contains(#[trigger] r1[j]) by {
                if j < r1.len() - 1 {
                    assert(r1[j] == r0[j]);
                }
            }
            assert forall|i: int| n - 1 <= i < s0.len() implies has_key(r1, (#[trigger] s0[i]).0@) by {
                if i == n - 1 {
                    assert(r1[r1.len() - 1].0@ == s0[i].0@);
                } else {
                    let k = choose|k: int| 0 <= k < r0.len() && (#[trigger] r0[k]).0@ == s0[i].0@;
                    if k < r1.len() - 1 {
                        assert(r1[k] == r0[k]);
                    } else {
                        assert(r1[r1.len() - 1].0@ == s0[i].0@);
                    }
                }
            }
            assert(v@ =~= s0.take(n - 1));
        }
    }
    let ghost r = rev@;
    let ghost m = r.len() as int;
    while rev.len() > 0
        invariant
            rev@ == r.take(rev@.len() as int),
            v@.len() + rev@.len() == m,
            m == r.len(),
            forall|i: int| 0 <= i < v@.len() ==> #[trigger] v@[i] == r[m - 1 - i],
        decreases rev@.len(),
    {
        let e = rev.pop().unwrap();
        v.push(e);
        proof {
            assert(rev@ =~= r.take(rev@.len() as int));
        }
    }
    proof {
        let s1 = v@;
        assert forall|i: int, j: int| 0 <= i < j < s1.len() implies key_lt(
            #[trigger] s1[i].0@,
            #[trigger] s1[j].0@,
        ) by {
            assert(s1[i] == r[m - 1 - i] && s1[j] == r[m - 1 - j]);
        }
        assert forall|j: int| 0 <= j < s1.len() implies s0.contains(#[trigger] s1[j]) by {
            assert(s1[j] == r[m - 1 - j]);
        }
        assert forall|i: int| 0 <= i < s0.len() implies has_key(s1, (#[trigger] s0[i]).0@) by {
            let k = choose|k: int| 0 <= k < r.len() && (#[trigger] r[k]).0@ == s0[i].0@;
            assert(s1[m - 1 - k] == r[k]);
        }
    }
}

/// A sorted insertion keeps well-formed entries strictly sorted.
pub(crate) proof fn lemma_insert_entry_sorted<A: Address, T>(s: Seq<(IpAddrBlock<A>, T)>, b: IpAddrBlock<A>, v: T)
    requires
        sorted_strict(s),
        all_wf(s),
        b.wf(),
    ensures
        sorted_strict(insert_entry(s, b, v)),
        all_wf(insert_entry(s, b, v)),
{
    let i = lower_bound(s, b@) as int;
    lemma_lower_bound_bounds(s, b@);
    let n = insert_entry(s, b, v);
    if i < s.len() && s[i].0@ == b@ {
        assert forall|p: int, q: int| 0 <= p < q < n.len() implies key_lt(
            #[trigger] n[p].0@,
            #[trigger] n[q].0@,
        ) by {
            assert(key_lt(s[p].0@, s[q].0@));
        }
    } else {
        assert forall|p: int, q: int| 0 <= p < q < n.len() implies key_lt(
            #[trigger] n[p].0@,
            #[trigger] n[q].0@,
        ) by {
            if q < i {
                assert(key_lt(s[p].0@, s[q].0@));
            } else if p > i {
                assert(key_lt(s[p - 1].0@, s[q - 1].0@));
            } else if p == i {
                assert(!key_lt(s[q - 1].0@, b@));
            } else {
                assert(key_lt(s[p].0@, b@));
                if q > i {
                    assert(!key_lt(s[q - 1].0@, b@));
                }
            }
        }
    }
    assert forall|p: int| 0 <= p < n.len() implies (#[trigger] n[p]).0.wf() by {
        if i < s.len() && s[i].0@ == b@ {
            if p != i {
                assert(n[p] == s[p]);
            }
        } else if p < i {
            assert(n[p] == s[p]);
        } else if p > i {
            assert(n[p] == s[p - 1]);
        }
    }
}

/// The lower bound of `k` in strictly sorted entries splits them: entries
/// before it come before `k`, and entries from it on do not.
pub(crate) proof fn lemma_lower_bound_bounds<A: Address, T>(s: Seq<(IpAddrBlock<A>, T)>, k: (int, int))
    requires
        sorted_strict(s),
    ensures
        lower_bound(s, k) <= s.len(),
        forall|j: int| 0 <= j < lower_bound(s, k) ==> key_lt((#[trigger] s[j]).0@, k),
        forall|j: int| lower_bound(s, k) <= j < s.len() ==> !key_lt((#[trigger] s[j]).0@, k),
    decreases s.len(),
{
    if s.len() > 0 {
        let t = s.drop_first();
        assert forall|p: int, q: int| 0 <= p < q < t.len() implies key_lt(
            #[trigger] t[p].0@,
            #[trigger] t[q].0@,
        ) by {
            assert(key_lt(s[p + 1].0@, s[q + 1].0@));
        }
        lemma_lower_bound_bounds(t, k);
        if key_lt(s[0].0@, k) {
            assert forall|j: int| 0 <= j < lower_bound(s, k) implies key_lt((#[trigger] s[j]).0@, k) by {
                if j > 0 {
                    assert(s[j] == t[j - 1]);
                }
            }
            assert forall|j: int| lower_bound(s, k) <= j < s.len() implies !key_lt(
                (#[trigger] s[j]).0@,
                k,
            ) by {
                assert(s[j] == t[j - 1]);
            }
        } else {
            assert forall|j: int| 0 <= j < s.len() implies !key_lt((#[trigger] s[j]).0@, k) by {
                if j > 0 {
                    assert(key_lt(s[0].0@, s[j].0@));
                }
            }
        }
    }
}

/// An ordered removal keeps well-formed entries strictly sorted.
proof fn lemma_remove_entry_sorted<A: Address, T>(s: Seq<(IpAddrBlock<A>, T)>, k: (int, int))
    requires
        sorted_strict(s),
        all_wf(s),
    ensures
        sorted_strict(remove_entry(s, k)),
        all_wf(remove_entry(s, k)),
{
    let i = lower_bound(s, k) as int;
    let n = remove_entry(s, k);
    if i < s.len() && s[i].0@ == k {
        assert forall|p: int, q: int| 0 <= p < q < n.len() implies key_lt(
            #[trigger] n[p].0@,
            #[trigger] n[q].0@,
        ) by {
            let pp = if p < i { p } else { p + 1 };
            let qq = if q < i { q } else { q + 1 };
            assert(n[p] == s[pp] && n[q] == s[qq]);
            assert(key_lt(s[pp].0@, s[qq].0@));
        }
        assert forall|p: int| 0 <= p < n.len() implies (#[trigger] n[p]).0.wf() by {
            if p < i {
                assert(n[p] == s[p]);
            } else {
                assert(n[p] == s[p + 1]);
            }
        }
    }
}

/// A sorted map from address blocks to values.
///
/// Entries are added either one at a time in order ([`IpAddrBlockMap::insert`])
/// or appended in bulk ([`IpAddrBlockMap::insert_unstable`]) and put in order
/// once by [`IpAddrBlockMap::normalize`]. While appended entries wait for that,
/// the map is pending, and no query may be made. When blocks of different
/// entries overlap, a query for an address in the overlap finds one of them, or
/// none: see [`IpAddrBlockMap::get_from_address`].
#[derive(Clone, Debug, Hash, PartialEq, Eq)]
pub struct IpAddrBlockMap<A: Address, T> {
    inner: Vec<(IpAddrBlock<A>, T)>,
    dirty: bool,
}

impl<A: Address, T> Default for IpAddrBlockMap<A, T> {
    /// An empty map.
    fn default() -> (r: Self)
        ensures
            r.entries() == Seq::<(IpAddrBlock<A>, T)>::empty(),
            !r.is_pending(),
    {
        IpAddrBlockMap::new()
    }
}

impl<A: Address, T> IpAddrBlockMap<A, T> {
    /// The entries, in the order in which they are stored.
    pub closed spec fn entries(&self) -> Seq<(IpAddrBlock<A>, T)> {
        self.inner@
    }

    /// Entries were appended without being put in order.
    pub closed spec fn is_pending(&self) -> bool {
        self.dirty
    }

    /// Every block is well formed, and the entries are in strict order unless
    /// the map is pending.
    pub open spec fn wf(&self) -> bool {
        &&& all_wf(self.entries())
        &&& !self.is_pending() ==> sorted_strict(self.entries())
    }

    /// Creates an empty map.
    pub fn new() -> (r: Self)
        ensures
            r.entries() == Seq::<(IpAddrBlock<A>, T)>::empty(),
            !r.is_pending(),
            r.wf(),
    {
        IpAddrBlockMap { inner: Vec::new(), dirty: false }
    }

    /// Creates an empty map with room for `capacity` entries.
    pub fn with_capacity(capacity: usize) -> (r: Self)
        ensures
            r.entries() == Seq::<(IpAddrBlock<A>, T)>::empty(),
            !r.is_pending(),
            r.wf(),
    {
        IpAddrBlockMap { inner: Vec::with_capacity(capacity), dirty: false }
    }

    /// Returns whether the map is in order and may be queried.
    pub fn is_normalized(&self) -> (r: bool)
        ensures
            r == !self.is_pending(),
    {
        !self.dirty
    }

    /// Returns the number of entries.
    pub fn len(&self) -> (r: usize)
        ensures
            r == self.entries().len(),
    {
        self.inner.len()
    }

    /// Returns whether the map has no entries.
    pub fn is_empty(&self) -> (r: bool)
        ensures
            r == (self.entries().len() == 0),
    {
        self.inner.len() == 0
    }

    /// Returns whether some entry's block covers `address`. When blocks
    /// overlap, a covered address may be reported as not covered.
    pub fn contains_address(&self, address: A) -> (r: bool)
        requires
            self.wf(),
            !self.is_pending(),
        ensures
            r ==> covered(self.entries(), address.spec_bits()),
            disjoint(self.entries()) ==> (r <==> covered(self.entries(), address.spec_bits())),
    {
        self.search_address(address).is_some()
    }

    /// Returns whether an entry has exactly `block`'s span.
    pub fn contains_block(&self, block: IpAddrBlock<A>) -> (r: bool)
        requires
            self.wf(),
            !self.is_pending(),
        ensures
            r == has_key(self.entries(), block@),
    {
        self.search_block(&block).is_ok()
    }

    /// Returns the value of an entry whose block covers `address`.
    ///
    /// When no two blocks overlap this is the value of the one block that
    /// covers the address. When blocks overlap, an address in the overlap gets
    /// the value of whichever covering entry the binary search meets first, or
    /// none.
    pub fn get_from_address(&self, address: A) -> (r: Option<&T>)
        requires
            self.wf(),
            !self.is_pending(),
        ensures
            r matches Some(v) ==> exists|i: int|
                0 <= i < self.entries().len() && (#[trigger] self.entries()[i]).0.covers(address.spec_bits())
                    && *v == self.entries()[i].1,
            disjoint(self.entries()) ==> match r {
                Some(v) => lookup_address(self.entries(), address.spec_bits()) == Some(*v),
                None => lookup_address(self.entries(), address.spec_bits()) is None,
            },
    {
        match self.search_address(address) {
            Some(i) => {
                proof {
                    lemma_single_cover(self.inner@, address.spec_bits(), i as int);
                }
                Some(&self.inner[i].1)
            },
            None => None,
        }
    }

    /// Returns a mutable reference to the value of an entry whose block covers
    /// `address`, chosen as [`IpAddrBlockMap::get_from_address`] chooses.
    pub fn get_from_address_mut(&mut self, address: A) -> (r: Option<&mut T>)
        requires
            old(self).wf(),
            !old(self).is_pending(),
        ensures
            match r {
                Some(v) => exists|i: int|
                    0 <= i < old(self).entries().len() && (#[trigger] old(self).entries()[i]).0.covers(
                        address.spec_bits(),
                    ) && *v == old(self).entries()[i].1 && final(self).entries() == old(
                        self,
                    ).entries().update(i, (old(self).entries()[i].0, *final(v)))
                        && (disjoint(old(self).entries()) ==> lookup_address(
                        old(self).entries(),
                        address.spec_bits(),
                    ) == Some(*v)),
                None => *final(self) == *old(self) && (disjoint(old(self).entries()) ==> !covered(
                    old(self).entries(),
                    address.spec_bits(),
                )),
            },
            final(self).is_pending() == old(self).is_pending(),
    {
        match self.search_address(address) {
            Some(i) => {
                proof {
                    lemma_single_cover(self.inner@, address.spec_bits(), i as int);
                }
                Some(&mut self.inner[i].1)
            },
            None => None,
        }
    }

    /// Returns the value of the entry with exactly `block`'s span.
    pub fn get_from_block(&self, block: IpAddrBlock<A>) -> (r: Option<&T>)
        requires
            self.wf(),
            !self.is_pending(),
        ensures
            match r {
                Some(v) => lookup_block(self.entries(), block@) == Some(*v),
                None => lookup_block(self.entries(), block@) is None,
            },
    {
        match self.search_block(&block) {
            Ok(i) => {
                proof {
                    lemma_single_key(self.inner@, block@, i as int);
                }
                Some(&self.inner[i].1)
            },
            Err(_) => None,
        }
    }

    /// Returns a mutable reference to the value of the entry with exactly
    /// `block`'s span.
    pub fn get_from_block_mut(&mut self, block: IpAddrBlock<A>) -> (r: Option<&mut T>)
        requires
            old(self).wf(),
            !old(self).is_pending(),
        ensures
            match r {
                Some(v) => lookup_block(old(self).entries(), block@) == Some(*v) && final(self).entries()
                    == old(self).entries().update(
                    lower_bound(old(self).entries(), block@) as int,
                    (old(self).entries()[lower_bound(old(self).entries(), block@) as int].0, *final(v)),
                ),
                None => *final(self) == *old(self) && lookup_block(old(self).entries(), block@) is None,
            },
            final(self).is_pending() == old(self).is_pending(),
    {
        match self.search_block(&block) {
            Ok(i) => {
                proof {
                    lemma_single_key(self.inner@, block@, i as int);
                }
                Some(&mut self.inner[i].1)
            },
            Err(_) => None,
        }
    }

    /// Puts the entries in order and keeps one entry for each span: of
    /// entries with the same span, the one that the sort places first stays.
    /// Afterwards the map is not pending. A map that is not pending is already
    /// in that form and keeps its entries.
    pub fn normalize(&mut self)
        requires
            old(self).wf(),
        ensures
            final(self).wf(),
            !final(self).is_pending(),
            normalized_from(old(self).entries(), final(self).entries()),
            !old(self).is_pending() ==> final(self).entries() == old(self).entries(),
    {
        if self.dirty {
            let ghost s0 = self.inner@;
            sort_entries(&mut self.inner);
            proof {
                broadcast use vstd::seq_lib::group_to_multiset_ensures;

                assert forall|x: (IpAddrBlock<A>, T)| self.inner@.contains(x) <==> s0.contains(x) by {
                    assert(self.inner@.contains(x) <==> self.inner@.to_multiset().count(x) > 0);
                    assert(s0.contains(x) <==> s0.to_multiset().count(x) > 0);
                }
            }
            let ghost ss = self.inner@;
            dedup_sorted(&mut self.inner);
            proof {
                let s1 = self.inner@;
                assert forall|i: int| 0 <= i < s1.len() implies s0.contains(#[trigger] s1[i]) by {
                    assert(ss.contains(s1[i]));
                }
                assert forall|i: int| 0 <= i < s1.len() implies (#[trigger] s1[i]).0.wf() by {
                    assert(s0.contains(s1[i]));
                    let j = choose|j: int| 0 <= j < s0.len() && s0[j] == s1[i];
                }
                assert forall|i: int| 0 <= i < s0.len() implies has_key(s1, (#[trigger] s0[i]).0@) by {
                    assert(s0.contains(s0[i]));
                    assert(ss.contains(s0[i]));
                    let k = choose|k: int| 0 <= k < ss.len() && ss[k] == s0[i];
                    assert(has_key(s1, ss[k].0@));
                }
            }
            self.dirty = false;
        }
        shrink_entries(&mut self.inner);
        proof {
            if !old(self).is_pending() {
                assert forall|j: int| 0 <= j < self.inner@.len() implies old(self).entries().contains(
                    #[trigger] self.inner@[j],
                ) by {}
                assert forall|i: int| 0 <= i < self.inner@.len() implies has_key(
                    self.inner@,
                    (#[trigger] self.inner@[i]).0@,
                ) by {}
            }
        }
    }

    /// Appends an entry without putting the map in order, and marks the map
    /// pending. Only when the map was not pending can an entry with the same
    /// span be found: it is then taken out, the last entry taking its place,
    /// and its value is returned. On a pending map nothing is returned, and
    /// [`IpAddrBlockMap::normalize`] later keeps one entry of each span.
    pub fn insert_unstable(&mut self, block: IpAddrBlock<A>, value: T) -> (r: Option<T>)
        requires
            old(self).wf(),
            block.wf(),
        ensures
            final(self).wf(),
            final(self).is_pending(),
            !old(self).is_pending() && has_key(old(self).entries(), block@) ==> r == lookup_block(
                old(self).entries(),
                block@,
            ) && final(self).entries() == swap_out(
                old(self).entries(),
                lower_bound(old(self).entries(), block@) as int,
            ).push((block, value)),
            old(self).is_pending() || !has_key(old(self).entries(), block@) ==> r is None
                && final(self).entries() == old(self).entries().push((block, value)),
    {
        let mut previous: Option<T> = None;
        if !self.dirty {
            match self.search_block(&block) {
                Ok(i) => {
                    proof {
                        lemma_single_key(self.inner@, block@, i as int);
                    }
                    let e = self.inner.swap_remove(i);
                    previous = Some(e.1);
                },
                Err(_) => {},
            }
        }
        self.inner.push((block, value));
        self.dirty = true;
        previous
    }

    /// Removes the entry with exactly `block`'s span without keeping the
    /// order: the last entry takes its place. Since that breaks the order, the
    /// map is then marked pending, and it must be normalized before the next
    /// query.
    pub fn remove_unstable(&mut self, block: IpAddrBlock<A>) -> (r: Option<T>)
        requires
            old(self).wf(),
            !old(self).is_pending(),
        ensures
            final(self).wf(),
            has_key(old(self).entries(), block@) ==> r == lookup_block(old(self).entries(), block@)
                && final(self).entries() == swap_out(
                old(self).entries(),
                lower_bound(old(self).entries(), block@) as int,
            ) && final(self).is_pending(),
            !has_key(old(self).entries(), block@) ==> r is None && *final(self) == *old(self),
    {
        match self.search_block(&block) {
            Ok(i) => {
                proof {
                    lemma_single_key(self.inner@, block@, i as int);
                }
                let e = self.inner.swap_remove(i);
                self.dirty = true;
                proof {
                    let s = self.inner@;
                    let o = old(self).entries();
                    assert forall|j: int| 0 <= j < s.len() implies (#[trigger] s[j]).0.wf() by {
                        if j == i {
                            assert(s[j] == o[o.len() - 1]);
                        } else {
                            assert(s[j] == o[j]);
                        }
                    }
                }
                Some(e.1)
            },
            Err(_) => None,
        }
    }

    /// Puts an entry in its place in the order, normalizing the map first if it
    /// is pending. An entry with the same span is replaced, and its value is
    /// returned.
    pub fn insert(&mut self, block: IpAddrBlock<A>, value: T) -> (r: Option<T>)
        requires
            old(self).wf(),
            block.wf(),
        ensures
            final(self).wf(),
            !final(self).is_pending(),
            exists|m: Seq<(IpAddrBlock<A>, T)>|
                #[trigger] normalized_from(old(self).entries(), m) && (!old(self).is_pending() ==> m
                    == old(self).entries()) && final(self).entries() == insert_entry(m, block, value) && r
                    == lookup_block(m, block@),
            !old(self).is_pending() ==> final(self).entries() == insert_entry(
                old(self).entries(),
                block,
                value,
            ) && r == lookup_block(old(self).entries(), block@),
    {
        if self.dirty {
            self.normalize();
        } else {
            proof {
                assert forall|i: int| 0 <= i < self.inner@.len() implies has_key(
                    self.inner@,
                    (#[trigger] self.inner@[i]).0@,
                ) by {}
            }
        }
        let ghost m = self.inner@;
        assert(normalized_from(old(self).entries(), m));
        match self.search_block(&block) {
            Ok(i) => {
                proof {
                    lemma_single_key(m, block@, i as int);
                }
                self.inner.push((block, value));
                let e = self.inner.swap_remove(i);
                proof {
                    assert(self.inner@ =~= m.update(i as int, (block, value)));
                    lemma_insert_entry_sorted(m, block, value);
                }
                Some(e.1)
            },
            Err(i) => {
                self.inner.insert(i, (block, value));
                proof {
                    lemma_insert_entry_sorted(m, block, value);
                }
                None
            },
        }
    }

    /// Removes the entry with exactly `block`'s span, keeping the order, and
    /// returns its value. A pending map is normalized first.
    pub fn remove(&mut self, block: IpAddrBlock<A>) -> (r: Option<T>)
        requires
            old(self).wf(),
        ensures
            final(self).wf(),
            !final(self).is_pending(),
            exists|m: Seq<(IpAddrBlock<A>, T)>|
                #[trigger] normalized_from(old(self).entries(), m) && (!old(self).is_pending() ==> m
                    == old(self).entries()) && final(self).entries() == remove_entry(m, block@) && r
                    == lookup_block(m, block@),
            !old(self).is_pending() ==> final(self).entries() == remove_entry(old(self).entries(), block@)
                && r == lookup_block(old(self).entries(), block@),
    {
        if self.dirty {
            self.normalize();
        } else {
            proof {
                assert forall|i: int| 0 <= i < self.inner@.len() implies has_key(
                    self.inner@,
                    (#[trigger] self.inner@[i]).0@,
                ) by {}
            }
        }
        let ghost m = self.inner@;
        assert(normalized_from(old(self).entries(), m));
        match self.search_block(&block) {
            Ok(i) => {
                proof {
                    lemma_single_key(m, block@, i as int);
                }
                let e = self.inner.remove(i);
                proof {
                    lemma_remove_entry_sorted(m, block@);
                }
                Some(e.1)
            },
            Err(_) => None,
        }
    }

    /// Removes every entry. The map is then not pending.
    pub fn clear(&mut self)
        ensures
            final(self).entries() == Seq::<(IpAddrBlock<A>, T)>::empty(),
            !final(self).is_pending(),
            final(self).wf(),
    {
        self.inner.clear();
        self.dirty = false;
    }

    /// Returns the blocks of the entries, in order.
    pub fn blocks(&self) -> (r: Vec<IpAddrBlock<A>>)
        requires
            !self.is_pending(),
        ensures
            r@.len() == self.entries().len(),
            forall|i: int| 0 <= i < r@.len() ==> #[trigger] r@[i] == self.entries()[i].0,
    {
        let mut r: Vec<IpAddrBlock<A>> = Vec::with_capacity(self.inner.len());
        let mut i: usize = 0;
        while i < self.inner.len()
            invariant
                i <= self.inner@.len(),
                r@.len() == i,
                forall|j: int| 0 <= j < i ==> #[trigger] r@[j] == self.inner@[j].0,
            decreases self.inner@.len() - i,
        {
            r.push(self.inner[i].0);
            i += 1;
        }
        r
    }

    /// Returns references to the values of the entries, in order.
    pub fn values(&self) -> (r: Vec<&T>)
        requires
            !self.is_pending(),
        ensures
            r@.len() == self.entries().len(),
            forall|i: int| 0 <= i < r@.len() ==> *(#[trigger] r@[i]) == self.entries()[i].1,
    {
        let mut r: Vec<&T> = Vec::with_capacity(self.inner.len());
        let mut i: usize = 0;
        while i < self.inner.len()
            invariant
                i <= self.inner@.len(),
                r@.len() == i,
                forall|j: int| 0 <= j < i ==> *(#[trigger] r@[j]) == self.inner@[j].1,
            decreases self.inner@.len() - i,
        {
            r.push(&self.inner[i].1);
            i += 1;
        }
        r
    }

    /// Returns references to the entries, in order.
    pub fn iter(&self) -> (r: Vec<(&IpAddrBlock<A>, &T)>)
        requires
            !self.is_pending(),
        ensures
            r@.len() == self.entries().len(),
            forall|i: int|
                0 <= i < r@.len() ==> *(#[trigger] r@[i]).0 == self.entries()[i].0 && *r@[i].1
                    == self.entries()[i].1,
    {
        let mut r: Vec<(&IpAddrBlock<A>, &T)> = Vec::with_capacity(self.inner.len());
        let mut i: usize = 0;
        while i < self.inner.len()
            invariant
                i <= self.inner@.len(),
                r@.len() == i,
                forall|j: int|
                    0 <= j < i ==> *(#[trigger] r@[j]).0 == self.inner@[j].0 && *r@[j].1
                        == self.inner@[j].1,
            decreases self.inner@.len() - i,
        {
            let e = &self.inner[i];
            r.push((&e.0, &e.1));
            i += 1;
        }
        r
    }

    /// Returns a mutable reference to the value of the entry at `index`, in
    /// order; the block stays as it is.
    pub fn value_at_mut(&mut self, index: usize) -> (r: &mut T)
        requires
            !old(self).is_pending(),
            index < old(self).entries().len(),
        ensures
            *r == old(self).entries()[index as int].1,
            final(self).entries() == old(self).entries().update(
                index as int,
                (old(self).entries()[index as int].0, *final(r)),
            ),
            final(self).is_pending() == old(self).is_pending(),
    {
        &mut self.inner[index].1
    }

    /// Hands out the entries, in order.
    pub fn into_entries(self) -> (r: Vec<(IpAddrBlock<A>, T)>)
        requires
            !self.is_pending(),
        ensures
            r@ == self.entries(),
    {
        self.inner
    }

    /// Builds a map from entries in any order, normalizing once at the end.
    pub fn from_entries(entries: Vec<(IpAddrBlock<A>, T)>) -> (r: Self)
        requires
            all_wf(entries@),
        ensures
            r.wf(),
            !r.is_pending(),
            normalized_from(entries@, r.entries()),
    {
        let mut map = IpAddrBlockMap { inner: entries, dirty: true };
        map.normalize();
        map
    }

    /// Appends entries in any order, then normalizes the map.
    pub fn extend(&mut self, entries: Vec<(IpAddrBlock<A>, T)>)
        requires
            old(self).wf(),
            all_wf(entries@),
        ensures
            final(self).wf(),
            !final(self).is_pending(),
            normalized_from(old(self).entries() + entries@, final(self).entries()),
    {
        let ghost added = entries@;
        let mut entries = entries;
        self.inner.append(&mut entries);
        self.dirty = true;
        proof {
            let s = self.inner@;
            assert forall|i: int| 0 <= i < s.len() implies (#[trigger] s[i]).0.wf() by {
                if i >= old(self).entries().len() {
                    assert(s[i] == added[i - old(self).entries().len()]);
                }
            }
        }
        self.normalize();
    }

    /// Binary search for an entry whose block covers `address`.
    fn search_address(&self, address: A) -> (r: Option<usize>)
        requires
            self.wf(),
            !self.is_pending(),
        ensures
            r matches Some(i) ==> i < self.entries().len() && self.entries()[i as int].0.covers(
                address.spec_bits(),
            ),
            r is None && disjoint(self.entries()) ==> !covered(self.entries(), address.spec_bits()),
    {
        let ghost s = self.inner@;
        let ghost a = address.spec_bits();
        let mut lo: usize = 0;
        let mut hi: usize = self.inner.len();
        while lo < hi
            invariant
                s == self.inner@,
                all_wf(s),
                sorted_strict(s),
                a == address.spec_bits(),
                lo <= hi <= s.len(),
                disjoint(s) ==> forall|j: int|
                    0 <= j < s.len() && (j < lo || hi <= j) ==> !(#[trigger] s[j]).0.covers(a),
            decreases hi - lo,
        {
            let mid = lo + (hi - lo) / 2;
            match self.inner[mid].0.compare_to_point(address) {
                Ordering::Equal => {
                    return Some(mid);
                },
                Ordering::Greater => {
                    assert(disjoint(s) ==> forall|j: int|
                        0 <= j <= mid ==> !(#[trigger] s[j]).0.covers(a)) by {
                        if disjoint(s) {
                            assert forall|j: int| 0 <= j <= mid implies !(#[trigger] s[j]).0.covers(a) by {
                                if j < mid {
                                    assert(key_lt(s[j].0@, s[mid as int].0@));
                                    assert(s[j].0.wf() && s[mid as int].0.wf());
                                }
                            }
                        }
                    }
                    lo = mid + 1;
                },
                Ordering::Less => {
                    assert forall|j: int| mid <= j < s.len() implies !(#[trigger] s[j]).0.covers(a) by {
                        if j > mid {
                            assert(key_lt(s[mid as int].0@, s[j].0@));
                        }
                    }
                    hi = mid;
                },
            }
        }
        None
    }

    /// Binary search for the entry whose block is `block`'s span: its index,
    /// or the index at which it would be inserted.
    fn search_block(&self, block: &IpAddrBlock<A>) -> (r: Result<usize, usize>)
        requires
            sorted_strict(self.entries()),
        ensures
            r matches Ok(i) ==> i < self.entries().len() && self.entries()[i as int].0@ == block@
                && lower_bound(self.entries(), block@) == i,
            r matches Err(i) ==> i <= self.entries().len() && !has_key(self.entries(), block@)
                && lower_bound(self.entries(), block@) == i && (forall|j: int|
                0 <= j < i ==> key_lt((#[trigger] self.entries()[j]).0@, block@)) && (forall|j: int|
                i <= j < self.entries().len() ==> key_lt(block@, (#[trigger] self.entries()[j]).0@)),
    {
        let ghost s = self.inner@;
        let ghost k = block@;
        let mut lo: usize = 0;
        let mut hi: usize = self.inner.len();
        while lo < hi
            invariant
                s == self.inner@,
                sorted_strict(s),
                k == block@,
                lo <= hi <= s.len(),
                forall|j: int| 0 <= j < lo ==> key_lt((#[trigger] s[j]).0@, k),
                forall|j: int| hi <= j < s.len() ==> key_lt(k, (#[trigger] s[j]).0@),
            decreases hi - lo,
        {
            let mid = lo + (hi - lo) / 2;
            match self.inner[mid].0.compare(block) {
                Ordering::Equal => {
                    proof {
                        assert forall|j: int| 0 <= j < mid implies key_lt((#[trigger] s[j]).0@, k) by {
                            assert(key_lt(s[j].0@, s[mid as int].0@));
                        }
                        lemma_lower_bound(s, k, mid as int);
                    }
                    return Ok(mid);
                },
                Ordering::Less => {
                    assert forall|j: int| 0 <= j <= mid implies key_lt((#[trigger] s[j]).0@, k) by {
                        if j < mid {
                            assert(key_lt(s[j].0@, s[mid as int].0@));
                        }
                    }
                    lo = mid + 1;
                },
                Ordering::Greater => {
                    assert forall|j: int| mid <= j < s.len() implies key_lt(k, (#[trigger] s[j]).0@) by {
                        if j > mid {
                            assert(key_lt(s[mid as int].0@, s[j].0@));
                        }
                    }
                    hi = mid;
                },
            }
        }
        proof {
            lemma_lower_bound(s, k, lo as int);
            assert forall|j: int| 0 <= j < s.len() implies (#[trigger] s[j]).0@ != k by {
                if j < lo {
                    assert(key_lt(s[j].0@, k));
                } else {
                    assert(key_lt(k, s[j].0@));
                }
            }
        }
        Err(lo)
    }
}

} // verus!
