//! Building the map of blocks to countries from records of
//! `(start, end, short code)` and a table of country records.

use crate::country::{Country, CountryCode, InvalidCodeError};
use crate::filter::MaybeCountry;
use crate::ip::{all_wf, normalized_from, Address, EmptyBlockError, IpAddrBlock, IpAddrBlockMap};
use vstd::prelude::*;

verus! {

/// Why a record could not become an entry.
#[derive(Clone, Debug, Hash, PartialEq, Eq)]
pub enum EntryError {
    /// The record's start comes after its end.
    EmptyBlock(EmptyBlockError),
    /// The record's short code has the wrong length.
    InvalidCode(InvalidCodeError),
}

/// Turns a record into a block and a short code.
pub fn entry_from_record<A: Address>(start: A, end: A, code: &str) -> (r: Result<
    (IpAddrBlock<A>, CountryCode),
    EntryError,
>)
    ensures
        r is Ok <==> start.spec_bits() <= end.spec_bits() && 2 <= code@.len() <= 4,
        r matches Ok(e) ==> e.0.spec_start() == start && e.0.spec_end() == end && e.0@ == (
            start.spec_bits(),
            end.spec_bits(),
        ) && e.0.wf() && e.1 == CountryCode::spec_from(code@),
        r matches Err(EntryError::EmptyBlock(_)) ==> start.spec_bits() > end.spec_bits(),
        r matches Err(EntryError::InvalidCode(e)) ==> start.spec_bits() <= end.spec_bits() && e@ == code@,
{
    let block = match IpAddrBlock::try_new(start, end) {
        Ok(b) => b,
        Err(e) => {
            return Err(EntryError::EmptyBlock(e));
        },
    };
    match CountryCode::from_str(code) {
        Ok(c) => Ok((block, c)),
        Err(e) => Err(EntryError::InvalidCode(e)),
    }
}

/// The index of the last country record with the given code, if any.
pub open spec fn last_with_code(countries: Seq<Country>, code: CountryCode) -> Option<int> {
    if exists|i: int| 0 <= i < countries.len() && (#[trigger] countries[i]).code.letters() == code.letters() {
        Some(
            choose|i: int|
                0 <= i < countries.len() && (#[trigger] countries[i]).code.letters() == code.letters() && forall|
                    j: int,
                |
                    i < j < countries.len() ==> (#[trigger] countries[j]).code.letters() != code.letters(),
        )
    } else {
        None
    }
}

/// The country that a code resolves to: the last record with that code, as a
/// table keyed by code keeps the last record it is given, or the code alone
/// where no record has it.
pub open spec fn resolve_spec(countries: Seq<Country>, code: CountryCode) -> MaybeCountry {
    match last_with_code(countries, code) {
        Some(i) => MaybeCountry::Present(countries[i]),
        None => MaybeCountry::Missing(code),
    }
}

/// Resolves a code against the country records.
pub fn resolve(countries: &[Country], code: CountryCode) -> (r: MaybeCountry)
    ensures
        r == resolve_spec(countries@, code),
{
    let mut i: usize = countries.len();
    while i > 0
        invariant
            i <= countries@.len(),
            forall|j: int| i <= j < countries@.len() ==> (#[trigger] countries@[j]).code.letters() != code.letters(),
        decreases i,
    {
        i -= 1;
        if countries[i].code.same_as(&code) {
            proof {
                let s = countries@;
                assert(exists|k: int| 0 <= k < s.len() && (#[trigger] s[k]).code.letters() == code.letters());
                let k = choose|k: int|
                    0 <= k < s.len() && (#[trigger] s[k]).code.letters() == code.letters() && forall|j: int|
                        k < j < s.len() ==> (#[trigger] s[j]).code.letters() != code.letters();
                assert(k == i) by {
                    if k < i {
                        assert(s[i as int].code.letters() == code.letters());
                    }
                }
            }
            return MaybeCountry::Present(countries[i].cloned());
        }
    }
    MaybeCountry::Missing(code)
}

/// The entries that the records give once their codes are resolved.
pub open spec fn resolved_entries<A: Address>(
    records: Seq<(IpAddrBlock<A>, CountryCode)>,
    countries: Seq<Country>,
) -> Seq<(IpAddrBlock<A>, MaybeCountry)> {
    Seq::new(records.len(), |i: int| (records[i].0, resolve_spec(countries, records[i].1)))
}

/// Builds the map of blocks to countries: every record's code is resolved,
/// the entries are appended, and the map is normalized once at the end.
pub fn build_block_map<A: Address>(
    records: Vec<(IpAddrBlock<A>, CountryCode)>,
    countries: &[Country],
) -> (r: IpAddrBlockMap<A, MaybeCountry>)
    requires
        forall|i: int| 0 <= i < records@.len() ==> (#[trigger] records@[i]).0.wf(),
    ensures
        r.wf(),
        !r.is_pending(),
        normalized_from(resolved_entries(records@, countries@), r.entries()),
{
    let mut map: IpAddrBlockMap<A, MaybeCountry> = IpAddrBlockMap::with_capacity(records.len());
    let mut i: usize = 0;
    while i < records.len()
        invariant
            i <= records@.len(),
            map.wf(),
            forall|k: int| 0 <= k < records@.len() ==> (#[trigger] records@[k]).0.wf(),
            map.entries() == resolved_entries(records@, countries@).take(i as int),
            i > 0 ==> map.is_pending(),
        decreases records@.len() - i,
    {
        let (block, code) = records[i];
        let country = resolve(countries, code);
        map.insert_unstable(block, country);
        assert(map.entries() =~= resolved_entries(records@, countries@).take(i + 1));
        i += 1;
    }
    assert(resolved_entries(records@, countries@).take(i as int) =~= resolved_entries(records@, countries@));
    map.normalize();
    map
}

} // verus!
