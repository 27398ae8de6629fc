//! Countries that may be unresolved, and filters that select countries.

use crate::country::{chars_of, Country, CountryCode};
use crate::decimal::{parse_u16, spec_parse_u16};
use crate::ip::{Address, IpAddrBlock};
use vstd::prelude::*;

verus! {

/// The country assigned to a block: resolved to a full record, or only the
/// short code when no record has it.
#[derive(Clone, Debug, Hash, PartialEq, Eq)]
pub enum MaybeCountry {
    /// The country's record was found.
    Present(Country),
    /// No record has this code.
    Missing(CountryCode),
}

impl MaybeCountry {
    /// The short code of the country, resolved or not.
    pub open spec fn spec_code(&self) -> CountryCode {
        match self {
            MaybeCountry::Present(c) => c.code,
            MaybeCountry::Missing(code) => *code,
        }
    }

    /// Returns the short code of the country, resolved or not.
    pub fn code(&self) -> (r: CountryCode)
        ensures
            r == self.spec_code(),
    {
        match self {
            MaybeCountry::Present(c) => c.code,
            MaybeCountry::Missing(code) => *code,
        }
    }

    /// The country's name, or its short code when it is not resolved.
    pub fn label(&self) -> (r: String)
        ensures
            self matches MaybeCountry::Present(c) ==> r@ == c.name@,
            self matches MaybeCountry::Missing(code) ==> r@ == (if code is Unassigned {
                "??"@
            } else {
                code.letters()
            }),
    {
        match self {
            MaybeCountry::Present(c) => c.name.clone(),
            MaybeCountry::Missing(code) => code.to_code_string(),
        }
    }
}

/// A way of selecting a country.
#[derive(Clone, Debug)]
pub enum Filter<'c> {
    /// The country equal to this one.
    Country(&'c Country),
    /// The country with this name.
    Name(String),
    /// The country with this short code.
    Code(CountryCode),
    /// The country with this numeric code.
    Numeric(u16),
}

impl<'c> Filter<'c> {
    /// The country matches the filter.
    pub open spec fn spec_test(&self, country: &Country) -> bool {
        match self {
            Filter::Country(c) => country.same(c),
            Filter::Name(name) => country.name@ == name@,
            Filter::Code(code) => country.code.letters() == code.letters(),
            Filter::Numeric(n) => country.numeric == *n,
        }
    }

    /// Whether the country matches the filter, where that can be told: a
    /// missing country can only be told apart by a code filter.
    pub open spec fn spec_test_maybe(&self, country: &MaybeCountry) -> Option<bool> {
        match country {
            MaybeCountry::Present(c) => Some(self.spec_test(c)),
            MaybeCountry::Missing(code) => match self {
                Filter::Code(b) => Some(code.letters() == b.letters()),
                _ => None,
            },
        }
    }

    /// Returns whether the country matches the filter.
    pub fn test(&self, country: &Country) -> (r: bool)
        ensures
            r == self.spec_test(country),
    {
        match self {
            Filter::Country(c) => *country == **c,
            Filter::Name(name) => country.name == *name,
            Filter::Code(code) => country.code.same_as(code),
            Filter::Numeric(n) => country.numeric == *n,
        }
    }

    /// Returns whether the country matches the filter, or `None` where a
    /// missing country cannot be tested by it.
    pub fn test_maybe(&self, country: &MaybeCountry) -> (r: Option<bool>)
        ensures
            r == self.spec_test_maybe(country),
    {
        match country {
            MaybeCountry::Present(c) => Some(self.test(c)),
            MaybeCountry::Missing(code) => match self {
                Filter::Code(b) => Some(code.same_as(b)),
                _ => None,
            },
        }
    }
}

/// The filter that a text stands for: a numeric code if it reads as one, else
/// a short code if it has the length of one, else a name.
pub open spec fn spec_filter_kind(s: Seq<char>) -> int {
    if spec_parse_u16(s) is Some {
        0
    } else if 2 <= s.len() <= 4 {
        1
    } else {
        2
    }
}

impl Filter<'static> {
    /// Reads a filter from text: a numeric code where the text is an unsigned
    /// 16-bit number, else a short code where it has two to four characters,
    /// else a country name.
    pub fn parse(value: &str) -> (r: Filter<'static>)
        ensures
            spec_filter_kind(value@) == 0 ==> r == Filter::Numeric(spec_parse_u16(value@)->0),
            spec_filter_kind(value@) == 1 ==> r == Filter::Code(CountryCode::spec_from(value@)),
            spec_filter_kind(value@) == 2 ==> (r matches Filter::Name(n) && n@ == value@),
    {
        let chars = chars_of(value);
        match parse_u16(chars.as_slice()) {
            Some(n) => Filter::Numeric(n),
            None => match CountryCode::from_str(value) {
                Ok(code) => Filter::Code(code),
                Err(_) => Filter::Name(value.to_owned()),
            },
        }
    }
}

/// Returns the first country that matches the filter.
pub fn find_country<'a>(filter: &Filter, countries: &'a [Country]) -> (r: Option<&'a Country>)
    ensures
        r is None <==> forall|i: int| 0 <= i < countries@.len() ==> !filter.spec_test(&#[trigger] countries@[i]),
        r matches Some(c) ==> exists|i: int|
            0 <= i < countries@.len() && *c == countries@[i] && filter.spec_test(&countries@[i]) && forall|j: int|
                0 <= j < i ==> !filter.spec_test(&#[trigger] countries@[j]),
{
    let mut i: usize = 0;
    while i < countries.len()
        invariant
            i <= countries@.len(),
            forall|j: int| 0 <= j < i ==> !filter.spec_test(&#[trigger] countries@[j]),
        decreases countries@.len() - i,
    {
        if filter.test(&countries[i]) {
            return Some(&countries[i]);
        }
        i += 1;
    }
    None
}

/// The number of entries whose country the filter tells to match.
pub open spec fn count_matching<A: Address>(
    filter: Filter,
    entries: Seq<(&IpAddrBlock<A>, &MaybeCountry)>,
) -> nat
    decreases entries.len(),
{
    if entries.len() == 0 {
        0
    } else {
        count_matching(filter, entries.drop_last()) + if filter.spec_test_maybe(entries.last().1)
            == Some(true) {
            1nat
        } else {
            0nat
        }
    }
}

/// The blocks of the entries that the filter keeps, in order: all of them
/// without a filter, else those whose country it tells to match.
pub open spec fn kept_blocks<A: Address>(
    filter: Option<Filter>,
    entries: Seq<(&IpAddrBlock<A>, &MaybeCountry)>,
) -> Seq<IpAddrBlock<A>>
    decreases entries.len(),
{
    if entries.len() == 0 {
        Seq::empty()
    } else {
        let rest = kept_blocks(filter, entries.drop_last());
        match filter {
            Some(f) => if f.spec_test_maybe(entries.last().1) == Some(true) {
                rest.push(*entries.last().0)
            } else {
                rest
            },
            None => rest.push(*entries.last().0),
        }
    }
}

/// Counts the entries whose country the filter tells to match.
pub fn count_blocks<A: Address>(filter: &Filter, entries: &[(&IpAddrBlock<A>, &MaybeCountry)]) -> (r: usize)
    ensures
        r == count_matching(*filter, entries@),
{
    let mut n: usize = 0;
    let mut i: usize = 0;
    while i < entries.len()
        invariant
            i <= entries@.len(),
            n == count_matching(*filter, entries@.take(i as int)),
            n <= i,
        decreases entries@.len() - i,
    {
        assert(entries@.take(i + 1).drop_last() =~= entries@.take(i as int));
        if filter.test_maybe(entries[i].1) == Some(true) {
            n += 1;
        }
        i += 1;
    }
    assert(entries@.take(i as int) =~= entries@);
    n
}

/// Collects the blocks of the entries that the filter keeps, in order.
pub fn collect_blocks<A: Address>(
    filter: Option<&Filter>,
    entries: &[(&IpAddrBlock<A>, &MaybeCountry)],
) -> (r: Vec<IpAddrBlock<A>>)
    ensures
        r@ == kept_blocks(
            match filter {
                Some(f) => Some(*f),
                None => None,
            },
            entries@,
        ),
{
    let ghost f = match filter {
        Some(f) => Some(*f),
        None => None,
    };
    let mut r: Vec<IpAddrBlock<A>> = Vec::new();
    let mut i: usize = 0;
    while i < entries.len()
        invariant
            i <= entries@.len(),
            r@ == kept_blocks(f, entries@.take(i as int)),
            f == match filter {
                Some(f) => Some(*f),
                None => None,
            },
        decreases entries@.len() - i,
    {
        assert(entries@.take(i + 1).drop_last() =~= entries@.take(i as int));
        match filter {
            Some(fl) => {
                if fl.test_maybe(entries[i].1) == Some(true) {
                    r.push(*entries[i].0);
                }
            },
            None => {
                r.push(*entries[i].0);
            },
        }
        i += 1;
    }
    assert(entries@.take(i as int) =~= entries@);
    r
}

} // verus!
