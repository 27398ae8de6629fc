//! The country records that a knowledge-base query returns, and the query.

use crate::country::{Country, CountryCode, InvalidCodeError};
use crate::decimal::{decimal_string, parse_u16, spec_parse_u16};
use vstd::prelude::*;
use vstd::string::StringExecFns;

verus! {

/// A value within a response binding.
#[derive(Clone, Debug, Hash, PartialEq, Eq)]
pub struct ResponseBindingEntry {
    /// The value's type.
    pub kind: String,
    /// The value.
    pub value: String,
}

/// One record of a response.
#[derive(Clone, Debug, Hash, PartialEq, Eq)]
pub struct ResponseBinding {
    /// The country's name.
    pub name: ResponseBindingEntry,
    /// The country's short code.
    pub code: ResponseBindingEntry,
    /// The country's numeric code, where the record has one.
    pub numeric: Option<ResponseBindingEntry>,
}

/// The records of a response.
#[derive(Clone, Debug, Hash, PartialEq, Eq)]
pub struct ResponseResults {
    /// The records.
    pub bindings: Vec<ResponseBinding>,
}

/// The variable names of a response.
#[derive(Clone, Debug, Hash, PartialEq, Eq)]
pub struct ResponseHead {
    /// The variable names.
    pub vars: Vec<String>,
}

/// A response to a query.
#[derive(Clone, Debug, Hash, PartialEq, Eq)]
pub struct Response {
    /// The variable names.
    pub head: ResponseHead,
    /// The records.
    pub results: ResponseResults,
}

/// Why a record could not become a country.
#[derive(Clone, Debug, Hash, PartialEq, Eq)]
pub enum RecordError {
    /// The short code has the wrong length.
    InvalidCode(InvalidCodeError),
    /// The numeric code is not an unsigned 16-bit number; holds its text.
    InvalidNumeric(String),
}

/// The numeric code that stands for a record without one.
pub const NO_NUMERIC: u16 = 65535;

/// The query text, on one line.
pub const QUERY: &'static str = "SELECT ?nameLabel ?code ?numeric WHERE { ?name wdt:P31 wd:Q6256; wdt:P297 ?code; wdt:P299 ?numeric. SERVICE wikibase:label { bd:serviceParam wikibase:language \"en\". } }";

/// Returns the query for countries, with a limit on the number of records
/// where `limit` is positive.
pub fn wiki_query(limit: usize) -> (r: String)
    ensures
        limit == 0 ==> r@ == QUERY@,
        limit > 0 ==> exists|digits: Seq<char>|
            r@ == QUERY@ + "\nLIMIT "@ + digits && crate::decimal::decimal_value(digits) == limit
                && crate::decimal::all_digits(digits) && digits.len() > 0 && (digits.len() > 1
                ==> digits[0] != '0'),
{
    let query = String::from_str(QUERY);
    if limit > 0 {
        let digits = decimal_string(limit);
        let r = query.concat("\nLIMIT ");
        let r = r.concat(digits.as_str());
        assert(r@ == QUERY@ + "\nLIMIT "@ + digits@);
        r
    } else {
        query
    }
}

/// The numeric code that a record gives: its value where it has one that
/// reads as a number, [`NO_NUMERIC`] where it has none.
pub open spec fn spec_numeric(b: ResponseBinding) -> Option<u16> {
    match b.numeric {
        Some(e) => spec_parse_u16(e.value@),
        None => Some(NO_NUMERIC),
    }
}

/// Turns a record into a country: its name, its parsed short code, and its
/// parsed numeric code or [`NO_NUMERIC`] where it has none.
pub fn country_from_binding(binding: &ResponseBinding) -> (r: Result<Country, RecordError>)
    ensures
        r matches Ok(c) ==> c.name@ == binding.name.value@ && 2 <= binding.code.value@.len() <= 4 && c.code
            == CountryCode::spec_from(binding.code.value@) && spec_numeric(*binding) == Some(c.numeric),
        r matches Err(RecordError::InvalidCode(e)) ==> !(2 <= binding.code.value@.len() <= 4) && e@
            == binding.code.value@,
        r matches Err(RecordError::InvalidNumeric(t)) ==> 2 <= binding.code.value@.len() <= 4
            && spec_numeric(*binding) is None && (binding.numeric matches Some(e) && t@ == e.value@),
        r is Ok <==> 2 <= binding.code.value@.len() <= 4 && spec_numeric(*binding) is Some,
{
    let code = match CountryCode::from_str(binding.code.value.as_str()) {
        Ok(code) => code,
        Err(e) => {
            return Err(RecordError::InvalidCode(e));
        },
    };
    let numeric = match &binding.numeric {
        Some(e) => {
            let chars = crate::country::chars_of(e.value.as_str());
            match parse_u16(chars.as_slice()) {
                Some(n) => n,
                None => {
                    return Err(RecordError::InvalidNumeric(e.value.clone()));
                },
            }
        },
        None => NO_NUMERIC,
    };
    Ok(Country::new(binding.name.value.as_str(), code, numeric))
}

/// Turns every record of a response into a country, in order, stopping at the
/// first record that cannot become one.
pub fn countries_from_response(response: &Response) -> (r: Result<Vec<Country>, RecordError>)
    ensures
        r matches Ok(cs) ==> cs@.len() == response.results.bindings@.len() && forall|i: int|
            0 <= i < cs@.len() ==> {
                let b = #[trigger] response.results.bindings@[i];
                cs@[i].name@ == b.name.value@ && cs@[i].code == CountryCode::spec_from(b.code.value@)
                    && spec_numeric(b) == Some(cs@[i].numeric)
            },
        r is Ok <==> forall|i: int|
            0 <= i < response.results.bindings@.len() ==> {
                let b = #[trigger] response.results.bindings@[i];
                2 <= b.code.value@.len() <= 4 && spec_numeric(b) is Some
            },
{
    let bindings = &response.results.bindings;
    let mut out: Vec<Country> = Vec::with_capacity(bindings.len());
    let mut i: usize = 0;
    while i < bindings.len()
        invariant
            bindings@ == response.results.bindings@,
            i <= bindings@.len(),
            out@.len() == i,
            forall|j: int|
                0 <= j < i ==> {
                    let b = #[trigger] bindings@[j];
                    out@[j].name@ == b.name.value@ && out@[j].code == CountryCode::spec_from(b.code.value@)
                        && spec_numeric(b) == Some(out@[j].numeric)
                },
            forall|j: int|
                0 <= j < i ==> {
                    let b = #[trigger] bindings@[j];
                    2 <= b.code.value@.len() <= 4 && spec_numeric(b) is Some
                },
        decreases bindings@.len() - i,
    {
        match country_from_binding(&bindings[i]) {
            Ok(c) => out.push(c),
            Err(e) => {
                let ghost b = response.results.bindings@[i as int];
                assert(!(2 <= b.code.value@.len() <= 4 && spec_numeric(b) is Some));
                return Err(e);
            },
        }
        i += 1;
    }
    Ok(out)
}

} // verus!
