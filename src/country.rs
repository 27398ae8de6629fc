//! Countries and their short codes.

use vstd::prelude::*;
use vstd::std_specs::iter::IteratorSpec;
use vstd::string::StringExecFns;

verus! {

/// An uppercase ASCII letter.
pub open spec fn is_upper(c: char) -> bool {
    'A' <= c && c <= 'Z'
}

/// Every character is an uppercase ASCII letter.
pub open spec fn all_upper(s: Seq<char>) -> bool {
    forall|i: int| 0 <= i < s.len() ==> is_upper(#[trigger] s[i])
}

/// Returns the characters of `s`, in order.
pub fn chars_of(s: &str) -> (r: Vec<char>)
    ensures
        r@ == s@,
{
    let mut it = s.chars();
    let mut r: Vec<char> = Vec::new();
    proof {
        broadcast use vstd::string::axiom_spec_iter;
        broadcast use vstd::string::next_postcondition;
    }
    loop
        invariant
            r@ + it.remaining() == s@,
            it.obeys_prophetic_iter_laws(),
            it.decrease() is Some,
        ensures
            r@ == s@,
        decreases it.decrease()->0,
    {
        proof {
            broadcast use vstd::string::next_postcondition;
        }
        let ghost rem = it.remaining();
        match it.next() {
            Some(c) => {
                r.push(c);
            },
            None => {
                assert(rem.len() == 0);
                assert(r@ =~= s@);
                break;
            },
        }
    }
    r
}


/// The error returned for a code that is not two, three or four characters
/// long. It holds the rejected text.
#[derive(Clone, Debug, Hash, PartialEq, Eq)]
pub struct InvalidCodeError(String);

impl View for InvalidCodeError {
    type V = Seq<char>;

    /// The rejected text.
    closed spec fn view(&self) -> Seq<char> {
        self.0@
    }
}

impl InvalidCodeError {
    /// Returns the rejected text.
    pub fn code(&self) -> (r: &str)
        ensures
            r@ == self@,
    {
        self.0.as_str()
    }

    /// A human-readable description of the error.
    pub fn message(&self) -> (r: String)
        ensures
            r@ == "invalid country code: "@ + self@,
    {
        let r = String::from_str("invalid country code: ");
        r.concat(self.0.as_str())
    }
}

/// A country's short code: two, three or four uppercase letters, or the
/// marker of a code that is not assigned.
#[derive(Clone, Copy, Debug, Hash, PartialEq, Eq, PartialOrd, Ord)]
pub enum CountryCode {
    /// A two-letter code.
    Alpha2([char; 2]),
    /// A three-letter code.
    Alpha3([char; 3]),
    /// A four-letter code.
    Alpha4([char; 4]),
    /// A code that is not assigned.
    Unassigned,
}

impl CountryCode {
    /// The letters of the code; none for [`CountryCode::Unassigned`].
    pub open spec fn letters(&self) -> Seq<char> {
        match self {
            CountryCode::Alpha2(a) => a@,
            CountryCode::Alpha3(a) => a@,
            CountryCode::Alpha4(a) => a@,
            CountryCode::Unassigned => Seq::empty(),
        }
    }

    /// The code that `s` stands for, given that it is two, three or four
    /// characters long: the letters, or [`CountryCode::Unassigned`] where one
    /// of them is not an uppercase ASCII letter.
    pub open spec fn spec_from(s: Seq<char>) -> CountryCode {
        if !all_upper(s) {
            CountryCode::Unassigned
        } else if s.len() == 2 {
            CountryCode::Alpha2([s[0], s[1]])
        } else if s.len() == 3 {
            CountryCode::Alpha3([s[0], s[1], s[2]])
        } else {
            CountryCode::Alpha4([s[0], s[1], s[2], s[3]])
        }
    }

    /// Parses a short code. A text of two, three or four characters gives a
    /// code: its letters when all of them are uppercase ASCII letters, else
    /// [`CountryCode::Unassigned`]. A text of any other length is an error.
    pub fn from_str(value: &str) -> (r: Result<CountryCode, InvalidCodeError>)
        ensures
            r is Ok <==> 2 <= value@.len() <= 4,
            r matches Ok(c) ==> c == CountryCode::spec_from(value@),
            r matches Ok(c) ==> (c is Unassigned <==> !all_upper(value@)),
            r matches Ok(c) ==> (all_upper(value@) ==> c.letters() == value@),
            r matches Err(e) ==> e@ == value@,
    {
        let v = chars_of(value);
        let n = v.len();
        if n < 2 || n > 4 {
            return Err(InvalidCodeError(String::from_str(value)));
        }
        let mut upper = true;
        let mut i: usize = 0;
        while i < n
            invariant
                n == v@.len(),
                i <= n,
                upper == (forall|j: int| 0 <= j < i ==> is_upper(#[trigger] v@[j])),
            decreases n - i,
        {
            let c = v[i];
            if !('A' <= c && c <= 'Z') {
                upper = false;
            }
            i += 1;
        }
        let code = if !upper {
            CountryCode::Unassigned
        } else if n == 2 {
            CountryCode::Alpha2([v[0], v[1]])
        } else if n == 3 {
            CountryCode::Alpha3([v[0], v[1], v[2]])
        } else {
            CountryCode::Alpha4([v[0], v[1], v[2], v[3]])
        };
        proof {
            if upper {
                assert(code.letters() =~= value@);
            }
        }
        Ok(code)
    }

    /// Returns whether the two codes are the same: same letters, which also
    /// fixes the kind of code.
    pub fn same_as(&self, other: &CountryCode) -> (r: bool)
        ensures
            r == (self.letters() == other.letters()),
    {
        match (self, other) {
            (CountryCode::Alpha2(a), CountryCode::Alpha2(b)) => same_chars(a, b),
            (CountryCode::Alpha3(a), CountryCode::Alpha3(b)) => same_chars(a, b),
            (CountryCode::Alpha4(a), CountryCode::Alpha4(b)) => same_chars(a, b),
            (CountryCode::Unassigned, CountryCode::Unassigned) => true,
            _ => {
                assert(self.letters().len() != other.letters().len());
                false
            },
        }
    }

    /// Returns the letters of the code, or `"??"` for an unassigned code.
    pub fn to_code_string(&self) -> (r: String)
        ensures
            *self is Unassigned ==> r@ == "??"@,
            !(*self is Unassigned) ==> r@ == self.letters(),
    {
        match self {
            CountryCode::Alpha2(a) => collect_chars(a),
            CountryCode::Alpha3(a) => collect_chars(a),
            CountryCode::Alpha4(a) => collect_chars(a),
            CountryCode::Unassigned => String::from_str("??"),
        }
    }
}

/// Returns whether the two slices hold the same characters.
fn same_chars(a: &[char], b: &[char]) -> (r: bool)
    requires
        a@.len() == b@.len(),
    ensures
        r == (a@ == b@),
{
    let mut i: usize = 0;
    while i < a.len()
        invariant
            a@.len() == b@.len(),
            i <= a@.len(),
            forall|j: int| 0 <= j < i ==> a@[j] == b@[j],
        decreases a@.len() - i,
    {
        if a[i] != b[i] {
            return false;
        }
        i += 1;
    }
    assert(a@ =~= b@);
    true
}

/// Relies on `FromIterator<char> for String`: the string holds the
/// characters in order.
#[verifier::external_body]
pub(crate) fn collect_chars(chars: &[char]) -> (r: String)
    ensures
        r@ == chars@,
{
    chars.iter().collect()
}

/// A country: its name, short code and numeric code.
#[derive(Clone, Debug, Hash)]
pub struct Country {
    /// The country's name.
    pub name: String,
    /// The country's short code.
    pub code: CountryCode,
    /// The country's numeric code.
    pub numeric: u16,
}

impl Country {
    /// Creates a country.
    pub fn new(name: &str, code: CountryCode, numeric: u16) -> (r: Country)
        ensures
            r.name@ == name@,
            r.code == code,
            r.numeric == numeric,
    {
        Country { name: String::from_str(name), code, numeric }
    }

    /// Returns an equal copy of the country.
    pub fn cloned(&self) -> (r: Country)
        ensures
            r == *self,
    {
        Country { name: self.name.clone(), code: self.code, numeric: self.numeric }
    }

    /// The two countries agree in name, code and numeric code.
    pub open spec fn same(&self, other: &Country) -> bool {
        self.name@ == other.name@ && self.code.letters() == other.code.letters() && self.numeric
            == other.numeric
    }
}

impl PartialEq for Country {
    fn eq(&self, other: &Country) -> (r: bool) {
        self.name == other.name && self.code.same_as(&other.code) && self.numeric == other.numeric
    }
}

impl Eq for Country {

}

impl vstd::std_specs::cmp::PartialEqSpecImpl for Country {
    open spec fn obeys_eq_spec() -> bool {
        true
    }

    open spec fn eq_spec(&self, other: &Country) -> bool {
        self.same(other)
    }
}

} // verus!
