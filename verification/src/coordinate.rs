//! Coordinate pairs as they are written: `"<latitude>,<longitude>"`.
use crate::number::{is_number, lemma_number_chars, literal_char, number};
use crate::text::{
    blank, find, lemma_position, lemma_trim_padded, split_once, trim, trim_bounds,
};
use vstd::prelude::*;
use vstd::slice::slice_subrange;

verus! {

/// Why a text is not a coordinate pair.
#[derive(Clone, Copy, Debug, PartialEq, Eq, Structural)]
pub enum ParseError {
    /// The text holds no comma.
    MissingSeparator,
    /// What stands before the first comma is not a number literal.
    InvalidLatitude,
    /// What stands after the first comma is not a number literal.
    InvalidLongitude,
}

/// A point on the ellipsoid, held as the two number literals it was written
/// with: latitude and longitude in degrees.
///
/// Both texts are number literals, so a float parser accepts each of them.
#[derive(Debug)]
pub struct GeoCoordinate {
    lat: String,
    lng: String,
}

/// What two texts make as a pair: themselves, if both are number literals;
/// the latitude is judged first.
pub open spec fn pair(lat: Seq<char>, lng: Seq<char>) -> Result<(Seq<char>, Seq<char>), ParseError> {
    if !number(lat) {
        Err(ParseError::InvalidLatitude)
    } else if !number(lng) {
        Err(ParseError::InvalidLongitude)
    } else {
        Ok((lat, lng))
    }
}

/// What a text parses to: the latitude and longitude literals, or the reason
/// there are none.
///
/// The text is cut at its first comma, and both parts are trimmed of white
/// space; what is left of each must be a number literal.
pub open spec fn parse(text: Seq<char>) -> Result<(Seq<char>, Seq<char>), ParseError> {
    match split_once(text, ',') {
        None => Err(ParseError::MissingSeparator),
        Some((before, after)) => pair(trim(before), trim(after)),
    }
}

/// Whether `got` is what `expected` asks for: the same error, or a
/// coordinate that holds the two expected literals.
pub open spec fn holds(
    got: Result<GeoCoordinate, ParseError>,
    expected: Result<(Seq<char>, Seq<char>), ParseError>,
) -> bool {
    match expected {
        Ok((lat, lng)) => got is Ok && got->Ok_0.lat_text() == lat && got->Ok_0.lng_text() == lng,
        Err(e) => got == Err::<GeoCoordinate, ParseError>(e),
    }
}

/// A pair written as latitude, comma, longitude, with nothing around the two
/// literals, parses back to exactly these literals.
pub proof fn lemma_parse_formatted(lat: Seq<char>, lng: Seq<char>)
    requires
        number(lat),
        number(lng),
    ensures
        parse(lat + seq![','] + lng) == Ok::<(Seq<char>, Seq<char>), ParseError>((lat, lng)),
{
    let none = Seq::<char>::empty();
    assert(none + lat + none + seq![','] + none + lng + none == lat + seq![','] + lng);
    lemma_parse_padded(lat, lng, none, none, none, none);
}

/// White space around either literal does not matter: a pair written with
/// any white space before and after its latitude and its longitude parses
/// to the two literals alone.
pub proof fn lemma_parse_padded(
    lat: Seq<char>,
    lng: Seq<char>,
    before_lat: Seq<char>,
    after_lat: Seq<char>,
    before_lng: Seq<char>,
    after_lng: Seq<char>,
)
    requires
        number(lat),
        number(lng),
        blank(before_lat),
        blank(after_lat),
        blank(before_lng),
        blank(after_lng),
    ensures
        parse(before_lat + lat + after_lat + seq![','] + before_lng + lng + after_lng) == Ok::<
            (Seq<char>, Seq<char>),
            ParseError,
        >((lat, lng)),
{
    let left = before_lat + lat + after_lat;
    let right = before_lng + lng + after_lng;
    let text = left + seq![','] + right;
    assert(text == before_lat + lat + after_lat + seq![','] + before_lng + lng + after_lng);
    lemma_number_chars(lat);
    lemma_number_chars(lng);
    assert forall|i: int| 0 <= i < left.len() implies text[i] != ',' by {
        if i < before_lat.len() {
            assert(text[i] == before_lat[i]);
        } else if i < before_lat.len() + lat.len() {
            assert(text[i] == lat[i - before_lat.len()]);
            assert(literal_char(lat[i - before_lat.len()]));
        } else {
            assert(text[i] == after_lat[i - before_lat.len() - lat.len()]);
        }
    }
    lemma_position(text, ',', left.len() as int);
    assert(text.take(left.len() as int) == left);
    assert(text.skip(left.len() as int + 1) == right);
    assert(literal_char(lat[0]) && literal_char(lat.last()));
    assert(literal_char(lng[0]) && literal_char(lng.last()));
    lemma_trim_padded(before_lat, lat, after_lat);
    lemma_trim_padded(before_lng, lng, after_lng);
}

/// The characters of `text`, in order.
fn to_chars(text: &str) -> (chars: Vec<char>)
    ensures
        chars@ == text@,
{
    let mut chars: Vec<char> = Vec::new();
    for c in it: text.chars()
        invariant
            it.seq() == text@,
            chars@ == it.seq().take(it.index() as int),
    {
        chars.push(c);
    }
    chars
}

impl GeoCoordinate {
    /// The latitude literal.
    pub closed spec fn lat_text(&self) -> Seq<char> {
        self.lat@
    }

    /// The longitude literal.
    pub closed spec fn lng_text(&self) -> Seq<char> {
        self.lng@
    }

    #[verifier::type_invariant]
    spec fn well_formed(&self) -> bool {
        number(self.lat@) && number(self.lng@)
    }

    /// Reads a coordinate pair from `text`.
    pub fn from_str(text: &str) -> (r: Result<GeoCoordinate, ParseError>)
        ensures
            holds(r, parse(text@)),
    {
        let chars: Vec<char> = to_chars(text);
        let all: &[char] = chars.as_slice();
        let at: usize = match find(all, ',') {
            Some(at) => at,
            None => {
                return Err(ParseError::MissingSeparator);
            },
        };
        assert(at < all@.len());
        let before: &[char] = slice_subrange(all, 0, at);
        let after: &[char] = slice_subrange(all, at + 1, all.len());
        assert(before@ == text@.take(at as int));
        assert(after@ == text@.skip(at as int + 1));
        let (lat_start, lat_end) = trim_bounds(before);
        let (lng_start, lng_end) = trim_bounds(after);
        if !is_number(slice_subrange(before, lat_start, lat_end)) {
            return Err(ParseError::InvalidLatitude);
        }
        if !is_number(slice_subrange(after, lng_start, lng_end)) {
            return Err(ParseError::InvalidLongitude);
        }
        let lat: &str = text.substring_char(lat_start, lat_end);
        let lng: &str = text.substring_char(at + 1 + lng_start, at + 1 + lng_end);
        assert(lat@ == before@.subrange(lat_start as int, lat_end as int));
        assert(lng@ == after@.subrange(lng_start as int, lng_end as int));
        Ok(GeoCoordinate { lat: lat.to_owned(), lng: lng.to_owned() })
    }

    /// Makes a coordinate from its two literals, taken as they stand.
    pub fn new(lat: &str, lng: &str) -> (r: Result<GeoCoordinate, ParseError>)
        ensures
            holds(r, pair(lat@, lng@)),
    {
        let lat_chars: Vec<char> = to_chars(lat);
        if !is_number(lat_chars.as_slice()) {
            return Err(ParseError::InvalidLatitude);
        }
        let lng_chars: Vec<char> = to_chars(lng);
        if !is_number(lng_chars.as_slice()) {
            return Err(ParseError::InvalidLongitude);
        }
        Ok(GeoCoordinate { lat: lat.to_owned(), lng: lng.to_owned() })
    }

    /// The latitude in degrees, as a number literal.
    pub fn lat(&self) -> (r: &str)
        ensures
            r@ == self.lat_text(),
            number(r@),
    {
        proof {
            use_type_invariant(self);
        }
        self.lat.as_str()
    }

    /// The longitude in degrees, as a number literal.
    pub fn lng(&self) -> (r: &str)
        ensures
            r@ == self.lng_text(),
            number(r@),
    {
        proof {
            use_type_invariant(self);
        }
        self.lng.as_str()
    }
}

impl Clone for GeoCoordinate {
    fn clone(&self) -> (copy: GeoCoordinate)
        ensures
            copy.lat_text() == self.lat_text(),
            copy.lng_text() == self.lng_text(),
    {
        proof {
            use_type_invariant(self);
        }
        GeoCoordinate { lat: self.lat.clone(), lng: self.lng.clone() }
    }
}

} // verus!
