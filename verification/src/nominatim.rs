//! Reverse-geocoded addresses (OpenStreetMap Nominatim) as the daemon keeps them.

use vstd::prelude::*;
use crate::text::{chars_of, push_str};

verus! {

/// Approximate address of a position.
#[derive(Debug, Clone)]
pub struct Address {
    pub display: String,
    pub road: Option<String>,
    pub house_number: Option<String>,
    pub city: Option<String>,
    pub postcode: Option<String>,
    pub country: Option<String>,
}

/// The error for a reply without a usable display name.
pub open spec fn empty_display_error() -> Seq<char> {
    "Nominatim returned no display_name"@
}

/// The address a Nominatim reply describes: its display name is required
/// and must be non-empty (an empty one would be cached as an address);
/// the parts are kept as given.
pub fn address_from_reply(
    display_name: Option<String>,
    road: Option<String>,
    house_number: Option<String>,
    city: Option<String>,
    postcode: Option<String>,
    country: Option<String>,
) -> (r: Result<Address, String>)
    ensures
        match r {
            Ok(a) => display_name matches Some(d) && d@.len() > 0 && a.display@ == d@ && a.road == road
                && a.house_number == house_number && a.city == city && a.postcode == postcode
                && a.country == country,
            Err(e) => e@ == empty_display_error() && (display_name is None || display_name->0@.len() == 0),
        },
{
    let display = match display_name {
        Some(d) => d,
        None => {
            let mut e = String::new();
            push_str(&mut e, "Nominatim returned no display_name");
            assert(Seq::<char>::empty() + empty_display_error() =~= empty_display_error());
            return Err(e);
        },
    };
    let dc = chars_of(display.as_str());
    if dc.len() == 0 {
        let mut e = String::new();
        push_str(&mut e, "Nominatim returned no display_name");
        assert(Seq::<char>::empty() + empty_display_error() =~= empty_display_error());
        return Err(e);
    }
    Ok(Address { display, road, house_number, city, postcode, country })
}

} // verus!
