//! The name of a cluster's place.
//!
//! A cluster is named once. The bucket of images without a position has a
//! fixed name; any other cluster is named after the answer of a geocoding
//! service, where there is one, and after its anchor's ordinates otherwise.

use crate::cluster::{Cluster, Coordinate};
use vstd::prelude::*;
use vstd::string::StringExecFns;

verus! {

/// One part of an address, as a geocoding service names it.
#[derive(Debug)]
pub struct AddressComponent {
    pub short_name: String,
}

/// One place that a geocoding service found for a position.
#[derive(Debug)]
pub struct Geocoding {
    pub address_components: Vec<AddressComponent>,
}

/// The answer of a geocoding service for a position: the places it found,
/// as far as the library reads them.
#[derive(Debug)]
pub struct GeocodingResponse {
    pub results: Vec<Geocoding>,
}

/// The short names of some address components, in order.
pub open spec fn component_names(components: Seq<AddressComponent>) -> Seq<Seq<char>> {
    components.map_values(|component: AddressComponent| component.short_name@)
}

/// The short names of all the address components of some places, place after
/// place.
pub open spec fn short_names(results: Seq<Geocoding>) -> Seq<Seq<char>>
    decreases results.len(),
{
    if results.len() == 0 {
        Seq::empty()
    } else {
        short_names(results.drop_last()) + component_names(results.last().address_components@)
    }
}

/// The name made of short names: each with a space after it, and `" - "`
/// between one and the next.
pub open spec fn joined_name(names: Seq<Seq<char>>) -> Seq<char>
    decreases names.len(),
{
    if names.len() == 0 {
        Seq::empty()
    } else if names.len() == 1 {
        names[0] + seq![' ']
    } else {
        joined_name(names.drop_last()) + seq![' ', '-', ' '] + names.last() + seq![' ']
    }
}

/// The name made of the anchor's ordinates as text: latitude, an underscore,
/// longitude.
pub open spec fn literal_name(latitude: Seq<char>, longitude: Seq<char>) -> Seq<char> {
    latitude + seq!['_'] + longitude
}

/// The name of the bucket of images without a position.
pub open spec fn unclassified_name() -> Seq<char> {
    seq!['U', 'N', 'C', 'L', 'A', 'S', 'S', 'I', 'F', 'I', 'E', 'D']
}

/// The name that a cluster without a name gets.
pub open spec fn place_name(
    classified: bool,
    content: Option<GeocodingResponse>,
    latitude: Seq<char>,
    longitude: Seq<char>,
) -> Seq<char> {
    if !classified {
        unclassified_name()
    } else {
        match content {
            Some(answer) => joined_name(short_names(answer.results@)),
            None => literal_name(latitude, longitude),
        }
    }
}

/// Joins the short names of an answer into a name.
fn join_short_names(content: &GeocodingResponse) -> (name: String)
    ensures
        name@ == joined_name(short_names(content.results@)),
{
    let mut name = String::new();
    let mut r: usize = 0;
    proof {
        reveal_strlit(" - ");
        reveal_strlit(" ");
        assert(content.results@.take(0) =~= Seq::<Geocoding>::empty());
    }
    while r < content.results.len()
        invariant
            r <= content.results.len(),
            " - "@ == seq![' ', '-', ' '],
            " "@ == seq![' '],
            name@ == joined_name(short_names(content.results@.take(r as int))),
        decreases content.results.len() - r,
    {
        let components = &content.results[r].address_components;
        let ghost before = short_names(content.results@.take(r as int));
        let mut c: usize = 0;
        proof {
            assert(component_names(components@.take(0)) =~= Seq::<Seq<char>>::empty());
            assert(before + Seq::<Seq<char>>::empty() =~= before);
        }
        while c < components.len()
            invariant
                c <= components.len(),
                " - "@ == seq![' ', '-', ' '],
                " "@ == seq![' '],
                name@ == joined_name(before + component_names(components@.take(c as int))),
            decreases components.len() - c,
        {
            let ghost names = before + component_names(components@.take(c as int));
            let ghost longer = before + component_names(components@.take(c as int + 1));
            proof {
                assert(components@.take(c as int + 1) =~= components@.take(c as int).push(
                    components@[c as int],
                ));
                assert(longer =~= names.push(components@[c as int].short_name@));
                assert(longer.drop_last() =~= names);
            }
            proof {
                lemma_joined_name_is_empty(names);
            }
            if !name.as_str().is_empty() {
                name.append(" - ");
            }
            name.append(components[c].short_name.as_str());
            name.append(" ");
            assert(name@ =~= joined_name(longer));
            c += 1;
        }
        proof {
            assert(components@.take(c as int) =~= components@);
            assert(content.results@.take(r as int + 1).drop_last() =~= content.results@.take(
                r as int,
            ));
        }
        r += 1;
    }
    proof {
        assert(content.results@.take(r as int) =~= content.results@);
    }
    name
}

/// Only the name of no short names at all is empty.
proof fn lemma_joined_name_is_empty(names: Seq<Seq<char>>)
    ensures
        joined_name(names).len() == 0 <==> names.len() == 0,
{
}

impl Cluster {
    /// Whether a geocoding service should be asked for the cluster's place:
    /// the cluster has no name yet and stands for a place.
    pub open spec fn spec_awaits_lookup(&self) -> bool {
        self.location_string is None && self.spec_is_classified()
    }

    /// Whether a geocoding service should be asked for the cluster's place.
    #[verifier::when_used_as_spec(spec_awaits_lookup)]
    pub fn awaits_lookup(&self) -> (r: bool)
        ensures
            r == self.spec_awaits_lookup(),
    {
        self.location_string.is_none() && self.is_classified()
    }

    /// The member whose position a geocoding service is asked about next,
    /// once asking has failed for every member before `from`: the first
    /// member from there on that has a position, with its index. `None` when
    /// no member is left to ask about.
    pub fn reverse_geocoding(&self, from: usize) -> (next: Option<(usize, Coordinate)>)
        ensures
            match next {
                Some((k, point)) => {
                    &&& from <= k < self.images@.len()
                    &&& self.images@[k as int].location == Some(point)
                    &&& forall|j: int| from <= j < k ==> (#[trigger] self.images@[j]).location is None
                },
                None => forall|j: int|
                    from <= j < self.images@.len() ==> (#[trigger] self.images@[j]).location
                        is None,
            },
    {
        let mut k: usize = from;
        while k < self.images.len()
            invariant
                from <= k,
                forall|j: int|
                    from <= j < k && j < self.images@.len() ==> (
                    #[trigger] self.images@[j]).location is None,
            decreases self.images.len() - k,
        {
            if let Some(point) = self.images[k].location {
                return Some((k, point));
            }
            k += 1;
        }
        None
    }

    /// Names the cluster, unless it has a name. `content` is the answer of the
    /// geocoding service, if it was asked and did answer; `latitude` and
    /// `longitude` are the anchor's ordinates as text.
    pub fn update_location(
        &mut self,
        content: Option<&GeocodingResponse>,
        latitude: &str,
        longitude: &str,
    )
        ensures
            final(self).location == old(self).location,
            final(self).images == old(self).images,
            match old(self).location_string {
                Some(name) => final(self).location_string == Some(name),
                None => final(self).location_string is Some
                    && final(self).location_string.unwrap()@ == place_name(
                    old(self).spec_is_classified(),
                    match content {
                        Some(answer) => Some(*answer),
                        None => None,
                    },
                    latitude@,
                    longitude@,
                ),
            },
            !final(self).spec_awaits_lookup(),
    {
        if self.location_string.is_none() {
            if !self.is_classified() {
                proof {
                    reveal_strlit("UNCLASSIFIED");
                }
                self.location_string = Some(String::from_str("UNCLASSIFIED"));
                assert(self.location_string.unwrap()@ =~= unclassified_name());
            } else {
                match content {
                    Some(answer) => {
                        self.location_string = Some(join_short_names(answer));
                    },
                    None => {
                        proof {
                            reveal_strlit("_");
                        }
                        let mut name = String::from_str(latitude);
                        name.append("_");
                        name.append(longitude);
                        self.location_string = Some(name);
                    },
                }
            }
        }
    }
}

} // verus!
