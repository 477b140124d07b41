//! Listings: what a player offers, for what, where, and by whom.

use vstd::prelude::*;

verus! {

/// The longest description a listing may carry, in characters.
pub const MAX_DESCRIPTION_CHARS: usize = 300;

/// A stored listing. Listings never change once created.
#[derive(Debug)]
pub struct Listing {
    pub id: i64,
    pub offer_quantity: i32,
    pub offer_item: String,
    pub request_quantity: i32,
    pub request_item: String,
    pub location_north: i32,
    pub location_east: i32,
    pub owner: String,
    pub offer_count: i32,
    pub description: String,
    /// Seconds on the server's clock at which the listing was stored.
    pub created_at: i64,
}

/// The mathematical value of a [`Listing`]: its text fields as sequences of
/// characters.
pub struct ListingView {
    pub id: i64,
    pub offer_quantity: i32,
    pub offer_item: Seq<char>,
    pub request_quantity: i32,
    pub request_item: Seq<char>,
    pub location_north: i32,
    pub location_east: i32,
    pub owner: Seq<char>,
    pub offer_count: i32,
    pub description: Seq<char>,
    pub created_at: i64,
}

impl View for Listing {
    type V = ListingView;

    open spec fn view(&self) -> ListingView {
        ListingView {
            id: self.id,
            offer_quantity: self.offer_quantity,
            offer_item: self.offer_item@,
            request_quantity: self.request_quantity,
            request_item: self.request_item@,
            location_north: self.location_north,
            location_east: self.location_east,
            owner: self.owner@,
            offer_count: self.offer_count,
            description: self.description@,
            created_at: self.created_at,
        }
    }
}

/// The views of a sequence of listings, in order.
pub open spec fn views(s: Seq<Listing>) -> Seq<ListingView> {
    s.map_values(|l: Listing| l@)
}

impl Listing {
    /// A copy of this listing.
    pub fn duplicate(&self) -> (r: Listing)
        ensures
            r@ == self@,
    {
        Listing {
            id: self.id,
            offer_quantity: self.offer_quantity,
            offer_item: self.offer_item.clone(),
            request_quantity: self.request_quantity,
            request_item: self.request_item.clone(),
            location_north: self.location_north,
            location_east: self.location_east,
            owner: self.owner.clone(),
            offer_count: self.offer_count,
            description: self.description.clone(),
            created_at: self.created_at,
        }
    }
}

/// What a player submits to post a listing. The store assigns the id and the
/// creation time.
#[derive(Debug)]
pub struct NewListing {
    pub offer_quantity: i32,
    pub offer_item: String,
    pub request_quantity: i32,
    pub request_item: String,
    pub location_north: i32,
    pub location_east: i32,
    pub owner: String,
    /// How many times the offer can be fulfilled; one when absent.
    pub offer_count: Option<i32>,
    /// Free text; empty when absent.
    pub description: Option<String>,
}

impl NewListing {
    /// The offer count, with its default applied.
    pub open spec fn offer_count_or_default(&self) -> i32 {
        match self.offer_count {
            Some(n) => n,
            None => 1,
        }
    }

    /// The description, with its default applied.
    pub open spec fn description_or_default(&self) -> Seq<char> {
        match self.description {
            Some(d) => d@,
            None => Seq::empty(),
        }
    }

    /// The listing this submission becomes under the given id and time.
    pub open spec fn stored_as(&self, id: i64, now: i64) -> ListingView {
        ListingView {
            id,
            offer_quantity: self.offer_quantity,
            offer_item: self.offer_item@,
            request_quantity: self.request_quantity,
            request_item: self.request_item@,
            location_north: self.location_north,
            location_east: self.location_east,
            owner: self.owner@,
            offer_count: self.offer_count_or_default(),
            description: self.description_or_default(),
            created_at: now,
        }
    }
}

/// The structural rules that every stored listing obeys.
pub open spec fn well_formed_listing(l: ListingView) -> bool {
    &&& l.offer_item != l.request_item
    &&& l.offer_quantity != 0
    &&& l.request_quantity != 0
    &&& l.description.len() <= MAX_DESCRIPTION_CHARS
}

/// Which side of a trade a search looks for.
#[derive(Clone, Copy, Debug, PartialEq, Eq, Structural)]
pub enum Role {
    /// Listings that offer the item.
    Selling,
    /// Listings that ask for the item.
    Buying,
}

/// Whether a listing lies within the square window of half-width `radius`
/// around (`north`, `east`): both coordinate differences at most `radius`.
pub open spec fn in_window(l: ListingView, north: i32, east: i32, radius: i32) -> bool {
    let dn = l.location_north - north;
    let de = l.location_east - east;
    &&& -radius <= dn <= radius
    &&& -radius <= de <= radius
}

/// Whether a listing trades `item` on the side that `role` names.
pub open spec fn plays_role(l: ListingView, item: Seq<char>, role: Role) -> bool {
    match role {
        Role::Selling => l.offer_item == item,
        Role::Buying => l.request_item == item,
    }
}

/// Whether a listing created at `created_at` is older than `age` at `now`.
pub open spec fn expired(created_at: i64, now: i64, age: i64) -> bool {
    now - created_at > age
}

} // verus!
