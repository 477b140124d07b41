//! The listing store: creation under the validation rules and the per-owner
//! quota, removal by the owner, lookup, proximity search and expiry.

use vstd::prelude::*;
use crate::catalog::Catalog;
use crate::text::text_is;
use crate::listing::{
    Listing, ListingView, NewListing, Role, views, well_formed_listing, in_window, plays_role,
    expired, MAX_DESCRIPTION_CHARS,
};

verus! {

/// The most listings that one owner may hold when posting another.
pub const OWNER_QUOTA: usize = 15;

/// How old, in seconds, a listing may grow before the sweeper removes it.
pub const EXPIRY_AGE_SECS: i64 = 5 * 24 * 60 * 60;

/// How often, in seconds, the sweeper runs.
pub const SWEEP_INTERVAL_SECS: u64 = 10 * 60;

/// Why a submission was turned down.
#[derive(Clone, Copy, Debug, PartialEq, Eq, Structural)]
pub enum CreateError {
    /// The offered and the requested item are the same.
    DuplicateItem,
    /// The offered or the requested quantity is zero.
    ZeroQuantity,
    /// The description is longer than the limit.
    DescriptionTooLong,
    /// The offered or the requested item is not in the catalog.
    UnknownItem,
    /// The owner already holds as many listings as the quota allows.
    QuotaExceeded,
}

/// The mathematical value of a [`ListingStore`].
pub struct StoreView {
    /// The stored listings, oldest first.
    pub rows: Seq<ListingView>,
    /// The id that the next listing will get.
    pub next_id: i64,
}

/// Ids strictly increase along `rows`.
pub open spec fn ids_ascending(rows: Seq<ListingView>) -> bool {
    forall|a: int, b: int| 0 <= a < b < rows.len() ==> #[trigger] rows[a].id < #[trigger] rows[b].id
}

/// What every stored listing obeys: the structural rules, and an id that was
/// handed out before `next_id`.
pub open spec fn stored_row(l: ListingView, next_id: i64) -> bool {
    &&& well_formed_listing(l)
    &&& 1 <= l.id < next_id
}

/// The invariant of a store: ids ascend, every row is a valid stored row.
pub open spec fn store_wf(v: StoreView) -> bool {
    &&& 1 <= v.next_id
    &&& ids_ascending(v.rows)
    &&& forall|i: int| 0 <= i < v.rows.len() ==> stored_row(#[trigger] v.rows[i], v.next_id)
}

/// The listings of `rows` that `owner` holds.
pub open spec fn owned_by(rows: Seq<ListingView>, owner: Seq<char>) -> Seq<ListingView> {
    rows.filter(|l: ListingView| l.owner == owner)
}

/// The listings of `rows` within the square window of half-width `radius`
/// around (`north`, `east`).
pub open spec fn nearby(rows: Seq<ListingView>, north: i32, east: i32, radius: i32) -> Seq<
    ListingView,
> {
    rows.filter(|l: ListingView| in_window(l, north, east, radius))
}

/// The listings of `rows` within that window that trade `item` on the side
/// that `role` names.
pub open spec fn nearby_in_role(
    rows: Seq<ListingView>,
    item: Seq<char>,
    north: i32,
    east: i32,
    radius: i32,
    role: Role,
) -> Seq<ListingView> {
    rows.filter(|l: ListingView| in_window(l, north, east, radius) && plays_role(l, item, role))
}

/// The listings of `rows` that are not older than `age` at `now`.
pub open spec fn unexpired(rows: Seq<ListingView>, now: i64, age: i64) -> Seq<ListingView> {
    rows.filter(|l: ListingView| !expired(l.created_at, now, age))
}

/// The listing of `rows` with the given id, if any.
pub open spec fn find_id(rows: Seq<ListingView>, id: i64) -> Option<ListingView> {
    if exists|i: int| 0 <= i < rows.len() && #[trigger] rows[i].id == id {
        Some(rows[choose|i: int| 0 <= i < rows.len() && #[trigger] rows[i].id == id])
    } else {
        None
    }
}

/// Whether `rows` holds a listing with this id and this owner.
pub open spec fn holds(rows: Seq<ListingView>, id: i64, owner: Seq<char>) -> bool {
    exists|i: int| 0 <= i < rows.len() && #[trigger] rows[i].id == id && rows[i].owner == owner
}

/// The reason why a submission is turned down by a store holding `rows` and
/// a catalog holding `catalog`, checked in this order: distinct items, non-zero
/// quantities, description length, catalog membership, quota. `None` when it
/// is accepted.
pub open spec fn rejection(rows: Seq<ListingView>, catalog: Seq<Seq<char>>, c: NewListing) -> Option<
    CreateError,
> {
    if c.offer_item@ == c.request_item@ {
        Some(CreateError::DuplicateItem)
    } else if c.offer_quantity == 0 || c.request_quantity == 0 {
        Some(CreateError::ZeroQuantity)
    } else if c.description_or_default().len() > MAX_DESCRIPTION_CHARS {
        Some(CreateError::DescriptionTooLong)
    } else if !catalog.contains(c.offer_item@) || !catalog.contains(c.request_item@) {
        Some(CreateError::UnknownItem)
    } else if owned_by(rows, c.owner@).len() >= OWNER_QUOTA {
        Some(CreateError::QuotaExceeded)
    } else {
        None
    }
}

/// What a successful creation of `c` at `now` makes of the store `before`.
pub open spec fn created(before: StoreView, c: NewListing, now: i64) -> StoreView {
    StoreView {
        rows: before.rows.push(c.stored_as(before.next_id, now)),
        next_id: (before.next_id + 1) as i64,
    }
}

/// A condition on listings by which the store selects.
enum Query<'a> {
    Owner(&'a str),
    Window(i32, i32, i32),
    RoleWindow(&'a str, Role, i32, i32, i32),
    Fresh(i64, i64),
}

impl<'a> Query<'a> {
    spec fn admits(&self, l: ListingView) -> bool {
        match *self {
            Query::Owner(owner) => l.owner == owner@,
            Query::Window(north, east, radius) => in_window(l, north, east, radius),
            Query::RoleWindow(item, role, north, east, radius) => in_window(l, north, east, radius)
                && plays_role(l, item@, role),
            Query::Fresh(now, age) => !expired(l.created_at, now, age),
        }
    }

    fn test(&self, l: &Listing) -> (r: bool)
        ensures
            r == self.admits(l@),
    {
        match self {
            Query::Owner(owner) => text_is(l.owner.as_str(), owner),
            Query::Window(north, east, radius) => within(l, *north, *east, *radius),
            Query::RoleWindow(item, role, north, east, radius) => {
                within(l, *north, *east, *radius) && match role {
                    Role::Selling => text_is(l.offer_item.as_str(), item),
                    Role::Buying => text_is(l.request_item.as_str(), item),
                }
            },
            Query::Fresh(now, age) => (*now as i128) - (l.created_at as i128) <= (*age as i128),
        }
    }
}

fn within(l: &Listing, north: i32, east: i32, radius: i32) -> (r: bool)
    ensures
        r == in_window(l@, north, east, radius),
{
    let dn = l.location_north as i64 - north as i64;
    let de = l.location_east as i64 - east as i64;
    let rad = radius as i64;
    -rad <= dn && dn <= rad && -rad <= de && de <= rad
}

/// Copies of the listings of `rows` that `q` admits, in order.
fn select(rows: &Vec<Listing>, q: &Query, next_id: i64) -> (r: Vec<Listing>)
    requires
        ids_ascending(views(rows@)),
        forall|i: int| 0 <= i < rows@.len() ==> stored_row(#[trigger] views(rows@)[i], next_id),
    ensures
        views(r@) == views(rows@).filter(|l: ListingView| q.admits(l)),
        ids_ascending(views(r@)),
        forall|i: int| 0 <= i < r@.len() ==> stored_row(#[trigger] views(r@)[i], next_id),
{
    let ghost all = views(rows@);
    let ghost pred = |l: ListingView| q.admits(l);
    let mut found: Vec<Listing> = Vec::new();
    let mut i: usize = 0;
    while i < rows.len()
        invariant
            i <= rows@.len(),
            all == views(rows@),
            pred == (|l: ListingView| q.admits(l)),
            ids_ascending(all),
            forall|k: int| 0 <= k < all.len() ==> stored_row(#[trigger] all[k], next_id),
            views(found@) == all.take(i as int).filter(pred),
            ids_ascending(views(found@)),
            forall|k: int| 0 <= k < found@.len() ==> stored_row(#[trigger] views(found@)[k], next_id),
            forall|k: int|
                0 <= k < found@.len() && i < all.len() ==> #[trigger] views(found@)[k].id
                    < all[i as int].id,
        decreases rows@.len() - i,
    {
        let ghost before = views(found@);
        proof {
            all.take(i as int).lemma_filter_push(all[i as int], pred);
            assert(all.take(i as int).push(all[i as int]) =~= all.take(i + 1));
        }
        if q.test(&rows[i]) {
            found.push(rows[i].duplicate());
            proof {
                assert(views(found@) =~= before.push(all[i as int]));
            }
        }
        proof {
            let now_found = views(found@);
            assert forall|k: int| 0 <= k < now_found.len() && i + 1 < all.len() implies
                #[trigger] now_found[k].id < all[i + 1].id by {
                assert(all[i as int].id < all[i + 1].id);
            }
        }
        i = i + 1;
    }
    proof {
        assert(all.take(i as int) =~= all);
    }
    found
}

/// The listings that players have posted, with the id that the next one
/// will get.
#[derive(Debug)]
pub struct ListingStore {
    rows: Vec<Listing>,
    next_id: i64,
}

impl View for ListingStore {
    type V = StoreView;

    closed spec fn view(&self) -> StoreView {
        StoreView { rows: views(self.rows@), next_id: self.next_id }
    }
}

impl ListingStore {
    /// The store keeps its invariant.
    pub open spec fn wf(&self) -> bool {
        store_wf(self@)
    }

    /// An empty store whose first listing will get id 1.
    pub fn new() -> (r: ListingStore)
        ensures
            r.wf(),
            r@.rows == Seq::<ListingView>::empty(),
            r@.next_id == 1,
    {
        let r = ListingStore { rows: Vec::new(), next_id: 1 };
        proof {
            assert(r@.rows =~= Seq::<ListingView>::empty());
        }
        r
    }

    /// The number of stored listings.
    pub fn len(&self) -> (r: usize)
        ensures
            r == self@.rows.len(),
    {
        self.rows.len()
    }

    /// The id that the next listing will get.
    pub fn next_id(&self) -> (r: i64)
        ensures
            r == self@.next_id,
    {
        self.next_id
    }

    /// The ids of the stored listings, oldest first.
    pub fn ids(&self) -> (r: Vec<i64>)
        ensures
            r@ == self@.rows.map_values(|l: ListingView| l.id),
    {
        let mut r: Vec<i64> = Vec::new();
        let mut i: usize = 0;
        while i < self.rows.len()
            invariant
                i <= self@.rows.len(),
                r@ == self@.rows.take(i as int).map_values(|l: ListingView| l.id),
            decreases self@.rows.len() - i,
        {
            r.push(self.rows[i].id);
            proof {
                assert(r@ =~= self@.rows.take(i + 1).map_values(|l: ListingView| l.id));
            }
            i = i + 1;
        }
        proof {
            assert(self@.rows.take(i as int) =~= self@.rows);
        }
        r
    }

    /// Whether another listing can still be given an id.
    pub fn has_fresh_id(&self) -> (r: bool)
        ensures
            r == (self@.next_id < i64::MAX),
    {
        self.next_id < i64::MAX
    }

    /// How many listings `owner` holds.
    pub fn count_owned(&self, owner: &str) -> (r: usize)
        requires
            self.wf(),
        ensures
            r == owned_by(self@.rows, owner@).len(),
    {
        let ghost all = self@.rows;
        let ghost pred = |l: ListingView| l.owner == owner@;
        let mut n: usize = 0;
        let mut i: usize = 0;
        while i < self.rows.len()
            invariant
                i <= all.len(),
                all == self@.rows,
                pred == (|l: ListingView| l.owner == owner@),
                n == all.take(i as int).filter(pred).len(),
                n <= i,
            decreases all.len() - i,
        {
            proof {
                all.take(i as int).lemma_filter_push(all[i as int], pred);
                assert(all.take(i as int).push(all[i as int]) =~= all.take(i + 1));
            }
            if text_is(self.rows[i].owner.as_str(), owner) {
                n = n + 1;
            }
            i = i + 1;
        }
        proof {
            assert(all.take(i as int) =~= all);
        }
        n
    }

    /// Posts `candidate` at time `now`. It is turned down, and nothing is
    /// stored, when its items are equal, a quantity is zero, the description
    /// is too long, an item is not in `catalog`, or its owner already holds
    /// the quota of listings; else it is stored under the next id, which is
    /// returned.
    pub fn create(&mut self, catalog: &Catalog, candidate: NewListing, now: i64) -> (r: Result<
        i64,
        CreateError,
    >)
        requires
            old(self).wf(),
            old(self)@.next_id < i64::MAX,
        ensures
            final(self).wf(),
            rejection(old(self)@.rows, catalog@, candidate) is Some ==> r == Err::<i64, CreateError>(
                rejection(old(self)@.rows, catalog@, candidate)->Some_0,
            ) && final(self)@ == old(self)@,
            rejection(old(self)@.rows, catalog@, candidate) is None ==> r == Ok::<i64, CreateError>(
                old(self)@.next_id,
            ) && final(self)@ == created(old(self)@, candidate, now),
    {
        let ghost c = candidate;
        if text_is(candidate.offer_item.as_str(), candidate.request_item.as_str()) {
            return Err(CreateError::DuplicateItem);
        }
        if candidate.offer_quantity == 0 || candidate.request_quantity == 0 {
            return Err(CreateError::ZeroQuantity);
        }
        let description = match candidate.description {
            Some(d) => d,
            None => String::new(),
        };
        if description.as_str().unicode_len() > MAX_DESCRIPTION_CHARS {
            return Err(CreateError::DescriptionTooLong);
        }
        if !catalog.contains(candidate.offer_item.as_str()) || !catalog.contains(
            candidate.request_item.as_str(),
        ) {
            return Err(CreateError::UnknownItem);
        }
        if self.count_owned(candidate.owner.as_str()) >= OWNER_QUOTA {
            return Err(CreateError::QuotaExceeded);
        }
        let offer_count = match candidate.offer_count {
            Some(n) => n,
            None => 1,
        };
        let id = self.next_id;
        let listing = Listing {
            id,
            offer_quantity: candidate.offer_quantity,
            offer_item: candidate.offer_item,
            request_quantity: candidate.request_quantity,
            request_item: candidate.request_item,
            location_north: candidate.location_north,
            location_east: candidate.location_east,
            owner: candidate.owner,
            offer_count,
            description,
            created_at: now,
        };
        let ghost before = self@;
        self.rows.push(listing);
        self.next_id = id + 1;
        proof {
            assert(listing@ == c.stored_as(id, now));
            assert(self@.rows =~= before.rows.push(listing@));
            assert forall|i: int| 0 <= i < self@.rows.len() implies stored_row(
                #[trigger] self@.rows[i],
                self@.next_id,
            ) by {
                if i < before.rows.len() {
                    assert(stored_row(before.rows[i], before.next_id));
                }
            }
            assert forall|a: int, b: int|
                0 <= a < b < self@.rows.len() implies #[trigger] self@.rows[a].id
                < #[trigger] self@.rows[b].id by {
                if b < before.rows.len() {
                    assert(before.rows[a].id < before.rows[b].id);
                } else {
                    assert(stored_row(before.rows[a], before.next_id));
                }
            }
        }
        Ok(id)
    }

    /// Removes the listing with this id if `owner` holds it, and tells
    /// whether it did. A listing that does not exist and one that someone
    /// else holds give the same answer.
    pub fn delete_owned(&mut self, id: i64, owner: &str) -> (r: bool)
        requires
            old(self).wf(),
        ensures
            final(self).wf(),
            final(self)@.next_id == old(self)@.next_id,
            r == holds(old(self)@.rows, id, owner@),
            r ==> exists|i: int|
                0 <= i < old(self)@.rows.len() && old(self)@.rows[i].id == id
                    && old(self)@.rows[i].owner == owner@ && final(self)@.rows == old(
                    self,
                )@.rows.remove(i),
            !r ==> final(self)@ == old(self)@,
    {
        let ghost before = self@;
        let mut i: usize = 0;
        while i < self.rows.len()
            invariant
                i <= before.rows.len(),
                self@ == before,
                before == old(self)@,
                store_wf(before),
                forall|k: int|
                    0 <= k < i ==> !(#[trigger] before.rows[k].id == id && before.rows[k].owner
                        == owner@),
            decreases before.rows.len() - i,
        {
            if self.rows[i].id == id && text_is(self.rows[i].owner.as_str(), owner) {
                proof {
                    assert(before.rows[i as int].id == id);
                    assert(before.rows[i as int].owner == owner@);
                    assert(holds(before.rows, id, owner@));
                }
                self.rows.remove(i);
                proof {
                    assert(self@.rows =~= before.rows.remove(i as int));
                    assert(self@.next_id == before.next_id);
                    assert forall|k: int| 0 <= k < self@.rows.len() implies stored_row(
                        #[trigger] self@.rows[k],
                        self@.next_id,
                    ) by {
                        if k < i {
                            assert(self@.rows[k] == before.rows[k]);
                        } else {
                            assert(self@.rows[k] == before.rows[k + 1]);
                        }
                    }
                    assert forall|a: int, b: int|
                        0 <= a < b < self@.rows.len() implies #[trigger] self@.rows[a].id
                        < #[trigger] self@.rows[b].id by {
                        let a0 = if a < i { a } else { a + 1 };
                        let b0 = if b < i { b } else { b + 1 };
                        assert(self@.rows[a] == before.rows[a0]);
                        assert(self@.rows[b] == before.rows[b0]);
                        assert(before.rows[a0].id < before.rows[b0].id);
                    }
                }
                return true;
            }
            i = i + 1;
        }
        false
    }

    /// The listing with this id, if there is one.
    pub fn get_by_id(&self, id: i64) -> (r: Option<Listing>)
        requires
            self.wf(),
        ensures
            match r {
                Some(l) => find_id(self@.rows, id) == Some(l@),
                None => find_id(self@.rows, id) is None,
            },
    {
        let ghost all = self@.rows;
        let mut i: usize = 0;
        while i < self.rows.len()
            invariant
                i <= all.len(),
                all == self@.rows,
                ids_ascending(all),
                forall|k: int| 0 <= k < i ==> #[trigger] all[k].id != id,
            decreases all.len() - i,
        {
            if self.rows[i].id == id {
                proof {
                    assert(all[i as int].id == id);
                    let j = choose|j: int| 0 <= j < all.len() && #[trigger] all[j].id == id;
                    if j < i {
                        assert(all[j].id < all[i as int].id);
                    } else if j > i {
                        assert(all[i as int].id < all[j].id);
                    }
                }
                return Some(self.rows[i].duplicate());
            }
            i = i + 1;
        }
        None
    }

    /// The listings that `owner` holds, oldest first.
    pub fn list_by_owner(&self, owner: &str) -> (r: Vec<Listing>)
        requires
            self.wf(),
        ensures
            views(r@) == owned_by(self@.rows, owner@),
    {
        let q = Query::Owner(owner);
        let r = select(&self.rows, &q, self.next_id);
        proof {
            assert((|l: ListingView| q.admits(l)) =~= (|l: ListingView| l.owner == owner@));
        }
        r
    }

    /// The listings within the square window of half-width `radius` around
    /// (`north`, `east`), oldest first.
    pub fn search_nearby(&self, north: i32, east: i32, radius: i32) -> (r: Vec<Listing>)
        requires
            self.wf(),
        ensures
            views(r@) == nearby(self@.rows, north, east, radius),
    {
        let q = Query::Window(north, east, radius);
        let r = select(&self.rows, &q, self.next_id);
        proof {
            assert((|l: ListingView| q.admits(l)) =~= (|l: ListingView|
                in_window(l, north, east, radius)));
        }
        r
    }

    /// The listings within the square window of half-width `radius` around
    /// (`north`, `east`) that offer `item` (role `Selling`) or ask for it
    /// (role `Buying`), oldest first.
    pub fn search_by_role(&self, item: &str, north: i32, east: i32, radius: i32, role: Role) -> (r:
        Vec<Listing>)
        requires
            self.wf(),
        ensures
            views(r@) == nearby_in_role(self@.rows, item@, north, east, radius, role),
    {
        let q = Query::RoleWindow(item, role, north, east, radius);
        let r = select(&self.rows, &q, self.next_id);
        proof {
            assert((|l: ListingView| q.admits(l)) =~= (|l: ListingView|
                in_window(l, north, east, radius) && plays_role(l, item@, role)));
        }
        r
    }

    /// Removes every listing that at time `now` is older than `age`
    /// (`now - created_at > age`), and returns how many it removed.
    pub fn purge_older_than(&mut self, now: i64, age: i64) -> (r: usize)
        requires
            old(self).wf(),
        ensures
            final(self).wf(),
            final(self)@.next_id == old(self)@.next_id,
            final(self)@.rows == unexpired(old(self)@.rows, now, age),
            r == old(self)@.rows.len() - final(self)@.rows.len(),
    {
        let q = Query::Fresh(now, age);
        let kept = select(&self.rows, &q, self.next_id);
        proof {
            assert((|l: ListingView| q.admits(l)) =~= (|l: ListingView|
                !expired(l.created_at, now, age)));
            self@.rows.lemma_filter_len(|l: ListingView| !expired(l.created_at, now, age));
        }
        let removed = self.rows.len() - kept.len();
        self.rows = kept;
        removed
    }

    /// One run of the sweeper at time `now`: removes the listings older than
    /// the expiry age and returns how many it removed.
    pub fn sweep(&mut self, now: i64) -> (r: usize)
        requires
            old(self).wf(),
        ensures
            final(self).wf(),
            final(self)@.next_id == old(self)@.next_id,
            final(self)@.rows == unexpired(old(self)@.rows, now, EXPIRY_AGE_SECS),
            r == old(self)@.rows.len() - final(self)@.rows.len(),
    {
        self.purge_older_than(now, EXPIRY_AGE_SECS)
    }

    /// A store holding `rows`, oldest first, whose next listing gets
    /// `next_id`; as kept by a previous run. `None` unless the rows obey the
    /// store's invariant: ids ascend, lie in `1..next_id`, and every row obeys
    /// the structural rules.
    pub fn restore(rows: Vec<Listing>, next_id: i64) -> (r: Option<ListingStore>)
        ensures
            r is Some <==> store_wf(StoreView { rows: views(rows@), next_id }),
            r is Some ==> r->Some_0.wf() && r->Some_0@ == (StoreView { rows: views(rows@), next_id }),
    {
        let ghost all = views(rows@);
        if next_id < 1 {
            return None;
        }
        let mut i: usize = 0;
        while i < rows.len()
            invariant
                i <= all.len(),
                all == views(rows@),
                1 <= next_id,
                forall|a: int, b: int| 0 <= a < b < i ==> #[trigger] all[a].id < #[trigger] all[b].id,
                forall|k: int| 0 <= k < i ==> stored_row(#[trigger] all[k], next_id),
            decreases all.len() - i,
        {
            let l = &rows[i];
            proof {
                assert(all[i as int] == l@);
            }
            if text_is(l.offer_item.as_str(), l.request_item.as_str()) || l.offer_quantity == 0
                || l.request_quantity == 0 || l.description.as_str().unicode_len()
                > MAX_DESCRIPTION_CHARS || l.id < 1 || l.id >= next_id {
                return None;
            }
            if i > 0 && rows[i - 1].id >= l.id {
                proof {
                    assert(all[i - 1].id >= all[i as int].id);
                }
                return None;
            }
            proof {
                assert forall|a: int, b: int| 0 <= a < b < i + 1 implies #[trigger] all[a].id
                    < #[trigger] all[b].id by {
                    if b == i && a < i - 1 {
                        assert(all[a].id < all[i - 1].id);
                    }
                }
            }
            i = i + 1;
        }
        Some(ListingStore { rows, next_id })
    }
}

} // verus!

verus! {

/// Ids are unique and only grow: a created listing gets an id above that of
/// every listing already stored, and a creation made later in the life of the
/// store, whatever happened in between (operations never lower `next_id`),
/// gets a larger id than an earlier one and one that no stored listing has.
pub proof fn lemma_ids_unique_and_increasing(
    s0: StoreView,
    c1: NewListing,
    t1: i64,
    s2: StoreView,
    c2: NewListing,
    t2: i64,
)
    requires
        store_wf(s0),
        store_wf(s2),
        s0.next_id < i64::MAX,
        created(s0, c1, t1).next_id <= s2.next_id,
    ensures
        forall|i: int| 0 <= i < s0.rows.len() ==> #[trigger] s0.rows[i].id < s0.next_id,
        forall|i: int| 0 <= i < s2.rows.len() ==> #[trigger] s2.rows[i].id != s2.next_id,
        s0.next_id < s2.next_id,
        ids_ascending(created(s0, c1, t1).rows),
        s2.next_id < i64::MAX ==> ids_ascending(created(s2, c2, t2).rows),
{
    assert forall|i: int| 0 <= i < s0.rows.len() implies #[trigger] s0.rows[i].id < s0.next_id by {
        assert(stored_row(s0.rows[i], s0.next_id));
    }
    assert forall|i: int| 0 <= i < s2.rows.len() implies #[trigger] s2.rows[i].id != s2.next_id by {
        assert(stored_row(s2.rows[i], s2.next_id));
    }
    lemma_created_ascending(s0, c1, t1);
    if s2.next_id < i64::MAX {
        lemma_created_ascending(s2, c2, t2);
    }
}

proof fn lemma_created_ascending(s: StoreView, c: NewListing, t: i64)
    requires
        store_wf(s),
        s.next_id < i64::MAX,
    ensures
        ids_ascending(created(s, c, t).rows),
{
    let rows = created(s, c, t).rows;
    assert forall|a: int, b: int| 0 <= a < b < rows.len() implies #[trigger] rows[a].id
        < #[trigger] rows[b].id by {
        assert(stored_row(s.rows[a], s.next_id));
        if b < s.rows.len() {
            assert(s.rows[a].id < s.rows[b].id);
        }
    }
}

/// Right after a creation, looking up the returned id finds the submission
/// as stored: its fields, the default offer count and description where it
/// gave none, that id and the creation time.
pub proof fn lemma_create_then_find(s: StoreView, c: NewListing, now: i64)
    requires
        store_wf(s),
        s.next_id < i64::MAX,
    ensures
        find_id(created(s, c, now).rows, s.next_id) == Some(c.stored_as(s.next_id, now)),
{
    let rows = created(s, c, now).rows;
    let last = rows.len() - 1;
    assert(rows[last].id == s.next_id);
    let j = choose|j: int| 0 <= j < rows.len() && #[trigger] rows[j].id == s.next_id;
    if j < last {
        assert(stored_row(s.rows[j], s.next_id));
    }
}

/// A search for sellers and a search for buyers of the same item in the
/// same window share no listing, since no listing trades an item for itself.
pub proof fn lemma_roles_disjoint(s: StoreView, item: Seq<char>, north: i32, east: i32, radius: i32)
    requires
        store_wf(s),
    ensures
        forall|l: ListingView|
            #[trigger] nearby_in_role(s.rows, item, north, east, radius, Role::Selling).contains(l)
                ==> !nearby_in_role(s.rows, item, north, east, radius, Role::Buying).contains(l),
{
    let sell = |x: ListingView| in_window(x, north, east, radius) && plays_role(x, item, Role::Selling);
    let buy = |x: ListingView| in_window(x, north, east, radius) && plays_role(x, item, Role::Buying);
    assert forall|l: ListingView|
        #[trigger] nearby_in_role(s.rows, item, north, east, radius, Role::Selling).contains(
            l,
        ) implies !nearby_in_role(s.rows, item, north, east, radius, Role::Buying).contains(l) by {
        s.rows.lemma_filter_contains_rev(sell, l);
        let i = choose|i: int| 0 <= i < s.rows.len() && s.rows[i] == l;
        assert(stored_row(s.rows[i], s.next_id));
        let j = choose|j: int| 0 <= j < s.rows.filter(sell).len() && s.rows.filter(sell)[j] == l;
        s.rows.lemma_filter_pred(sell, j);
        if s.rows.filter(buy).contains(l) {
            let k = choose|k: int| 0 <= k < s.rows.filter(buy).len() && s.rows.filter(buy)[k] == l;
            s.rows.lemma_filter_pred(buy, k);
        }
    }
}

} // verus!
