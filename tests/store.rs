use brt::catalog::Catalog;
use brt::listing::{Listing, NewListing, Role};
use brt::store::{CreateError, ListingStore, EXPIRY_AGE_SECS, OWNER_QUOTA};

fn catalog() -> Catalog {
    let mut c = Catalog::new();
    for n in ["Rough Cloth (T1)", "Hex Coin", "Flint Saw (T1)", "Plank (T2)"] {
        c.insert(n.to_string());
    }
    c
}

fn offer(owner: &str, offer_item: &str, request_item: &str, north: i32, east: i32) -> NewListing {
    NewListing {
        offer_quantity: 1,
        offer_item: offer_item.to_string(),
        request_quantity: 100,
        request_item: request_item.to_string(),
        location_north: north,
        location_east: east,
        owner: owner.to_string(),
        offer_count: None,
        description: None,
    }
}

fn ids(rows: &[Listing]) -> Vec<i64> {
    rows.iter().map(|l| l.id).collect()
}

#[test]
fn create_assigns_increasing_ids() {
    let c = catalog();
    let mut s = ListingStore::new();
    let a = s.create(&c, offer("ann", "Rough Cloth (T1)", "Hex Coin", 0, 0), 10).unwrap();
    let b = s.create(&c, offer("bob", "Hex Coin", "Plank (T2)", 0, 0), 11).unwrap();
    assert_eq!(a, 1);
    assert_eq!(b, 2);
    assert!(s.delete_owned(b, "bob"));
    let d = s.create(&c, offer("bob", "Hex Coin", "Plank (T2)", 0, 0), 12).unwrap();
    assert_eq!(d, 3);
    assert_eq!(s.next_id(), 4);
}

#[test]
fn create_then_get_by_id_round_trip() {
    let c = catalog();
    let mut s = ListingStore::new();
    let mut n = offer("ann", "Rough Cloth (T1)", "Hex Coin", 1000, -1000);
    n.offer_quantity = 3;
    n.request_quantity = -5;
    n.offer_count = Some(4);
    n.description = Some("fresh from the loom".to_string());
    let id = s.create(&c, n, 77).unwrap();
    let l = s.get_by_id(id).unwrap();
    assert_eq!(l.id, id);
    assert_eq!(l.offer_quantity, 3);
    assert_eq!(l.offer_item, "Rough Cloth (T1)");
    assert_eq!(l.request_quantity, -5);
    assert_eq!(l.request_item, "Hex Coin");
    assert_eq!(l.location_north, 1000);
    assert_eq!(l.location_east, -1000);
    assert_eq!(l.owner, "ann");
    assert_eq!(l.offer_count, 4);
    assert_eq!(l.description, "fresh from the loom");
    assert_eq!(l.created_at, 77);
}

#[test]
fn create_applies_defaults() {
    let c = catalog();
    let mut s = ListingStore::new();
    let id = s.create(&c, offer("ann", "Rough Cloth (T1)", "Hex Coin", 0, 0), 0).unwrap();
    let l = s.get_by_id(id).unwrap();
    assert_eq!(l.offer_count, 1);
    assert_eq!(l.description, "");
}

#[test]
fn create_rejects_duplicate_items() {
    let c = catalog();
    let mut s = ListingStore::new();
    let r = s.create(&c, offer("ann", "Hex Coin", "Hex Coin", 0, 0), 0);
    assert_eq!(r, Err(CreateError::DuplicateItem));
    assert_eq!(s.len(), 0);
    assert_eq!(s.next_id(), 1);
}

#[test]
fn create_rejects_zero_quantities() {
    let c = catalog();
    let mut s = ListingStore::new();
    let mut n = offer("ann", "Rough Cloth (T1)", "Hex Coin", 0, 0);
    n.offer_quantity = 0;
    assert_eq!(s.create(&c, n, 0), Err(CreateError::ZeroQuantity));
    let mut n = offer("ann", "Rough Cloth (T1)", "Hex Coin", 0, 0);
    n.request_quantity = 0;
    assert_eq!(s.create(&c, n, 0), Err(CreateError::ZeroQuantity));
    assert_eq!(s.len(), 0);
}

#[test]
fn create_checks_description_length_in_characters() {
    let c = catalog();
    let mut s = ListingStore::new();
    let mut n = offer("ann", "Rough Cloth (T1)", "Hex Coin", 0, 0);
    n.description = Some("x".repeat(301));
    assert_eq!(s.create(&c, n, 0), Err(CreateError::DescriptionTooLong));
    let mut n = offer("ann", "Rough Cloth (T1)", "Hex Coin", 0, 0);
    n.description = Some("x".repeat(300));
    assert!(s.create(&c, n, 0).is_ok());
    let mut n = offer("ann", "Rough Cloth (T1)", "Hex Coin", 0, 0);
    n.description = Some("\u{e9}".repeat(300));
    assert!(s.create(&c, n, 0).is_ok());
}

#[test]
fn create_rejects_unknown_items() {
    let c = catalog();
    let mut s = ListingStore::new();
    let r = s.create(&c, offer("ann", "Rough Cloth", "Hex Coin", 0, 0), 0);
    assert_eq!(r, Err(CreateError::UnknownItem));
    let r = s.create(&c, offer("ann", "Hex Coin", "Gold", 0, 0), 0);
    assert_eq!(r, Err(CreateError::UnknownItem));
    assert_eq!(s.len(), 0);
}

#[test]
fn create_checks_errors_in_order() {
    let c = catalog();
    let mut s = ListingStore::new();
    let mut n = offer("ann", "Gold", "Gold", 0, 0);
    n.offer_quantity = 0;
    assert_eq!(s.create(&c, n, 0), Err(CreateError::DuplicateItem));
    let mut n = offer("ann", "Gold", "Silver", 0, 0);
    n.offer_quantity = 0;
    n.description = Some("x".repeat(400));
    assert_eq!(s.create(&c, n, 0), Err(CreateError::ZeroQuantity));
    let mut n = offer("ann", "Gold", "Silver", 0, 0);
    n.description = Some("x".repeat(400));
    assert_eq!(s.create(&c, n, 0), Err(CreateError::DescriptionTooLong));
}

#[test]
fn create_enforces_owner_quota() {
    let c = catalog();
    let mut s = ListingStore::new();
    for i in 0..OWNER_QUOTA {
        assert!(s.create(&c, offer("ann", "Hex Coin", "Plank (T2)", i as i32, 0), 0).is_ok());
    }
    let r = s.create(&c, offer("ann", "Hex Coin", "Plank (T2)", 0, 0), 0);
    assert_eq!(r, Err(CreateError::QuotaExceeded));
    assert_eq!(s.len(), OWNER_QUOTA);
    assert!(s.create(&c, offer("bob", "Hex Coin", "Plank (T2)", 0, 0), 0).is_ok());
    assert_eq!(s.count_owned("ann"), 15);
    assert!(s.delete_owned(3, "ann"));
    assert!(s.create(&c, offer("ann", "Hex Coin", "Plank (T2)", 0, 0), 0).is_ok());
}

#[test]
fn delete_owned_only_by_owner() {
    let c = catalog();
    let mut s = ListingStore::new();
    let id = s.create(&c, offer("ann", "Hex Coin", "Plank (T2)", 0, 0), 0).unwrap();
    assert!(!s.delete_owned(id, "bob"));
    assert!(!s.delete_owned(id + 100, "ann"));
    assert_eq!(s.len(), 1);
    assert!(s.delete_owned(id, "ann"));
    assert_eq!(s.len(), 0);
    assert!(!s.delete_owned(id, "ann"));
    assert!(s.get_by_id(id).is_none());
}

#[test]
fn list_by_owner_in_insertion_order() {
    let c = catalog();
    let mut s = ListingStore::new();
    s.create(&c, offer("ann", "Hex Coin", "Plank (T2)", 0, 0), 0).unwrap();
    s.create(&c, offer("bob", "Hex Coin", "Plank (T2)", 0, 0), 0).unwrap();
    s.create(&c, offer("ann", "Plank (T2)", "Hex Coin", 0, 0), 0).unwrap();
    assert_eq!(ids(&s.list_by_owner("ann")), vec![1, 3]);
    assert_eq!(ids(&s.list_by_owner("bob")), vec![2]);
    assert!(s.list_by_owner("cat").is_empty());
}

#[test]
fn search_nearby_uses_square_window() {
    let c = catalog();
    let mut s = ListingStore::new();
    let coords = [(0, 0), (10, 10), (10, -10), (-10, 11), (11, 0), (7, 7), (-10, -10)];
    for (n, e) in coords {
        s.create(&c, offer("ann", "Hex Coin", "Plank (T2)", n, e), 0).unwrap();
    }
    assert_eq!(ids(&s.search_nearby(0, 0, 10)), vec![1, 2, 3, 6, 7]);
    assert_eq!(ids(&s.search_nearby(0, 0, 0)), vec![1]);
    assert_eq!(ids(&s.search_nearby(10, 10, 0)), vec![2]);
    assert!(s.search_nearby(0, 0, -1).is_empty());
    assert_eq!(ids(&s.search_nearby(100, 100, 1000)).len(), 7);
}

#[test]
fn search_nearby_at_coordinate_extremes() {
    let c = catalog();
    let mut s = ListingStore::new();
    s.create(&c, offer("ann", "Hex Coin", "Plank (T2)", i32::MAX, i32::MIN), 0).unwrap();
    s.create(&c, offer("ann", "Hex Coin", "Plank (T2)", i32::MIN, i32::MAX), 0).unwrap();
    assert_eq!(ids(&s.search_nearby(i32::MAX, i32::MIN, 0)), vec![1]);
    assert_eq!(ids(&s.search_nearby(0, 0, i32::MAX)), Vec::<i64>::new());
    assert_eq!(ids(&s.search_nearby(-1, 0, i32::MAX)), vec![2]);
}

#[test]
fn search_nearby_matches_chebyshev_distance() {
    let c = catalog();
    let mut s = ListingStore::new();
    let mut seed: u64 = 12345;
    let mut next = || {
        seed = seed.wrapping_mul(6364136223846793005).wrapping_add(1442695040888963407);
        ((seed >> 33) % 41) as i32 - 20
    };
    let mut points = Vec::new();
    for _ in 0..60 {
        let (n, e) = (next(), next());
        points.push((n, e));
        s.create(&c, offer(&format!("p{}", points.len()), "Hex Coin", "Plank (T2)", n, e), 0)
            .unwrap();
    }
    for _ in 0..30 {
        let (cn, ce, r) = (next(), next(), next().abs() / 2);
        let expected: Vec<i64> = points
            .iter()
            .enumerate()
            .filter(|(_, (n, e))| (n - cn).abs().max((e - ce).abs()) <= r)
            .map(|(i, _)| i as i64 + 1)
            .collect();
        assert_eq!(ids(&s.search_nearby(cn, ce, r)), expected);
    }
}

#[test]
fn search_by_role_filters_side() {
    let c = catalog();
    let mut s = ListingStore::new();
    s.create(&c, offer("ann", "Hex Coin", "Plank (T2)", 0, 0), 0).unwrap();
    s.create(&c, offer("bob", "Plank (T2)", "Hex Coin", 1, 1), 0).unwrap();
    s.create(&c, offer("cat", "Hex Coin", "Flint Saw (T1)", 50, 50), 0).unwrap();
    s.create(&c, offer("dan", "Rough Cloth (T1)", "Flint Saw (T1)", 0, 0), 0).unwrap();
    assert_eq!(ids(&s.search_by_role("Hex Coin", 0, 0, 5, Role::Selling)), vec![1]);
    assert_eq!(ids(&s.search_by_role("Hex Coin", 0, 0, 5, Role::Buying)), vec![2]);
    assert_eq!(ids(&s.search_by_role("Hex Coin", 0, 0, 100, Role::Selling)), vec![1, 3]);
    assert_eq!(ids(&s.search_by_role("Flint Saw (T1)", 0, 0, 100, Role::Buying)), vec![3, 4]);
    assert!(s.search_by_role("Flint Saw (T1)", 0, 0, 100, Role::Selling).is_empty());
}

#[test]
fn search_by_role_sides_are_disjoint() {
    let c = catalog();
    let mut s = ListingStore::new();
    let items = ["Hex Coin", "Plank (T2)", "Flint Saw (T1)"];
    for i in 0..9 {
        let o = items[i % 3];
        let r = items[(i + 1 + i / 3) % 3];
        if o != r {
            s.create(&c, offer("ann", o, r, i as i32, 0), 0).unwrap();
        }
    }
    for item in items {
        let sell = ids(&s.search_by_role(item, 0, 0, 100, Role::Selling));
        let buy = ids(&s.search_by_role(item, 0, 0, 100, Role::Buying));
        assert!(sell.iter().all(|id| !buy.contains(id)));
    }
}

#[test]
fn purge_keeps_listings_at_exact_age() {
    let c = catalog();
    let mut s = ListingStore::new();
    s.create(&c, offer("ann", "Hex Coin", "Plank (T2)", 0, 0), 100).unwrap();
    s.create(&c, offer("ann", "Hex Coin", "Plank (T2)", 0, 0), 99).unwrap();
    s.create(&c, offer("ann", "Hex Coin", "Plank (T2)", 0, 0), 150).unwrap();
    s.create(&c, offer("ann", "Hex Coin", "Plank (T2)", 0, 0), 101).unwrap();
    assert_eq!(s.purge_older_than(200, 100), 1);
    assert!(s.get_by_id(2).is_none());
    assert_eq!(ids(&s.list_by_owner("ann")), vec![1, 3, 4]);
    assert_eq!(s.purge_older_than(200, 100), 0);
    assert_eq!(s.purge_older_than(251, 100), 3);
    assert_eq!(s.len(), 0);
    assert_eq!(s.next_id(), 5);
}

#[test]
fn purge_with_extreme_times() {
    let c = catalog();
    let mut s = ListingStore::new();
    s.create(&c, offer("ann", "Hex Coin", "Plank (T2)", 0, 0), i64::MIN).unwrap();
    assert_eq!(s.purge_older_than(i64::MAX, i64::MAX), 1);
}

#[test]
fn sweep_uses_expiry_age() {
    let c = catalog();
    let mut s = ListingStore::new();
    s.create(&c, offer("ann", "Hex Coin", "Plank (T2)", 0, 0), 0).unwrap();
    s.create(&c, offer("ann", "Hex Coin", "Plank (T2)", 0, 0), 1).unwrap();
    assert_eq!(EXPIRY_AGE_SECS, 432000);
    assert_eq!(s.sweep(432000), 0);
    assert_eq!(s.sweep(432001), 1);
    assert_eq!(ids(&s.list_by_owner("ann")), vec![2]);
}

#[test]
fn restore_checks_invariant() {
    let c = catalog();
    let mut s = ListingStore::new();
    s.create(&c, offer("ann", "Hex Coin", "Plank (T2)", 0, 0), 0).unwrap();
    s.create(&c, offer("bob", "Plank (T2)", "Hex Coin", 0, 0), 0).unwrap();
    let rows = s.list_by_owner("ann").into_iter().chain(s.list_by_owner("bob")).collect::<Vec<_>>();
    let back = ListingStore::restore(rows, 3).unwrap();
    assert_eq!(back.len(), 2);
    assert_eq!(back.next_id(), 3);
    let rows = s.list_by_owner("ann");
    assert!(ListingStore::restore(rows, 1).is_none());
    let rows = s.list_by_owner("bob").into_iter().chain(s.list_by_owner("ann")).collect::<Vec<_>>();
    assert!(ListingStore::restore(rows, 3).is_none());
    let mut bad = s.list_by_owner("ann");
    bad[0].request_item = bad[0].offer_item.clone();
    assert!(ListingStore::restore(bad, 3).is_none());
    assert!(ListingStore::restore(Vec::new(), 0).is_none());
}

#[test]
fn has_fresh_id_on_new_store() {
    let s = ListingStore::new();
    assert!(s.has_fresh_id());
    assert_eq!(s.len(), 0);
}
