//! A barter board: players post listings that offer a quantity of one item
//! for a quantity of another at a map coordinate, and others search them by
//! proximity, item and role. The listing store, the item catalog and the
//! paginated rendering of results are verified here.

pub mod catalog;
pub mod listing;
pub mod pages;
pub mod store;
pub mod text;
