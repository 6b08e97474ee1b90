//! Inventory of storage containers and the items they hold, kept in one flat
//! ordered key-value keyspace.
//!
//! The keyspace offers point lookup, upsert, delete and an ordered scan by
//! key prefix, and nothing else. Locations, containers, items, images and
//! session tokens share it: a tag byte opens every key, and an item's key
//! holds the identifier of its container before its own, so that the items
//! of one container lie together.
//!
//! - [`key`] encodes and decodes the keys.
//! - [`record`] encodes and decodes the stored records.
//! - [`store`] is an ordered table with the four operations, and the form
//!   in which changes are handed over.
//! - [`location`], [`container`] and [`item`] read and change the
//!   collections, under the two roots of [`schema`].
//! - [`images`] keeps the images, [`barcode`] draws the labels.
//! - [`user_session`] issues, checks and revokes session tokens.
//! - [`laws`] states what holds of these operations together.
//!
//! Every changing operation comes in two forms. The `plan_` functions take
//! what was read from the keyspace and return the changes to make, in
//! order; they touch no store, so that a caller who keeps the keyspace in an
//! engine of its own can read, plan and write. The functions without the
//! prefix do the same on a [`store::RecordStore`]. No operation that makes
//! more than one change is atomic: the order of the changes says what a
//! reader may see in between.

pub mod barcode;
pub mod config;
pub mod container;
pub mod images;
pub mod item;
pub mod key;
pub mod laws;
pub mod location;
pub mod record;
pub mod schema;
pub mod stamp;
pub mod store;
pub mod user_session;
