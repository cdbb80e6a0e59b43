//! A property graph in the keys of a sorted key-value store.
//!
//! Things, attributes and the edges between them are written as fixed-width
//! keys with empty values. [`concept`] defines the keys, [`storage`] decides
//! where each kind of key lives and which keys a mutation or a query needs, and
//! [`scan`] reads prefix scans off the keys that a store hands out. The store
//! itself is not part of the library: [`model`] states, over any store that
//! keeps its keys sorted, what the lookups find and that the three layouts of
//! the backend answer alike. [`agent`] is the workload that drives the
//! backend, [`memtable`] and [`sorted_array`] are two sorted tables in memory.

use vstd::prelude::*;

pub mod agent;
pub mod bytes;
pub mod concept;
pub mod memtable;
pub mod model;
pub mod order;
pub mod random;
pub mod relation;
pub mod scan;
pub mod sorted_array;
pub mod storage;
