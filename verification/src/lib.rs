//! A sorted-vector map: key-value pairs kept in one contiguous vector,
//! strictly ascending by key, with a pluggable search strategy.
//!
//! - `order`: the total order on keys that everything else rests on.
//! - `lookup`: what a correct search answer is, and three strategies that
//!   give it.
//! - `pairs`, `merge`: the mathematical model, a sequence of pairs with
//!   ascending keys, and what each edit does to it.
//! - `map`: the map.
//! - `entry`: a key's place in the map, found by one search.
//! - `iter`, `iter_mut`: iterators from either end.
//! - `relate`: equality and order between maps.

pub mod entry;
pub mod iter;
pub mod iter_mut;
pub mod lookup;
pub mod map;
pub mod merge;
pub mod order;
pub mod pairs;
pub mod relate;

pub use crate::entry::{Entry, OccupiedEntry, VacantEntry};
pub use crate::iter::{IntoIter, Iter, Keys, Values};
pub use crate::iter_mut::{IterMut, ValuesMut};
pub use crate::lookup::{BinarySearch, LinearBack, LinearFront, Lookup};
pub use crate::map::FlatMap;
