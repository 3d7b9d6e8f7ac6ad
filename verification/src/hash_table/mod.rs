//! Hash table: a growable array of buckets over a split-ordered list.

pub mod growable_array;
pub mod split_ordered_list;

pub use growable_array::GrowableArray;
pub use split_ordered_list::SplitOrderedList;
