//! An adaptive recall scheduler: named items in named lists are presented
//! over and over, and each accept or deferral recomputes when an item is
//! next due, from the item's own history and the list's aggregate history.
//!
//! Timing runs on a virtual clock: the sum of all accept counts in a list.
//! Every operation keeps the item sequence sorted by the `next` field, and
//! the whole sequence is serialized to a key-value record format whose
//! parser is proved to invert the serializer.

pub mod bytes;
pub mod codec;
pub mod encoding;
pub mod jitter;
pub mod laws;
pub mod list;
pub mod store;
pub mod thing;
pub mod time;

pub use list::ThingList;
pub use thing::Thing;
pub use time::geometric_mean;
pub use time::Time;
