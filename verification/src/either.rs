use vstd::prelude::*;

verus! {

/// Whether an entry had previously existed in the map being indexed, or was
/// just inserted; either way it carries the entry.
pub enum EntryExistsResult<T> {
    Existed(T),
    Inserted(T),
}

impl<T> EntryExistsResult<T> {
    /// The entry carried, whichever way it came.
    pub open spec fn entry(&self) -> T {
        match self {
            EntryExistsResult::Existed(t) => *t,
            EntryExistsResult::Inserted(t) => *t,
        }
    }
}

impl<T: Clone> EntryExistsResult<T> {
    /// A clone of the entry carried.
    pub fn unwrap(&self) -> (r: T)
        ensures
            cloned::<T>(self.entry(), r),
    {
        match self {
            EntryExistsResult::Existed(t) => t,
            EntryExistsResult::Inserted(t) => t,
        }.clone()
    }
}

} // verus!
