//! Saving of the measurements that the tracker gathers.
use vstd::prelude::*;

verus! {

/// A sink that measurements are appended to.
pub trait Record<T> {
    /// Saves `data` to the underlying storage.
    fn record(&mut self, data: T) -> Result<(), std::io::Error>;
}

/// A vector just keeps what is recorded, in the order of recording.
impl<T> Record<T> for Vec<T> {
    fn record(&mut self, data: T) -> (r: Result<(), std::io::Error>)
        ensures
            r is Ok,
            final(self)@ == old(self)@.push(data),
    {
        self.push(data);
        Ok(())
    }
}

} // verus!
