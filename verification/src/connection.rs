//! Uniform interfaces to the memory that is observed.
use vstd::prelude::*;

verus! {

/// Latency of one access, in nanoseconds.
pub type Time = u64;

/// Byte offset into the observed buffer.
pub type Address = usize;

/// Interface for accessing memory by offset.
pub trait MemoryConnector {
    /// What is read and written at one offset.
    type Item;

    /// Allocates a buffer of the given size.
    fn allocate(&mut self, size: usize);

    /// Reads the item at `ofs`.
    fn read(&self, ofs: usize) -> Result<Self::Item, std::io::Error>;

    /// Reads the item at `ofs` and reports how long the read took.
    fn read_timed(&self, ofs: usize) -> Result<(Self::Item, Time), std::io::Error>;

    /// Writes `what` at `ofs`.
    fn write(&mut self, ofs: usize, what: &Self::Item) -> Result<(), std::io::Error>;

    /// Writes `what` at `ofs` and reports how long the write took.
    fn write_timed(&mut self, ofs: usize, what: &Self::Item) -> Result<Time, std::io::Error>;
}

/// Interface for manipulating the processor cache behind a connection.
pub trait CacheConnector {
    /// The memory item that is operated on.
    type Item;

    /// Brings the memory item at `addr` into the cache.
    fn cache(&mut self, addr: Address) -> Result<(), std::io::Error>;

    /// Brings every given address into the cache, in the order given. Stops
    /// at the first failure.
    fn cache_all(&mut self, addrs: &[Address]) -> Result<(), std::io::Error> {
        let mut i: usize = 0;
        while i < addrs.len()
            invariant
                i <= addrs.len(),
            decreases addrs.len() - i,
        {
            match self.cache(addrs[i]) {
                Ok(()) => {},
                Err(e) => {
                    return Err(e);
                },
            }
            i += 1;
        }
        Ok(())
    }

    /// Times one access to `addr`.
    fn time_access(&mut self, addr: Address) -> Result<Time, std::io::Error>;

    /// Makes sure that `size` bytes of memory are there to operate on.
    fn reserve(&mut self, size: usize);
}

/// Sends the control packets that perturb the observed receive ring.
pub trait PacketSender {
    /// Sends a single packet.
    fn send_packet(&mut self) -> Result<(), std::io::Error>;
}

} // verus!
