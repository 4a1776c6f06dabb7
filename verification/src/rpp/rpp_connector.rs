//! Cache operations on top of plain memory accesses.
use crate::connection::{Address, MemoryConnector, Time};
use crate::rpp::Contents;
use vstd::prelude::*;

verus! {

/// `rand::random`: a byte, which differs from call to call.
#[verifier::external_body]
fn random_contents() -> Contents {
    rand::random()
}

/// One access to memory that a connector has completed over its connection.
pub ghost enum MemoryAccess {
    /// A buffer of this size was allocated.
    Allocated(usize),
    /// This byte was written at the address.
    Written(Address, Contents),
    /// A read of the address was timed and took so long.
    Timed(Address, Time),
}

/// Since `before`, exactly one byte was written: `what`, at `x`.
pub open spec fn wrote(
    before: Seq<MemoryAccess>,
    after: Seq<MemoryAccess>,
    x: Address,
    what: Contents,
) -> bool {
    after == before.push(MemoryAccess::Written(x, what))
}

/// The writes of these bytes, in their order, each at the address of the same
/// place in `addrs`.
pub open spec fn writes(addrs: Seq<Address>, bytes: Seq<Contents>) -> Seq<MemoryAccess> {
    Seq::new(bytes.len(), |i: int| MemoryAccess::Written(addrs[i], bytes[i]))
}

/// Since `before`, exactly these bytes were written, one at each of the first
/// addresses of `addrs`.
pub open spec fn written_since(
    before: Seq<MemoryAccess>,
    after: Seq<MemoryAccess>,
    addrs: Seq<Address>,
    bytes: Seq<Contents>,
) -> bool {
    bytes.len() <= addrs.len() && after == before + writes(addrs, bytes)
}

/// Turns accesses to memory into operations on the cache in front of it. A
/// write allocates a line in the cache, which over a connection with direct
/// cache access is the way to do so; what is written does not matter.
pub struct RppConnector<M>(M, Ghost<Seq<MemoryAccess>>);

impl<M> RppConnector<M> {
    /// The connection that is wrapped.
    pub closed spec fn inner(&self) -> M {
        self.0
    }

    /// The accesses that the connector has completed over its connection, in
    /// their order.
    pub closed spec fn accesses(&self) -> Seq<MemoryAccess> {
        self.1@
    }

    /// Wraps a connection to memory.
    pub fn new(conn: M) -> (c: RppConnector<M>)
        ensures
            c.inner() == conn,
            c.accesses() == Seq::<MemoryAccess>::empty(),
    {
        RppConnector(conn, Ghost(Seq::empty()))
    }
}

impl<M> From<M> for RppConnector<M> {
    fn from(conn: M) -> (c: RppConnector<M>) {
        RppConnector(conn, Ghost(Seq::empty()))
    }
}

impl<M> vstd::std_specs::convert::FromSpecImpl<M> for RppConnector<M> {
    open spec fn obeys_from_spec() -> bool {
        true
    }

    closed spec fn from_spec(conn: M) -> RppConnector<M> {
        RppConnector(conn, Ghost(Seq::empty()))
    }
}

/// The connector that is made from a connection wraps that connection and
/// has not accessed anything yet.
pub proof fn lemma_connector_from<M>(conn: M)
    ensures
        <RppConnector<M> as vstd::std_specs::convert::FromSpec<M>>::from_spec(conn).inner() == conn,
        <RppConnector<M> as vstd::std_specs::convert::FromSpec<M>>::from_spec(conn).accesses()
            == Seq::<MemoryAccess>::empty(),
{
}

impl<M: MemoryConnector<Item = Contents>> RppConnector<M> {
    /// Allocates a line of the cache for `x`, by a write of a random byte at
    /// `x`. Fails where the write does, and has then written nothing.
    pub fn cache(&mut self, x: Address) -> (r: Result<(), std::io::Error>)
        ensures
            r is Ok ==> exists|what: Contents|
                #[trigger] wrote(old(self).accesses(), final(self).accesses(), x, what),
            r is Err ==> final(self).accesses() == old(self).accesses(),
    {
        let what = random_contents();
        match self.0.write(x, &what) {
            Ok(()) => {
                self.1 = Ghost(self.1@.push(MemoryAccess::Written(x, what)));
                proof {
                    assert(wrote(old(self).accesses(), self.accesses(), x, what));
                }
                Ok(())
            },
            Err(e) => Err(e),
        }
    }

    /// Allocates a line of the cache for each address, in the order given,
    /// by a write of a random byte at the address, which may evict what was
    /// cached before. Stops at the first write that fails: it succeeds where
    /// every address was written at, as it does where there is none.
    pub fn evict(&mut self, addrs: &[Address]) -> (r: Result<(), std::io::Error>)
        ensures
            exists|bytes: Seq<Contents>|
                {
                    &&& #[trigger] written_since(
                        old(self).accesses(),
                        final(self).accesses(),
                        addrs@,
                        bytes,
                    )
                    &&& r is Ok <==> bytes.len() == addrs@.len()
                },
    {
        let mut i: usize = 0;
        let ghost mut bytes: Seq<Contents> = Seq::empty();
        proof {
            assert(self.accesses() =~= old(self).accesses() + writes(addrs@, bytes));
        }
        while i < addrs.len()
            invariant
                i <= addrs.len(),
                bytes.len() == i,
                self.accesses() == old(self).accesses() + writes(addrs@, bytes),
            decreases addrs.len() - i,
        {
            let what = random_contents();
            match self.0.write(addrs[i], &what) {
                Ok(()) => {
                    self.1 = Ghost(self.1@.push(MemoryAccess::Written(addrs[i as int], what)));
                    proof {
                        bytes = bytes.push(what);
                        assert(self.accesses() =~= old(self).accesses() + writes(addrs@, bytes));
                    }
                },
                Err(e) => {
                    proof {
                        assert(written_since(
                            old(self).accesses(),
                            self.accesses(),
                            addrs@,
                            bytes,
                        ));
                    }
                    return Err(e);
                },
            }
            i += 1;
        }
        proof {
            assert(written_since(old(self).accesses(), self.accesses(), addrs@, bytes));
        }
        Ok(())
    }

    /// Times a read of `addr`: returns the time that the timed read of the
    /// connection gave. Fails where the read does.
    pub fn time(&mut self, addr: Address) -> (r: Result<Time, std::io::Error>)
        ensures
            r matches Ok(t) ==> final(self).accesses() == old(self).accesses().push(
                MemoryAccess::Timed(addr, t),
            ),
            r is Err ==> final(self).accesses() == old(self).accesses(),
    {
        match self.0.read_timed(addr) {
            Ok((_, t)) => {
                self.1 = Ghost(self.1@.push(MemoryAccess::Timed(addr, t)));
                Ok(t)
            },
            Err(e) => Err(e),
        }
    }

    /// Allocates a buffer of the given size behind the connection.
    pub fn allocate(&mut self, size: usize)
        ensures
            final(self).accesses() == old(self).accesses().push(MemoryAccess::Allocated(size)),
    {
        self.0.allocate(size);
        self.1 = Ghost(self.1@.push(MemoryAccess::Allocated(size)));
    }
}

} // verus!
