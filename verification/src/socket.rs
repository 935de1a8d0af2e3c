//! CPU socket (NUMA node) bookkeeping.
//!
//! The execution environment reports, once at start-up, the socket id
//! of each socket index and the socket id serving each lcore; the
//! manager answers every later query from that data alone.  Socket ids
//! need not be contiguous or zero-based, which is why an index and an
//! id are distinct types.

use vstd::prelude::*;

verus! {

/// A socket id: identifies a NUMA node.  Not an index — the ids on a
/// machine need not be contiguous.
#[derive(Clone, Copy, PartialEq, Eq, Structural, Debug)]
pub struct SocketId(pub u32);

impl SocketId {
    /// The raw id value, as handed to native device and queue setup.
    pub fn as_c_uint(&self) -> (r: u32)
        ensures
            r == self.0,
    {
        self.0
    }
}

/// A zero-based index into the list of sockets on the machine.
#[derive(Clone, Copy, PartialEq, Eq, Structural, Debug)]
pub struct Index(pub u32);

impl From<Index> for u32 {
    fn from(index: Index) -> (r: u32) {
        index.0
    }
}

impl vstd::std_specs::convert::FromSpecImpl<Index> for u32 {
    open spec fn obeys_from_spec() -> bool {
        true
    }

    open spec fn from_spec(index: Index) -> u32 {
        index.0
    }
}

impl From<u32> for Index {
    fn from(index: u32) -> (r: Index) {
        Index(index)
    }
}

impl vstd::std_specs::convert::FromSpecImpl<u32> for Index {
    open spec fn obeys_from_spec() -> bool {
        true
    }

    open spec fn from_spec(index: u32) -> Index {
        Index(index)
    }
}

/// A preference for which socket a resource should live on.
#[derive(Clone, Copy, PartialEq, Eq, Structural, Debug)]
pub enum Preference {
    /// The socket of the lcore the caller runs on.
    CurrentThread,
    /// A specific socket.
    Id(SocketId),
    /// The socket of a specific lcore.
    LCore(u32),
}

/// Socket manager: the machine's socket topology as reported by the
/// execution environment at initialization.
pub struct Manager {
    socket_ids: Vec<u32>,
    lcore_sockets: Vec<u32>,
}

impl Manager {
    /// The socket id at each socket index.
    pub closed spec fn spec_socket_ids(self) -> Seq<u32> {
        self.socket_ids@
    }

    /// The socket id serving each lcore.
    pub closed spec fn spec_lcore_sockets(self) -> Seq<u32> {
        self.lcore_sockets@
    }

    /// The reported topology is small enough that counts fit the native
    /// unsigned width.
    pub open spec fn wf(self) -> bool {
        &&& self.spec_socket_ids().len() <= u32::MAX
        &&& self.spec_lcore_sockets().len() <= u32::MAX
    }

    /// Initialize the manager from the topology the environment
    /// reports: the socket id per socket index and per lcore.
    pub fn init(socket_ids: Vec<u32>, lcore_sockets: Vec<u32>) -> (r: Manager)
        requires
            socket_ids@.len() <= u32::MAX,
            lcore_sockets@.len() <= u32::MAX,
        ensures
            r.wf(),
            r.spec_socket_ids() == socket_ids@,
            r.spec_lcore_sockets() == lcore_sockets@,
    {
        Manager { socket_ids, lcore_sockets }
    }

    /// The number of sockets (NUMA nodes) on the machine.
    pub fn count(&self) -> (r: u32)
        requires
            self.wf(),
        ensures
            r == self.spec_socket_ids().len(),
    {
        self.socket_ids.len() as u32
    }

    /// Look up a socket id by its index; `None` if the index is out of
    /// range.
    pub fn id_for_index(&self, index: Index) -> (r: Option<SocketId>)
        ensures
            match r {
                Some(s) => (index.0 as int) < self.spec_socket_ids().len() && s == SocketId(
                    self.spec_socket_ids()[index.0 as int],
                ),
                None => (index.0 as int) >= self.spec_socket_ids().len(),
            },
    {
        if (index.0 as usize) < self.socket_ids.len() {
            Some(SocketId(self.socket_ids[index.0 as usize]))
        } else {
            None
        }
    }

    /// Look up the socket id serving an lcore; `None` if the lcore is
    /// not a valid lcore of the machine.
    pub fn id_for_lcore(&self, lcore: u32) -> (r: Option<SocketId>)
        ensures
            match r {
                Some(s) => (lcore as int) < self.spec_lcore_sockets().len() && s == SocketId(
                    self.spec_lcore_sockets()[lcore as int],
                ),
                None => (lcore as int) >= self.spec_lcore_sockets().len(),
            },
    {
        if (lcore as usize) < self.lcore_sockets.len() {
            Some(SocketId(self.lcore_sockets[lcore as usize]))
        } else {
            None
        }
    }

    /// All socket ids on the machine, in index order.
    pub fn iter(&self) -> (r: Vec<SocketId>)
        ensures
            r@.len() == self.spec_socket_ids().len(),
            forall|i: int|
                0 <= i < r@.len() ==> r@[i] == SocketId(self.spec_socket_ids()[i]),
    {
        let mut out: Vec<SocketId> = Vec::new();
        let mut i: usize = 0;
        while i < self.socket_ids.len()
            invariant
                i <= self.socket_ids@.len(),
                out@.len() == i,
                forall|j: int| 0 <= j < i ==> out@[j] == SocketId(self.socket_ids@[j]),
            decreases self.socket_ids@.len() - i,
        {
            out.push(SocketId(self.socket_ids[i]));
            i = i + 1;
        }
        out
    }

    /// Resolve a socket preference to a socket id, given the lcore the
    /// caller currently runs on; `None` when the named lcore is not
    /// valid.
    pub fn id_for_preference(&self, preference: Preference, current_lcore: u32) -> (r: Option<
        SocketId,
    >)
        ensures
            match preference {
                Preference::CurrentThread => r == self.id_for_lcore_spec(current_lcore),
                Preference::Id(id) => r == Some(id),
                Preference::LCore(lcore) => r == self.id_for_lcore_spec(lcore),
            },
    {
        match preference {
            Preference::CurrentThread => self.id_for_lcore(current_lcore),
            Preference::Id(id) => Some(id),
            Preference::LCore(lcore) => self.id_for_lcore(lcore),
        }
    }

    /// What looking up an lcore's socket returns.
    pub open spec fn id_for_lcore_spec(self, lcore: u32) -> Option<SocketId> {
        if (lcore as int) < self.spec_lcore_sockets().len() {
            Some(SocketId(self.spec_lcore_sockets()[lcore as int]))
        } else {
            None
        }
    }
}

} // verus!
