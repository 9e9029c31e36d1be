use vstd::prelude::*;
use vstd::std_specs::cmp::PartialEqSpec;

verus! {

/// The role of an endpoint of the network.
#[derive(Clone, Copy, Debug, PartialEq, Eq, Structural)]
pub enum PeerType {
    CSharp,
    Client,
    Server,
}

/// A transport address held as plain values: the IP address as a 128-bit number
/// (an IPv4 address in its low 32 bits when `v6` is false) and the port.
#[derive(Clone, Copy, Debug, PartialEq, Eq, Structural, Hash)]
pub struct Address {
    pub ip: u128,
    pub port: u16,
    pub v6: bool,
}

/// Hands out peer ids: 1, 2, 3, ... in order, never the same one twice.
#[derive(Debug)]
pub struct IdAllocator {
    next: usize,
}

impl IdAllocator {
    /// The id that the next allocation hands out.
    pub closed spec fn spec_next(&self) -> nat {
        self.next as nat
    }

    /// Every allocator hands out positive ids only.
    pub proof fn lemma_positive(&self)
        requires
            self.wf(),
        ensures
            self.spec_next() >= 1,
    {
    }

    pub closed spec fn wf(&self) -> bool {
        self.next >= 1
    }

    /// A fresh allocator, whose first id is 1.
    pub fn new() -> (r: IdAllocator)
        ensures
            r.wf(),
            r.spec_next() == 1,
    {
        IdAllocator { next: 1 }
    }

    /// The id that the next allocation hands out.
    pub fn peek(&self) -> (r: usize)
        ensures
            r == self.spec_next(),
    {
        self.next
    }
}

/// One allocation took `pre` to `post` and handed out `id`.
pub open spec fn allocates(pre: IdAllocator, id: usize, post: IdAllocator) -> bool {
    &&& id == pre.spec_next()
    &&& post.spec_next() == pre.spec_next() + 1
    &&& post.wf()
}

/// Takes the next id; `None`, with the allocator unchanged, once every `usize` has been used.
pub fn get_id(ids: &mut IdAllocator) -> (r: Option<usize>)
    requires
        old(ids).wf(),
    ensures
        final(ids).wf(),
        match r {
            Some(id) => allocates(*old(ids), id, *final(ids)) && id < usize::MAX,
            None => old(ids).spec_next() == usize::MAX && final(ids).spec_next() == old(
                ids,
            ).spec_next(),
        },
{
    if ids.next == usize::MAX {
        None
    } else {
        let id = ids.next;
        ids.next = ids.next + 1;
        Some(id)
    }
}

/// Ids taken one after another from one allocator increase strictly, so none repeats:
/// every id handed out after `first` is greater than it.
pub proof fn lemma_ids_increase(
    a0: IdAllocator,
    first: usize,
    a1: IdAllocator,
    second: usize,
    a2: IdAllocator,
)
    requires
        a0.wf(),
        allocates(a0, first, a1),
        allocates(a1, second, a2),
    ensures
        first < second,
        first >= 1,
        a2.spec_next() > second,
{
}

/// The mathematical value of a peer.
pub struct PeerView {
    pub id: usize,
    pub addr: Address,
    pub flag: bool,
}

/// A remote endpoint's session. Two peers are equal when their ids are,
/// whatever address each has cached.
#[derive(Clone, Copy, Debug)]
pub struct ClientPeer {
    id: usize,
    addr: Address,
    play_genshin_impact: bool,
}

impl View for ClientPeer {
    type V = PeerView;

    closed spec fn view(&self) -> PeerView {
        PeerView { id: self.id, addr: self.addr, flag: self.play_genshin_impact }
    }
}

impl PartialEq for ClientPeer {
    fn eq(&self, other: &ClientPeer) -> (r: bool)
        ensures
            r == (self@.id == other@.id),
    {
        self.id == other.id
    }
}

impl vstd::std_specs::cmp::PartialEqSpecImpl for ClientPeer {
    open spec fn obeys_eq_spec() -> bool {
        true
    }

    open spec fn eq_spec(&self, other: &ClientPeer) -> bool {
        self@.id == other@.id
    }
}

/// Peers with the same id compare equal, whatever addresses and flags they carry.
pub proof fn lemma_peer_eq_by_id(a: ClientPeer, b: ClientPeer)
    requires
        a@.id == b@.id,
    ensures
        a.eq_spec(&b),
        b.eq_spec(&a),
{
}

impl ClientPeer {
    /// A peer with the given id at the given address, with its reserved session flag set.
    pub fn new(id: usize, addr: Address) -> (r: ClientPeer)
        ensures
            r@ == (PeerView { id, addr, flag: true }),
    {
        ClientPeer { id, addr, play_genshin_impact: true }
    }

    pub fn get_id(&self) -> (r: usize)
        ensures
            r == self@.id,
    {
        self.id
    }

    pub fn get_addr(&self) -> (r: Address)
        ensures
            r == self@.addr,
    {
        self.addr
    }

    /// Points the peer at a new address; its id and flag stay.
    pub fn move_addr(&mut self, addr: Address)
        ensures
            final(self)@ == (PeerView { addr, ..old(self)@ }),
    {
        self.addr = addr;
    }

    /// The reserved per-session flag.
    pub fn plays_genshin_impact(&self) -> (r: bool)
        ensures
            r == self@.flag,
    {
        self.play_genshin_impact
    }
}

} // verus!
