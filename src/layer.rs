use crate::frame::{leftover, split_frames, take_frames};
use crate::package::{decoded_view, DecodeError, Package, PackageType, PackageView};
use crate::peer::{get_id, Address, ClientPeer, IdAllocator, PeerType, PeerView};
use crate::session::{react, spec_react, Reaction, SessionState};
use vstd::prelude::*;

verus! {

/// The session events that process-wide handlers subscribe to.
#[derive(Clone, Copy, Debug, PartialEq, Eq, Structural, Hash)]
pub enum HandlerTypeEnum {
    Handshake,
    Disconnect,
}

/// Work that the layer hands to its owner, who holds the transport and the handlers.
#[derive(Debug)]
pub enum Action {
    /// Send the package to the address.
    Send { addr: Address, package: Package },
    /// Run the handlers registered for this peer and the package's type.
    Deliver { peer: ClientPeer, package: Package },
    /// Run the process-wide handlers of this session event.
    Lifecycle { peer: ClientPeer, event: HandlerTypeEnum },
}

/// The mathematical value of one registered peer.
pub struct EntryView {
    pub peer: PeerView,
    pub state: SessionState,
    pub deadline: u64,
    pub buffer: Seq<u8>,
    pub deferred: Seq<PackageView>,
}

/// A registered peer with its session, its unframed bytes and its held-back user data.
struct PeerEntry {
    peer: ClientPeer,
    state: SessionState,
    deadline: u64,
    buffer: Vec<u8>,
    deferred: Vec<Package>,
}

impl PeerEntry {
    closed spec fn view(&self) -> EntryView {
        EntryView {
            peer: self.peer@,
            state: self.state,
            deadline: self.deadline,
            buffer: self.buffer@,
            deferred: deferred_view(self.deferred@),
        }
    }

    closed spec fn session(&self) -> SessionView {
        SessionView {
            state: self.state,
            deadline: self.deadline,
            deferred: deferred_view(self.deferred@),
        }
    }
}

/// `now + span`, or the largest instant when that does not fit.
pub open spec fn deadline_after(now: u64, span: u64) -> u64 {
    if now + span > u64::MAX {
        u64::MAX
    } else {
        (now + span) as u64
    }
}

/// A deadline `span` after `now`, saturating at the largest instant.
fn add_span(now: u64, span: u64) -> (r: u64)
    ensures
        r == deadline_after(now, span),
{
    if span > u64::MAX - now {
        u64::MAX
    } else {
        now + span
    }
}

/// The type of a decoded frame, or its decoding error.
pub open spec fn frame_kind(f: Result<PackageView, DecodeError>) -> Result<PackageType, DecodeError> {
    match f {
        Ok(p) => Ok(p.pack_type),
        Err(e) => Err(e),
    }
}

/// What an action is, with its packages and peers taken to their mathematical values.
pub enum ActionView {
    Send { addr: Address, package: PackageView },
    Deliver { peer: PeerView, package: PackageView },
    Lifecycle { peer: PeerView, event: HandlerTypeEnum },
}

/// The mathematical value of an action.
pub open spec fn action_view(a: Action) -> ActionView {
    match a {
        Action::Send { addr, package } => ActionView::Send { addr, package: package@ },
        Action::Deliver { peer, package } => ActionView::Deliver { peer: peer@, package: package@ },
        Action::Lifecycle { peer, event } => ActionView::Lifecycle { peer: peer@, event },
    }
}

/// The mathematical values of a sequence of actions.
pub open spec fn actions_view(v: Seq<Action>) -> Seq<ActionView> {
    v.map_values(|a: Action| action_view(a))
}

/// The mathematical values of the packages held back for a peer.
pub open spec fn deferred_view(v: Seq<Package>) -> Seq<PackageView> {
    v.map_values(|p: Package| p@)
}

/// A package of type `kind` with the one-byte zero payload, for the handlers of `peer`.
pub open spec fn notice(peer: PeerView, kind: PackageType) -> ActionView {
    ActionView::Deliver { peer, package: PackageView { pack_type: kind, data: seq![0u8] } }
}

/// The answer to a handshake of `peer`.
pub open spec fn wave_hand_to(peer: PeerView) -> ActionView {
    ActionView::Send {
        addr: peer.addr,
        package: PackageView { pack_type: PackageType::WaveHand, data: id_payload(peer.id) },
    }
}

/// Deliveries of the packages `ps` to the handlers of `peer`, in order.
pub open spec fn deliver_all(peer: PeerView, ps: Seq<PackageView>) -> Seq<ActionView> {
    ps.map_values(|p: PackageView| ActionView::Deliver { peer, package: p })
}

/// What frames change in a registered peer: its state, its deadline, and the user data
/// held back until its handshake.
pub struct SessionView {
    pub state: SessionState,
    pub deadline: u64,
    pub deferred: Seq<PackageView>,
}

pub open spec fn session_view(e: EntryView) -> SessionView {
    SessionView { state: e.state, deadline: e.deadline, deferred: e.deferred }
}

/// The session of `peer` after one frame that arrived at `now`, and the actions it causes.
pub open spec fn step(
    peer: PeerView,
    s: SessionView,
    f: Result<PackageView, DecodeError>,
    now: u64,
    timeout: u64,
) -> (SessionView, Seq<ActionView>) {
    let (next, reaction) = spec_react(s.state, frame_kind(f));
    let moved = SessionView { state: next, ..s };
    match reaction {
        Reaction::Admit => (
            SessionView { deadline: deadline_after(now, timeout), deferred: Seq::empty(), ..moved },
            seq![
                wave_hand_to(peer),
                ActionView::Lifecycle { peer, event: HandlerTypeEnum::Handshake },
                notice(peer, PackageType::PeerConnected),
            ] + deliver_all(peer, s.deferred),
        ),
        Reaction::Acknowledge => (moved, seq![wave_hand_to(peer)]),
        Reaction::Refresh => (SessionView { deadline: deadline_after(now, timeout), ..moved }, Seq::empty()),
        Reaction::Deliver => (
            moved,
            match f {
                Ok(p) => seq![ActionView::Deliver { peer, package: p }],
                Err(_) => Seq::empty(),
            },
        ),
        Reaction::Defer => (
            SessionView {
                deferred: match f {
                    Ok(p) => s.deferred.push(p),
                    Err(_) => s.deferred,
                },
                ..moved
            },
            Seq::empty(),
        ),
        Reaction::Close => (
            moved,
            seq![
                notice(peer, PackageType::PeerDisconnected),
                ActionView::Lifecycle { peer, event: HandlerTypeEnum::Disconnect },
            ],
        ),
        Reaction::Reject => (moved, seq![notice(peer, PackageType::BadPackage)]),
        Reaction::Ignore => (moved, Seq::empty()),
    }
}

/// The session of `peer` after the frames `fs`, taken in order, and all the actions they cause.
pub open spec fn run(
    peer: PeerView,
    s: SessionView,
    fs: Seq<Result<PackageView, DecodeError>>,
    now: u64,
    timeout: u64,
) -> (SessionView, Seq<ActionView>)
    decreases fs.len(),
{
    if fs.len() == 0 {
        (s, Seq::empty())
    } else {
        let p = run(peer, s, fs.drop_last(), now, timeout);
        let q = step(peer, p.0, fs.last(), now, timeout);
        (q.0, p.1 + q.1)
    }
}

/// A handshake from a connecting peer makes its session active and restarts its deadline; it
/// is answered with one WaveHand carrying the peer's id, the peer is announced once to the
/// Handshake event and once as PeerConnected, and the user data held back is handed over.
pub proof fn lemma_handshake_admits(
    peer: PeerView,
    s: SessionView,
    payload: Seq<u8>,
    now: u64,
    timeout: u64,
)
    requires
        s.state == SessionState::Connecting,
    ensures
        step(
            peer,
            s,
            Ok(PackageView { pack_type: PackageType::Handshake, data: payload }),
            now,
            timeout,
        ) == (
            SessionView {
                state: SessionState::Active,
                deadline: deadline_after(now, timeout),
                deferred: Seq::empty(),
            },
            seq![
                wave_hand_to(peer),
                ActionView::Lifecycle { peer, event: HandlerTypeEnum::Handshake },
                notice(peer, PackageType::PeerConnected),
            ] + deliver_all(peer, s.deferred),
        ),
{
}

proof fn lemma_run_step(
    peer: PeerView,
    s: SessionView,
    fs: Seq<Result<PackageView, DecodeError>>,
    now: u64,
    timeout: u64,
)
    requires
        fs.len() > 0,
    ensures
        run(peer, s, fs, now, timeout) == ({
            let p = run(peer, s, fs.drop_last(), now, timeout);
            let q = step(peer, p.0, fs.last(), now, timeout);
            (q.0, p.1 + q.1)
        }),
{
}

/// What ending an expired session announces: Timeout and then PeerDisconnected to the
/// handlers of an active peer and the Disconnect event; ServiceTemporaryUnavailable to a
/// peer that never finished its handshake.
pub open spec fn expiry_notices(e: EntryView) -> Seq<ActionView> {
    if e.state == SessionState::Active {
        seq![
            notice(e.peer, PackageType::Timeout),
            notice(e.peer, PackageType::PeerDisconnected),
            ActionView::Lifecycle { peer: e.peer, event: HandlerTypeEnum::Disconnect },
        ]
    } else {
        seq![
            ActionView::Send {
                addr: e.peer.addr,
                package: PackageView {
                    pack_type: PackageType::ServiceTemporaryUnavailable,
                    data: seq![0u8],
                },
            },
        ]
    }
}

/// The entries of `s` whose deadline is not before `now`, in order.
pub open spec fn kept(s: Seq<EntryView>, now: u64) -> Seq<EntryView>
    decreases s.len(),
{
    if s.len() == 0 {
        s
    } else if s.last().deadline < now {
        kept(s.drop_last(), now)
    } else {
        kept(s.drop_last(), now).push(s.last())
    }
}

/// The announcements for the entries of `s` whose deadline is before `now`, in order.
pub open spec fn expired_actions(s: Seq<EntryView>, now: u64) -> Seq<ActionView>
    decreases s.len(),
{
    if s.len() == 0 {
        Seq::empty()
    } else if s.last().deadline < now {
        expired_actions(s.drop_last(), now) + expiry_notices(s.last())
    } else {
        expired_actions(s.drop_last(), now)
    }
}

/// After expiry at `now` the registry holds exactly the peers whose deadline has not passed:
/// every one of them was there before, and no peer that is gone can still be found.
pub proof fn lemma_kept_exactly(s: Seq<EntryView>, now: u64)
    ensures
        forall|q: int| 0 <= q < kept(s, now).len() ==> s.contains(#[trigger] kept(s, now)[q])
            && kept(s, now)[q].deadline >= now,
        forall|q: int| 0 <= q < s.len() && (#[trigger] s[q]).deadline >= now ==> kept(s, now).contains(s[q]),
    decreases s.len(),
{
    if s.len() > 0 {
        let init = s.drop_last();
        lemma_kept_exactly(init, now);
        assert forall|q: int| 0 <= q < kept(s, now).len() implies s.contains(#[trigger] kept(s, now)[q])
            && kept(s, now)[q].deadline >= now by {
            if q < kept(init, now).len() {
                assert(kept(s, now)[q] == kept(init, now)[q]);
                let w = choose|w: int| 0 <= w < init.len() && init[w] == kept(init, now)[q];
                assert(s[w] == init[w]);
            } else {
                assert(s[s.len() - 1] == s.last());
            }
        }
        assert forall|q: int| 0 <= q < s.len() && (#[trigger] s[q]).deadline >= now implies kept(s, now).contains(s[q]) by {
            if q < s.len() - 1 {
                assert(init[q] == s[q]);
                let w = choose|w: int| 0 <= w < kept(init, now).len() && kept(init, now)[w] == s[q];
                assert(kept(s, now)[w] == s[q]);
            } else {
                assert(kept(s, now)[kept(s, now).len() - 1] == s[q]);
            }
        }
    }
}

/// Ids and addresses are unique, every id was handed out, and no session is over.
pub open spec fn registry_wf(s: Seq<EntryView>, next: nat) -> bool {
    &&& forall|i: int|
        0 <= i < s.len() ==> 1 <= (#[trigger] s[i]).peer.id < next && s[i].state
            != SessionState::Disconnected
    &&& forall|i: int, j: int|
        0 <= i < s.len() && 0 <= j < s.len() && i != j ==> (#[trigger] s[i]).peer.id != (#[trigger] s[j]).peer.id
            && s[i].peer.addr != s[j].peer.addr
}

/// The big-endian bytes of an id, as a WaveHand payload carries them.
pub open spec fn id_payload(id: usize) -> Seq<u8> {
    let v = id as nat;
    seq![
        (v / 0x100000000000000 % 0x100) as u8,
        (v / 0x1000000000000 % 0x100) as u8,
        (v / 0x10000000000 % 0x100) as u8,
        (v / 0x100000000 % 0x100) as u8,
        (v / 0x1000000 % 0x100) as u8,
        (v / 0x10000 % 0x100) as u8,
        (v / 0x100 % 0x100) as u8,
        (v % 0x100) as u8,
    ]
}

/// The WaveHand package that answers a handshake of the peer with this id.
pub fn wave_hand(id: usize) -> (r: Package)
    ensures
        r@ == (PackageView { pack_type: PackageType::WaveHand, data: id_payload(id) }),
{
    let v = id as u64;
    let bytes: [u8; 8] = [
        (v / 0x100000000000000 % 0x100) as u8,
        (v / 0x1000000000000 % 0x100) as u8,
        (v / 0x10000000000 % 0x100) as u8,
        (v / 0x100000000 % 0x100) as u8,
        (v / 0x1000000 % 0x100) as u8,
        (v / 0x10000 % 0x100) as u8,
        (v / 0x100 % 0x100) as u8,
        (v % 0x100) as u8,
    ];
    let r = Package::new::<8>(PackageType::WaveHand, Some(bytes));
    assert(r@.data =~= id_payload(id));
    r
}

/// A package of the given type with the one-byte zero payload.
fn signal(kind: PackageType) -> (r: Package)
    ensures
        r@ == (PackageView { pack_type: kind, data: seq![0u8] }),
{
    let r = Package::new::<1>(kind, None);
    assert(r@.data =~= seq![0u8]);
    r
}


proof fn lemma_remove_contains(s: Seq<EntryView>, idx: int, i: int)
    requires
        0 <= idx < s.len(),
        0 <= i < s.len(),
        i != idx,
    ensures
        s.remove(idx).contains(s[i]),
{
    if i < idx {
        assert(s.remove(idx)[i] == s[i]);
    } else {
        assert(s.remove(idx)[i - 1] == s[i]);
    }
}

proof fn lemma_removed_from(s: Seq<EntryView>, idx: int, k: int)
    requires
        0 <= idx < s.len(),
        0 <= k < s.len() - 1,
    ensures
        s.remove(idx)[k] == s[if k < idx { k } else { k + 1 }],
        s.contains(s.remove(idx)[k]),
{
    let j = if k < idx { k } else { k + 1 };
    assert(s[j] == s.remove(idx)[k]);
}

proof fn lemma_remove_wf(s: Seq<EntryView>, idx: int, next: nat)
    requires
        0 <= idx < s.len(),
        registry_wf(s, next),
    ensures
        registry_wf(s.remove(idx), next),
{
    let r = s.remove(idx);
    assert forall|i: int| 0 <= i < r.len() implies 1 <= (#[trigger] r[i]).peer.id < next
        && r[i].state != SessionState::Disconnected by {
        lemma_removed_from(s, idx, i);
    }
    assert forall|i: int, j: int|
        0 <= i < r.len() && 0 <= j < r.len() && i != j implies (#[trigger] r[i]).peer.id != (#[trigger] r[j]).peer.id
            && r[i].peer.addr != r[j].peer.addr by {
        lemma_removed_from(s, idx, i);
        lemma_removed_from(s, idx, j);
        let a = if i < idx { i } else { i + 1 };
        let b = if j < idx { j } else { j + 1 };
        assert(s[a] == r[i] && s[b] == r[j] && a != b);
    }
}

proof fn lemma_push_wf(s: Seq<EntryView>, u: EntryView, next: nat, new_next: nat)
    requires
        registry_wf(s, next),
        next <= new_next,
        1 <= u.peer.id < new_next,
        u.state != SessionState::Disconnected,
        forall|i: int| 0 <= i < s.len() ==> (#[trigger] s[i]).peer.id != u.peer.id && s[i].peer.addr != u.peer.addr,
    ensures
        registry_wf(s.push(u), new_next),
{
    let r = s.push(u);
    assert forall|i: int| 0 <= i < r.len() implies 1 <= (#[trigger] r[i]).peer.id < new_next
        && r[i].state != SessionState::Disconnected by {
        if i < s.len() {
            assert(r[i] == s[i]);
        }
    }
    assert forall|i: int, j: int|
        0 <= i < r.len() && 0 <= j < r.len() && i != j implies (#[trigger] r[i]).peer.id != (#[trigger] r[j]).peer.id
            && r[i].peer.addr != r[j].peer.addr by {
        if i < s.len() {
            assert(r[i] == s[i]);
        }
        if j < s.len() {
            assert(r[j] == s[j]);
        }
    }
}

/// Applies one frame to a session, queueing what its handlers and its peer are owed.
fn handle_frame(
    entry: &mut PeerEntry,
    f: Result<Package, DecodeError>,
    now: u64,
    timeout: u64,
    actions: &mut Vec<Action>,
)
    ensures
        (final(entry).session(), actions_view(final(actions)@)) == ({
            let q = step(old(entry).peer@, old(entry).session(), decoded_view(f), now, timeout);
            (q.0, actions_view(old(actions)@) + q.1)
        }),
        final(entry).peer@ == old(entry).peer@,
        final(entry).buffer@ == old(entry).buffer@,
{
    let ghost base = actions_view(actions@);
    let ghost s0 = entry.session();
    let ghost fv = decoded_view(f);
    let kind: Result<PackageType, DecodeError> = match &f {
        Ok(p) => Ok(p.pack_type()),
        Err(e) => Err(*e),
    };
    let (next, reaction) = react(entry.state, kind);
    entry.state = next;
    let peer = entry.peer;
    let ghost pv = peer@;
    match reaction {
        Reaction::Admit => {
            entry.deadline = add_span(now, timeout);
            actions.push(Action::Send { addr: peer.get_addr(), package: wave_hand(peer.get_id()) });
            actions.push(Action::Lifecycle { peer, event: HandlerTypeEnum::Handshake });
            actions.push(Action::Deliver { peer, package: signal(PackageType::PeerConnected) });
            let ghost head = base + seq![
                wave_hand_to(pv),
                ActionView::Lifecycle { peer: pv, event: HandlerTypeEnum::Handshake },
                notice(pv, PackageType::PeerConnected),
            ];
            assert(actions_view(actions@) =~= head);
            let ghost d = s0.deferred;
            let ghost k: int = 0;
            assert(d.subrange(0, d.len() as int) =~= d);
            assert(deliver_all(pv, d.subrange(0, 0)) =~= Seq::<ActionView>::empty());
            assert(head + deliver_all(pv, d.subrange(0, 0)) =~= head);
            while entry.deferred.len() > 0
                invariant
                    0 <= k <= d.len(),
                    deferred_view(entry.deferred@) == d.subrange(k, d.len() as int),
                    actions_view(actions@) == head + deliver_all(pv, d.subrange(0, k)),
                    entry.peer@ == old(entry).peer@,
                    peer@ == pv,
                    entry.buffer@ == old(entry).buffer@,
                    entry.state == next,
                    entry.deadline == deadline_after(now, timeout),
                decreases entry.deferred@.len(),
            {
                let ghost before = entry.deferred@;
                assert(deferred_view(before).len() == before.len());
                assert(k < d.len());
                assert(deferred_view(before)[0] == before[0]@);
                assert(d.subrange(k, d.len() as int)[0] == d[k]);
                let held = entry.deferred.remove(0);
                let ghost prev_actions = actions@;
                actions.push(Action::Deliver { peer, package: held });
                assert(actions_view(actions@) =~= actions_view(prev_actions).push(
                    ActionView::Deliver { peer: pv, package: held@ },
                ));
                proof {
                    assert(held@ == d[k]);
                    assert(deferred_view(entry.deferred@) =~= d.subrange(k + 1, d.len() as int)) by {
                        assert forall|q: int| 0 <= q < entry.deferred@.len() implies
                            #[trigger] deferred_view(entry.deferred@)[q] == d.subrange(k + 1, d.len() as int)[q] by {
                            assert(entry.deferred@[q] == before[q + 1]);
                            assert(deferred_view(before)[q + 1] == before[q + 1]@);
                            assert(d.subrange(k, d.len() as int)[q + 1] == d[k + 1 + q]);
                        }
                    }
                    assert(deliver_all(pv, d.subrange(0, k + 1)) =~= deliver_all(pv, d.subrange(0, k)).push(
                        ActionView::Deliver { peer: pv, package: d[k] },
                    ));
                    assert((head + deliver_all(pv, d.subrange(0, k))).push(
                        ActionView::Deliver { peer: pv, package: d[k] },
                    ) =~= head + deliver_all(pv, d.subrange(0, k + 1)));
                    k = k + 1;
                }
            }
            assert(k == d.len());
            assert(deferred_view(entry.deferred@) =~= Seq::<PackageView>::empty());
            assert(head + deliver_all(pv, d) =~= base + (seq![
                wave_hand_to(pv),
                ActionView::Lifecycle { peer: pv, event: HandlerTypeEnum::Handshake },
                notice(pv, PackageType::PeerConnected),
            ] + deliver_all(pv, d)));
        },
        Reaction::Acknowledge => {
            actions.push(Action::Send { addr: peer.get_addr(), package: wave_hand(peer.get_id()) });
            assert(actions_view(actions@) =~= base + seq![wave_hand_to(pv)]);
        },
        Reaction::Refresh => {
            entry.deadline = add_span(now, timeout);
            assert(actions_view(actions@) =~= base + Seq::<ActionView>::empty());
        },
        Reaction::Deliver => {
            if let Ok(p) = f {
                actions.push(Action::Deliver { peer, package: p });
                assert(actions_view(actions@) =~= base + seq![ActionView::Deliver { peer: pv, package: p@ }]);
            } else {
                assert(actions_view(actions@) =~= base + Seq::<ActionView>::empty());
            }
        },
        Reaction::Defer => {
            if let Ok(p) = f {
                let ghost dv = deferred_view(entry.deferred@);
                entry.deferred.push(p);
                assert(deferred_view(entry.deferred@) =~= dv.push(p@));
            }
            assert(actions_view(actions@) =~= base + Seq::<ActionView>::empty());
        },
        Reaction::Close => {
            actions.push(Action::Deliver { peer, package: signal(PackageType::PeerDisconnected) });
            actions.push(Action::Lifecycle { peer, event: HandlerTypeEnum::Disconnect });
            assert(actions_view(actions@) =~= base + seq![
                notice(pv, PackageType::PeerDisconnected),
                ActionView::Lifecycle { peer: pv, event: HandlerTypeEnum::Disconnect },
            ]);
        },
        Reaction::Reject => {
            actions.push(Action::Deliver { peer, package: signal(PackageType::BadPackage) });
            assert(actions_view(actions@) =~= base + seq![notice(pv, PackageType::BadPackage)]);
        },
        Reaction::Ignore => {
            assert(actions_view(actions@) =~= base + Seq::<ActionView>::empty());
        },
    }
}

/// The peers, their sessions and their pending bytes, behind one transport.
pub struct Layer {
    peers: Vec<PeerEntry>,
    ids: IdAllocator,
    _type: PeerType,
    timeout: u64,
    grace: u64,
}

impl Layer {
    /// The registered peers.
    pub closed spec fn entries(&self) -> Seq<EntryView> {
        self.peers@.map_values(|e: PeerEntry| e.view())
    }

    /// The id that the next new peer gets.
    pub closed spec fn next_id(&self) -> nat {
        self.ids.spec_next()
    }

    /// How long an active peer may stay silent.
    pub closed spec fn spec_timeout(&self) -> u64 {
        self.timeout
    }

    /// How long a new peer may take to complete its handshake.
    pub closed spec fn spec_grace(&self) -> u64 {
        self.grace
    }

    /// The role this layer plays.
    pub closed spec fn spec_type(&self) -> PeerType {
        self._type
    }

    /// The registry is well formed and the id allocator is consistent with it.
    pub closed spec fn wf(&self) -> bool {
        &&& self.ids.wf()
        &&& registry_wf(self.entries(), self.next_id())
    }

    /// The registered peer at `addr`, if there is one.
    pub open spec fn entry_at(&self, addr: Address) -> Option<EntryView> {
        if exists|i: int| 0 <= i < self.entries().len() && (#[trigger] self.entries()[i]).peer.addr == addr {
            let i = choose|i: int| 0 <= i < self.entries().len() && (#[trigger] self.entries()[i]).peer.addr == addr;
            Some(self.entries()[i])
        } else {
            None
        }
    }

    /// The session that a datagram from `addr` at `now` runs in: the registered one, or a
    /// new connecting one with the next id (none when ids have run out).
    pub open spec fn session_for(&self, addr: Address, now: u64) -> Option<EntryView> {
        match self.entry_at(addr) {
            Some(e) => Some(e),
            None => if self.next_id() < usize::MAX {
                Some(
                    EntryView {
                        peer: PeerView { id: self.next_id() as usize, addr, flag: true },
                        state: SessionState::Connecting,
                        deadline: deadline_after(now, self.spec_grace()),
                        buffer: Seq::empty(),
                        deferred: Seq::empty(),
                    },
                )
            } else {
                None
            },
        }
    }

    /// A layer of the given role with no peers; ids start at 1.
    pub fn new(peer_type: PeerType, timeout: u64, grace: u64) -> (r: Layer)
        ensures
            r.wf(),
            r.entries().len() == 0,
            r.next_id() == 1,
            r.spec_type() == peer_type,
            r.spec_timeout() == timeout,
            r.spec_grace() == grace,
    {
        let r = Layer { peers: Vec::new(), ids: IdAllocator::new(), _type: peer_type, timeout, grace };
        assert(r.entries() =~= Seq::<EntryView>::empty());
        r
    }

    pub fn get_type(&self) -> (r: PeerType)
        ensures
            r == self.spec_type(),
    {
        self._type
    }

    fn index_of_addr(&self, addr: Address) -> (r: Option<usize>)
        ensures
            match r {
                Some(i) => i < self.entries().len() && self.entries()[i as int].peer.addr == addr,
                None => forall|i: int|
                    0 <= i < self.entries().len() ==> (#[trigger] self.entries()[i]).peer.addr
                        != addr,
            },
    {
        let mut i: usize = 0;
        while i < self.peers.len()
            invariant
                i <= self.peers@.len(),
                forall|k: int| 0 <= k < i ==> (#[trigger] self.entries()[k]).peer.addr != addr,
            decreases self.peers@.len() - i,
        {
            if self.peers[i].peer.get_addr() == addr {
                return Some(i);
            }
            i = i + 1;
        }
        None
    }

    fn index_of_id(&self, id: usize) -> (r: Option<usize>)
        ensures
            match r {
                Some(i) => i < self.entries().len() && self.entries()[i as int].peer.id == id,
                None => forall|i: int|
                    0 <= i < self.entries().len() ==> (#[trigger] self.entries()[i]).peer.id != id,
            },
    {
        let mut i: usize = 0;
        while i < self.peers.len()
            invariant
                i <= self.peers@.len(),
                forall|k: int| 0 <= k < i ==> (#[trigger] self.entries()[k]).peer.id != id,
            decreases self.peers@.len() - i,
        {
            if self.peers[i].peer.get_id() == id {
                return Some(i);
            }
            i = i + 1;
        }
        None
    }

    /// The peer registered under `id`.
    pub fn peer_by_id(&self, id: usize) -> (r: Option<ClientPeer>)
        ensures
            match r {
                Some(p) => exists|i: int|
                    0 <= i < self.entries().len() && (#[trigger] self.entries()[i]).peer == p@
                        && p@.id == id,
                None => forall|i: int|
                    0 <= i < self.entries().len() ==> (#[trigger] self.entries()[i]).peer.id != id,
            },
    {
        match self.index_of_id(id) {
            Some(i) => Some(self.peers[i].peer),
            None => None,
        }
    }

    /// The peer registered at `addr`.
    pub fn peer_by_addr(&self, addr: Address) -> (r: Option<ClientPeer>)
        ensures
            match r {
                Some(p) => exists|i: int|
                    0 <= i < self.entries().len() && (#[trigger] self.entries()[i]).peer == p@
                        && p@.addr == addr,
                None => forall|i: int|
                    0 <= i < self.entries().len() ==> (#[trigger] self.entries()[i]).peer.addr
                        != addr,
            },
    {
        match self.index_of_addr(addr) {
            Some(i) => Some(self.peers[i].peer),
            None => None,
        }
    }

    /// The session state of the peer registered under `id`.
    pub fn state_of(&self, id: usize) -> (r: Option<SessionState>)
        ensures
            match r {
                Some(s) => exists|i: int|
                    0 <= i < self.entries().len() && (#[trigger] self.entries()[i]).peer.id == id
                        && self.entries()[i].state == s,
                None => forall|i: int|
                    0 <= i < self.entries().len() ==> (#[trigger] self.entries()[i]).peer.id != id,
            },
    {
        match self.index_of_id(id) {
            Some(i) => Some(self.peers[i].state),
            None => None,
        }
    }
    /// Takes one datagram from `addr` at instant `now`: finds the peer at that address or
    /// admits a new connecting one, appends the bytes to its buffer, and runs every complete
    /// frame through its session in order. A session that ends leaves the registry.
    pub fn on_datagram(&mut self, addr: Address, data: &[u8], now: u64) -> (r: Vec<Action>)
        requires
            old(self).wf(),
        ensures
            final(self).wf(),
            final(self).spec_type() == old(self).spec_type(),
            final(self).spec_timeout() == old(self).spec_timeout(),
            final(self).spec_grace() == old(self).spec_grace(),
            match old(self).session_for(addr, now) {
                None => final(self).entries() == old(self).entries() && final(self).next_id()
                    == old(self).next_id() && r@.len() == 0,
                Some(e) => {
                    let bytes = e.buffer + data@;
                    let res = run(
                        e.peer,
                        session_view(e),
                        split_frames(bytes),
                        now,
                        old(self).spec_timeout(),
                    );
                    let updated = EntryView {
                        peer: e.peer,
                        state: res.0.state,
                        deadline: res.0.deadline,
                        buffer: leftover(bytes),
                        deferred: res.0.deferred,
                    };
                    &&& actions_view(r@) == res.1
                    &&& final(self).next_id() == if old(self).entry_at(addr) is Some {
                        old(self).next_id()
                    } else {
                        old(self).next_id() + 1
                    }
                    &&& forall|i: int|
                        0 <= i < old(self).entries().len() && (#[trigger] old(self).entries()[i]).peer.addr
                            != addr ==> final(self).entries().contains(old(self).entries()[i])
                    &&& forall|i: int|
                        0 <= i < final(self).entries().len() && (#[trigger] final(self).entries()[i]).peer.addr
                            != addr ==> old(self).entries().contains(final(self).entries()[i])
                    &&& res.0.state != SessionState::Disconnected ==> final(self).entries().contains(updated)
                    &&& forall|i: int|
                        0 <= i < final(self).entries().len() && (#[trigger] final(self).entries()[i]).peer.addr
                            == addr ==> res.0.state != SessionState::Disconnected && final(self).entries()[i]
                            == updated
                },
            },
    {
        let ghost old_entries = self.entries();
        let ghost next0 = self.next_id();
        let ghost old_ids = self.ids;
        let found = self.index_of_addr(addr);
        let ghost start: EntryView;
        let mut entry = match found {
            Some(i) => {
                proof {
                    let j = choose|j: int| 0 <= j < old_entries.len() && (#[trigger] old_entries[j]).peer.addr == addr;
                    assert(old_entries[i as int].peer.addr == addr);
                    assert(j == i);
                }
                let e = self.remove_entry(i);
                proof {
                    start = e.view();
                }
                e
            },
            None => {
                match get_id(&mut self.ids) {
                    None => {
                        return Vec::new();
                    },
                    Some(id) => {
                        let e = PeerEntry {
                            peer: ClientPeer::new(id, addr),
                            state: SessionState::Connecting,
                            deadline: add_span(now, self.grace),
                            buffer: Vec::new(),
                            deferred: Vec::new(),
                        };
                        proof {
                            start = e.view();
                            assert(start.buffer =~= Seq::<u8>::empty());
                            assert(start.deferred =~= Seq::<PackageView>::empty());
                            old_ids.lemma_positive();
                            assert(start.peer.id == next0 && next0 >= 1);
                        }
                        e
                    },
                }
            },
        };
        let ghost bytes = start.buffer + data@;
        let mut k: usize = 0;
        while k < data.len()
            invariant
                k <= data@.len(),
                entry.buffer@ == start.buffer + data@.subrange(0, k as int),
                entry.view() == (EntryView { buffer: entry.buffer@, ..start }),
            decreases data@.len() - k,
        {
            entry.buffer.push(data[k]);
            k = k + 1;
            proof {
                assert(entry.buffer@ =~= start.buffer + data@.subrange(0, k as int));
            }
        }
        assert(data@.subrange(0, data@.len() as int) =~= data@);
        let ghost fs = split_frames(bytes);
        let mut frames = take_frames(&mut entry.buffer);
        let mut actions: Vec<Action> = Vec::new();
        assert(actions_view(actions@) =~= Seq::<ActionView>::empty());
        let ghost n: int = fs.len() as int;
        let ghost i: int = 0;
        assert(fs.subrange(0, 0) =~= Seq::<Result<PackageView, DecodeError>>::empty());
        assert(fs.subrange(0, n) =~= fs);
        while frames.len() > 0
            invariant
                0 <= i <= n,
                n == fs.len(),
                frames@.map_values(|x: Result<Package, DecodeError>| decoded_view(x)) == fs.subrange(i, n),
                (entry.session(), actions_view(actions@)) == run(
                    start.peer,
                    session_view(start),
                    fs.subrange(0, i),
                    now,
                    self.timeout,
                ),
                entry.peer@ == start.peer,
                entry.buffer@ == leftover(bytes),
            decreases frames@.len(),
        {
            let ghost before = frames@;
            let ghost mv_before = before.map_values(|x: Result<Package, DecodeError>| decoded_view(x));
            assert(mv_before.len() == before.len());
            assert(i < n);
            let f = frames.remove(0);
            proof {
                assert(mv_before[0] == decoded_view(before[0]));
                assert(fs.subrange(i, n)[0] == decoded_view(f));
                assert forall|q: int| 0 <= q < frames@.len() implies #[trigger] decoded_view(frames@[q])
                    == fs[i + 1 + q] by {
                    assert(frames@[q] == before[q + 1]);
                    assert(mv_before[q + 1] == decoded_view(before[q + 1]));
                    assert(mv_before[q + 1] == fs.subrange(i, n)[q + 1]);
                }
                assert(frames@.map_values(|x: Result<Package, DecodeError>| decoded_view(x))
                    =~= fs.subrange(i + 1, n));
                assert(fs.subrange(0, i + 1).drop_last() =~= fs.subrange(0, i));
                assert(fs.subrange(0, i + 1).last() == fs[i]);
            }
            let ghost fv = decoded_view(f);
            handle_frame(&mut entry, f, now, self.timeout, &mut actions);
            proof {
                let sub = fs.subrange(0, i + 1);
                assert(sub.drop_last() =~= fs.subrange(0, i));
                assert(sub.last() == fv);
                lemma_run_step(start.peer, session_view(start), sub, now, self.timeout);
                i = i + 1;
            }
        }
        proof {
            assert(fs.subrange(i, n).len() == 0);
            assert(i == n);
        }
        let ghost mid = self.entries();
        let ghost updated = entry.view();
        if entry.state != SessionState::Disconnected {
            self.peers.push(entry);
            proof {
                assert(self.entries() =~= mid.push(updated));
                assert(self.entries()[mid.len() as int] == updated);
            }
        }
        proof {
            let res = run(start.peer, session_view(start), split_frames(bytes), now, self.timeout);
            assert(updated == (EntryView {
                peer: start.peer,
                state: res.0.state,
                deadline: res.0.deadline,
                buffer: leftover(bytes),
                deferred: res.0.deferred,
            }));
            match found {
                Some(idx) => {
                    assert(old(self).entry_at(addr) == Some(start));
                    assert(old(self).session_for(addr, now) == Some(start));
                    assert(mid =~= old_entries.remove(idx as int));
                    lemma_remove_wf(old_entries, idx as int, next0);
                    if updated.state != SessionState::Disconnected {
                        assert forall|q: int| 0 <= q < mid.len() implies (#[trigger] mid[q]).peer.id
                            != updated.peer.id && mid[q].peer.addr != updated.peer.addr by {
                            lemma_removed_from(old_entries, idx as int, q);
                        }
                        lemma_push_wf(mid, updated, next0, next0);
                    }
                    assert forall|q: int|
                        0 <= q < old_entries.len() && (#[trigger] old_entries[q]).peer.addr != addr
                        implies self.entries().contains(old_entries[q]) by {
                        lemma_remove_contains(old_entries, idx as int, q);
                        let w = choose|w: int| 0 <= w < mid.len() && mid[w] == old_entries[q];
                        assert(self.entries()[w] == old_entries[q]);
                    }
                    assert forall|q: int|
                        0 <= q < self.entries().len() && (#[trigger] self.entries()[q]).peer.addr != addr
                        implies old_entries.contains(self.entries()[q]) by {
                        assert(q < mid.len());
                        assert(self.entries()[q] == mid[q]);
                        lemma_removed_from(old_entries, idx as int, q);
                    }
                    assert forall|q: int|
                        0 <= q < self.entries().len() && (#[trigger] self.entries()[q]).peer.addr == addr
                        implies updated.state != SessionState::Disconnected && self.entries()[q] == updated by {
                        if q < mid.len() {
                            lemma_removed_from(old_entries, idx as int, q);
                            let a = if q < idx { q } else { q + 1 };
                            assert(old_entries[a].peer.addr == addr);
                            assert(a != idx);
                        }
                    }
                },
                None => {
                    assert(old(self).entry_at(addr) is None);
                    assert(old(self).session_for(addr, now) == Some(start));
                    assert(mid == old_entries);
                    if updated.state != SessionState::Disconnected {
                        lemma_push_wf(mid, updated, next0, next0 + 1);
                    } else {
                        assert forall|q: int| 0 <= q < mid.len() implies 1 <= (#[trigger] mid[q]).peer.id < next0 + 1
                            && mid[q].state != SessionState::Disconnected by {}
                    }
                    assert forall|q: int|
                        0 <= q < old_entries.len() && (#[trigger] old_entries[q]).peer.addr != addr
                        implies self.entries().contains(old_entries[q]) by {
                        assert(self.entries()[q] == old_entries[q]);
                    }
                    assert forall|q: int|
                        0 <= q < self.entries().len() && (#[trigger] self.entries()[q]).peer.addr != addr
                        implies old_entries.contains(self.entries()[q]) by {
                        assert(q < mid.len());
                        assert(self.entries()[q] == mid[q]);
                    }
                },
            }
        }
        actions
    }

    /// Ends every session whose deadline is before `now`. An active peer that stayed silent
    /// past its timeout gets Timeout and then PeerDisconnected; a peer that never finished its
    /// handshake within the grace period is told ServiceTemporaryUnavailable. Both leave the
    /// registry; every other peer stays as it was.
    pub fn tick(&mut self, now: u64) -> (r: Vec<Action>)
        requires
            old(self).wf(),
        ensures
            final(self).wf(),
            final(self).next_id() == old(self).next_id(),
            final(self).spec_type() == old(self).spec_type(),
            final(self).spec_timeout() == old(self).spec_timeout(),
            final(self).spec_grace() == old(self).spec_grace(),
            final(self).entries() == kept(old(self).entries(), now),
            actions_view(r@) == expired_actions(old(self).entries(), now),
    {
        let ghost o = self.entries();
        let mut actions: Vec<Action> = Vec::new();
        let mut i: usize = 0;
        let ghost j: int = 0;
        assert(o.subrange(0, 0) =~= Seq::<EntryView>::empty());
        assert(kept(o.subrange(0, 0), now) + o.subrange(0, o.len() as int) =~= o);
        assert(actions_view(actions@) =~= Seq::<ActionView>::empty());
        while i < self.peers.len()
            invariant
                0 <= j <= o.len(),
                i == kept(o.subrange(0, j), now).len(),
                self.entries() == kept(o.subrange(0, j), now) + o.subrange(j, o.len() as int),
                actions_view(actions@) == expired_actions(o.subrange(0, j), now),
                self.wf(),
                self.next_id() == old(self).next_id(),
                self._type == old(self)._type,
                self.timeout == old(self).timeout,
                self.grace == old(self).grace,
            decreases self.entries().len() - i,
        {
            let ghost before = self.entries();
            let ghost pre = o.subrange(0, j);
            let ghost pre1 = o.subrange(0, j + 1);
            proof {
                assert(before[i as int] == o[j]);
                assert(pre1.drop_last() =~= pre);
                assert(pre1.last() == o[j]);
            }
            if self.peers[i].deadline < now {
                let e = self.remove_entry(i);
                let peer = e.peer;
                let ghost prev_actions = actions@;
                if e.state == SessionState::Active {
                    actions.push(Action::Deliver { peer, package: signal(PackageType::Timeout) });
                    actions.push(
                        Action::Deliver { peer, package: signal(PackageType::PeerDisconnected) },
                    );
                    actions.push(Action::Lifecycle { peer, event: HandlerTypeEnum::Disconnect });
                } else {
                    actions.push(
                        Action::Send {
                            addr: peer.get_addr(),
                            package: signal(PackageType::ServiceTemporaryUnavailable),
                        },
                    );
                }
                proof {
                    assert(actions_view(actions@) =~= actions_view(prev_actions) + expiry_notices(o[j]));
                    lemma_remove_wf(before, i as int, self.next_id());
                    assert(self.entries() =~= kept(pre1, now) + o.subrange(j + 1, o.len() as int));
                    j = j + 1;
                }
            } else {
                proof {
                    assert(self.entries() =~= kept(pre1, now) + o.subrange(j + 1, o.len() as int));
                    j = j + 1;
                }
                i = i + 1;
            }
        }
        proof {
            assert(o.subrange(j, o.len() as int).len() == 0);
            assert(o.subrange(0, j) =~= o);
            assert(self.entries() =~= kept(o, now));
        }
        actions
    }

    /// Ends the session of the peer registered under `id` on this side: its handlers get
    /// PeerDisconnected, the process-wide ones the Disconnect event, and the peer leaves the
    /// registry. Nothing happens when no peer has that id.
    pub fn disconnect(&mut self, id: usize) -> (r: Vec<Action>)
        requires
            old(self).wf(),
        ensures
            final(self).wf(),
            final(self).next_id() == old(self).next_id(),
            final(self).spec_type() == old(self).spec_type(),
            final(self).spec_timeout() == old(self).spec_timeout(),
            final(self).spec_grace() == old(self).spec_grace(),
            forall|q: int|
                0 <= q < final(self).entries().len() ==> old(self).entries().contains(
                    #[trigger] final(self).entries()[q],
                ) && final(self).entries()[q].peer.id != id,
            forall|q: int|
                0 <= q < old(self).entries().len() && (#[trigger] old(self).entries()[q]).peer.id
                    != id ==> final(self).entries().contains(old(self).entries()[q]),
            (forall|q: int|
                0 <= q < old(self).entries().len() ==> (#[trigger] old(self).entries()[q]).peer.id
                    != id) ==> r@.len() == 0,
            forall|q: int|
                0 <= q < old(self).entries().len() && (#[trigger] old(self).entries()[q]).peer.id
                    == id ==> actions_view(r@) == seq![
                    notice(old(self).entries()[q].peer, PackageType::PeerDisconnected),
                    ActionView::Lifecycle {
                        peer: old(self).entries()[q].peer,
                        event: HandlerTypeEnum::Disconnect,
                    },
                ],
    {
        let ghost before = self.entries();
        match self.index_of_id(id) {
            None => {
                assert forall|q: int| 0 <= q < before.len() implies before.contains(
                    #[trigger] before[q],
                ) by {}
                Vec::new()
            },
            Some(i) => {
                let e = self.remove_entry(i);
                let peer = e.peer;
                let mut actions: Vec<Action> = Vec::new();
                actions.push(Action::Deliver { peer, package: signal(PackageType::PeerDisconnected) });
                actions.push(Action::Lifecycle { peer, event: HandlerTypeEnum::Disconnect });
                proof {
                    assert(actions_view(actions@) =~= seq![
                        notice(before[i as int].peer, PackageType::PeerDisconnected),
                        ActionView::Lifecycle { peer: before[i as int].peer, event: HandlerTypeEnum::Disconnect },
                    ]);
                    assert forall|q: int| 0 <= q < before.len() && (#[trigger] before[q]).peer.id == id
                        implies q == i by {}
                    lemma_remove_wf(before, i as int, self.next_id());
                    assert forall|q: int| 0 <= q < self.entries().len() implies before.contains(
                        #[trigger] self.entries()[q],
                    ) && self.entries()[q].peer.id != id by {
                        lemma_removed_from(before, i as int, q);
                        let a = if q < i { q } else { q + 1 };
                        assert(a != i);
                    }
                    assert forall|q: int|
                        0 <= q < before.len() && (#[trigger] before[q]).peer.id != id
                        implies self.entries().contains(before[q]) by {
                        lemma_remove_contains(before, i as int, q);
                    }
                }
                actions
            },
        }
    }

    fn remove_entry(&mut self, i: usize) -> (r: PeerEntry)
        requires
            i < old(self).peers@.len(),
        ensures
            final(self).entries() == old(self).entries().remove(i as int),
            r.view() == old(self).entries()[i as int],
            final(self).ids == old(self).ids,
            final(self).timeout == old(self).timeout,
            final(self).grace == old(self).grace,
            final(self)._type == old(self)._type,
    {
        let r = self.peers.remove(i);
        assert(self.entries() =~= old(self).entries().remove(i as int));
        r
    }
}

} // verus!
