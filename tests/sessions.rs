use datagram_layer::handlers::Receivers;
use datagram_layer::layer::{wave_hand, Action, HandlerTypeEnum, Layer};
use datagram_layer::package::PackageType;
use datagram_layer::peer::{get_id, Address, ClientPeer, IdAllocator, PeerType};
use datagram_layer::session::{react, Reaction, SessionState};

fn client() -> Address {
    Address { ip: 0x7f000001, port: 40000, v6: false }
}

fn count_deliveries(actions: &[Action], kind: PackageType) -> usize {
    actions
        .iter()
        .filter(|a| matches!(a, Action::Deliver { package, .. } if package.pack_type() == kind))
        .count()
}

#[test]
fn handshake_is_answered_with_wave_hand() {
    let mut layer = Layer::new(PeerType::Server, 1000, 500);
    let actions = layer.on_datagram(client(), &[0x00, 0x00, 0xff], 10);
    let peer = layer.peer_by_addr(client()).unwrap();
    assert_eq!(peer.get_id(), 1);
    assert_eq!(layer.state_of(1), Some(SessionState::Active));
    let replies: Vec<&Action> = actions.iter().filter(|a| matches!(a, Action::Send { .. })).collect();
    assert_eq!(replies.len(), 1);
    match replies[0] {
        Action::Send { addr, package } => {
            assert_eq!(*addr, client());
            assert_eq!(package.pack_type(), PackageType::WaveHand);
            assert_eq!(package.data(), &vec![0u8, 0, 0, 0, 0, 0, 0, 1]);
        }
        _ => unreachable!(),
    }
    assert_eq!(count_deliveries(&actions, PackageType::PeerConnected), 1);
    let events = actions
        .iter()
        .filter(|a| matches!(a, Action::Lifecycle { event: HandlerTypeEnum::Handshake, .. }))
        .count();
    assert_eq!(events, 1);
    let again = layer.on_datagram(client(), &[0x00, 0x00, 0xff], 20);
    assert_eq!(count_deliveries(&again, PackageType::PeerConnected), 0);
}

#[test]
fn silent_peer_times_out() {
    let mut layer = Layer::new(PeerType::Server, 100, 50);
    layer.on_datagram(client(), &[0x00, 0x00, 0xff], 0);
    layer.on_datagram(client(), &[0x07, 0x00, 0xff], 50);
    assert_eq!(layer.tick(150).len(), 0);
    let actions = layer.tick(151);
    assert_eq!(actions.len(), 3);
    match (&actions[0], &actions[1], &actions[2]) {
        (
            Action::Deliver { package: first, .. },
            Action::Deliver { package: second, .. },
            Action::Lifecycle { event: HandlerTypeEnum::Disconnect, .. },
        ) => {
            assert_eq!(first.pack_type(), PackageType::Timeout);
            assert_eq!(second.pack_type(), PackageType::PeerDisconnected);
        }
        _ => panic!("unexpected actions"),
    }
    assert!(layer.peer_by_id(1).is_none());
    assert!(layer.peer_by_addr(client()).is_none());
}

#[test]
fn handshake_not_completed_in_grace_period() {
    let mut layer = Layer::new(PeerType::Server, 100, 50);
    layer.on_datagram(client(), &[0x03, 0x41, 0xff], 0);
    assert_eq!(layer.state_of(1), Some(SessionState::Connecting));
    let actions = layer.tick(51);
    assert_eq!(actions.len(), 1);
    match &actions[0] {
        Action::Send { package, .. } => {
            assert_eq!(package.pack_type(), PackageType::ServiceTemporaryUnavailable)
        }
        _ => panic!("unexpected action"),
    }
    assert!(layer.peer_by_id(1).is_none());
}

#[test]
fn user_data_waits_for_handshake() {
    let mut layer = Layer::new(PeerType::Server, 100, 50);
    let first = layer.on_datagram(client(), &[0x03, 0x41, 0xff], 0);
    assert_eq!(count_deliveries(&first, PackageType::Userdata), 0);
    let second = layer.on_datagram(client(), &[0x00, 0x00, 0xff], 1);
    assert_eq!(count_deliveries(&second, PackageType::Userdata), 1);
}

#[test]
fn split_frame_across_datagrams() {
    let mut layer = Layer::new(PeerType::Server, 100, 50);
    layer.on_datagram(client(), &[0x00, 0x00, 0xff], 0);
    let first = layer.on_datagram(client(), &[0x03, 0x41], 1);
    assert_eq!(count_deliveries(&first, PackageType::Userdata), 0);
    let second = layer.on_datagram(client(), &[0x42, 0xff], 2);
    assert_eq!(second.len(), 1);
    match &second[0] {
        Action::Deliver { package, .. } => {
            assert_eq!(package.pack_type(), PackageType::Userdata);
            assert_eq!(package.data(), &vec![0x41u8, 0x42]);
        }
        _ => panic!("unexpected action"),
    }
}

#[test]
fn packed_frames_in_one_datagram() {
    let mut layer = Layer::new(PeerType::Server, 100, 50);
    layer.on_datagram(client(), &[0x00, 0x00, 0xff], 0);
    let actions = layer.on_datagram(client(), &[0x03, 0x41, 0xff, 0x03, 0x42, 0xff], 1);
    assert_eq!(actions.len(), 2);
    let payloads: Vec<Vec<u8>> = actions
        .iter()
        .map(|a| match a {
            Action::Deliver { package, .. } => package.data().clone(),
            _ => panic!("unexpected action"),
        })
        .collect();
    assert_eq!(payloads, vec![vec![0x41u8], vec![0x42u8]]);
}

#[test]
fn bad_frame_reported_and_skipped() {
    let mut layer = Layer::new(PeerType::Server, 100, 50);
    layer.on_datagram(client(), &[0x00, 0x00, 0xff], 0);
    let actions = layer.on_datagram(client(), &[0xfe, 0x00, 0xff, 0x03, 0x41, 0xff], 1);
    assert_eq!(count_deliveries(&actions, PackageType::BadPackage), 1);
    assert_eq!(count_deliveries(&actions, PackageType::Userdata), 1);
    assert_eq!(layer.state_of(1), Some(SessionState::Active));
}

#[test]
fn peer_says_goodbye() {
    let mut layer = Layer::new(PeerType::Server, 100, 50);
    layer.on_datagram(client(), &[0x00, 0x00, 0xff], 0);
    let actions = layer.on_datagram(client(), &[0x05, 0x00, 0xff], 1);
    assert_eq!(count_deliveries(&actions, PackageType::PeerDisconnected), 1);
    assert!(layer.peer_by_id(1).is_none());
}

#[test]
fn local_disconnect() {
    let mut layer = Layer::new(PeerType::Client, 100, 50);
    layer.on_datagram(client(), &[0x00, 0x00, 0xff], 0);
    assert_eq!(layer.disconnect(1).len(), 2);
    assert!(layer.peer_by_id(1).is_none());
    assert_eq!(layer.disconnect(1).len(), 0);
    assert_eq!(layer.get_type(), PeerType::Client);
}

#[test]
fn two_peers_get_distinct_ids() {
    let mut layer = Layer::new(PeerType::Server, 100, 50);
    let other = Address { ip: 0x7f000001, port: 40001, v6: false };
    layer.on_datagram(client(), &[0x00, 0x00, 0xff], 0);
    layer.on_datagram(other, &[0x00, 0x00, 0xff], 0);
    assert_eq!(layer.peer_by_addr(client()).unwrap().get_id(), 1);
    assert_eq!(layer.peer_by_addr(other).unwrap().get_id(), 2);
}

#[test]
fn ids_increase() {
    let mut ids = IdAllocator::new();
    let a = get_id(&mut ids).unwrap();
    let b = get_id(&mut ids).unwrap();
    let c = get_id(&mut ids).unwrap();
    assert_eq!(a, 1);
    assert!(a < b && b < c);
    assert_eq!(ids.peek(), 4);
}

#[test]
fn peers_equal_by_id() {
    let a = ClientPeer::new(7, client());
    let mut b = ClientPeer::new(7, Address { ip: 1, port: 2, v6: true });
    assert!(a == b);
    b.move_addr(client());
    assert_eq!(b.get_addr(), client());
    assert!(b.plays_genshin_impact());
    assert!(a != ClientPeer::new(8, client()));
}

#[test]
fn wave_hand_carries_id_big_endian() {
    let p = wave_hand(0x0102);
    assert_eq!(p.data(), &vec![0u8, 0, 0, 0, 0, 0, 0x01, 0x02]);
}

#[test]
fn session_steps() {
    assert_eq!(
        react(SessionState::Connecting, Ok(PackageType::Handshake)),
        (SessionState::Active, Reaction::Admit)
    );
    assert_eq!(
        react(SessionState::Active, Ok(PackageType::Heartbeat)),
        (SessionState::Active, Reaction::Refresh)
    );
    assert_eq!(
        react(SessionState::Disconnected, Ok(PackageType::Userdata)),
        (SessionState::Disconnected, Reaction::Ignore)
    );
}

#[test]
fn handlers_in_registration_order() {
    let mut table: Receivers<&str> = Receivers::new();
    table.on_package(1, PackageType::Userdata, "first");
    table.on_package(2, PackageType::Userdata, "other peer");
    table.on_package(1, PackageType::Heartbeat, "other type");
    table.on_package(1, PackageType::Userdata, "second");
    let found = table.matching(1, PackageType::Userdata);
    let names: Vec<&str> = found.iter().map(|i| *table.handler(1, *i)).collect();
    assert_eq!(names, vec!["first", "second"]);
}
