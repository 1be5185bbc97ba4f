use ratatosk_transport::onion::{
    another_key, short, started, wants_our_port, Dialed, Launched, OnionRunner, OnionStep,
    ServiceNews, Started, EXPECTED_LATENCY_MAX_MS, EXPECTED_LATENCY_MIN_MS,
};
use ratatosk_transport::runner::{
    PeerAddress, Transport, TransportCommand, TransportError, TransportEvent,
};
use ratatosk_transport::tls::{named, server_name, way, Refusal, Way};

fn peer(onion: Option<&str>) -> PeerAddress {
    PeerAddress {
        ik: [0xab; 32],
        onion: onion.map(str::to_owned),
        chatmail: None,
        ygg: None,
        nostr: None,
        nostr_relays: Vec::new(),
    }
}

fn note(note: &str, blocked: Option<&str>) -> TransportEvent {
    TransportEvent::TorProgress {
        thousandths: 1000,
        note: note.to_owned(),
        blocked: blocked.map(str::to_owned),
    }
}

fn send(onion: Option<&str>) -> TransportCommand {
    TransportCommand::Send {
        peer: peer(onion),
        via: Transport::Onion,
        frame: vec![1, 2],
        handoff: None,
    }
}

#[test]
fn a_peer_without_an_onion_address_is_named_in_short() {
    assert_eq!(short(&[0xab; 32]), "abababababab");
    let mut runner = OnionRunner::start("our.onion".to_owned());
    assert_eq!(runner.address(), "our.onion");
    assert_eq!(
        runner.execute(send(None), false),
        OnionStep::NoAddress(note("abababababab: onion-адреса в карточке нет", None))
    );
}

#[test]
fn a_link_is_dialed_once_and_then_used() {
    let mut runner = OnionRunner::start("our.onion".to_owned());
    assert_eq!(
        runner.execute(send(Some("peer.onion")), false),
        OnionStep::Dial {
            peer_ik: [0xab; 32],
            address: "peer.onion".to_owned(),
            event: note("набираем peer.onion", None),
            frame: Some(vec![1, 2]),
        }
    );
    let (link, events) = runner.dialed([0xab; 32], "peer.onion", 45_000, Dialed::Open);
    assert_eq!(link, Ok(0));
    assert_eq!(
        events,
        vec![
            note("peer.onion: соединение установлено", None),
            TransportEvent::Connected { peer_ik: [0xab; 32], via: Transport::Onion },
        ]
    );
    assert_eq!(
        runner.execute(send(Some("peer.onion")), false),
        OnionStep::Use { link: 0, frame: Some(vec![1, 2]) }
    );
    let connect = || TransportCommand::Connect {
        peer: peer(Some("peer.onion")),
        via: Transport::Onion,
    };
    assert_eq!(runner.execute(connect(), false), OnionStep::Use { link: 0, frame: None });
    assert!(matches!(runner.execute(connect(), true), OnionStep::Dial { .. }));
    let _ = runner.dialed([0xab; 32], "peer.onion", 45_000, Dialed::Open);
    assert_eq!(
        runner.execute(TransportCommand::Disconnect { peer: peer(None) }, false),
        OnionStep::Answer(Ok(()))
    );
    assert_eq!(runner.links.len(), 0);
    assert_eq!(
        runner.execute(TransportCommand::RestartLan, false),
        OnionStep::Answer(Err(TransportError::Unavailable))
    );
}

#[test]
fn a_dial_that_fails_says_why() {
    let mut runner = OnionRunner::start("our.onion".to_owned());
    assert_eq!(
        runner.dialed([0xab; 32], "peer.onion", 45_000, Dialed::TimedOut),
        (
            Err(TransportError::Timeout),
            vec![note(
                "peer.onion: молчит 45 с",
                Some("дескриптор не найден или сервис недоступен")
            )]
        )
    );
    assert_eq!(
        runner.dialed([0xab; 32], "peer.onion", 45_000, Dialed::Refused("нет".to_owned())),
        (
            Err(TransportError::Unavailable),
            vec![note("peer.onion: не дозвонились", Some("нет"))]
        )
    );
}

#[test]
fn the_service_is_told_of_once_and_without_repetition() {
    let mut news = ServiceNews::new();
    let told = news.on_status(false, "Bootstrapping", "our.onion");
    assert_eq!((told.note, told.ready), (Some(note("сервис: Bootstrapping", None)), None));
    let told = news.on_status(false, "Bootstrapping", "our.onion");
    assert_eq!((told.note, told.ready), (None, None));
    let told = news.on_status(true, "Running", "our.onion");
    assert_eq!(told.note, Some(note("сервис опубликован: our.onion", None)));
    assert_eq!(told.ready, Some(TransportEvent::TorReady { onion: "our.onion".to_owned() }));
    let _ = news.on_status(false, "Broken", "our.onion");
    let told = news.on_status(true, "Running", "our.onion");
    assert!(told.note.is_some());
    assert_eq!(told.ready, None);
}

#[test]
fn a_service_under_another_key_is_not_ours() {
    let ours = [1u8; 32];
    let launch = |published| started(Launched::Running { published }, &ours, "our.onion".to_owned());
    assert!(matches!(launch(Some([1u8; 32])), Started::Up(_)));
    assert!(matches!(launch(None), Started::Up(_)));
    assert!(matches!(launch(Some([2u8; 32])), Started::Foreign(key) if key == [2u8; 32]));
    assert!(matches!(started(Launched::Failed, &ours, "our.onion".to_owned()), Started::Down));
    match another_key("their.onion", "our.onion") {
        TransportEvent::TorProgress { thousandths, note, blocked } => {
            assert_eq!(thousandths, 1000);
            assert_eq!(note, "сервис поднялся с чужим ключом: обслуживает their.onion");
            assert_eq!(
                blocked.unwrap(),
                "ждали our.onion — адрес из нашего ключа. Свой ключ arti держит \
                 в каталоге состояния и, найдя его там, до ctor-хранилища \
                 не доходит. Остановите узел, удалите каталог state внутри .tor \
                 и запустите заново"
            );
        }
        other => panic!("{other:?}"),
    }
}

#[test]
fn only_our_port_is_served() {
    assert!(wants_our_port(Some(9), 9));
    assert!(!wants_our_port(Some(10), 9));
    assert!(!wants_our_port(None, 9));
    assert!(EXPECTED_LATENCY_MIN_MS < EXPECTED_LATENCY_MAX_MS);
}

#[test]
fn a_wish_for_tor_is_never_answered_without_it() {
    assert_eq!(way(false, false), Ok(Way::Direct));
    assert_eq!(way(false, true), Ok(Way::Direct));
    assert_eq!(way(true, true), Ok(Way::Tor));
    assert_eq!(way(true, false), Err(TransportError::Unavailable));
    assert_eq!(
        Refusal::Name("!".to_owned()).error(),
        TransportError::Refused("имя сервера не годится: !".to_owned())
    );
    assert_eq!(
        Refusal::Tor("x".to_owned()).error(),
        TransportError::Refused("Tor не открыл поток: x".to_owned())
    );
    assert_eq!(
        Refusal::Handshake("x".to_owned()).error(),
        TransportError::Refused("TLS не установился: x".to_owned())
    );
}

#[test]
fn the_name_of_a_server_is_checked() {
    assert_eq!(server_name("nine.example"), Ok(()));
    assert_eq!(server_name("127.0.0.1"), Ok(()));
    let refused = TransportError::Refused("имя сервера не годится: a b".to_owned());
    assert_eq!(server_name("a b"), Err(refused.clone()));
    assert_eq!(named("a b", true), Ok(()));
    assert_eq!(named("a b", false), Err(refused));
}
