use ratatosk_transport::lan::{
    beacon_text, heard_service, host_name, instance_name, name_of, unix_seconds, until_next_slot, Addr, Announce, Heard,
    Ip, LanConfig, LanRunner, LanStep, LinkUse, HEARD_CAPACITY,
};
use ratatosk_transport::runner::{
    PeerAddress, Transport, TransportCommand, TransportError, TransportEvent,
};
use ratatosk_transport::wire::SizeClass;

fn peer(ik: u8) -> PeerAddress {
    PeerAddress {
        ik: [ik; 32],
        onion: None,
        chatmail: None,
        ygg: None,
        nostr: None,
        nostr_relays: Vec::new(),
    }
}

fn addr(port: u16) -> Addr {
    Addr { ip: Ip::V4(0x7f00_0001), port }
}

fn send(ik: u8) -> TransportCommand {
    TransportCommand::Send {
        peer: peer(ik),
        via: Transport::Lan,
        frame: vec![0u8; SizeClass::S.frame_len()],
        handoff: None,
    }
}

fn on() -> LanRunner {
    LanRunner::start(LanConfig { enabled: true, port: 0, discovery: false }, 4000).0
}

#[test]
fn every_launch_announces_under_its_own_name() {
    assert_ne!(
        instance_name().unwrap(),
        instance_name().unwrap(),
        "имя объявления обязано быть своим у каждого запуска"
    );
    assert_eq!(instance_name().unwrap().len(), 16);
    assert_eq!(name_of(&[0, 1, 2, 3, 0xfc, 0xfd, 0xfe, 0xff]), "00010203fcfdfeff");
}

#[test]
fn lan_is_off_by_default() {
    assert!(!LanConfig::default().enabled, "умолчание в коде и в продукте совпадают");
}

#[test]
fn disabled_lan_refuses_to_send() {
    let (mut runner, announce) = LanRunner::start(LanConfig::default(), 4000);
    assert_eq!(announce, Announce::Leave);
    assert!(runner.port() != 0, "порт занимается независимо от объявления");

    let _ = runner.note_address([2u8; 32], addr(9));
    assert_eq!(
        runner.execute(send(2), false),
        LanStep::Answer(Err(TransportError::Unavailable))
    );
}

#[test]
fn an_unknown_address_fails_fast_and_says_so() {
    let mut runner = on();
    assert_eq!(
        runner.execute(send(2), false),
        LanStep::Report {
            event: TransportEvent::ConnectFailed { peer_ik: [2u8; 32], via: Transport::Lan },
            error: TransportError::NoAddress,
        }
    );
}

#[test]
fn an_address_that_did_not_answer_is_forgotten() {
    let mut runner = on();
    let dead = addr(9);
    let _ = runner.note_address([2u8; 32], dead);
    runner.remember([5u8; 16], dead);
    runner.remember([6u8; 16], addr(10));
    assert_eq!(runner.address_of(&[2u8; 32]), Some(dead));
    assert_eq!(runner.directory.get(&[2u8; 32]), Some(dead));

    let _ = runner.execute(send(2), false);
    runner.forget_address(&[2u8; 32]);
    assert_eq!(
        runner.address_of(&[2u8; 32]),
        None,
        "мёртвый адрес обязан уйти из справочника, а не пережить собеседника"
    );
    assert_eq!(runner.heard.len(), 1, "и маяк оттуда его не вернёт");
}

#[test]
fn sending_does_not_wait_for_the_dial() {
    let mut runner = on();
    let _ = runner.note_address([2u8; 32], addr(9));
    match runner.execute(send(2), false) {
        LanStep::Carry { link: LinkUse::Dial { link, addr: to }, frame } => {
            assert_eq!((link, to), (0, addr(9)));
            assert_eq!(frame.len(), SizeClass::S.frame_len());
        }
        other => panic!("{other:?}"),
    }
    match runner.execute(send(2), false) {
        LanStep::Carry { link, .. } => assert_eq!(link, LinkUse::Live(0)),
        other => panic!("{other:?}"),
    }
    match runner.execute(send(2), true) {
        LanStep::Carry { link, .. } => assert_eq!(link, LinkUse::Dial { link: 1, addr: addr(9) }),
        other => panic!("{other:?}"),
    }
}

#[test]
fn a_full_queue_does_not_cost_the_link() {
    let mut runner = on();
    let _ = runner.note_address([2u8; 32], addr(9));
    let _ = runner.execute(send(2), false);
    assert_eq!(runner.carried([2u8; 32], Ok(())), None);
    assert_eq!(runner.carried([2u8; 32], Err(TransportError::Busy)), None);
    assert_eq!(runner.links.len(), 1);
    assert_eq!(
        runner.carried([2u8; 32], Err(TransportError::Unavailable)),
        Some(TransportEvent::ConnectFailed { peer_ik: [2u8; 32], via: Transport::Lan })
    );
    assert_eq!(runner.links.len(), 0);
    assert_eq!(runner.address_of(&[2u8; 32]), None);
}

#[test]
fn a_restart_forgets_everything_and_says_goodbye() {
    let (mut runner, announce) =
        LanRunner::start(LanConfig { enabled: true, port: 0, discovery: true }, 4000);
    assert_eq!(announce, Announce::Start);
    let _ = runner.note_address([2u8; 32], addr(9));
    let _ = runner.execute(TransportCommand::Connect { peer: peer(2), via: Transport::Lan }, false);
    runner.remember([5u8; 16], addr(9));
    assert_eq!(
        runner.execute(TransportCommand::RestartLan, false),
        LanStep::Restarted {
            events: vec![TransportEvent::Disconnected {
                peer_ik: [2u8; 32],
                via: Transport::Lan
            }],
            announce: Announce::Restart,
        }
    );
    assert_eq!(runner.address_of(&[2u8; 32]), None);
    assert!(runner.heard.is_empty());
    assert_eq!(
        runner.execute(
            TransportCommand::SetEnabled { transport: Transport::Lan, enabled: false },
            false
        ),
        LanStep::Announce(Announce::Stop)
    );
    assert_eq!(
        runner.execute(TransportCommand::Disconnect { peer: peer(2) }, false),
        LanStep::Answer(Ok(()))
    );
}

#[test]
fn a_beacon_is_kept_once_and_there_are_never_too_many() {
    let mut runner = on();
    for n in 0..=HEARD_CAPACITY {
        runner.remember([n as u8; 16], addr(n as u16));
    }
    assert_eq!(runner.heard.len(), HEARD_CAPACITY);
    assert_eq!(runner.heard[0].record, [1u8; 16], "ушёл самый давний");
    runner.remember([3u8; 16], addr(7));
    assert_eq!(runner.heard.len(), HEARD_CAPACITY);
    assert_eq!(runner.heard[HEARD_CAPACITY - 1], Heard { record: [3u8; 16], addr: addr(7) });
}

#[test]
fn a_peer_heard_before_it_was_watched_is_found() {
    let mut runner = on();
    runner.remember([5u8; 16], addr(9));
    runner.remember([6u8; 16], addr(10));
    let hits = vec![vec![false, true], vec![false, false]];
    assert_eq!(
        runner.watch(vec![[1u8; 32], [2u8; 32]], &hits),
        vec![TransportEvent::SeenOnLan { peer_ik: [2u8; 32] }]
    );
    assert_eq!(runner.address_of(&[2u8; 32]), Some(addr(9)));
    assert_eq!(
        runner.browsed(Heard { record: [7u8; 16], addr: addr(11) }, &vec![true, false]),
        vec![TransportEvent::SeenOnLan { peer_ik: [1u8; 32] }]
    );
    assert_eq!(runner.address_of(&[1u8; 32]), Some(addr(11)));
}

#[test]
fn an_announcement_is_read_from_its_text() {
    let text = "000102030405060708090a0b0c0d0e0f";
    let heard = heard_service(text, &vec![30, 20, 40], 4000).unwrap();
    assert_eq!(heard.record, [0, 1, 2, 3, 4, 5, 6, 7, 8, 9, 10, 11, 12, 13, 14, 15]);
    assert_eq!(heard.addr, Addr { ip: Ip::V4(20), port: 4000 });
    assert_eq!(beacon_text(&heard.record), text);
    assert_eq!(host_name("aa"), "aa.local.");
    assert_eq!(heard_service(text, &vec![], 4000), None);
    assert_eq!(heard_service("0001", &vec![1], 4000), None);
    assert_eq!(heard_service("zz", &vec![1], 4000), None);
}

#[test]
fn the_next_slot_is_waited_for() {
    assert_eq!(until_next_slot(100, 1, 60), 20);
    assert_eq!(until_next_slot(120, 1, 60), 1);
    assert_eq!(unix_seconds(None), 0);
    assert_eq!(unix_seconds(Some(5)), 5);
}
