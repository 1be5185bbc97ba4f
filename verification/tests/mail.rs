use ratatosk_transport::chatmail::imap;
use ratatosk_transport::chatmail::imap::{
    sort_uids, take, uid_list, wanted, Chore, Letter, QuotaResource, Receiver, Wait,
};
use ratatosk_transport::chatmail::runner::{
    delivered, queued, registered, report_quota, Action, Attempt, Delivery, MailRunner, MailStep,
    Mailbox, Receiving, Registered,
};
use ratatosk_transport::chatmail::smtp;
use ratatosk_transport::chatmail::smtp::{
    address, check_size, login_step, size_of, LoginStep, Mechanism, Sender,
};
use ratatosk_transport::chatmail::{build_message, parse_message};
use ratatosk_transport::runner::{
    MailAccount, PeerAddress, Transport, TransportCommand, TransportError, TransportEvent,
};

fn peer(chatmail: Option<&str>) -> PeerAddress {
    PeerAddress {
        ik: [1u8; 32],
        onion: None,
        chatmail: chatmail.map(str::to_owned),
        ygg: None,
        nostr: None,
        nostr_relays: Vec::new(),
    }
}

fn account() -> MailAccount {
    MailAccount {
        address: "a@nine.example".to_owned(),
        password: "sekret".to_owned(),
        imap_host: "nine.example".to_owned(),
        imap_port: 993,
        smtp_host: "nine.example".to_owned(),
        smtp_port: 465,
        via_tor: false,
    }
}

fn send(chatmail: Option<&str>, frame: Vec<u8>) -> TransportCommand {
    TransportCommand::Send { peer: peer(chatmail), via: Transport::Mail, frame, handoff: Some(7) }
}

#[test]
fn a_mailbox_over_tor_is_refused_before_the_wait_begins() {
    let mut runner = MailRunner::new();
    let create = || TransportCommand::CreateMailAccount {
        url: "https://chatmail.example/new".to_owned(),
        via_tor: true,
    };
    assert_eq!(
        runner.execute(false, create()),
        MailStep::Answer(Err(TransportError::Refused(
            "Tor ещё не поднялся — подождите или снимите галочку".to_owned()
        )))
    );
    assert_eq!(
        runner.execute(true, create()),
        MailStep::Register { url: "https://chatmail.example/new".to_owned(), via_tor: true }
    );
}

#[test]
fn settings_are_remembered_and_forgotten_on_command() {
    let mut runner = MailRunner::new();
    assert!(!runner.has_account(), "из коробки ящика нет");

    let step = runner.execute(false, TransportCommand::SetMailAccount(Some(account())));
    assert_eq!(step, MailStep::Account(Some(account())));
    assert!(runner.has_account());

    let step = runner.execute(false, TransportCommand::SetMailAccount(None));
    assert_eq!(step, MailStep::Account(None));
    assert!(!runner.has_account(), "убранный ящик обязан забыться");
}

#[test]
fn sending_without_a_mailbox_is_refused_rather_than_queued() {
    let mut runner = MailRunner::new();
    let verdict = runner.execute(false, send(Some("b@nine.example"), vec![0u8; 16]));
    assert_eq!(verdict, MailStep::Answer(Err(TransportError::Unavailable)));
}

#[test]
fn a_peer_without_an_address_is_refused_by_name() {
    let mut runner = MailRunner::new();
    let _ = runner.execute(false, TransportCommand::SetMailAccount(Some(account())));
    let verdict = runner.execute(false, send(None, vec![0u8; 16]));
    assert_eq!(verdict, MailStep::Answer(Err(TransportError::NoAddress)));
}

#[test]
fn foreign_commands_are_not_ours() {
    let mut runner = MailRunner::new();
    assert_eq!(
        runner.execute(false, TransportCommand::Disconnect { peer: peer(None) }),
        MailStep::Answer(Ok(()))
    );
    assert_eq!(
        runner.execute(
            false,
            TransportCommand::SetEnabled { transport: Transport::Lan, enabled: true }
        ),
        MailStep::Answer(Err(TransportError::Unavailable))
    );
    assert_eq!(
        runner.execute(
            false,
            TransportCommand::SetEnabled { transport: Transport::Mail, enabled: false }
        ),
        MailStep::Enabled(false)
    );
}

#[test]
fn a_frame_becomes_a_letter_that_reads_back() {
    let mut runner = MailRunner::new();
    let _ = runner.execute(false, TransportCommand::SetMailAccount(Some(account())));
    let step = runner.execute(false, send(Some("b@nine.example"), vec![4u8; 90]));
    match &step {
        MailStep::Letter { peer_ik, to, body, handoff } => {
            assert_eq!(*peer_ik, [1u8; 32]);
            assert_eq!(to, "b@nine.example");
            assert_eq!(*handoff, Some(7));
            assert_eq!(parse_message(body.as_bytes()).unwrap(), vec![vec![4u8; 90]]);
        }
        other => panic!("{other:?}"),
    }
    assert_eq!(queued(true, true), Ok(()));
    assert_eq!(queued(true, false), Err(TransportError::Busy));
    assert_eq!(queued(false, false), Ok(()));
}

#[test]
fn a_mailbox_that_was_asked_for_is_told() {
    let answer = b"HTTP/1.1 200 OK\r\n\r\n{\"email\":\"a@b.cd\",\"password\":\"sekret\"}".to_vec();
    assert_eq!(
        registered(Registered::Answered(answer)),
        TransportEvent::MailAccountCreated {
            address: "a@b.cd".to_owned(),
            password: "sekret".to_owned()
        }
    );
    assert_eq!(
        registered(Registered::TimedOut),
        TransportEvent::MailAccountFailed {
            reason: "сервер не ответил за отведённое время".to_owned()
        }
    );
    assert_eq!(
        registered(Registered::Failed("нет связи".to_owned())),
        TransportEvent::MailAccountFailed { reason: "нет связи".to_owned() }
    );
    assert!(matches!(
        registered(Registered::Answered(b"not http".to_vec())),
        TransportEvent::MailAccountFailed { .. }
    ));
}

#[test]
fn a_login_that_fails_is_told_once_until_one_works() {
    let mut mailbox = Mailbox::new();
    assert!(!mailbox.retrying());
    assert_eq!(
        mailbox.on_job(MailStep::Account(Some(account()))),
        Action::Reopen { login: true }
    );
    assert!(mailbox.retrying());

    let failed = || Err("отказ".to_owned());
    assert_eq!(
        mailbox.on_login(failed()),
        vec![TransportEvent::MailLoginFailed { reason: "отказ".to_owned() }]
    );
    assert_eq!(mailbox.on_login(failed()), vec![], "второй раз молчим");
    assert_eq!(
        mailbox.on_login(Ok(Some(5))),
        vec![
            TransportEvent::Ready { transport: Transport::Mail },
            TransportEvent::MailLetterLimit { bytes: Some(5) },
        ]
    );
    assert!(!mailbox.retrying());
    assert_eq!(mailbox.on_login(failed()).len(), 1, "после удачи говорим снова");
}

#[test]
fn a_letter_goes_on_the_open_connection_first() {
    let mut mailbox = Mailbox::new();
    assert_eq!(mailbox.deliver(), Err(TransportError::Unavailable));
    let _ = mailbox.on_job(MailStep::Account(Some(account())));
    assert_eq!(mailbox.deliver(), Ok(Attempt::Fresh));
    assert_eq!(mailbox.on_tried(Attempt::Fresh, false), Delivery::Failed, "второго круга нет");
    assert!(!mailbox.open);
    assert_eq!(mailbox.on_tried(Attempt::Fresh, true), Delivery::Sent);
    assert_eq!(mailbox.deliver(), Ok(Attempt::Open));
    assert_eq!(mailbox.on_tried(Attempt::Open, true), Delivery::Sent);
    assert_eq!(mailbox.deliver(), Ok(Attempt::Open));
    assert_eq!(mailbox.on_tried(Attempt::Open, false), Delivery::Again(Attempt::Fresh));
    assert_eq!(mailbox.deliver(), Ok(Attempt::Fresh));

    let letter = || MailStep::Letter {
        peer_ik: [2u8; 32],
        to: "b@nine.example".to_owned(),
        body: "x".to_owned(),
        handoff: Some(9),
    };
    assert!(matches!(
        mailbox.on_job(letter()),
        Action::Send { attempt: Attempt::Fresh, handoff: Some(9), .. }
    ));
    assert_eq!(mailbox.on_job(MailStep::Enabled(true)), Action::Nothing);
    assert_eq!(mailbox.on_job(MailStep::Enabled(false)), Action::Reopen { login: false });
    assert_eq!(mailbox.deliver(), Err(TransportError::Unavailable));
    assert_eq!(
        mailbox.on_job(letter()),
        Action::Tell(TransportEvent::ConnectFailed { peer_ik: [2u8; 32], via: Transport::Mail })
    );
    assert!(!mailbox.receives());
    assert_eq!(mailbox.on_job(MailStep::Enabled(true)), Action::Reopen { login: true });
    assert_eq!(mailbox.on_job(MailStep::Answer(Ok(()))), Action::Nothing);

    assert_eq!(
        delivered([2u8; 32], Some(9), true),
        Some(TransportEvent::Handed { peer_ik: [2u8; 32], via: Transport::Mail, handoff: 9 })
    );
    assert_eq!(delivered([2u8; 32], None, true), None);
    assert_eq!(
        delivered([2u8; 32], Some(9), false),
        Some(TransportEvent::ConnectFailed { peer_ik: [2u8; 32], via: Transport::Mail })
    );
}

#[test]
fn receiving_that_fails_is_told_once() {
    let mut receiving = Receiving::new();
    assert_eq!(
        receiving.on_login(Some("отказ".to_owned())),
        Some(TransportEvent::MailLoginFailed {
            reason: "письма отправляются, но не приходят: отказ".to_owned()
        })
    );
    assert_eq!(receiving.on_login(Some("отказ".to_owned())), None);
    assert_eq!(receiving.on_login(None), None);
    assert!(receiving.on_login(Some("снова".to_owned())).is_some());
}

#[test]
fn the_quota_is_told_in_bytes() {
    let receiver = Receiver::login(Some((false, true)));
    let other = QuotaResource { storage: false, usage: 1, limit: 1 };
    let room = QuotaResource { storage: true, usage: 10, limit: 100 };
    let quota = receiver.mailbox_quota(Some(vec![other, room]));
    assert_eq!(quota, Some((10_240, 102_400)));
    assert_eq!(
        report_quota(quota),
        Some(TransportEvent::MailQuota { used_bytes: 10_240, limit_bytes: 102_400 })
    );
    let endless = QuotaResource { storage: true, usage: 10, limit: 0 };
    assert_eq!(receiver.mailbox_quota(Some(vec![endless, room])), None);
    let huge = QuotaResource { storage: true, usage: u64::MAX, limit: u64::MAX };
    assert_eq!(receiver.mailbox_quota(Some(vec![huge])), Some((u64::MAX, u64::MAX)));
    assert_eq!(receiver.mailbox_quota(None), None);

    let mute = Receiver::login(None);
    assert!(!mute.asks_quota());
    assert_eq!(mute.mailbox_quota(Some(vec![room])), None);
    assert_eq!(mute.wait_for_news(), Wait::Poll);
    assert_eq!(Receiver::login(Some((true, false))).wait_for_news(), Wait::Idle);
    assert_eq!(report_quota(None), None);
}

#[test]
fn only_letters_that_were_read_are_deleted() {
    let ours = build_message("a@nine.example", "b@nine.example", &[vec![1u8; 8], vec![2u8; 3]])
        .unwrap()
        .into_bytes();
    let letters = vec![
        Letter { uid: Some(5), body: Some(b"Subject: spam\r\n\r\nbuy".to_vec()) },
        Letter { uid: Some(6), body: Some(ours.clone()) },
        Letter { uid: None, body: Some(ours) },
        Letter { uid: Some(8), body: None },
    ];
    let taken = take(&letters);
    assert_eq!(taken.frames, vec![vec![1u8; 8], vec![2u8; 3]]);
    assert_eq!(taken.ours, vec![6]);
    assert_eq!(taken.foreign, vec![5, 8]);
    assert_eq!(
        taken.handed(true),
        vec![Chore::Seen("5,8".to_owned()), Chore::Deleted("6".to_owned()), Chore::Expunge]
    );
    assert_eq!(taken.handed(false), vec![], "nobody heard: the letters come again");
    assert_eq!(take(&vec![]).handed(true), vec![]);
    assert_eq!(
        imap::received(vec![1]),
        TransportEvent::Received {
            via: Transport::Mail,
            peer_hint: None,
            link: None,
            frame: vec![1]
        }
    );
}

#[test]
fn letters_are_fetched_in_the_order_of_their_numbers() {
    assert_eq!(sort_uids(&vec![30, 7, 7, 100]), vec![7, 7, 30, 100]);
    assert_eq!(uid_list(&vec![7, 30, 100]), "7,30,100");
    assert_eq!(wanted(&vec![30, 7, 100]), Some("7,30,100".to_owned()));
    assert_eq!(wanted(&vec![]), None);
}

#[test]
fn a_refusal_of_the_mail_server_says_where_it_came() {
    assert_eq!(
        imap::Stage::Search.refused("x"),
        TransportError::Refused("поиск в ящике не вышел: x".to_owned())
    );
    assert_eq!(
        imap::Stage::IdleEnd.refused("x"),
        TransportError::Refused("IDLE не закончился: x".to_owned())
    );
    assert_eq!(
        imap::silent(),
        TransportError::Refused("IMAP молчит вместо приветствия".to_owned())
    );
    assert_eq!(
        smtp::Stage::Address.refused("@"),
        TransportError::Refused("адрес не годится для письма: @".to_owned())
    );
    assert_eq!(imap::MARK_SEEN, "+FLAGS (\\Seen)");
    assert_eq!(imap::MARK_DELETED, "+FLAGS (\\Deleted)");
}

fn ehlo(lines: &[&str]) -> Vec<String> {
    lines.iter().map(|line| (*line).to_owned()).collect()
}

#[test]
fn the_answer_a_real_stingy_server_gave() {
    let response = ehlo(&[
        "tarpit.fun",
        "PIPELINING",
        "SIZE 31457280",
        "VRFY",
        "ETRN",
        "AUTH PLAIN",
        "ENHANCEDSTATUSCODES",
        "8BITMIME",
        "DSN",
        "SMTPUTF8",
        "CHUNKING",
    ]);
    assert_eq!(size_of(&response), Some(31_457_280));
}

#[test]
fn a_bare_size_means_no_limit_named() {
    assert_eq!(size_of(&ehlo(&["mail.example", "SIZE", "8BITMIME"])), None);
    assert_eq!(size_of(&ehlo(&["mail.example", "SIZE нет"])), None);
    assert_eq!(size_of(&ehlo(&["mail.example", "8BITMIME"])), None);
}

#[test]
fn a_word_starting_with_size_is_not_size() {
    assert_eq!(size_of(&ehlo(&["mail.example", "SIZEX 5"])), None);
}

#[test]
fn a_letter_too_large_for_the_server_is_not_sent() {
    let sender = Sender::login(Some(ehlo(&["mail.example", "SIZE 100"])));
    assert_eq!(sender.max_letter_bytes(), Some(100));
    assert_eq!(Sender::login(None).max_letter_bytes(), None);
    assert_eq!(check_size(100, sender.max_letter_bytes()), Ok(()));
    assert_eq!(
        check_size(101, sender.max_letter_bytes()),
        Err(TransportError::Refused(
            "письмо на 101 байт не влезает в предел сервера 100".to_owned()
        ))
    );
    assert_eq!(check_size(u64::MAX, None), Ok(()));
}

#[test]
fn both_ways_to_log_in_are_tried() {
    let first = "нет".to_owned();
    assert_eq!(login_step(Mechanism::Plain, None, &first), LoginStep::In);
    assert_eq!(
        login_step(Mechanism::Plain, Some(first.clone()), &first),
        LoginStep::Try(Mechanism::Login)
    );
    assert_eq!(
        login_step(Mechanism::Login, Some("и так нет".to_owned()), &first),
        LoginStep::Refused(TransportError::Refused(
            "вход на сервер отвергнут: PLAIN — нет; LOGIN — и так нет".to_owned()
        ))
    );
}

#[test]
fn an_address_with_a_line_break_is_refused() {
    assert_eq!(address("a@nine.example"), Ok("a@nine.example".to_owned()));
    assert_eq!(address(""), Ok(String::new()));
    for bad in ["a b", "a\r\nRCPT", "<a@b>", "ящик@пример", "a\u{7f}"] {
        assert_eq!(
            address(bad),
            Err(TransportError::Refused(format!("адрес не годится для письма: {bad}")))
        );
    }
}
