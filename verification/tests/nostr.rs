use ratatosk_transport::nostr::message::{parse, read, Item, Parsed};
use ratatosk_transport::nostr::relay::{
    event_name, millis_now, seconds_now, Came, Outcome, Relay, RelayNote, Step,
};
use ratatosk_transport::nostr::state::{
    accept, collect, expires_at, goes_on, Job, JobStep, Keys, Note, Piece, State, Ticket, Verdict,
    MAX_PEER_LINKS,
};
use ratatosk_transport::runner::{
    NostrSetup, PeerAddress, Transport, TransportCommand, TransportError, TransportEvent,
};
use ratatosk_transport::wire::SizeClass;

#[test]
fn an_event_message_is_read_for_its_content_and_time() {
    let line = r#"["EVENT","rk",{"id":"aa","pubkey":"bb","created_at":1700000000,"kind":4242,"tags":[],"content":"ZGF0YQ","sig":"cc"}]"#;
    assert_eq!(
        parse(line),
        Some(Parsed::Event { content: "ZGF0YQ".to_owned(), created_at: 1_700_000_000 })
    );
}

#[test]
fn an_ok_message_is_read_for_its_verdict() {
    assert_eq!(
        parse(r#"["OK","abc",true,""]"#),
        Some(Parsed::Answer { id: "abc".to_owned(), ok: true, note: String::new() })
    );
    assert_eq!(
        parse(r#"["OK","abc",false,"blocked: pubkey not allowed"]"#),
        Some(Parsed::Answer {
            id: "abc".to_owned(),
            ok: false,
            note: "blocked: pubkey not allowed".to_owned()
        })
    );
}

#[test]
fn a_closed_subscription_is_a_reason_to_reconnect() {
    assert_eq!(
        parse(r#"["CLOSED","rk","error: too many concurrent REQs"]"#),
        Some(Parsed::Closed { note: "error: too many concurrent REQs".to_owned() })
    );
}

#[test]
fn what_we_do_not_know_is_skipped_and_not_called_a_break() {
    for line in [
        r#"["EOSE","rk"]"#,
        r#"["NOTICE","restricted: we're closing"]"#,
        r#"["AUTH","challenge"]"#,
        r#"["СОВСЕМ","новое",1,2,3]"#,
    ] {
        assert_eq!(parse(line), Some(Parsed::Other), "{line}");
    }
}

#[test]
fn nonsense_is_refused_rather_than_guessed() {
    assert_eq!(parse("не json"), None);
    assert_eq!(parse("{}"), None);
    assert_eq!(parse("[]"), None);
    assert_eq!(parse(r#"["EVENT","rk"]"#), None, "события нет");
    assert_eq!(parse(r#"["EVENT","rk",{"content":"x"}]"#), None, "времени нет");
    assert_eq!(parse(r#"["OK","abc"]"#), None, "вердикта нет");
}

#[test]
fn a_message_without_a_word_is_passed_over() {
    assert_eq!(parse("[1,2]"), Some(Parsed::Other));
    assert_eq!(parse(r#"[42,"x"]"#), Some(Parsed::Other));
    assert_eq!(parse(r#"[null]"#), Some(Parsed::Other));
    assert_eq!(parse("[]"), None);
    let word = |text: &str| Item {
        text: Some(text.to_owned()),
        flag: None,
        content: None,
        created_at: None,
    };
    assert_eq!(read(&vec![word("EOSE")]), Some(Parsed::Other));
    assert_eq!(read(&vec![]), None);
}

fn stand(own: &[&str]) -> State {
    let mut state = State::new();
    state.key = Some(Keys { public: [9u8; 32], secret: [7u8; 32] });
    state.relays = own.iter().map(|url| (*url).to_owned()).collect();
    state.raise_links();
    state
}

fn targets(state: &mut State, named: &[String]) -> Vec<u64> {
    let usable = named.iter().map(|url| url.starts_with("ws://127.0.0.1:")).collect();
    state.targets(&named.to_vec(), &usable)
}

fn link_id(state: &State, url: &str) -> Option<u64> {
    state.links.get(&url.to_owned()).map(|link| link.id)
}

fn is_own(state: &State, url: &str) -> bool {
    state.links.get(&url.to_owned()).is_some_and(|link| link.own)
}

#[test]
fn a_frame_goes_to_the_relays_the_card_names_and_not_to_ours() {
    let mut state = stand(&["ws://127.0.0.1:7001"]);
    let ids = targets(&mut state, &["ws://127.0.0.1:7002".to_owned()]);

    assert_eq!(ids.len(), 1);
    assert_eq!(link_id(&state, "ws://127.0.0.1:7002"), Some(ids[0]), "кладём на его реле");
    assert!(link_id(&state, "ws://127.0.0.1:7001").is_some(), "своё реле осталось на приёме");
    assert!(!is_own(&state, "ws://127.0.0.1:7002"), "чужое реле — только для записи");
    assert!(is_own(&state, "ws://127.0.0.1:7001"));
}

#[test]
fn a_card_without_relays_falls_back_to_our_own() {
    let mut state = stand(&["ws://127.0.0.1:7001"]);
    let ids = targets(&mut state, &[]);

    assert_eq!(ids.len(), 1);
    assert_eq!(link_id(&state, "ws://127.0.0.1:7001"), Some(ids[0]));
    assert_eq!(state.links.len(), 1, "лишних связей не заведено");
}

#[test]
fn a_relay_named_wrongly_is_skipped_and_the_good_one_still_works() {
    let mut state = stand(&["ws://127.0.0.1:7001"]);
    let named = ["ws://8.8.8.8:7003".to_owned(), "ws://127.0.0.1:7004".to_owned()];
    let ids = targets(&mut state, &named);

    assert_eq!(ids.len(), 1, "годный адрес из списка сработал");
    assert_eq!(link_id(&state, "ws://127.0.0.1:7004"), Some(ids[0]));
    assert_eq!(link_id(&state, "ws://8.8.8.8:7003"), None, "на негодный задачи нет");
}

#[test]
fn a_wholly_unusable_list_is_not_silently_replaced_by_ours() {
    let mut state = stand(&["ws://127.0.0.1:7001"]);
    assert!(targets(&mut state, &["не адрес".to_owned()]).is_empty());
    assert_eq!(targets(&mut state, &[]).len(), 1, "а пустой список — запасной путь");
}

#[test]
fn our_own_relay_named_by_the_card_does_not_become_a_second_link() {
    let mut state = stand(&["ws://127.0.0.1:7001"]);
    let ids = targets(&mut state, &["ws://127.0.0.1:7001".to_owned()]);

    assert_eq!(state.links.len(), 1, "связь одна");
    assert!(is_own(&state, "ws://127.0.0.1:7001"), "и она осталась своей, то есть читающей");
    assert_eq!(link_id(&state, "ws://127.0.0.1:7001"), Some(ids[0]));
}

#[test]
fn a_relay_named_twice_gets_one_copy() {
    let mut state = stand(&["ws://127.0.0.1:7001"]);
    let twice = ["ws://127.0.0.1:7002".to_owned(), "ws://127.0.0.1:7002".to_owned()];
    assert_eq!(targets(&mut state, &twice).len(), 1);
}

#[test]
fn foreign_relays_are_capped_and_the_oldest_one_goes_first() {
    let mut state = stand(&[]);
    let url = |n: usize| format!("ws://127.0.0.1:{}", 7100 + n);
    for n in 0..MAX_PEER_LINKS {
        assert!(!targets(&mut state, &[url(n)]).is_empty(), "{n}");
    }
    assert_eq!(state.peer_links(), MAX_PEER_LINKS);

    let _ = targets(&mut state, &[url(0)]);
    let _ = targets(&mut state, &[url(MAX_PEER_LINKS)]);

    assert_eq!(state.peer_links(), MAX_PEER_LINKS, "потолок держится");
    assert!(link_id(&state, &url(MAX_PEER_LINKS)).is_some(), "новая связь заведена");
    assert!(link_id(&state, &url(0)).is_some(), "та, которой только что пользовались, цела");
    assert!(link_id(&state, &url(1)).is_none(), "ушла самая давняя");
}

#[test]
fn our_own_relays_are_never_evicted_for_a_foreign_one() {
    let mut state = stand(&["ws://127.0.0.1:7001"]);
    let url = |n: usize| format!("ws://127.0.0.1:{}", 7100 + n);
    for n in 0..=MAX_PEER_LINKS {
        let _ = targets(&mut state, &[url(n)]);
    }
    assert!(is_own(&state, "ws://127.0.0.1:7001"), "своё реле на месте");
    assert_eq!(state.peer_links(), MAX_PEER_LINKS);
}

fn send_command(nostr: Option<[u8; 32]>, len: usize) -> TransportCommand {
    TransportCommand::Send {
        peer: PeerAddress {
            ik: [1u8; 32],
            onion: None,
            chatmail: None,
            ygg: None,
            nostr,
            nostr_relays: Vec::new(),
        },
        via: Transport::Nostr,
        frame: vec![0u8; len],
        handoff: None,
    }
}

#[test]
fn a_class_l_frame_is_refused_and_a_class_m_one_is_taken() {
    let heavy = send_command(Some([5u8; 32]), SizeClass::L.frame_len());
    assert_eq!(accept(heavy), Err(TransportError::Unavailable));

    let fitting = send_command(Some([5u8; 32]), SizeClass::M.frame_len());
    assert!(accept(fitting).is_ok(), "класс M ступень везёт");

    let keyless = send_command(None, SizeClass::M.frame_len());
    assert_eq!(accept(keyless), Err(TransportError::NoAddress));
    assert_eq!(accept(TransportCommand::RestartLan), Err(TransportError::Unavailable));
    assert_eq!(accept(TransportCommand::NetworkChanged), Ok(Some(Job::NetworkChanged)));
}

#[test]
fn the_watermark_grows_inside_but_reaches_the_core_in_steps() {
    let mut state = stand(&[]);
    assert_eq!(
        state.on_note(Note::Seen { created_at: 1_000 }),
        vec![TransportEvent::NostrSince { created_at: 1_000 }],
        "первое же событие обязано лечь на диск: до него там ноль"
    );
    assert_eq!(state.since, 1_000);

    assert_eq!(state.on_note(Note::Seen { created_at: 1_030 }), vec![]);
    assert_eq!(state.since, 1_030, "внутри отметка растёт всегда");

    assert_eq!(
        state.on_note(Note::Seen { created_at: 1_100 }),
        vec![TransportEvent::NostrSince { created_at: 1_100 }],
        "заметный шаг — уходит"
    );
}

#[test]
fn the_watermark_never_walks_backwards() {
    let mut state = stand(&[]);
    let _ = state.on_note(Note::Seen { created_at: 9_000 });
    assert_eq!(state.on_note(Note::Seen { created_at: 5 }), vec![]);
    assert_eq!(state.since, 9_000, "назад отметка не ходит");
}

#[test]
fn a_setup_brings_the_watermark_from_disk_and_does_not_rewind_it() {
    let mut state = State::new();
    let setup = |since| {
        Job::Setup(NostrSetup::On {
            secret: [7u8; 32],
            relays: Vec::new(),
            via_tor: true,
            since,
        })
    };
    let _ = state.on_job(setup(500), Some([9u8; 32]));
    assert_eq!(state.since, 500, "отметка приехала с диска");
    let _ = state.on_job(setup(100), Some([9u8; 32]));
    assert_eq!(state.since, 500, "и не отмотана назад настройкой постарше");
}

fn book(state: &mut State, ticket: Ticket, parts: usize, taken: &[bool]) -> Option<TransportEvent> {
    let ids = (0..parts).map(|n| format!("{}-{n}", ticket.token)).collect();
    let offers = taken.iter().map(|one| vec![*one]).collect();
    state.finish_send(ticket.token, [3u8; 32], Some(77), &ids, 1, &offers)
}

#[test]
fn two_sends_never_share_an_assembly_mark() {
    let mut state = stand(&["ws://127.0.0.1:7001"]);
    let one = state.begin_send(8, true).unwrap();
    let two = state.begin_send(8, true).unwrap();
    assert_eq!(one.total, 8, "восемь частей");
    assert_ne!(one.uid, two.uid, "две отправки обязаны получить разные метки");
    assert_ne!(one.token, two.token);
}

#[test]
fn a_ticket_bears_the_bytes_that_were_drawn_for_it() {
    let mut state = stand(&["ws://127.0.0.1:7001"]);
    let before = state.next_token;
    assert_eq!(state.ticket(3, true, None), None, "без случайных байт метки нет");
    assert_eq!(state.ticket(3, false, Some([5; 16])), None);
    assert_eq!(state.ticket(65_536, true, Some([5; 16])), None);
    assert_eq!(state.next_token, before);
    assert_eq!(
        state.ticket(65_535, true, Some([5; 16])),
        Some(Ticket { token: before, total: 65_535, uid: [5; 16] })
    );
    assert_eq!(state.next_token, before + 1);
}

#[test]
fn the_parts_of_a_frame_vanish_together() {
    let ticket = Ticket { token: 1, total: 3, uid: [7; 16] };
    let pieces = ticket.pieces(1_000, 600);
    let piece = |index: u16| Piece {
        uid: [7; 16],
        index,
        total: 3,
        created_at: 1_000,
        expires_at: 1_600,
    };
    assert_eq!(pieces, vec![piece(0), piece(1), piece(2)]);
    assert_eq!(Ticket { token: 1, total: 0, uid: [7; 16] }.pieces(1, 1), vec![]);
    assert_eq!(expires_at(u64::MAX - 1, 1), u64::MAX);
    assert_eq!(expires_at(u64::MAX - 1, 2), u64::MAX);
}

#[test]
fn the_assembly_mark_tells_the_relay_nothing_about_the_peer() {
    let mut state = stand(&["ws://127.0.0.1:7001"]);
    let uid = state.begin_send(1, true).unwrap().uid;
    assert!(
        !uid.windows(8).any(|window| window == [3u8; 8]),
        "в метке не должно быть ни куска ключа собеседника: {uid:?}"
    );
}

#[test]
fn a_frame_that_fits_the_queue_is_booked_whole() {
    let mut state = stand(&["ws://127.0.0.1:7001"]);
    let ticket = state.begin_send(8, true).unwrap();
    assert_eq!(book(&mut state, ticket, 8, &[true; 8]), None, "отказа быть не должно");
    assert_eq!(state.outgoing.len(), 1, "учёт отправки заведён");
    assert_eq!(state.flying.len(), 8, "все восемь частей в полёте");
}

#[test]
fn a_frame_that_only_half_fits_the_queue_is_refused_whole() {
    let mut state = stand(&["ws://127.0.0.1:7001"]);
    let ticket = state.begin_send(8, true).unwrap();
    let mut taken = [false; 8];
    taken[0] = true;
    assert_eq!(
        book(&mut state, ticket, 8, &taken),
        Some(TransportEvent::ConnectFailed { peer_ik: [3u8; 32], via: Transport::Nostr }),
        "отказ обязан уехать событием"
    );
    assert_eq!(state.outgoing.len(), 0, "учёта нет — обещать доставку нечем");
    assert_eq!(state.flying.len(), 0, "и частей в полёте не числится");
}

#[test]
fn a_cancelled_send_does_not_reuse_the_assembly_mark() {
    let mut state = stand(&["ws://127.0.0.1:7001"]);
    let before = state.next_token;
    let ticket = state.begin_send(8, true).unwrap();
    let _ = book(&mut state, ticket, 8, &[false; 8]);
    assert!(state.next_token > before, "метка сборки занята, а не возвращена");
}

#[test]
fn one_relay_that_takes_a_part_is_enough() {
    assert!(goes_on(&vec![false, true, false]));
    assert!(!goes_on(&vec![false, false]));
    assert!(!goes_on(&vec![]));

    let mut state = stand(&["ws://127.0.0.1:7001", "ws://127.0.0.1:7002"]);
    let ids = vec!["a".to_owned(), "b".to_owned()];
    let one = state.begin_send(2, true).unwrap();
    let offers = vec![vec![true, false], vec![false, true]];
    assert_eq!(state.finish_send(one.token, [3u8; 32], None, &ids, 2, &offers), None);
    assert_eq!(state.flying.len(), 2);

    let two = state.begin_send(2, true).unwrap();
    let broken = vec![vec![true, true], vec![false, false]];
    assert!(state.finish_send(two.token, [3u8; 32], None, &ids, 2, &broken).is_some());
    let short = vec![vec![true, true]];
    assert!(state.finish_send(two.token, [3u8; 32], None, &ids, 2, &short).is_some());
    assert!(state.finish_send(two.token, [3u8; 32], None, &ids, 0, &offers).is_some());
    assert_eq!(state.outgoing.len(), 1);
}

#[test]
fn without_a_key_or_switched_off_nothing_is_dialled() {
    let url = "ws://127.0.0.1:7002".to_owned();
    let mut bare = State::new();
    assert!(!bare.ensure_link(&url, true), "без ключа");
    assert_eq!(bare.begin_send(1, true), None);

    let mut state = stand(&["ws://127.0.0.1:7001"]);
    state.enabled = false;
    assert!(!state.ensure_link(&url, true), "выключено человеком");
    assert_eq!(state.peer_links(), 0);
}

#[test]
fn a_frame_is_handed_over_once_all_its_parts_are() {
    let mut state = stand(&["ws://127.0.0.1:7001"]);
    let ticket = state.begin_send(2, true).unwrap();
    let _ = book(&mut state, ticket, 2, &[true; 2]);
    let part = |n: usize| format!("{}-{n}", ticket.token);
    assert_eq!(state.answer(&part(0), true), None);
    assert_eq!(
        state.answer(&part(1), true),
        Some(TransportEvent::Handed { peer_ik: [3u8; 32], via: Transport::Nostr, handoff: 77 })
    );
    assert_eq!(state.answer(&part(1), true), None, "второй раз не говорим");
    assert_eq!(state.outgoing.len(), 0);
}

#[test]
fn a_part_that_every_relay_refuses_fails_the_frame() {
    let mut state = stand(&["ws://127.0.0.1:7001"]);
    let ticket = state.begin_send(2, true).unwrap();
    let _ = book(&mut state, ticket, 2, &[true; 2]);
    assert_eq!(
        state.answer(&format!("{}-0", ticket.token), false),
        Some(TransportEvent::ConnectFailed { peer_ik: [3u8; 32], via: Transport::Nostr })
    );
    assert_eq!(state.flying.len(), 0);
    assert_eq!(state.answer(&format!("{}-1", ticket.token), false), None);
}

#[test]
fn the_first_relay_that_answers_is_the_news() {
    let mut state = stand(&["ws://127.0.0.1:7001"]);
    let url = "ws://127.0.0.1:7001".to_owned();
    let events = state.on_note(Note::Up { url: url.clone(), own: true });
    assert!(events.contains(&TransportEvent::Ready { transport: Transport::Nostr }));
    let events =
        state.on_note(Note::Down { url, note: "обрыв".to_owned(), own: true });
    assert!(events.contains(&TransportEvent::Lost { transport: Transport::Nostr }));
    assert_eq!(
        state.on_note(Note::Event { frame: Some(vec![5]) }),
        vec![TransportEvent::Received {
            via: Transport::Nostr,
            peer_hint: None,
            link: None,
            frame: vec![5]
        }]
    );
    assert_eq!(collect(Verdict::Complete(vec![1])), Some(vec![1]));
    assert_eq!(collect(Verdict::Pending { have: 1, total: 2 }), None);
    let JobStep::Said(events) = state.on_job(Job::Enabled(false), None) else {
        panic!("переключение говорит");
    };
    assert!(!events.contains(&TransportEvent::Ready { transport: Transport::Nostr }));
    assert_eq!(state.links.len(), 0);
}

fn relay(subscribe: bool) -> Relay {
    Relay {
        url: "wss://relay.example".to_owned(),
        subscribe,
        via_tor: true,
        tls: false,
        since: 1_000,
    }
}

#[test]
fn a_relay_of_ours_is_reached_step_by_step() {
    let mut relay = relay(true);
    assert_eq!(relay.aim(Some(true)), Step::Dial { through_tor: true });
    assert_eq!(relay.dialed(Outcome::Done), Step::Wrap);
    assert_eq!(relay.wrapped(Outcome::Done), Step::Shake);
    assert_eq!(relay.shaken(Outcome::Done, 300), Step::Subscribe { from: 700 });
    assert_eq!(relay.shaken(Outcome::Done, 3_000), Step::Subscribe { from: 0 });
    assert_eq!(
        relay.subscribed(None),
        Step::Tell(vec![RelayNote::Up { url: "wss://relay.example".to_owned(), own: true }])
    );
    assert_eq!(Relay::up_told(true), Step::Wait);
    assert_eq!(Relay::up_told(false), Step::Stop);
}

#[test]
fn a_plain_relay_is_not_reached_through_tor() {
    let mut relay = relay(false);
    assert_eq!(relay.aim(Some(false)), Step::Dial { through_tor: false });
    assert_eq!(relay.dialed(Outcome::Done), Step::Shake);
    assert_eq!(
        relay.shaken(Outcome::Done, 300),
        Step::Tell(vec![RelayNote::Up { url: "wss://relay.example".to_owned(), own: false }])
    );
}

#[test]
fn every_break_on_the_way_to_a_relay_has_a_reason() {
    let mut relay = relay(true);
    let down = |words: &str| Step::Down(words.to_owned());
    let failed = || Outcome::Failed("x".to_owned());
    let x = || Some("x".to_owned());
    assert_eq!(relay.aim(None), down("адрес реле не годится: wss://relay.example"));
    assert_eq!(relay.dialed(Outcome::TimedOut), down("реле не ответило за отведённое время"));
    assert_eq!(relay.dialed(failed()), down("x"));
    assert_eq!(relay.wrapped(Outcome::TimedOut), down("TLS не установился за отведённое время"));
    assert_eq!(relay.wrapped(failed()), down("x"));
    assert_eq!(
        relay.shaken(Outcome::TimedOut, 1),
        down("рукопожатие веб-сокета не уложилось в срок")
    );
    assert_eq!(relay.shaken(failed(), 1), down("веб-сокет не открылся: x"));
    assert_eq!(relay.subscribed(x()), down("подписка не ушла: x"));
    assert_eq!(Relay::written(x()), down("событие не ушло: x"));
    assert_eq!(Relay::flushed(x()), down("очередь записи не протолкнулась: x"));
    assert_eq!(relay.incoming(Came::Broken("x".to_owned())), down("обрыв: x"));
    assert_eq!(relay.incoming(Came::Over), down("реле закрыло соединение"));
    assert_eq!(
        relay.lost("обрыв".to_owned()),
        RelayNote::Down {
            url: "wss://relay.example".to_owned(),
            note: "обрыв".to_owned(),
            own: true
        }
    );
}

#[test]
fn what_a_relay_says_is_told_and_moves_the_time_forward_only() {
    let mut relay = relay(true);
    let event = |at: u64| {
        Came::Text(format!(r#"["EVENT","rk",{{"created_at":{at},"content":"ZGF0YQ"}}]"#))
    };
    assert_eq!(
        relay.incoming(event(2_000)),
        Step::Tell(vec![
            RelayNote::Seen { created_at: 2_000 },
            RelayNote::Event { content: "ZGF0YQ".to_owned() },
        ])
    );
    assert_eq!(relay.since, 2_000);
    let _ = relay.incoming(event(5));
    assert_eq!(relay.since, 2_000);
    assert_eq!(
        relay.incoming(Came::Text(r#"["OK","abc",false,""]"#.to_owned())),
        Step::Tell(vec![RelayNote::Accepted { id: "abc".to_owned(), ok: false }])
    );
    assert_eq!(
        relay.incoming(Came::Text(r#"["CLOSED","rk","full"]"#.to_owned())),
        Step::Down("реле закрыло подписку: full".to_owned())
    );
    assert_eq!(relay.incoming(Came::Text(r#"["EOSE","rk"]"#.to_owned())), Step::Flush);
    assert_eq!(relay.incoming(Came::Text("не json".to_owned())), Step::Flush);
    assert_eq!(relay.incoming(Came::Text(String::new())), Step::Wait);
    assert_eq!(relay.incoming(Came::Binary), Step::Wait);
    assert_eq!(Relay::line_told(true), Step::Flush);
    assert_eq!(Relay::line_told(false), Step::Stop);
    assert_eq!(Relay::line(Some("x".to_owned())), Step::Write("x".to_owned()));
    assert_eq!(Relay::line(None), Step::Stop);
    assert_eq!(Relay::written(None), Step::Wait);
    assert_eq!(Relay::flushed(None), Step::Wait);
}

#[test]
fn the_clock_is_read_as_far_as_it_goes() {
    assert_eq!(millis_now(None), 0);
    assert_eq!(millis_now(Some(1_500)), 1_500);
    assert_eq!(millis_now(Some(u128::MAX)), u64::MAX);
    assert_eq!(seconds_now(Some(1_500)), 1);
    assert_eq!(event_name(&[0xa5; 32]), "a5".repeat(32));
}
