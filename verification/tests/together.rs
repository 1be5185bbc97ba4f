use ratatosk_transport::deferred::Deferred;
use ratatosk_transport::multi::{route, to_all, Disabled, Route, Slot, Transports, Waited};
use ratatosk_transport::runner::{
    PeerAddress, Transport, TransportCommand, TransportError, TransportEvent,
};
use ratatosk_transport::switched::{Given, Plan, Step, Switched, Waits};

fn peer() -> PeerAddress {
    PeerAddress {
        ik: [1u8; 32],
        onion: None,
        chatmail: None,
        ygg: None,
        nostr: None,
        nostr_relays: Vec::new(),
    }
}

fn send(via: Transport) -> TransportCommand {
    TransportCommand::Send { peer: peer(), via, frame: vec![0u8; 4096], handoff: None }
}

fn command() -> TransportCommand {
    TransportCommand::Connect { peer: peer(), via: Transport::Onion }
}

fn switch(enabled: bool) -> TransportCommand {
    TransportCommand::SetEnabled { transport: Transport::Onion, enabled }
}

fn progress() -> TransportEvent {
    TransportEvent::TorProgress { thousandths: 300, note: "поднимаемся".to_owned(), blocked: None }
}

#[test]
fn a_named_transport_gets_the_command_and_the_others_do_not() {
    assert_eq!(route(&send(Transport::Onion)), Route::One(Slot::Onion));
    assert_eq!(route(&send(Transport::Mail)), Route::One(Slot::Mail));
    assert_eq!(route(&send(Transport::Bt)), Route::Nobody);
}

#[test]
fn lan_only_commands_go_to_lan() {
    let enable = TransportCommand::SetEnabled { transport: Transport::Lan, enabled: true };
    assert_eq!(route(&enable), Route::One(Slot::Lan));
    assert_eq!(route(&TransportCommand::RestartLan), Route::One(Slot::Lan));
    assert_eq!(route(&TransportCommand::WatchLanPeers(vec![])), Route::One(Slot::Lan));
}

#[test]
fn disconnect_reaches_everyone() {
    assert_eq!(route(&TransportCommand::Disconnect { peer: peer() }), Route::Everyone);
}

#[test]
fn a_refusal_does_not_stop_the_round() {
    assert_eq!(to_all(Err(TransportError::Timeout), Ok(()), Ok(())), Err(TransportError::Timeout));
    assert_eq!(
        to_all(
            Err(TransportError::Unavailable),
            Err(TransportError::Busy),
            Err(TransportError::Timeout)
        ),
        Err(TransportError::Busy)
    );
    assert_eq!(to_all(Ok(()), Ok(()), Err(TransportError::Unavailable)), Ok(()));
}

#[test]
fn events_from_every_transport_come_through() {
    let mut transports = Transports::new(1, 2, 3);
    let onion = TransportEvent::Connected { peer_ik: [2u8; 32], via: Transport::Onion };
    assert_eq!(
        transports.heard(Slot::Onion, Some(onion.clone())),
        Waited::Event(onion)
    );
    let lan = TransportEvent::Connected { peer_ik: [3u8; 32], via: Transport::Lan };
    assert_eq!(transports.heard(Slot::Lan, Some(lan.clone())), Waited::Event(lan));
    assert_eq!((*transports.lan(), *transports.onion(), *transports.mail()), (1, 2, 3));
    *transports.lan_mut() = 7;
    let (lan, onion, mail) = transports.parts_mut();
    *onion = *lan + *mail;
    assert_eq!((*transports.lan(), *transports.onion()), (7, 10));
}

#[test]
fn one_transport_stopping_does_not_stop_the_rest() {
    let mut transports = Transports::new((), (), ());
    assert_eq!(transports.heard(Slot::Lan, None), Waited::Again);
    assert!(!transports.waits_for(Slot::Lan));
    assert!(transports.waits_for(Slot::Onion), "остановка LAN не отменяет событий onion");
    assert_eq!(transports.heard(Slot::Onion, None), Waited::Again);
    assert!(!transports.is_over());
    assert_eq!(transports.heard(Slot::Mail, None), Waited::End);
    assert!(transports.is_over(), "а когда встали все — вот теперь конец");
}

#[test]
fn a_transport_that_is_not_built_refuses_out_loud() {
    let mut none = Disabled;
    assert_eq!(none.execute(&send(Transport::Onion)), Err(TransportError::Unavailable));
    assert_eq!(
        none.execute(&TransportCommand::Disconnect { peer: peer() }),
        Err(TransportError::Unavailable)
    );
    assert_eq!(none.execute(&switch(true)), Ok(()));
    let absent = || Err(TransportError::Unavailable);
    assert_eq!(to_all(Ok(()), absent(), absent()), Ok(()));
}

#[test]
fn a_switched_off_transport_does_not_rise_at_all() {
    let runner: Switched<u8, &str, &str> = Switched::new();
    assert!(runner.is_off());
    assert_eq!(runner.waits(), Waits::Forever, "выключенный не отдаёт событий");
    assert_eq!(runner.plan(&command()), Plan::Refuse);
}

#[test]
fn switching_on_rises_and_switching_off_drops_it() {
    let mut runner: Switched<u8, &str, &str> = Switched::new();
    assert_eq!(runner.plan(&switch(true)), Plan::SwitchOn);
    runner.switch_on("подъём", "новости");
    assert_eq!(runner.waits(), Waits::Rise { news: true });
    assert_eq!(runner.step(Step::Done(Ok(5))), Given::Again);
    assert!(runner.is_ready(), "включённый обязан подняться");
    assert_eq!(runner.plan(&command()), Plan::PassOn, "поднятый принимает команды");
    runner.switch_on("ещё", "раз");
    assert!(runner.is_ready(), "второй подъём поверх первого не начинается");
    assert_eq!(
        runner.step(Step::Own(Some(progress()))),
        Given::Event(Some(progress()))
    );

    assert_eq!(runner.plan(&switch(false)), Plan::SwitchOff);
    runner.switch_off();
    assert!(runner.is_off(), "выключённый обязан погаснуть");
    assert_eq!(runner.plan(&command()), Plan::Refuse, "погашенный ничего не принимает");
    assert!(runner.needs_rise(), "второе включение поднимает заново");
}

#[test]
fn a_failed_start_refuses_out_loud_and_can_be_retried() {
    let mut runner: Switched<u8, &str, &str> = Switched::new();
    runner.switch_on("подъём", "новости");
    assert_eq!(
        runner.step(Step::Done(Err("нет сети".to_owned()))),
        Given::Event(Some(TransportEvent::TorProgress {
            thousandths: 1000,
            note: "транспорт не поднялся — доставки через него не будет".to_owned(),
            blocked: Some("нет сети".to_owned()),
        }))
    );
    assert!(runner.has_failed());
    assert_eq!(runner.waits(), Waits::Forever);
    assert!(runner.needs_rise(), "включение заново — это и повтор попытки");
}

#[test]
fn switched_news_about_the_rise_reach_the_core_before_it_finishes() {
    let mut runner: Switched<u8, &str, &str> = Switched::new();
    runner.switch_on("подъём", "новости");
    assert_eq!(
        runner.step(Step::News(Some(progress()))),
        Given::Event(Some(progress()))
    );
    assert!(!runner.is_ready(), "новость пришла до конца подъёма");
    assert_eq!(runner.step(Step::News(None)), Given::Again);
    assert_eq!(runner.waits(), Waits::Rise { news: false });
}

#[test]
fn a_rising_transport_refuses_instead_of_waiting() {
    let deferred: Deferred<u8, &str> = Deferred::new("подъём");
    assert_eq!(deferred.plan(), Plan::Refuse);
    assert!(!deferred.is_ready());
    assert_eq!(deferred.waits(), Waits::Rise { news: false });
}

#[test]
fn once_it_is_up_everything_goes_through_it() {
    let mut deferred: Deferred<u8, &str> = Deferred::new("подъём");
    assert_eq!(deferred.step(Step::Done(Ok(5))), Given::Again);
    let ready = TransportEvent::TorReady { onion: "тест.onion".to_owned() };
    assert_eq!(
        deferred.step(Step::Own(Some(ready.clone()))),
        Given::Event(Some(ready))
    );
    assert!(deferred.is_ready());
    assert_eq!(deferred.plan(), Plan::PassOn, "поднявшийся раннер обязан работать");
}

#[test]
fn a_failed_start_refuses_out_loud_and_does_not_stop_the_rest() {
    let mut deferred: Deferred<u8, &str> = Deferred::new("подъём");
    let news = deferred.step(Step::Done(Err("нет сети".to_owned())));
    assert!(
        matches!(news, Given::Event(Some(TransportEvent::TorProgress { blocked: Some(_), .. }))),
        "об отказе подъёма обязана быть новость с причиной: {news:?}"
    );
    assert!(deferred.has_failed());
    assert_eq!(
        deferred.waits(),
        Waits::Forever,
        "отказавший раннер не вправе объявлять себя остановленным"
    );
    assert_eq!(deferred.plan(), Plan::Refuse);
}

#[test]
fn deferred_news_about_the_rise_reach_the_core_before_it_finishes() {
    let mut deferred: Deferred<u8, &str> = Deferred::rising("подъём");
    assert_eq!(deferred.waits(), Waits::Rise { news: true });
    assert_eq!(
        deferred.step(Step::News(Some(progress()))),
        Given::Event(Some(progress()))
    );
    assert!(!deferred.is_ready(), "новость пришла до конца подъёма");
    assert_eq!(deferred.step(Step::News(None)), Given::Again);
    assert_eq!(deferred.step(Step::Done(Ok(5))), Given::Again);
    assert!(deferred.is_ready());
    assert_eq!(deferred.waits(), Waits::Runner { news: false });
}
