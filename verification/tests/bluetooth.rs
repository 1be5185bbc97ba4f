use ratatosk_transport::bluetooth::bridge::{
    room, rotation_pause, Accepted, BridgedAir, Counted, Dialed, Incoming, Raised, Tried,
    COUNT_STEP, ROOM_POLL_MS,
};
use ratatosk_transport::bluetooth::local::{
    refused, rescan_pause, settle, settle_budget, taken_for_random, usable, waiting_for_someone,
    Airtime, Announced, Attempted, Dial, DialStep, Links, Settling, Yielded, ATTEMPT_LIMIT_NS,
    EALREADY, RADIO_HANDOVER_NS, RESCAN_PAUSE_MS,
};
use ratatosk_transport::bluetooth::fresh_nonce;
use ratatosk_transport::link::{fnv_update, FNV_OFFSET};
use ratatosk_transport::runner::{Transport, TransportError, TransportEvent};
use ratatosk_transport::table::Table;
use std::time::{Duration, Instant};
use tokio::sync::mpsc;
use tokio::sync::mpsc::error::TrySendError;

type Bridge = BridgedAir<&'static str, &'static str, &'static str>;

fn lost() -> TransportEvent {
    TransportEvent::Lost { transport: Transport::Bt }
}

fn ready() -> TransportEvent {
    TransportEvent::Ready { transport: Transport::Bt }
}

fn raised() -> Bridge {
    let mut bridge = Bridge::new();
    bridge.set_radio();
    assert_eq!(bridge.raise(true), Raised::Start);
    bridge
}

fn send_waiting(sender: &mpsc::Sender<Vec<u8>>, data: Vec<u8>, limit: Duration) -> bool {
    let deadline = Instant::now() + limit;
    let mut data = data;
    loop {
        let tried = match sender.try_send(data) {
            Ok(()) => return room(Tried::Taken, false) == Some(true),
            Err(TrySendError::Closed(back)) => {
                data = back;
                Tried::Closed
            }
            Err(TrySendError::Full(back)) => {
                data = back;
                Tried::Full
            }
        };
        if let Some(taken) = room(tried, Instant::now() >= deadline) {
            return taken;
        }
    }
}

#[test]
fn a_queue_that_never_moves_gives_up_in_the_end() {
    let (tx, _rx) = mpsc::channel(1);
    tx.try_send(vec![1u8; 8]).expect("первый кусок влезает");

    let started = Instant::now();
    assert!(
        !send_waiting(&tx, vec![2u8; 8], Duration::from_millis(100)),
        "разбор не взял ни куска — канал пора закрывать"
    );
    assert!(started.elapsed() >= Duration::from_millis(100), "и ждали мы весь срок");
}

#[test]
fn a_queue_that_is_gone_does_not_cost_the_whole_wait() {
    let (tx, rx) = mpsc::channel::<Vec<u8>>(1);
    drop(rx);

    let started = Instant::now();
    assert!(!send_waiting(&tx, vec![2u8; 8], Duration::from_secs(30)), "очереди больше нет");
    assert!(started.elapsed() < Duration::from_secs(1), "и узнали мы это сразу");
}

#[test]
fn a_piece_that_finds_room_is_taken_and_a_full_queue_is_asked_again() {
    assert_eq!(room(Tried::Taken, true), Some(true));
    assert_eq!(room(Tried::Full, false), None);
    assert_eq!(room(Tried::Full, true), Some(false));
    assert_eq!(room(Tried::Closed, false), Some(false));
    assert_eq!(ROOM_POLL_MS, 2);

    let (tx, mut rx) = mpsc::channel(1);
    assert!(send_waiting(&tx, vec![3u8], Duration::from_secs(1)));
    assert_eq!(rx.try_recv(), Ok(vec![3u8]));
}

#[test]
fn without_a_radio_nothing_rises() {
    let mut bridge = Bridge::new();
    assert!(!bridge.has_radio());
    assert_eq!(bridge.on_incoming(1, "очередь", "писатель"), Accepted::Leave);
    assert_eq!(bridge.raise(true), Raised::Tell(lost()));
    assert_eq!(bridge.begin_dial("набор"), Err(TransportError::Unavailable));
    bridge.set_radio();
    assert!(bridge.has_radio());
    assert_eq!(bridge.raise(false), Raised::Tell(lost()));
}

#[test]
fn the_platform_being_ready_is_announced_and_told() {
    let bridge = raised();
    let readied = bridge.on_ready(Some(vec![1, 2]));
    assert_eq!(readied.advertise, Some(vec![1, 2]));
    assert_eq!(readied.events, vec![ready()]);
    assert!(readied.rotate);

    let readied = bridge.on_ready(None);
    assert_eq!(readied.advertise, None);
    assert_eq!(readied.events, vec![lost()], "объявление не собралось");
    assert!(!readied.rotate);

    let mut outside = Bridge::new();
    outside.set_radio();
    let _ = outside.raise(false);
    let readied = outside.on_ready(Some(vec![1]));
    assert_eq!(readied.events, vec![ready(), lost()], "ротацию завести некуда");

    let off = Bridge::new();
    assert_eq!(off.on_ready(Some(vec![1])).events, vec![]);
    assert_eq!(off.on_lost(), None);
    assert_eq!(off.announce(Some(vec![1])), None);
    assert_eq!(bridge.on_lost(), Some(lost()));
    assert_eq!(bridge.announce(Some(vec![1])), Some(vec![1]));
}

#[test]
fn peers_that_are_heard_are_told_while_we_are_on() {
    let peers = vec![[1u8; 32], [2u8; 32]];
    assert_eq!(
        raised().on_heard(&peers),
        vec![
            TransportEvent::SeenOnBt { peer_ik: [1u8; 32] },
            TransportEvent::SeenOnBt { peer_ik: [2u8; 32] },
        ]
    );
    assert_eq!(Bridge::new().on_heard(&peers), vec![]);
}

#[test]
fn a_dial_is_answered_once() {
    let mut bridge = raised();
    assert_eq!(bridge.begin_dial("первый"), Ok(0));
    assert_eq!(bridge.begin_dial("второй"), Ok(1));
    assert_eq!(bridge.on_opened(0), Some(("первый", Ok(()))));
    assert_eq!(bridge.on_opened(0), None);
    assert_eq!(
        bridge.on_open_failed(1, "занято".to_owned()),
        Some(("второй", Err("занято".to_owned())))
    );
    assert_eq!(bridge.finish_dial(0, Dialed::Opened, "очередь", "писатель"), Ok(true));
    assert_eq!(
        bridge.finish_dial(1, Dialed::Failed("занято".to_owned()), "очередь", "писатель"),
        Err(TransportError::Refused("занято".to_owned()))
    );
    assert_eq!(
        bridge.finish_dial(1, Dialed::Dropped, "очередь", "писатель"),
        Err(TransportError::Unavailable)
    );
    assert_eq!(bridge.begin_dial("третий"), Ok(2));
    assert_eq!(
        bridge.finish_dial(2, Dialed::TimedOut, "очередь", "писатель"),
        Err(TransportError::Timeout)
    );
    assert_eq!(bridge.on_opened(2), None, "после срока отвечать некому");
}

#[test]
fn a_channel_is_read_counted_and_closed() {
    let mut bridge = raised();
    assert_eq!(bridge.on_bytes(5, &[0; 10]), None, "байты из канала, которого мы не ждём");
    assert_eq!(bridge.on_incoming(5, "очередь", "писатель"), Accepted::Read);
    assert_eq!(bridge.on_bytes(5, &[1; 10]), Some(None));
    let report = bridge.on_bytes(5, &vec![2; COUNT_STEP as usize]).unwrap().unwrap();
    assert_eq!(report.bytes, COUNT_STEP + 10);
    assert_eq!(report.chunks, 2);
    assert_eq!(report.said, 1);
    assert_eq!(
        report.rolling,
        fnv_update(fnv_update(FNV_OFFSET, &[1; 10]), &vec![2; COUNT_STEP as usize])
    );
    assert!(bridge.may_write(true));
    assert!(!bridge.may_write(false));

    let (closed, close) = bridge.on_stuck(5);
    assert_eq!(closed.writer, Some("писатель"));
    assert_eq!(closed.reply, None);
    assert!(close);
    assert_eq!(bridge.on_bytes(5, &[1]), None);

    let _ = bridge.begin_dial("набор");
    let closed = bridge.on_closed(0);
    assert_eq!(closed.reply, Some(("набор", Err("канал закрылся".to_owned()))));
    assert_eq!(closed.writer, None);
}

#[test]
fn the_count_stops_at_the_largest_number() {
    let mut counted = Counted { bytes: u64::MAX - 1, chunks: u64::MAX, said: 0, rolling: 0 };
    assert!(counted.count(&[0; 5]));
    assert_eq!((counted.bytes, counted.chunks), (u64::MAX, u64::MAX));
    assert_eq!(Counted::default().rolling, FNV_OFFSET);
}

#[test]
fn lowering_leaves_nothing_behind() {
    let mut bridge = raised();
    let _ = bridge.begin_dial("набор");
    let _ = bridge.on_incoming(5, "очередь", "первый");
    let _ = bridge.on_incoming(6, "очередь", "второй");
    let lowered = bridge.lower();
    assert!(lowered.stop);
    assert_eq!(lowered.writers.len(), 2);
    assert_eq!(lowered.writers.get(&5), Some(&"первый"));
    assert_eq!(lowered.writers.get(&6), Some(&"второй"));
    assert_eq!(bridge.on_opened(0), None);
    assert_eq!(bridge.on_bytes(5, &[1]), None);
    assert_eq!(bridge.on_incoming(7, "очередь", "третий"), Accepted::Close);
    assert!(bridge.shut_down(5));
}

#[test]
fn what_came_is_read_in_the_pieces_there_is_room_for() {
    let mut incoming = Incoming::new();
    assert!(incoming.is_empty());
    incoming.fill(vec![1, 2, 3, 4, 5]);
    assert_eq!(incoming.take(2), vec![1, 2]);
    assert!(!incoming.is_empty());
    assert_eq!(incoming.take(10), vec![3, 4, 5]);
    assert!(incoming.is_empty());
}

#[test]
fn a_beacon_goes_out_a_little_after_its_slot_begins() {
    assert_eq!(rotation_pause(100, 1, 60), 22);
    assert_eq!(rotation_pause(500, 1, 60), 2);
}

#[test]
fn two_beacons_differ() {
    assert_ne!(fresh_nonce().unwrap(), fresh_nonce().unwrap());
}

#[test]
fn the_antenna_is_counted() {
    let mut airtime = Airtime::new();
    assert!(!airtime.is_busy());
    airtime.hold();
    airtime.hold();
    airtime.release();
    assert!(airtime.is_busy());
    airtime.release();
    airtime.release();
    assert!(!airtime.is_busy());
    assert_eq!(rescan_pause(Yielded::ToDial), 0);
    assert_eq!(rescan_pause(Yielded::StreamEnded), RESCAN_PAUSE_MS);
    assert_eq!(rescan_pause(Yielded::Broken), 2_000);
}

#[test]
fn somebody_is_waited_for_until_everybody_is_known() {
    let mut directory: Table<[u8; 32], u8> = Table::new();
    assert!(!waiting_for_someone(&vec![], &directory));
    let watched = vec![[1u8; 32], [2u8; 32]];
    let _ = directory.insert([1u8; 32], 0);
    assert!(waiting_for_someone(&watched, &directory));
    let _ = directory.insert([2u8; 32], 0);
    assert!(!waiting_for_someone(&watched, &directory));
}

fn busy() -> Attempted {
    Attempted::Refused { code: Some(EALREADY), error: "идёт".to_owned() }
}

#[test]
fn a_dial_waits_twice_for_a_connection_under_way_and_no_more() {
    let mut dial = Dial::new();
    assert_eq!(dial.attempted(busy()), DialStep::Retry);
    assert_eq!(dial.attempted(busy()), DialStep::Retry);
    assert_eq!(
        dial.attempted(busy()),
        DialStep::Fail(TransportError::Refused("канал L2CAP: идёт".to_owned()))
    );

    let mut dial = Dial::new();
    assert_eq!(dial.attempted(Attempted::Open), DialStep::Settle);
    assert_eq!(dial.attempted(Attempted::Hung), DialStep::Fail(TransportError::Timeout));
    assert_eq!(
        dial.attempted(Attempted::Refused { code: None, error: "нет".to_owned() }),
        DialStep::Fail(TransportError::Refused("канал L2CAP: нет".to_owned()))
    );
}

#[test]
fn a_dial_keeps_to_its_time() {
    assert_eq!(Dial::handover(Some(true)), 0);
    assert_eq!(Dial::handover(Some(false)), RADIO_HANDOVER_NS);
    assert_eq!(Dial::handover(None), RADIO_HANDOVER_NS);
    let second = 1_000_000_000;
    assert_eq!(Dial::attempt(10 * second, second), Ok(ATTEMPT_LIMIT_NS));
    assert_eq!(Dial::attempt(10 * second, 9 * second), Ok(second));
    assert_eq!(Dial::attempt(10 * second, 10 * second), Err(TransportError::Timeout));
    assert_eq!(settle_budget(10, 4), 6);
    assert_eq!(settle_budget(4, 10), 0);
    assert_eq!(settle(true, 9, 5), Settling::Works);
    assert_eq!(settle(false, 5, 5), Settling::TimedOut);
    assert_eq!(settle(false, 4, 5), Settling::Poll);
}

#[test]
fn a_radio_that_is_off_is_said_to_be() {
    assert_eq!(usable(true), Ok(()));
    assert_eq!(
        usable(false),
        Err(TransportError::Refused(
            "адаптер Bluetooth выключен — включите его в системе".to_owned()
        ))
    );
    assert_eq!(refused("обзор", "нет"), TransportError::Refused("обзор: нет".to_owned()));
    assert!(taken_for_random(None));
    assert!(taken_for_random(Some(true)));
    assert!(!taken_for_random(Some(false)));
}

#[test]
fn bluetooth_is_there_once() {
    let mut announced = Announced::new();
    assert_eq!(announced.went_out(), Some(ready()));
    assert_eq!(announced.went_out(), None);
    let mut links = Links::new();
    assert_eq!((links.next(), links.next()), (0, 1));
}
