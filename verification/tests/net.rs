use hopper::args::{coordinator_seed, key_material};
use hopper::error::NetError;
use hopper::frame::{stage_key, FrameError, StageCodec, MAX_FRAME};
use hopper::ledger::Ledger;
use hopper::net::{Action, Command, Event, EventLoop, Outcome};
use hopper::router::Router;
use hopper::transport::{LinkProfile, NetworkMonitor};

fn ledger_with(nodes: &[&str]) -> Ledger {
    let mut l = Ledger::default();
    for n in nodes {
        l.register(n, 8);
    }
    l
}

fn ms(x: f64) -> u64 {
    x.to_bits()
}

#[test]
fn assembles_lowest_latency_then_reroutes() {
    let ledger = ledger_with(&["fast", "slow", "s1"]);
    let mut r = Router::new();
    r.announce("fast", 0, ms(9.0));
    r.announce("slow", 0, ms(22.0));
    r.announce("s1", 1, ms(11.0));

    // lowest RTT wins
    let pipe = r.assemble(2, &vec![], &ledger).unwrap();
    assert_eq!(pipe, vec!["fast".to_string(), "s1".to_string()]);

    // exclude the primary -> reroute to the backup
    let excl = vec!["fast".to_string()];
    let pipe = r.assemble(2, &excl, &ledger).unwrap();
    assert_eq!(pipe, vec!["slow".to_string(), "s1".to_string()]);
}

#[test]
fn skips_blocked_providers() {
    let mut ledger = ledger_with(&["fast", "slow", "s1"]);
    let mut r = Router::new();
    r.announce("fast", 0, ms(9.0));
    r.announce("slow", 0, ms(22.0));
    r.announce("s1", 1, ms(11.0));

    ledger.slash("fast"); // banned -> blocked
    let pipe = r.assemble(2, &vec![], &ledger).unwrap();
    assert_eq!(pipe, vec!["slow".to_string(), "s1".to_string()]);
}

#[test]
fn uncovered_stage_errors() {
    let ledger = ledger_with(&["only0"]);
    let mut r = Router::new();
    r.announce("only0", 0, ms(9.0));
    assert_eq!(
        r.assemble(2, &vec![], &ledger),
        Err(NetError::NoProvider(1))
    );
}

#[test]
fn queue_delays_count_and_ties_go_to_the_first() {
    let mut ledger = ledger_with(&["a", "b", "c"]);
    let mut r = Router::new();
    r.announce("a", 0, ms(10.0));
    r.announce("b", 0, ms(12.0));
    r.announce("c", 0, ms(12.0));
    // "a" took far more than it gave, and waits five milliseconds
    ledger.record("b", "a", 1_000_000_000_000);
    ledger.settle("a", 0, u128::MAX, ms(5.0));
    assert_eq!(r.assemble(1, &vec![], &ledger).unwrap(), vec!["b".to_string()]);
    ledger.settle("a", 0, u128::MAX, ms(2.0));
    assert_eq!(r.assemble(1, &vec![], &ledger).unwrap(), vec!["a".to_string()]);
    assert_eq!(
        r.assemble(1, &vec!["a".to_string()], &ledger).unwrap(),
        vec!["b".to_string()]
    );
    assert!(r.assemble(0, &vec![], &ledger).unwrap().is_empty());
}

#[test]
fn transfer_accounts_bytes_and_latency() {
    let mut mon = NetworkMonitor::new();
    let link = LinkProfile::default();
    let ms = f64::from_bits(mon.transfer(512, &link));
    // rtt/2 + (512*8)/(30e6)*1e3
    assert!((ms - (9.0 + 4096.0 / 30e6 * 1e3)).abs() < 1e-9);
    assert_eq!(mon.total_bytes, 512);
    assert_eq!(mon.hops, 1);
    assert_eq!(mon.hop_bytes, vec![512]);
}

#[test]
fn kv_avoided_counterfactual_accumulates() {
    let mut mon = NetworkMonitor::new();
    mon.note_kv_avoided(100_000);
    mon.note_kv_avoided(50_000);
    assert_eq!(mon.kv_ship_bytes_avoided, 150_000);
    assert!((f64::from_bits(mon.report().kv_ship_mb_avoided) - 0.15).abs() < 1e-9);
}

#[test]
fn reports_are_rounded_like_the_hardware() {
    let mut mon = NetworkMonitor::new();
    let mut total = 0.0f64;
    let link = LinkProfile::new(ms(17.3), ms(12.5));
    for n in [512usize, 73, 9_999, 0, 123_456_789] {
        let serialize = (n as f64 * 8.0) / (12.5 * 1e6) * 1e3;
        let want = 17.3 / 2.0 + serialize;
        total += want;
        assert_eq!(f64::from_bits(mon.transfer(n, &link)), want);
    }
    mon.note_kv_avoided(98_765_432);
    let report = mon.report();
    let round_to = |x: f64, places: i32| (x * 10f64.powi(places)).round() / 10f64.powi(places);
    assert_eq!(report.hops, 5);
    assert_eq!(f64::from_bits(mon.total_ms), total);
    assert_eq!(f64::from_bits(report.network_ms), round_to(total, 1));
    let bytes = mon.total_bytes as f64;
    assert_eq!(f64::from_bits(report.activation_mb), round_to(bytes / 1e6, 4));
    assert_eq!(
        f64::from_bits(report.kv_ship_mb_avoided),
        round_to(98_765_432.0 / 1e6, 2)
    );
}

#[test]
fn a_dead_link_takes_for_ever() {
    let mut mon = NetworkMonitor::default();
    let link = LinkProfile::new(ms(18.0), ms(0.0));
    assert_eq!(f64::from_bits(mon.transfer(1, &link)), f64::INFINITY);
}

#[test]
fn keys_name_their_stage() {
    assert_eq!(stage_key(0), "hopper-stage-0");
    assert_eq!(stage_key(12), "hopper-stage-12");
}

#[test]
fn frames_carry_their_length() {
    let codec = StageCodec;
    let frame = codec.frame(b"hello");
    assert_eq!(frame, [0, 0, 0, 5, b'h', b'e', b'l', b'l', b'o']);
    assert_eq!(codec.frame_length([0, 0, 0, 5]), Ok(5));
    let limit = (MAX_FRAME as u32).to_be_bytes();
    assert_eq!(codec.frame_length(limit), Ok(MAX_FRAME));
    let beyond = (MAX_FRAME as u32 + 1).to_be_bytes();
    assert_eq!(codec.frame_length(beyond), Err(FrameError::TooLarge));
    let long = vec![7u8; 70_000];
    let frame = codec.frame(&long);
    let header = [frame[0], frame[1], frame[2], frame[3]];
    assert_eq!(codec.frame_length(header), Ok(70_000));
    assert_eq!(&frame[4..], &long[..]);
}

#[test]
fn identities_come_from_their_seed() {
    let bytes = key_material(0x0102_0304_0506_0708);
    assert_eq!(bytes.len(), 32);
    assert_eq!(&bytes[..8], &[8, 7, 6, 5, 4, 3, 2, 1]);
    assert!(bytes[8..].iter().all(|&b| b == 0));
    assert_eq!(coordinator_seed(1), 1_000_001);
    assert_eq!(coordinator_seed(u64::MAX), 999_999);
}

#[test]
fn the_loop_answers_those_who_wait() {
    let mut pending = EventLoop::new();
    let nothing = |a: Action| matches!(a, Action::Nothing);

    assert!(nothing(pending.on_command(Command::Listen { ticket: 1 }, Outcome::Done)));
    assert!(nothing(pending.on_command(Command::Listen { ticket: 2 }, Outcome::Done)));
    assert!(matches!(
        pending.on_command(Command::Listen { ticket: 3 }, Outcome::Failed),
        Action::Drop { ticket: 3 }
    ));
    assert!(matches!(
        pending.on_event(Event::Listening),
        Action::AnswerListen { ticket: 1 }
    ));
    assert!(matches!(
        pending.on_event(Event::Listening),
        Action::AnswerListen { ticket: 2 }
    ));
    assert!(nothing(pending.on_event(Event::Listening)));

    assert!(matches!(
        pending.on_command(Command::Dial { ticket: 4 }, Outcome::Failed),
        Action::AnswerDial { ticket: 4, ok: false }
    ));
    assert!(matches!(
        pending.on_command(Command::Dial { ticket: 5 }, Outcome::Done),
        Action::AnswerDial { ticket: 5, ok: true }
    ));
    assert!(matches!(
        pending.on_command(Command::StartProviding { ticket: 6 }, Outcome::Failed),
        Action::AnswerProviding { ticket: 6 }
    ));
    for command in [Command::AddAddress, Command::Bootstrap, Command::Respond] {
        assert!(nothing(pending.on_command(command, Outcome::Done)));
    }
    assert!(matches!(pending.on_event(Event::Inbound), Action::HandIn));
    assert!(matches!(
        pending.on_event(Event::Identified),
        Action::AddAddresses
    ));
    assert!(nothing(pending.on_event(Event::Other)));
}

#[test]
fn requests_are_answered_once() {
    let mut pending = EventLoop::new();
    pending.on_command(Command::SendStage { ticket: 10 }, Outcome::Request(77));
    pending.on_command(Command::SendStage { ticket: 11 }, Outcome::Request(78));
    assert!(matches!(
        pending.on_event(Event::Response { request: 77 }),
        Action::AnswerSend { ticket: 10, ok: true }
    ));
    assert!(matches!(
        pending.on_event(Event::Failure { request: 77 }),
        Action::Nothing
    ));
    assert!(matches!(
        pending.on_event(Event::Failure { request: 78 }),
        Action::AnswerSend { ticket: 11, ok: false }
    ));
    assert!(matches!(
        pending.on_event(Event::Response { request: 78 }),
        Action::Nothing
    ));
}

#[test]
fn providers_are_gathered_until_the_query_ends() {
    let mut pending = EventLoop::new();
    pending.on_command(Command::GetProviders { ticket: 20 }, Outcome::Query(5));
    let progress = |query, found: Vec<u64>, last| Event::Providers { query, found, last };
    assert!(matches!(
        pending.on_event(progress(5, vec![3, 1], false)),
        Action::Nothing
    ));
    assert!(matches!(
        pending.on_event(progress(6, vec![9], true)),
        Action::Nothing
    ));
    match pending.on_event(progress(5, vec![1, 2], true)) {
        Action::AnswerProviders { ticket, mut peers } => {
            assert_eq!(ticket, 20);
            peers.sort();
            peers.dedup();
            assert_eq!(peers, vec![1, 2, 3]);
        }
        other => panic!("{other:?}"),
    }
    assert!(matches!(
        pending.on_event(progress(5, vec![4], true)),
        Action::Nothing
    ));
}

#[test]
fn a_failed_query_is_answered_with_what_was_found() {
    let mut pending = EventLoop::new();
    pending.on_command(Command::GetProviders { ticket: 20 }, Outcome::Query(5));
    pending.on_command(Command::GetProviders { ticket: 21 }, Outcome::Query(6));
    let found = vec![3, 1];
    pending.on_event(Event::Providers {
        query: 5,
        found,
        last: false,
    });
    match pending.on_event(Event::QueryFailed { query: 5 }) {
        Action::AnswerProviders { ticket, mut peers } => {
            assert_eq!(ticket, 20);
            peers.sort();
            assert_eq!(peers, vec![1, 3]);
        }
        other => panic!("{other:?}"),
    }
    assert!(matches!(
        pending.on_event(Event::QueryFailed { query: 5 }),
        Action::Nothing
    ));
    match pending.on_event(Event::QueryFailed { query: 6 }) {
        Action::AnswerProviders { ticket, peers } => {
            assert_eq!((ticket, peers), (21, vec![]));
        }
        other => panic!("{other:?}"),
    }
}
