use hopper::digest::hex_string;
use hopper::ledger::{Ledger, Pact, Tier};
use hopper::pow::{leading_zero_bits, proof_of_work, verify_pow};

#[test]
fn pow_round_trips_and_is_cheap_to_verify() {
    let nonce = proof_of_work("node-a", 12);
    assert!(verify_pow("node-a", nonce, 12), "found nonce must verify");
}

#[test]
fn verify_rejects_a_bad_nonce() {
    let nonce = proof_of_work("node-a", 12);
    // A different identity (same nonce) almost certainly fails the target.
    assert!(!verify_pow("node-b", nonce, 12));
}

#[test]
fn higher_difficulty_costs_more() {
    // Mint cost grows with difficulty; the easy nonce won't satisfy the hard
    // target, proving the harder mint genuinely required more search.
    let easy = proof_of_work("miner", 4);
    assert!(!verify_pow("miner", easy, 20) || easy > 0);
    let hard = proof_of_work("miner", 16);
    assert!(verify_pow("miner", hard, 16));
    assert!(easy <= hard);
}

#[test]
fn the_first_nonce_is_found() {
    let nonce = proof_of_work("node-a", 9);
    for earlier in 0..nonce {
        assert!(!verify_pow("node-a", earlier, 9));
    }
    assert_eq!(proof_of_work("anyone", 0), 0);
}

#[test]
fn zero_bits_are_counted_from_the_front() {
    assert_eq!(leading_zero_bits(&[]), 0);
    assert_eq!(leading_zero_bits(&[0x80]), 0);
    assert_eq!(leading_zero_bits(&[0x00, 0x01, 0xff]), 15);
    assert_eq!(leading_zero_bits(&[0x00, 0x00]), 16);
}

#[test]
fn bytes_are_spelled_in_hexadecimal() {
    assert_eq!(hex_string(&[0x00, 0x0f, 0xa0, 0xff]), "000fa0ff");
}

fn ledger() -> Ledger {
    Ledger::new(Pact {
        stake: 100,
        grant: 1_000,
        window: 60,
    })
}

#[test]
fn minting_opens_an_account_with_a_stake() {
    let mut ledger = ledger();
    ledger.advance(5);
    ledger.register("a", 6);
    let account = ledger.account("a").unwrap();
    assert_eq!(account.stake, 100);
    assert_eq!(account.minted_at, 5);
    assert!(!account.banned);
    assert_eq!(account.nonce, proof_of_work("a", 6));
    assert!(ledger.account("b").is_none());
    assert_eq!(ledger.access("b").tier, Tier::Blocked);
}

#[test]
fn minting_may_be_limited() {
    let mut ledger = ledger();
    let nonce = proof_of_work("a", 10);
    assert!(nonce > 0);
    assert!(!ledger.register_within("a", 10, nonce));
    assert!(ledger.account("a").is_none());
    assert!(ledger.register_within("a", 10, nonce + 1));
    assert_eq!(ledger.account("a").unwrap().nonce, nonce);
}

#[test]
fn tiers_follow_the_contribution_ratio() {
    let mut ledger = ledger();
    for id in ["giver", "taker"] {
        ledger.register(id, 2);
    }
    assert_eq!(ledger.access("taker").tier, Tier::Priority);
    // beyond the grant: nothing given
    ledger.record("giver", "taker", 2_000);
    assert_eq!(ledger.access("giver").tier, Tier::Priority);
    assert_eq!(ledger.access("taker").tier, Tier::Throttled);
    // one less than a fifth, a fifth, all
    ledger.record("taker", "nobody", 399);
    assert_eq!(ledger.access("taker").tier, Tier::Throttled);
    ledger.record("taker", "nobody", 1);
    assert_eq!(ledger.access("taker").tier, Tier::Delayed);
    ledger.record("taker", "nobody", 1_600);
    assert_eq!(ledger.access("taker").tier, Tier::Priority);
}

#[test]
fn newcomers_ride_their_grant() {
    let mut ledger = ledger();
    ledger.register("giver", 2);
    ledger.register("taker", 2);
    ledger.record("giver", "taker", 1_000);
    assert_eq!(ledger.access("taker").tier, Tier::OptimisticUnchoke);
    ledger.advance(60);
    assert_eq!(ledger.access("taker").tier, Tier::OptimisticUnchoke);
    ledger.advance(61);
    assert_eq!(ledger.access("taker").tier, Tier::Throttled);
    // time does not run backwards
    ledger.advance(3);
    assert_eq!(ledger.access("taker").tier, Tier::Throttled);
}

#[test]
fn settling_takes_decayed_sums_in() {
    let mut ledger = ledger();
    ledger.register("giver", 2);
    ledger.register("taker", 2);
    ledger.record("giver", "taker", 2_000);
    let delay = 12.5f64.to_bits();
    ledger.settle("taker", 500, 1_000, delay);
    let account = ledger.account("taker").unwrap();
    assert_eq!((account.seeded, account.leeched), (0, 1_000));
    assert_eq!(account.taken, 2_000);
    assert_eq!(ledger.access("taker").queue_delay_ms, delay);
    ledger.settle("giver", 1_500, 9, delay);
    assert_eq!(ledger.account("giver").unwrap().seeded, 1_500);
    assert_eq!(ledger.access("giver").queue_delay_ms, 0);
}

#[test]
fn a_slash_is_for_ever() {
    let mut ledger = ledger();
    ledger.register("cheat", 2);
    ledger.register("other", 2);
    ledger.slash("cheat");
    ledger.slash("stranger");
    ledger.register("cheat", 2);
    ledger.record("cheat", "other", 10_000);
    ledger.advance(1_000);
    let account = ledger.account("cheat").unwrap();
    assert!(account.banned);
    assert_eq!(account.stake, 0);
    assert_eq!(ledger.access("cheat").tier, Tier::Blocked);
    assert!(!ledger.account("other").unwrap().banned);
    let snapshot = ledger.snapshot();
    assert!(snapshot.get("cheat").unwrap().banned);
    assert_eq!(snapshot.get("cheat").unwrap().tier, Tier::Blocked);
    assert_eq!(snapshot.get("other").unwrap().stake, 100);
    assert!(snapshot.get("stranger").is_none());
}
