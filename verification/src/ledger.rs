//! The contribution ledger: what every identity gave to the swarm and took from it.
//!
//! Work is metered in floating-point operations, not in tokens. Standing is the ratio of what an
//! identity seeded and what it leeched, both decayed over time, and decides its access tier. There
//! is no consensus: the ledger is local and advisory. Minting an identity takes a proof of work; a
//! caught cheat loses the whole stake and is banned.
//!
//! The decay is an exponential of the elapsed time and is worked out by the owner of the ledger,
//! who hands the decayed sums in with [`Ledger::settle`] and the time with [`Ledger::advance`].

use vstd::prelude::*;

use crate::pow::{is_first_pow, mintable, pow_holds, proof_of_work, verify_pow};
use crate::table::Table;

verus! {

/// The access tiers.
#[derive(Debug, Clone, Copy, PartialEq, Eq, Structural)]
pub enum Tier {
    /// Gave at least as much as it took.
    Priority,
    /// Gave at least a fifth of what it took.
    Delayed,
    /// A newcomer that took more, within the grant.
    OptimisticUnchoke,
    /// Gave less than a fifth of what it took.
    Throttled,
    /// Banned, or unknown.
    Blocked,
}

/// What an identity may do now.
#[derive(Debug, Clone, Copy)]
pub struct Access {
    pub tier: Tier,
    /// The bit pattern of the double-precision queue delay in milliseconds.
    pub queue_delay_ms: u64,
}

/// The terms that every identity gets.
#[derive(Debug, Clone, Copy)]
pub struct Pact {
    /// What a new identity stakes.
    pub stake: u64,
    /// How much work a newcomer may take without giving.
    pub grant: u128,
    /// For how long, in seconds.
    pub window: u64,
}

/// One identity's account.
#[derive(Debug, Clone, Copy)]
pub struct Account {
    /// The nonce that the identity was minted with.
    pub nonce: u64,
    /// When it was minted.
    pub minted_at: u64,
    pub stake: u64,
    pub banned: bool,
    /// Decayed work that it gave.
    pub seeded: u128,
    /// Decayed work that it took.
    pub leeched: u128,
    /// All work that it ever took, not decayed.
    pub taken: u128,
    /// The bit pattern of its queue delay in milliseconds while it is delayed or throttled.
    pub delay_ms: u64,
}

/// One line of a snapshot.
#[derive(Debug, Clone, Copy)]
pub struct Standing {
    pub tier: Tier,
    pub banned: bool,
    pub stake: u64,
}

/// A sum of work that stops at the largest number.
pub open spec fn capped(n: int) -> u128 {
    if n <= u128::MAX {
        n as u128
    } else {
        u128::MAX
    }
}

fn plus(a: u128, b: u64) -> (sum: u128)
    ensures
        sum == capped(a + b),
{
    if a <= u128::MAX - b as u128 {
        a + b as u128
    } else {
        u128::MAX
    }
}

impl Account {
    /// Whether the newcomer's grant covers this account.
    pub open spec fn has_grant(self, pact: Pact, now: u64) -> bool {
        self.stake > 0 && self.taken <= pact.grant && now - self.minted_at <= pact.window
    }

    /// The tier that the contribution ratio alone gives.
    pub open spec fn earned_tier(self) -> Tier {
        if self.banned {
            Tier::Blocked
        } else if self.seeded >= self.leeched {
            Tier::Priority
        } else if 5 * self.seeded >= self.leeched {
            Tier::Delayed
        } else {
            Tier::Throttled
        }
    }

    /// The tier of the account: the one it earned, or the grant's where that lifts a throttle.
    pub open spec fn tier_of(self, pact: Pact, now: u64) -> Tier {
        if self.earned_tier() == Tier::Throttled && self.has_grant(pact, now) {
            Tier::OptimisticUnchoke
        } else {
            self.earned_tier()
        }
    }

    /// What the account gives access to.
    pub open spec fn access_of(self, pact: Pact, now: u64) -> Access {
        let tier = self.tier_of(pact, now);
        Access {
            tier,
            queue_delay_ms: if tier == Tier::Delayed || tier == Tier::Throttled {
                self.delay_ms
            } else {
                0
            },
        }
    }

    fn tier(&self, pact: &Pact, now: u64) -> (tier: Tier)
        ensures
            tier == self.tier_of(*pact, now),
    {
        if self.banned {
            Tier::Blocked
        } else if self.seeded >= self.leeched {
            Tier::Priority
        } else {
            let whole: u128 = self.leeched / 5;
            let fifth: u128 = if self.leeched % 5 == 0 {
                whole
            } else {
                whole + 1
            };
            if self.seeded >= fifth {
                Tier::Delayed
            } else if self.stake > 0 && self.taken <= pact.grant && (now <= self.minted_at || now
                - self.minted_at <= pact.window) {
                Tier::OptimisticUnchoke
            } else {
                Tier::Throttled
            }
        }
    }
}

/// The contents of a ledger.
#[verifier::ext_equal]
pub struct LedgerView {
    pub pact: Pact,
    pub now: u64,
    pub accounts: Map<Seq<char>, Account>,
}

impl LedgerView {
    /// What an identity may do now: nothing where it was never minted.
    pub open spec fn access_of(self, id: Seq<char>) -> Access {
        if self.accounts.contains_key(id) {
            self.accounts[id].access_of(self.pact, self.now)
        } else {
            Access { tier: Tier::Blocked, queue_delay_ms: 0 }
        }
    }

    /// Whether an identity is known and banned.
    pub open spec fn banned(self, id: Seq<char>) -> bool {
        self.accounts.contains_key(id) && self.accounts[id].banned
    }

    /// The ledger at a later time.
    pub open spec fn at(self, now: u64) -> LedgerView {
        LedgerView {
            now: if now > self.now {
                now
            } else {
                self.now
            },
            ..self
        }
    }

    /// The ledger with a new identity: one that is already there stays as it is.
    pub open spec fn registered(self, id: Seq<char>, nonce: u64) -> LedgerView {
        if self.accounts.contains_key(id) {
            self
        } else {
            LedgerView {
                accounts: self.accounts.insert(
                    id,
                    Account {
                        nonce,
                        minted_at: self.now,
                        stake: self.pact.stake,
                        banned: false,
                        seeded: 0,
                        leeched: 0,
                        taken: 0,
                        delay_ms: 0,
                    },
                ),
                ..self
            }
        }
    }

    /// The ledger with the account of a known identity changed.
    pub open spec fn with(self, id: Seq<char>, account: Account) -> LedgerView {
        LedgerView { accounts: self.accounts.insert(id, account), ..self }
    }

    /// The ledger once `id` gave work.
    pub open spec fn seeded(self, id: Seq<char>, flops: u64) -> LedgerView {
        let a = self.accounts[id];
        if self.accounts.contains_key(id) {
            self.with(id, Account { seeded: capped(a.seeded + flops), ..a })
        } else {
            self
        }
    }

    /// The ledger once `id` took work.
    pub open spec fn leeched(self, id: Seq<char>, flops: u64) -> LedgerView {
        let a = self.accounts[id];
        if self.accounts.contains_key(id) {
            self.with(
                id,
                Account {
                    leeched: capped(a.leeched + flops),
                    taken: capped(a.taken + flops),
                    ..a
                },
            )
        } else {
            self
        }
    }

    /// The ledger once `provider` did work for `consumer`.
    pub open spec fn recorded(self, provider: Seq<char>, consumer: Seq<char>, flops: u64) -> LedgerView {
        self.seeded(provider, flops).leeched(consumer, flops)
    }

    /// The ledger once `id` was caught: no stake, and banned.
    pub open spec fn slashed(self, id: Seq<char>) -> LedgerView {
        if self.accounts.contains_key(id) {
            self.with(id, Account { stake: 0, banned: true, ..self.accounts[id] })
        } else {
            self
        }
    }

    /// The ledger with decayed sums of `id`: they never grow.
    pub open spec fn settled(self, id: Seq<char>, seeded: u128, leeched: u128, delay_ms: u64) -> LedgerView {
        let a = self.accounts[id];
        if self.accounts.contains_key(id) {
            self.with(
                id,
                Account {
                    seeded: if seeded < a.seeded {
                        seeded
                    } else {
                        a.seeded
                    },
                    leeched: if leeched < a.leeched {
                        leeched
                    } else {
                        a.leeched
                    },
                    delay_ms,
                    ..a
                },
            )
        } else {
            self
        }
    }
}

/// The ledger of one node.
#[derive(Debug)]
pub struct Ledger {
    pact: Pact,
    now: u64,
    accounts: Table<Account>,
}

impl View for Ledger {
    type V = LedgerView;

    closed spec fn view(&self) -> LedgerView {
        LedgerView { pact: self.pact, now: self.now, accounts: self.accounts@ }
    }
}

impl Ledger {
    /// Whether the ledger is in order: every identity has one account.
    pub closed spec fn wf(&self) -> bool {
        self.accounts.wf()
    }

    /// A ledger without identities.
    pub fn new(pact: Pact) -> (ledger: Self)
        ensures
            ledger.wf(),
            ledger@ == (LedgerView { pact, now: 0, accounts: Map::empty() }),
    {
        Ledger { pact, now: 0, accounts: Table::new() }
    }

    /// Moves the ledger's time forward to `now` seconds. Time does not run backwards.
    pub fn advance(&mut self, now: u64)
        requires
            old(self).wf(),
        ensures
            final(self).wf(),
            final(self)@ == old(self)@.at(now),
    {
        if now > self.now {
            self.now = now;
        }
        assert(self@.accounts == old(self)@.accounts);
    }

    /// Mints the identity `id`: finds its proof of work and opens an account with a stake. An
    /// identity that has an account keeps it.
    pub fn register(&mut self, id: &str, difficulty: u32)
        requires
            old(self).wf(),
            mintable(id@, difficulty),
        ensures
            final(self).wf(),
            exists|nonce: u64|
                is_first_pow(id@, nonce, difficulty) && final(self)@ == #[trigger] old(
                    self,
                )@.registered(id@, nonce),
    {
        let nonce: u64 = proof_of_work(id, difficulty);
        if !self.accounts.contains(id) {
            self.accounts.insert(
                id,
                Account {
                    nonce,
                    minted_at: self.now,
                    stake: self.pact.stake,
                    banned: false,
                    seeded: 0,
                    leeched: 0,
                    taken: 0,
                    delay_ms: 0,
                },
            );
        }
        assert(self@ == old(self)@.registered(id@, nonce));
    }

    /// Mints the identity `id` if its proof of work is among the first `tries` nonces.
    pub fn register_within(&mut self, id: &str, difficulty: u32, tries: u64) -> (minted: bool)
        requires
            old(self).wf(),
        ensures
            final(self).wf(),
            minted == exists|nonce: u64|
                nonce < tries && #[trigger] pow_holds(id@, nonce, difficulty),
            minted ==> exists|nonce: u64|
                is_first_pow(id@, nonce, difficulty) && final(self)@ == #[trigger] old(
                    self,
                )@.registered(id@, nonce),
            !minted ==> final(self)@ == old(self)@,
    {
        let mut nonce: u64 = 0;
        while nonce < tries
            invariant
                nonce <= tries,
                *self == *old(self),
                old(self).wf(),
                forall|n: u64| n < nonce ==> !#[trigger] pow_holds(id@, n, difficulty),
            decreases tries - nonce,
        {
            if verify_pow(id, nonce, difficulty) {
                self.register(id, difficulty);
                return true;
            }
            nonce = nonce + 1;
        }
        false
    }

    /// Records that `provider` did `flops` operations for `consumer`.
    pub fn record(&mut self, provider: &str, consumer: &str, flops: u64)
        requires
            old(self).wf(),
        ensures
            final(self).wf(),
            final(self)@ == old(self)@.recorded(provider@, consumer@, flops),
    {
        match self.accounts.get_mut(provider) {
            Some(account) => {
                account.seeded = plus(account.seeded, flops);
            },
            None => {},
        }
        assert(self@ == old(self)@.seeded(provider@, flops));
        let ghost mid = self@;
        match self.accounts.get_mut(consumer) {
            Some(account) => {
                account.leeched = plus(account.leeched, flops);
                account.taken = plus(account.taken, flops);
            },
            None => {},
        }
        assert(self@ == mid.leeched(consumer@, flops));
    }

    /// Takes in the decayed sums of `id` and its queue delay while it is delayed or throttled.
    pub fn settle(&mut self, id: &str, seeded: u128, leeched: u128, delay_ms: u64)
        requires
            old(self).wf(),
        ensures
            final(self).wf(),
            final(self)@ == old(self)@.settled(id@, seeded, leeched, delay_ms),
    {
        match self.accounts.get_mut(id) {
            Some(account) => {
                if seeded < account.seeded {
                    account.seeded = seeded;
                }
                if leeched < account.leeched {
                    account.leeched = leeched;
                }
                account.delay_ms = delay_ms;
            },
            None => {},
        }
        assert(self@ == old(self)@.settled(id@, seeded, leeched, delay_ms));
    }

    /// Slashes a cheat: its whole stake is gone and it is banned.
    pub fn slash(&mut self, id: &str)
        requires
            old(self).wf(),
        ensures
            final(self).wf(),
            final(self)@ == old(self)@.slashed(id@),
    {
        match self.accounts.get_mut(id) {
            Some(account) => {
                account.stake = 0;
                account.banned = true;
            },
            None => {},
        }
        assert(self@ == old(self)@.slashed(id@));
    }

    /// The account of `id`.
    pub fn account(&self, id: &str) -> (account: Option<&Account>)
        requires
            self.wf(),
        ensures
            account is Some <==> self@.accounts.contains_key(id@),
            account matches Some(a) ==> *a == self@.accounts[id@],
    {
        self.accounts.get(id)
    }

    /// What `id` may do now.
    pub fn access(&self, id: &str) -> (access: Access)
        requires
            self.wf(),
        ensures
            access == self@.access_of(id@),
    {
        match self.accounts.get(id) {
            Some(account) => {
                let tier = account.tier(&self.pact, self.now);
                let queue_delay_ms: u64 = if tier == Tier::Delayed || tier == Tier::Throttled {
                    account.delay_ms
                } else {
                    0
                };
                Access { tier, queue_delay_ms }
            },
            None => Access { tier: Tier::Blocked, queue_delay_ms: 0 },
        }
    }

    /// The standing of every identity.
    pub fn snapshot(&self) -> (standings: Table<Standing>)
        requires
            self.wf(),
        ensures
            standings.wf(),
            standings@.dom() == self@.accounts.dom(),
            forall|id: Seq<char>|
                self@.accounts.contains_key(id) ==> #[trigger] standings@[id] == (Standing {
                    tier: self@.access_of(id).tier,
                    banned: self@.accounts[id].banned,
                    stake: self@.accounts[id].stake,
                }),
    {
        let names = self.accounts.names();
        let mut standings: Table<Standing> = Table::new();
        let mut i: usize = 0;
        while i < names.len()
            invariant
                i <= names@.len(),
                self.wf(),
                standings.wf(),
                forall|j: int|
                    0 <= j < names@.len() ==> self.accounts@.contains_key(#[trigger] names@[j]@),
                forall|id: Seq<char>| #[trigger]
                    standings@.contains_key(id) <==> exists|j: int|
                        0 <= j < i && (#[trigger] names@[j])@ == id,
                forall|id: Seq<char>|
                    standings@.contains_key(id) ==> #[trigger] standings@[id] == (Standing {
                        tier: self@.access_of(id).tier,
                        banned: self@.accounts[id].banned,
                        stake: self@.accounts[id].stake,
                    }),
            decreases names@.len() - i,
        {
            let name: &str = names[i].as_str();
            let tier = self.access(name).tier;
            match self.accounts.get(name) {
                Some(account) => {
                    let ghost before = standings@;
                    standings.insert(
                        name,
                        Standing { tier, banned: account.banned, stake: account.stake },
                    );
                    assert forall|id: Seq<char>| #[trigger] standings@.contains_key(id) <==> exists|
                        j: int,
                    |
                        0 <= j < i + 1 && (#[trigger] names@[j])@ == id by {
                        if before.contains_key(id) {
                            let j = choose|j: int| 0 <= j < i && (#[trigger] names@[j])@ == id;
                            assert(names@[j]@ == id);
                        }
                        assert(names@[i as int]@ == name@);
                        if exists|j: int| 0 <= j < i + 1 && (#[trigger] names@[j])@ == id {
                            let j = choose|j: int| 0 <= j < i + 1 && (#[trigger] names@[j])@ == id;
                            if j < i {
                                assert(names@[j]@ == id);
                                assert(before.contains_key(id));
                            }
                        }
                    }
                },
                None => {},
            }
            i = i + 1;
        }
        assert(standings@.dom() =~= self@.accounts.dom());
        standings
    }
}

/// The terms of a ledger that was given none.
pub open spec fn default_pact() -> Pact {
    Pact { stake: 100, grant: 50_000_000_000, window: 3600 }
}

impl Default for Ledger {
    fn default() -> (ledger: Self)
        ensures
            ledger.wf(),
            ledger@.accounts == Map::<Seq<char>, Account>::empty(),
            ledger@.now == 0,
            ledger@.pact == default_pact(),
    {
        Ledger::new(Pact { stake: 100, grant: 50_000_000_000, window: 3600 })
    }
}

/// A caught cheat has no stake left, is banned and is blocked.
pub proof fn slashing_takes_everything(ledger: LedgerView, id: Seq<char>)
    requires
        ledger.accounts.contains_key(id),
    ensures
        ledger.slashed(id).accounts[id].stake == 0,
        ledger.slashed(id).banned(id),
        ledger.slashed(id).access_of(id).tier == Tier::Blocked,
{
}

/// Slashing touches nobody else.
pub proof fn slashing_spares_the_others(ledger: LedgerView, id: Seq<char>, other: Seq<char>)
    requires
        id != other,
    ensures
        ledger.slashed(id).access_of(other) == ledger.access_of(other),
        ledger.slashed(id).banned(other) == ledger.banned(other),
{
}

/// A ban is for ever: nothing that happens to the ledger lifts it, not even minting the same
/// identity again.
pub proof fn bans_are_for_ever(
    ledger: LedgerView,
    id: Seq<char>,
    one: Seq<char>,
    other: Seq<char>,
    n: u64,
    sums: (u128, u128),
)
    requires
        ledger.banned(id),
    ensures
        ledger.access_of(id).tier == Tier::Blocked,
        ledger.at(n).banned(id),
        ledger.registered(one, n).banned(id),
        ledger.recorded(one, other, n).banned(id),
        ledger.settled(one, sums.0, sums.1, n).banned(id),
        ledger.slashed(one).banned(id),
{
}

/// The newcomer's grant is a floor: it lifts a throttle and changes no other tier.
pub proof fn the_grant_is_a_floor(account: Account, pact: Pact, now: u64)
    ensures
        account.tier_of(pact, now) == Tier::OptimisticUnchoke <==> (account.earned_tier()
            == Tier::Throttled && account.has_grant(pact, now)),
        account.tier_of(pact, now) != Tier::OptimisticUnchoke ==> account.tier_of(pact, now)
            == account.earned_tier(),
{
}

/// How good a tier is.
pub open spec fn rank(tier: Tier) -> int {
    match tier {
        Tier::Priority => 4,
        Tier::Delayed => 3,
        Tier::OptimisticUnchoke => 2,
        Tier::Throttled => 1,
        Tier::Blocked => 0,
    }
}

/// Work done for others never lowers the tier of the one who did it.
pub proof fn work_never_demotes(
    ledger: LedgerView,
    provider: Seq<char>,
    consumer: Seq<char>,
    flops: u64,
)
    requires
        provider != consumer,
    ensures
        rank(ledger.recorded(provider, consumer, flops).access_of(provider).tier) >= rank(
            ledger.access_of(provider).tier,
        ),
{
}

/// One record: who did the work, for whom, and how many operations it was.
pub struct Record {
    pub provider: Seq<char>,
    pub consumer: Seq<char>,
    pub flops: u64,
}

/// The ledger once all of these were recorded, one after the other.
pub open spec fn after_records(ledger: LedgerView, records: Seq<Record>) -> LedgerView
    decreases records.len(),
{
    if records.len() == 0 {
        ledger
    } else {
        let last = records.last();
        after_records(ledger, records.drop_last()).recorded(
            last.provider,
            last.consumer,
            last.flops,
        )
    }
}

/// All work that `id` did in these records.
pub open spec fn given(records: Seq<Record>, id: Seq<char>) -> nat
    decreases records.len(),
{
    if records.len() == 0 {
        0
    } else if records.last().provider == id {
        given(records.drop_last(), id) + records.last().flops as nat
    } else {
        given(records.drop_last(), id)
    }
}

/// All work that was done for `id` in these records.
pub open spec fn received(records: Seq<Record>, id: Seq<char>) -> nat
    decreases records.len(),
{
    if records.len() == 0 {
        0
    } else if records.last().consumer == id {
        received(records.drop_last(), id) + records.last().flops as nat
    } else {
        received(records.drop_last(), id)
    }
}

/// Every record counts, for both sides: what an identity seeded grows by all work that it did, what it
/// leeched and what it ever took by all work that was done for it, in however many records and in
/// whatever order. Each sum stops at the largest number. Nothing else changes, and nobody is minted.
pub proof fn every_record_counts(ledger: LedgerView, records: Seq<Record>, id: Seq<char>)
    ensures
        ({
            let (before, after) = (ledger.accounts[id], after_records(ledger, records).accounts[id]);
            let gave = before.seeded + given(records, id);
            let took = before.leeched + received(records, id);
            let ever = before.taken + received(records, id);
            &&& after_records(ledger, records).accounts.contains_key(id)
                == ledger.accounts.contains_key(id)
            &&& after_records(ledger, records).now == ledger.now
            &&& after_records(ledger, records).pact == ledger.pact
            &&& ledger.accounts.contains_key(id) ==> {
                &&& gave <= u128::MAX ==> after.seeded == gave
                &&& gave > u128::MAX ==> after.seeded == u128::MAX
                &&& took <= u128::MAX ==> after.leeched == took
                &&& took > u128::MAX ==> after.leeched == u128::MAX
                &&& ever <= u128::MAX ==> after.taken == ever
                &&& ever > u128::MAX ==> after.taken == u128::MAX
                &&& after.stake == before.stake
                &&& after.banned == before.banned
                &&& after.nonce == before.nonce
                &&& after.minted_at == before.minted_at
                &&& after.delay_ms == before.delay_ms
            }
        }),
    decreases records.len(),
{
    if records.len() > 0 {
        every_record_counts(ledger, records.drop_last(), id);
    }
}

/// Taking work never lifts a tier: the consumer of a record stands no better behind it, and has leeched
/// no less.
pub proof fn taking_never_promotes(
    ledger: LedgerView,
    provider: Seq<char>,
    consumer: Seq<char>,
    flops: u64,
)
    requires
        provider != consumer,
    ensures
        rank(ledger.recorded(provider, consumer, flops).access_of(consumer).tier) <= rank(
            ledger.access_of(consumer).tier,
        ),
        ledger.accounts.contains_key(consumer) ==> ledger.recorded(
            provider,
            consumer,
            flops,
        ).accounts[consumer].leeched >= ledger.accounts[consumer].leeched,
{
}

/// Which tier an account has, by what it seeded and leeched: at least as much gives priority, at least a
/// fifth a delay, and less a throttle, unless the grant of a newcomer with a stake covers it. Whoever
/// is banned or unknown is blocked. Only the delayed and the throttled wait, each for its own delay.
pub proof fn tiers_follow_the_ratio(ledger: LedgerView, id: Seq<char>)
    ensures
        ({
            let access = ledger.access_of(id);
            let a = ledger.accounts[id];
            let known = ledger.accounts.contains_key(id) && !a.banned;
            let granted = a.stake > 0 && a.taken <= ledger.pact.grant && ledger.now <= a.minted_at
                + ledger.pact.window;
            &&& access.tier == Tier::Blocked <==> !known
            &&& access.tier == Tier::Priority <==> known && a.leeched <= a.seeded
            &&& access.tier == Tier::Delayed <==> known && a.seeded < a.leeched <= 5 * a.seeded
            &&& access.tier == Tier::OptimisticUnchoke <==> known && 5 * a.seeded < a.leeched
                && granted
            &&& access.tier == Tier::Throttled <==> known && 5 * a.seeded < a.leeched && !granted
            &&& access.queue_delay_ms == if access.tier == Tier::Delayed || access.tier
                == Tier::Throttled {
                a.delay_ms
            } else {
                0
            }
        }),
{
}

/// A new identity begins with the whole stake and nothing given or taken, at the time it is minted. One
/// that is there already is left alone, and so is everybody else.
pub proof fn minting_opens_one_account(
    ledger: LedgerView,
    id: Seq<char>,
    nonce: u64,
    other: Seq<char>,
)
    ensures
        ({
            let after = ledger.registered(id, nonce);
            let new = after.accounts[id];
            &&& after.accounts.contains_key(id)
            &&& ledger.accounts.contains_key(id) ==> after == ledger
            &&& !ledger.accounts.contains_key(id) ==> {
                &&& new.nonce == nonce
                &&& new.minted_at == ledger.now
                &&& new.stake == ledger.pact.stake
                &&& !new.banned
                &&& new.seeded == 0 && new.leeched == 0 && new.taken == 0
                &&& after.access_of(id).tier == Tier::Priority
            }
            &&& other != id ==> after.accounts.contains_key(other) == ledger.accounts.contains_key(
                other,
            ) && (ledger.accounts.contains_key(other) ==> after.accounts[other]
                == ledger.accounts[other])
            &&& after.now == ledger.now && after.pact == ledger.pact
        }),
{
}

/// Settling takes decayed sums in: neither sum grows, a smaller one is taken as it is, and all else but the
/// delay stays, as does everybody else. Time only runs forward and changes no account.
pub proof fn settling_only_decays(
    ledger: LedgerView,
    id: Seq<char>,
    seeded: u128,
    leeched: u128,
    delay_ms: u64,
    other: Seq<char>,
    now: u64,
)
    ensures
        ({
            let after = ledger.settled(id, seeded, leeched, delay_ms);
            let (old_a, new_a) = (ledger.accounts[id], after.accounts[id]);
            &&& ledger.accounts.contains_key(id) ==> {
                &&& new_a.seeded <= old_a.seeded && new_a.seeded <= seeded
                &&& new_a.seeded == old_a.seeded || new_a.seeded == seeded
                &&& new_a.leeched <= old_a.leeched && new_a.leeched <= leeched
                &&& new_a.leeched == old_a.leeched || new_a.leeched == leeched
                &&& new_a.delay_ms == delay_ms
                &&& new_a.taken == old_a.taken
                &&& new_a.stake == old_a.stake
                &&& new_a.banned == old_a.banned
                &&& new_a.minted_at == old_a.minted_at
            }
            &&& after.accounts.dom() =~= ledger.accounts.dom()
            &&& other != id && ledger.accounts.contains_key(other) ==> after.accounts[other]
                == ledger.accounts[other]
            &&& after.now == ledger.now && after.pact == ledger.pact
            &&& ledger.at(now).accounts == ledger.accounts
            &&& ledger.at(now).pact == ledger.pact
            &&& ledger.at(now).now >= now && ledger.at(now).now >= ledger.now
            &&& ledger.at(now).now == now || ledger.at(now).now == ledger.now
        }),
{
}

} // verus!
