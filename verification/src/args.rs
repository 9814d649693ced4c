//! What the roles of the daemon are started with.

use vstd::prelude::*;

verus! {

/// A worker hosts stages and serves them.
#[derive(Debug)]
pub struct WorkerArgs {
    /// The address to listen on.
    pub listen: String,
    /// The stages to host.
    pub stages: Vec<usize>,
    /// The number of stages of the model.
    pub n_stages: usize,
    /// The directory of the model's weights.
    pub golden: String,
    /// Seeds the identity and the nonces.
    pub seed: u64,
}

/// A coordinator finds providers and drives a generation.
#[derive(Debug)]
pub struct CoordinatorArgs {
    /// Workers to begin with, as `peer@address`.
    pub bootstrap: Vec<String>,
    /// The number of stages of the model.
    pub n_stages: usize,
    pub prompt: String,
    pub max_tokens: usize,
    /// A pause after every token.
    pub step_delay_ms: u64,
    /// Seeds the identity.
    pub seed: u64,
}

/// A server offers chat completions over HTTP.
#[derive(Debug)]
pub struct ServeArgs {
    /// The address to bind to.
    pub bind: String,
    /// The directory of the model's weights.
    pub golden: String,
    /// The number of stages of the model.
    pub n_stages: usize,
}

/// A byte of a number, the least significant first.
pub open spec fn seed_byte(seed: u64, i: int) -> u8 {
    (if i == 0 {
        seed % 0x100
    } else if i == 1 {
        seed / 0x100 % 0x100
    } else if i == 2 {
        seed / 0x1_0000 % 0x100
    } else if i == 3 {
        seed / 0x100_0000 % 0x100
    } else if i == 4 {
        seed / 0x1_0000_0000 % 0x100
    } else if i == 5 {
        seed / 0x100_0000_0000 % 0x100
    } else if i == 6 {
        seed / 0x1_0000_0000_0000 % 0x100
    } else {
        seed / 0x100_0000_0000_0000
    }) as u8
}

/// The key material of an identity: the eight bytes of its seed, and zeros behind them.
pub fn key_material(seed: u64) -> (bytes: Vec<u8>)
    ensures
        bytes@ == Seq::new(
            32,
            |i: int|
                if i < 8 {
                    seed_byte(seed, i)
                } else {
                    0
                },
        ),
{
    let mut bytes: Vec<u8> = Vec::new();
    bytes.push((seed % 0x100) as u8);
    bytes.push((seed / 0x100 % 0x100) as u8);
    bytes.push((seed / 0x1_0000 % 0x100) as u8);
    bytes.push((seed / 0x100_0000 % 0x100) as u8);
    bytes.push((seed / 0x1_0000_0000 % 0x100) as u8);
    bytes.push((seed / 0x100_0000_0000 % 0x100) as u8);
    bytes.push((seed / 0x1_0000_0000_0000 % 0x100) as u8);
    bytes.push((seed / 0x100_0000_0000_0000) as u8);
    while bytes.len() < 32
        invariant
            8 <= bytes@.len() <= 32,
            forall|i: int| 0 <= i < 8 ==> #[trigger] bytes@[i] == seed_byte(seed, i),
            forall|i: int| 8 <= i < bytes@.len() ==> #[trigger] bytes@[i] == 0,
        decreases 32 - bytes@.len(),
    {
        bytes.push(0);
    }
    bytes
}

/// How far the identities of coordinators are from those of workers with the same seed.
pub const COORDINATOR_OFFSET: u64 = 1_000_000;

/// The seed of a coordinator's identity.
pub fn coordinator_seed(seed: u64) -> (out: u64)
    ensures
        out == (seed + COORDINATOR_OFFSET) % 0x1_0000_0000_0000_0000,
{
    seed.wrapping_add(COORDINATOR_OFFSET)
}

/// The bytes of a seed spell it, the least significant first: no two seeds have the same.
pub proof fn seed_bytes_spell_the_seed(seed: u64)
    ensures
        seed_byte(seed, 0) + 0x100 * seed_byte(seed, 1) + 0x1_0000 * seed_byte(seed, 2) + 0x100_0000
            * seed_byte(seed, 3) + 0x1_0000_0000 * seed_byte(seed, 4) + 0x100_0000_0000 * seed_byte(
            seed,
            5,
        ) + 0x1_0000_0000_0000 * seed_byte(seed, 6) + 0x100_0000_0000_0000 * seed_byte(seed, 7)
            == seed,
{
    let s = seed as int;
    let (a, b, c, d) = (s / 0x100, s / 0x1_0000, s / 0x100_0000, s / 0x1_0000_0000);
    let (e, f, g) = (s / 0x100_0000_0000, s / 0x1_0000_0000_0000, s / 0x100_0000_0000_0000);
    assert(s == 0x100 * a + s % 0x100);
    assert(b == a / 0x100 && a == 0x100 * b + a % 0x100);
    assert(c == b / 0x100 && b == 0x100 * c + b % 0x100);
    assert(d == c / 0x100 && c == 0x100 * d + c % 0x100);
    assert(e == d / 0x100 && d == 0x100 * e + d % 0x100);
    assert(f == e / 0x100 && e == 0x100 * f + e % 0x100);
    assert(g == f / 0x100 && f == 0x100 * g + f % 0x100);
    assert(g < 0x100);
}

} // verus!
