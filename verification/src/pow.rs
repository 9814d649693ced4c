//! Hashcash proof of work for minting identities.
//!
//! Minting must be costly, so that churning to a fresh identity is not free, while checking a
//! mint is a single hash.

use vstd::arithmetic::power2::pow2;
use vstd::prelude::*;
use vstd::std_specs::bits::u8_leading_zeros;
use vstd::utf8::encode_utf8;

use crate::digest::{sha256, sha256_of};
use crate::text::{all_digits, decimal, decimal_of, numerals_stand_for_their_number, value_of};

verus! {

/// The number of zero bits in front of the first one bit of `digest`, most significant byte
/// and bit first.
pub open spec fn zero_bits(digest: Seq<u8>) -> nat
    decreases digest.len(),
{
    if digest.len() == 0 {
        0
    } else if digest[0] == 0 {
        8 + zero_bits(digest.drop_first())
    } else {
        u8_leading_zeros(digest[0]) as nat
    }
}

/// The number that `digest` spells in big-endian order.
pub open spec fn big_endian(digest: Seq<u8>) -> nat
    decreases digest.len(),
{
    if digest.len() == 0 {
        0
    } else {
        256 * big_endian(digest.drop_last()) + digest.last() as nat
    }
}

/// The digest of `identity:nonce`.
pub open spec fn pow_digest(identity: Seq<char>, nonce: u64) -> Seq<u8> {
    sha256_of(encode_utf8(identity + seq![':'] + decimal_of(nonce as nat)))
}

/// Whether `nonce` mints `identity` at `difficulty`.
pub open spec fn pow_holds(identity: Seq<char>, nonce: u64, difficulty: u32) -> bool {
    zero_bits(pow_digest(identity, nonce)) >= difficulty
}

/// Whether some nonce mints `identity` at `difficulty`.
pub open spec fn mintable(identity: Seq<char>, difficulty: u32) -> bool {
    exists|nonce: u64| #[trigger] pow_holds(identity, nonce, difficulty)
}

/// Whether `nonce` is the smallest one that mints `identity` at `difficulty`.
pub open spec fn is_first_pow(identity: Seq<char>, nonce: u64, difficulty: u32) -> bool {
    &&& pow_holds(identity, nonce, difficulty)
    &&& forall|earlier: u64| earlier < nonce ==> !#[trigger] pow_holds(identity, earlier, difficulty)
}

/// Leading zero bits of a big-endian byte digest.
pub fn leading_zero_bits(digest: &[u8]) -> (count: u32)
    requires
        zero_bits(digest@) <= u32::MAX,
    ensures
        count == zero_bits(digest@),
{
    let mut count: u32 = 0;
    let mut i: usize = 0;
    assert(digest@.skip(0) =~= digest@);
    while i < digest.len()
        invariant
            i <= digest@.len(),
            zero_bits(digest@) <= u32::MAX,
            zero_bits(digest@) == count + zero_bits(digest@.skip(i as int)),
        decreases digest@.len() - i,
    {
        let byte: u8 = digest[i];
        let ghost rest = digest@.skip(i as int);
        assert(rest.drop_first() =~= digest@.skip(i + 1));
        if byte == 0 {
            count = count + 8;
        } else {
            return count + byte.leading_zeros();
        }
        i = i + 1;
    }
    count
}

proof fn lemma_zero_bits_bound(digest: Seq<u8>)
    ensures
        zero_bits(digest) <= 8 * digest.len(),
    decreases digest.len(),
{
    if digest.len() > 0 {
        vstd::std_specs::bits::axiom_u8_leading_zeros(digest[0]);
        lemma_zero_bits_bound(digest.drop_first());
    }
}

/// True iff the digest of `identity:nonce` has at least `difficulty` leading zero bits.
pub fn verify_pow(identity: &str, nonce: u64, difficulty: u32) -> (ok: bool)
    ensures
        ok == pow_holds(identity@, nonce, difficulty),
{
    let mut message = identity.to_owned();
    message.push(':');
    message.append(decimal(nonce).as_str());
    assert(message@ =~= identity@ + seq![':'] + decimal_of(nonce as nat));
    let digest = sha256(message.as_str().as_bytes());
    proof {
        lemma_zero_bits_bound(digest@);
    }
    leading_zero_bits(digest.as_slice()) >= difficulty
}

/// The smallest nonce that satisfies [`verify_pow`]. Costly to find, cheap to verify.
pub fn proof_of_work(identity: &str, difficulty: u32) -> (nonce: u64)
    requires
        mintable(identity@, difficulty),
    ensures
        is_first_pow(identity@, nonce, difficulty),
{
    let ghost witness = choose|n: u64| #[trigger] pow_holds(identity@, n, difficulty);
    let mut nonce: u64 = 0;
    while !verify_pow(identity, nonce, difficulty)
        invariant
            pow_holds(identity@, witness, difficulty),
            nonce <= witness,
            forall|earlier: u64|
                earlier < nonce ==> !#[trigger] pow_holds(identity@, earlier, difficulty),
        decreases witness - nonce,
    {
        nonce = nonce + 1;
    }
    nonce
}

proof fn lemma_byte_leading_zeros(b: u8, k: nat)
    requires
        b != 0,
        k <= 8,
    ensures
        u8_leading_zeros(b) < 8,
        u8_leading_zeros(b) >= k <==> b < pow2((8 - k) as nat),
{
    vstd::std_specs::bits::axiom_u8_leading_zeros(b);
    vstd::arithmetic::power2::lemma2_to64();
    let z = u8_leading_zeros(b) as u8;
    assert(z == 0 || z == 1 || z == 2 || z == 3 || z == 4 || z == 5 || z == 6 || z == 7);
    assert({
        &&& (b >> 7u8) & 1u8 != 0u8 ==> b >= 128
        &&& (b >> 6u8) & 1u8 != 0u8 ==> b >= 64
        &&& (b >> 5u8) & 1u8 != 0u8 ==> b >= 32
        &&& (b >> 4u8) & 1u8 != 0u8 ==> b >= 16
        &&& (b >> 3u8) & 1u8 != 0u8 ==> b >= 8
        &&& (b >> 2u8) & 1u8 != 0u8 ==> b >= 4
        &&& (b >> 1u8) & 1u8 != 0u8 ==> b >= 2
        &&& b >> 7u8 == 0 ==> b < 128
        &&& b >> 6u8 == 0 ==> b < 64
        &&& b >> 5u8 == 0 ==> b < 32
        &&& b >> 4u8 == 0 ==> b < 16
        &&& b >> 3u8 == 0 ==> b < 8
        &&& b >> 2u8 == 0 ==> b < 4
        &&& b >> 1u8 == 0 ==> b < 2
    }) by (bit_vector);
    assert(k == 0 || k == 1 || k == 2 || k == 3 || k == 4 || k == 5 || k == 6 || k == 7 || k == 8);
}

proof fn lemma_big_endian_front(digest: Seq<u8>)
    requires
        digest.len() > 0,
    ensures
        big_endian(digest) == digest[0] * pow2((8 * (digest.len() - 1)) as nat) + big_endian(
            digest.drop_first(),
        ),
        big_endian(digest) < pow2((8 * digest.len()) as nat),
    decreases digest.len(),
{
    vstd::arithmetic::power2::lemma2_to64();
    let n = digest.len();
    if n == 1 {
        assert(digest.drop_last() =~= Seq::<u8>::empty());
        assert(digest.drop_first() =~= Seq::<u8>::empty());
        assert(big_endian(digest.drop_last()) == 0);
    } else {
        let init = digest.drop_last();
        lemma_big_endian_front(init);
        assert(digest.drop_first().drop_last() =~= init.drop_first());
        assert(digest.drop_first().last() == digest.last());
        vstd::arithmetic::power2::lemma_pow2_adds((8 * (n - 2)) as nat, 8);
        vstd::arithmetic::power2::lemma_pow2_adds((8 * (n - 1)) as nat, 8);
        let p = pow2((8 * (n - 2)) as nat) as int;
        let q = pow2((8 * (n - 1)) as nat) as int;
        let a = digest[0] as int;
        assert(q == p * 256);
        assert(256 * (a * p) == a * q) by (nonlinear_arith)
            requires
                q == p * 256,
        ;
        assert(big_endian(init) == a * p + big_endian(init.drop_first()));
        assert(big_endian(digest) == 256 * big_endian(init) + digest.last());
        assert(256 * (a * p + big_endian(init.drop_first())) == 256 * (a * p) + 256 * big_endian(
            init.drop_first(),
        ));
    }
}

/// A digest has at least `difficulty` leading zero bits exactly when the number that it spells
/// is below two to the power of its length in bits less `difficulty`: the hashcash target.
pub proof fn leading_zero_bits_bound_the_digest(digest: Seq<u8>, difficulty: nat)
    requires
        difficulty <= 8 * digest.len(),
    ensures
        zero_bits(digest) >= difficulty <==> big_endian(digest) < pow2(
            (8 * digest.len() - difficulty) as nat,
        ),
    decreases digest.len(),
{
    vstd::arithmetic::power2::lemma2_to64();
    let n = digest.len();
    if n == 0 {
    } else {
        lemma_big_endian_front(digest);
        let rest = digest.drop_first();
        let unit = pow2((8 * (n - 1)) as nat) as int;
        vstd::arithmetic::power2::lemma_pow2_pos((8 * (n - 1)) as nat);
        if rest.len() > 0 {
            lemma_big_endian_front(rest);
        }
        assert(big_endian(rest) < unit);
        if digest[0] == 0 {
            assert(big_endian(digest) == big_endian(rest)) by {
                assert(0 * unit == 0);
            }
            if difficulty >= 8 {
                leading_zero_bits_bound_the_digest(rest, (difficulty - 8) as nat);
            } else {
                vstd::arithmetic::power2::lemma_pow2_adds((8 * (n - 1)) as nat, (8 - difficulty) as nat);
                let k = pow2((8 - difficulty) as nat) as int;
                vstd::arithmetic::power2::lemma_pow2_pos((8 - difficulty) as nat);
                assert(unit * k >= unit) by (nonlinear_arith)
                    requires
                        k >= 1,
                        unit > 0,
                ;
            }
        } else {
            let b = digest[0] as int;
            if difficulty <= 8 {
                lemma_byte_leading_zeros(digest[0], difficulty);
                vstd::arithmetic::power2::lemma_pow2_adds((8 * (n - 1)) as nat, (8 - difficulty) as nat);
                let k = pow2((8 - difficulty) as nat) as int;
                if b < k {
                    assert(b * unit + unit <= unit * k) by (nonlinear_arith)
                        requires
                            b + 1 <= k,
                            unit > 0,
                    ;
                } else {
                    assert(b * unit >= unit * k) by (nonlinear_arith)
                        requires
                            b >= k,
                            unit > 0,
                    ;
                }
            } else {
                lemma_byte_leading_zeros(digest[0], 8);
                if 8 * n - difficulty < 8 * (n - 1) {
                    vstd::arithmetic::power2::lemma_pow2_strictly_increases(
                        (8 * n - difficulty) as nat,
                        (8 * (n - 1)) as nat,
                    );
                }
                assert(b * unit >= unit) by (nonlinear_arith)
                    requires
                        b >= 1,
                        unit > 0,
                ;
            }
        }
    }
}

/// A nonce that meets a target meets every easier one, so the first nonce for an easier target
/// comes no later: minting never gets cheaper as the difficulty grows.
pub proof fn harder_mints_cost_no_less(
    identity: Seq<char>,
    easy: u32,
    hard: u32,
    easy_nonce: u64,
    hard_nonce: u64,
)
    requires
        easy <= hard,
        is_first_pow(identity, easy_nonce, easy),
        is_first_pow(identity, hard_nonce, hard),
    ensures
        pow_holds(identity, hard_nonce, easy),
        easy_nonce <= hard_nonce,
{
    assert(pow_holds(identity, hard_nonce, easy));
}

/// What mints an identity: the digest of the identity, a colon and the nonce in decimal.
pub proof fn minted_messages_hold_identity_and_nonce(identity: Seq<char>, nonce: u64)
    ensures
        exists|digits: Seq<char>|
            all_digits(digits, 10) && value_of(digits, 10) == nonce && pow_digest(identity, nonce)
                == #[trigger] sha256_of(encode_utf8(identity + seq![':'] + digits)),
{
    numerals_stand_for_their_number(nonce as nat, 10);
    let digits = decimal_of(nonce as nat);
    assert(pow_digest(identity, nonce) == sha256_of(encode_utf8(identity + seq![':'] + digits)));
}

/// The nonce that is found: it mints the identity, no smaller one does, and it is the only such nonce.
pub proof fn the_smallest_nonce_is_found(identity: Seq<char>, difficulty: u32, nonce: u64, other: u64)
    requires
        is_first_pow(identity, nonce, difficulty),
        zero_bits(pow_digest(identity, other)) >= difficulty,
    ensures
        zero_bits(pow_digest(identity, nonce)) >= difficulty,
        nonce <= other,
        is_first_pow(identity, other, difficulty) ==> other == nonce,
{
    assert(pow_holds(identity, other, difficulty));
    assert(pow_holds(identity, nonce, difficulty));
}

} // verus!
