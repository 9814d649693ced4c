//! SHA-256 digests and their hexadecimal spelling.

use vstd::prelude::*;

use crate::text::{digit, digit_char, hex_of, numeral};

verus! {

/// The SHA-256 digest of `data`.
pub uninterp spec fn sha256_of(data: Seq<u8>) -> Seq<u8>;

/// The two lower-case hexadecimal characters of every byte, in order.
pub open spec fn hex_bytes(bytes: Seq<u8>) -> Seq<char>
    decreases bytes.len(),
{
    if bytes.len() == 0 {
        Seq::empty()
    } else {
        hex_bytes(bytes.drop_last()) + hex_of(bytes.last() as nat, 2)
    }
}

/// Wraps `sha2::Sha256::digest`. The contract claims that the digest depends on the bytes alone
/// and that it is 32 bytes long; which bytes they are is left to the name [`sha256_of`].
#[verifier::external_body]
pub(crate) fn sha256(data: &[u8]) -> (out: Vec<u8>)
    ensures
        out@ == sha256_of(data@),
        out@.len() == 32,
{
    <sha2::Sha256 as sha2::Digest>::digest(data).to_vec()
}

/// Two hexadecimal characters spell one byte.
proof fn lemma_hex_byte(b: u8)
    ensures
        hex_of(b as nat, 2) =~= seq![
            digit_char((b / 16) as nat),
            digit_char((b % 16) as nat),
        ],
{
    reveal_with_fuel(numeral, 3);
    if b >= 16 {
        assert((b as nat) / 16 < 16);
        assert(numeral((b as nat) / 16, 16) =~= seq![digit_char((b / 16) as nat)]);
    } else {
        assert(digit_char(0) == '0');
    }
}

/// The hexadecimal spelling of `bytes`.
pub fn hex_string(bytes: &[u8]) -> (out: String)
    ensures
        out@ == hex_bytes(bytes@),
{
    let mut out = String::new();
    let mut i: usize = 0;
    while i < bytes.len()
        invariant
            i <= bytes@.len(),
            out@ == hex_bytes(bytes@.take(i as int)),
        decreases bytes@.len() - i,
    {
        let b: u8 = bytes[i];
        let ghost before = out@;
        out.push(digit(b / 16));
        out.push(digit(b % 16));
        proof {
            lemma_hex_byte(b);
            assert(bytes@.take(i + 1).drop_last() =~= bytes@.take(i as int));
            assert(out@ =~= before + hex_of(b as nat, 2));
        }
        i = i + 1;
    }
    assert(bytes@.take(i as int) =~= bytes@);
    out
}

/// The hexadecimal spelling has two characters for each byte.
pub proof fn lemma_hex_bytes_len(bytes: Seq<u8>)
    ensures
        hex_bytes(bytes).len() == 2 * bytes.len(),
    decreases bytes.len(),
{
    if bytes.len() > 0 {
        lemma_hex_bytes_len(bytes.drop_last());
        lemma_hex_byte(bytes.last());
    }
}

/// Different bytes have different hexadecimal spellings.
pub proof fn spellings_differ(a: Seq<u8>, b: Seq<u8>)
    requires
        hex_bytes(a) == hex_bytes(b),
    ensures
        a == b,
    decreases a.len(),
{
    lemma_hex_bytes_len(a);
    lemma_hex_bytes_len(b);
    if a.len() > 0 {
        let (x, y) = (hex_bytes(a), hex_bytes(b));
        let n = x.len() as int;
        lemma_hex_byte(a.last());
        lemma_hex_byte(b.last());
        lemma_hex_bytes_len(a.drop_last());
        lemma_hex_bytes_len(b.drop_last());
        assert(x[n - 2] == digit_char((a.last() / 16) as nat));
        assert(x[n - 1] == digit_char((a.last() % 16) as nat));
        assert(y[n - 2] == digit_char((b.last() / 16) as nat));
        assert(y[n - 1] == digit_char((b.last() % 16) as nat));
        assert(a.last() == b.last());
        assert(x.take(n - 2) =~= hex_bytes(a.drop_last()));
        assert(y.take(n - 2) =~= hex_bytes(b.drop_last()));
        spellings_differ(a.drop_last(), b.drop_last());
        assert(a =~= a.drop_last().push(a.last()));
        assert(b =~= b.drop_last().push(b.last()));
    } else {
        assert(a =~= b);
    }
}

} // verus!
