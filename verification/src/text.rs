//! Numerals: the decimal and hexadecimal spellings used in names, keys and digests.

use vstd::prelude::*;

verus! {

/// The character that stands for the digit `d`, in any base up to sixteen.
pub open spec fn digit_char(d: nat) -> char {
    if d < 10 {
        (48 + d) as char
    } else {
        (87 + d) as char
    }
}

/// The numeral of `n` in `base`, most significant digit first and without leading zeros.
pub open spec fn numeral(n: nat, base: nat) -> Seq<char>
    decreases n,
{
    if base < 2 || n < base {
        seq![digit_char(n)]
    } else {
        proof {
            assert(n / base < n) by (nonlinear_arith)
                requires
                    n >= base,
                    base >= 2,
            ;
        }
        numeral(n / base, base).push(digit_char(n % base))
    }
}

/// `width` copies of the zero digit.
pub open spec fn zeros(width: nat) -> Seq<char> {
    Seq::new(width, |i: int| '0')
}

/// `s` extended on the left with zeros to at least `width` characters.
pub open spec fn zero_padded(s: Seq<char>, width: nat) -> Seq<char> {
    if s.len() < width {
        zeros((width - s.len()) as nat) + s
    } else {
        s
    }
}

/// The decimal numeral of `n`.
pub open spec fn decimal_of(n: nat) -> Seq<char> {
    numeral(n, 10)
}

/// The lower-case hexadecimal numeral of `n`, zero-padded to `width` characters.
pub open spec fn hex_of(n: nat, width: nat) -> Seq<char> {
    zero_padded(numeral(n, 16), width)
}

/// `String::push` appends one character to the end of the string.
pub assume_specification[ String::push ](s: &mut String, c: char)
    ensures
        final(s)@ == old(s)@.push(c),
;

/// The character of one digit.
pub fn digit(d: u8) -> (c: char)
    requires
        d < 16,
    ensures
        c == digit_char(d as nat),
{
    if d < 10 {
        (48u8 + d) as char
    } else {
        (87u8 + d) as char
    }
}

/// Appends the numeral of `n` in `base` to `out`.
fn push_numeral(out: &mut String, n: u64, base: u64)
    requires
        2 <= base <= 16,
    ensures
        final(out)@ == old(out)@ + numeral(n as nat, base as nat),
    decreases n,
{
    if n < base {
        out.push(digit(n as u8));
        assert(out@ =~= old(out)@ + seq![digit_char(n as nat)]);
    } else {
        proof {
            assert(n / base < n) by (nonlinear_arith)
                requires
                    n >= base,
                    base >= 2,
            ;
            assert(n % base < base) by (nonlinear_arith)
                requires
                    base >= 2,
            ;
        }
        push_numeral(out, n / base, base);
        let ghost mid = out@;
        out.push(digit((n % base) as u8));
        assert(out@ =~= old(out)@ + numeral((n / base) as nat, base as nat).push(
            digit_char((n % base) as nat),
        ));
    }
}

/// The decimal spelling of `n`.
pub fn decimal(n: u64) -> (out: String)
    ensures
        out@ == decimal_of(n as nat),
{
    let mut out = String::new();
    push_numeral(&mut out, n, 10);
    assert(out@ =~= decimal_of(n as nat));
    out
}

/// `body` extended on the left with zeros to at least `width` characters.
fn pad(body: &String, width: usize) -> (out: String)
    ensures
        out@ == zero_padded(body@, width as nat),
{
    let len = body.as_str().unicode_len();
    let mut out = String::new();
    let mut fill: usize = len;
    while fill < width
        invariant
            len <= fill,
            len <= width ==> fill <= width,
            len > width ==> fill == len,
            out@ =~= zeros((fill - len) as nat),
        decreases width - fill,
    {
        out.push('0');
        fill = fill + 1;
    }
    out.append(body.as_str());
    assert(out@ =~= zero_padded(body@, width as nat));
    out
}

/// The lower-case hexadecimal spelling of `n`, zero-padded to `width` characters.
pub fn hex(n: u64, width: usize) -> (out: String)
    ensures
        out@ == hex_of(n as nat, width as nat),
{
    let mut body = String::new();
    push_numeral(&mut body, n, 16);
    assert(body@ =~= numeral(n as nat, 16));
    pad(&body, width)
}

/// The decimal spelling of `n`, zero-padded to `width` characters.
pub fn decimal_padded(n: u64, width: usize) -> (out: String)
    ensures
        out@ == zero_padded(decimal_of(n as nat), width as nat),
{
    pad(&decimal(n), width)
}

/// Different numbers have different decimal spellings.
pub proof fn decimals_differ(a: nat, b: nat)
    requires
        decimal_of(a) == decimal_of(b),
    ensures
        a == b,
    decreases a,
{
    let (x, y) = (decimal_of(a), decimal_of(b));
    lemma_numeral_len(a);
    lemma_numeral_len(b);
    if a < 10 && b < 10 {
        assert(x[0] == digit_char(a));
        assert(y[0] == digit_char(b));
    } else if a >= 10 && b >= 10 {
        assert(x.last() == digit_char(a % 10));
        assert(y.last() == digit_char(b % 10));
        assert(x.drop_last() =~= decimal_of(a / 10));
        assert(y.drop_last() =~= decimal_of(b / 10));
        decimals_differ(a / 10, b / 10);
    } else if a < 10 {
        lemma_numeral_len(b / 10);
        assert(x.len() == 1);
        assert(y.len() == decimal_of(b / 10).len() + 1);
    } else {
        lemma_numeral_len(a / 10);
        assert(y.len() == 1);
        assert(x.len() == decimal_of(a / 10).len() + 1);
    }
}

proof fn lemma_numeral_len(n: nat)
    ensures
        decimal_of(n).len() >= 1,
{
}

/// The value of a digit, in any base up to sixteen.
pub open spec fn digit_value(c: char) -> int {
    if '0' <= c <= '9' {
        c as int - '0' as int
    } else {
        10 + c as int - 'a' as int
    }
}

/// The number that a numeral stands for, read from the left.
pub open spec fn value_of(s: Seq<char>, base: int) -> int
    decreases s.len(),
{
    if s.len() == 0 {
        0
    } else {
        value_of(s.drop_last(), base) * base + digit_value(s.last())
    }
}

/// Whether a text is made of digits of this base alone.
pub open spec fn all_digits(s: Seq<char>, base: int) -> bool {
    forall|i: int|
        0 <= i < s.len() ==> ('0' <= (#[trigger] s[i]) <= '9' || 'a' <= s[i] <= 'f') && 0
            <= digit_value(s[i]) < base
}

/// A numeral stands for its number: it is made of digits, has that value when it is read back, and
/// begins with a zero only if it is zero.
pub proof fn numerals_stand_for_their_number(n: nat, base: nat)
    requires
        2 <= base <= 16,
    ensures
        numeral(n, base).len() > 0,
        all_digits(numeral(n, base), base as int),
        value_of(numeral(n, base), base as int) == n,
        numeral(n, base)[0] == '0' ==> n == 0,
    decreases n,
{
    let s = numeral(n, base);
    if n < base {
        assert(s.drop_last() =~= Seq::empty());
        assert(value_of(s.drop_last(), base as int) == 0);
        assert(0 * base == 0);
        assert(s.last() == digit_char(n));
        assert(digit_value(digit_char(n)) == n);
    } else {
        let (q, r) = (n / base, n % base);
        assert(q < n && q > 0 && r < base && n == q * base + r) by (nonlinear_arith)
            requires
                n >= base,
                base >= 2,
                q == n / base,
                r == n % base,
        ;
        numerals_stand_for_their_number(q, base);
        assert(s.drop_last() =~= numeral(q, base));
        assert(digit_value(digit_char(r)) == r);
        assert(s[0] == numeral(q, base)[0]);
        assert forall|i: int| 0 <= i < s.len() implies ('0' <= (#[trigger] s[i]) <= '9' || 'a' <= s[i]
            <= 'f') && 0 <= digit_value(s[i]) < base by {
            if i < s.len() - 1 {
                assert(s[i] == numeral(q, base)[i]);
            }
        }
    }
}

/// Padding with zeros changes neither the value nor what stands behind the zeros: the text has at least
/// the width, and exactly that where it was shorter.
pub proof fn padding_keeps_the_number(s: Seq<char>, width: nat, base: int)
    requires
        2 <= base <= 16,
        all_digits(s, base),
    ensures
        value_of(zero_padded(s, width), base) == value_of(s, base),
        all_digits(zero_padded(s, width), base),
        zero_padded(s, width).len() == if s.len() < width {
            width
        } else {
            s.len()
        },
        forall|i: int|
            0 <= i < s.len() ==> zero_padded(s, width)[zero_padded(s, width).len() - s.len() + i]
                == #[trigger] s[i],
    decreases s.len(),
{
    if s.len() < width {
        let fill = zeros((width - s.len()) as nat);
        lemma_value_behind_zeros((width - s.len()) as nat, s, base);
    }
}

proof fn lemma_value_behind_zeros(count: nat, s: Seq<char>, base: int)
    ensures
        value_of(zeros(count) + s, base) == value_of(s, base),
    decreases s.len(), count,
{
    let all = zeros(count) + s;
    if s.len() == 0 {
        assert(all =~= zeros(count));
        if count > 0 {
            lemma_value_behind_zeros((count - 1) as nat, s, base);
            assert(zeros((count - 1) as nat) + s =~= all.drop_last());
            assert(0 * base == 0);
        } else {
            assert(all =~= s);
        }
    } else {
        assert(all.drop_last() =~= zeros(count) + s.drop_last());
        lemma_value_behind_zeros(count, s.drop_last(), base);
    }
}

} // verus!
